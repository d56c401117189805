//! The engine as plain values, and what a search and a training step make
//! of it.

use crate::cluster::ClusterView;
use crate::keyed::{distinct_keys, has_key, lemma_position, position};
use crate::similarity::{beats, distance, merged, Threshold};
use crate::store::{
    lemma_stored, lemma_touched_entries, lemma_touched_lookup, lookup, stored, touched,
};
use crate::tree::{
    bounded, empty_node, every_id, inserted, leaf_ids, lemma_every_id_implied,
    lemma_inserted_bounded, lemma_inserted_every_id, lemma_inserted_shallow,
    lemma_leaf_ids_every_id, shallow, NodeView,
};
use vstd::prelude::*;

verus! {

/// The state of an engine.
pub struct DrainView {
    /// The stored clusters by identifier, from the most recently used to
    /// the least recently used.
    pub entries: Seq<(usize, ClusterView)>,
    /// The number of clusters that the store holds at most.
    pub limit: nat,
    /// The identifier given out last.
    pub counter: usize,
    /// The tree below its root: for each number of tokens, the node under
    /// which the clusters of lines of that length are entered.
    pub buckets: Map<usize, NodeView>,
    pub max_node_depth: usize,
    pub sim_th: Threshold,
    pub max_children: usize,
    pub max_clusters: Option<usize>,
    pub param: Seq<char>,
}

/// The limit of a store made for at most `max_clusters` clusters, or for
/// any number of them.
pub open spec fn limit_of(max_clusters: Option<usize>) -> nat {
    match max_clusters {
        Some(n) => n as nat,
        None => usize::MAX as nat,
    }
}

/// What holds of an identifier that stands below the node for lines of
/// `n` tokens: the counter has reached it, and the cluster stored under
/// it, if the store still holds one, has a template of `n` tokens.
pub open spec fn placed(entries: Seq<(usize, ClusterView)>, counter: usize, n: usize) -> spec_fn(
    usize,
) -> bool {
    |id: usize|
        id <= counter && (lookup(entries, id) matches Some(cluster) ==> cluster.template.len()
            == n)
}

/// What holds of an engine in every state. The settings are in range. The
/// store is within its limit and holds each cluster once, under its own
/// identifier, which the counter has reached. Below the root, no node has
/// more than `max_children` children, no path descends more than
/// `max_node_depth - 1` levels below the node of a token count, and every
/// identifier is `placed`.
pub open spec fn valid(state: DrainView) -> bool {
    &&& state.max_node_depth >= 1
    &&& state.max_children >= 1
    &&& state.param.len() > 0
    &&& state.sim_th.valid()
    &&& state.limit >= 1
    &&& state.limit == limit_of(state.max_clusters)
    &&& state.entries.len() <= state.limit
    &&& distinct_keys(state.entries)
    &&& forall|i: int|
        0 <= i < state.entries.len() ==> (#[trigger] state.entries[i]).0 == state.entries[i].1.id
            && state.entries[i].0 <= state.counter
    &&& forall|n: usize| #[trigger]
        state.buckets.contains_key(n) ==> bounded(
            state.buckets[n],
            state.max_children as nat,
            state.param,
        ) && shallow(state.buckets[n], (state.max_node_depth - 1) as nat) && every_id(
            state.buckets[n],
            placed(state.entries, state.counter, n),
        )
}

/// Whether the counters leave room for one more line: neither the next
/// identifier nor the next size is beyond the largest `usize`.
pub open spec fn has_room(state: DrainView) -> bool {
    &&& state.counter < usize::MAX
    &&& forall|i: int|
        0 <= i < state.entries.len() ==> (#[trigger] state.entries[i]).1.size < usize::MAX
}

/// The state of an engine that has seen no line.
pub open spec fn initial(
    max_clusters: Option<usize>,
    max_node_depth: usize,
    sim_th: Threshold,
    max_children: usize,
    param: Seq<char>,
) -> DrainView {
    DrainView {
        entries: Seq::empty(),
        limit: limit_of(max_clusters),
        counter: 0,
        buckets: Map::empty(),
        max_node_depth,
        sim_th,
        max_children,
        max_clusters,
        param,
    }
}

/// The entries after each of `ids` has been read in turn.
pub open spec fn touched_all(entries: Seq<(usize, ClusterView)>, ids: Seq<usize>) -> Seq<
    (usize, ClusterView),
>
    decreases ids.len(),
{
    if ids.len() == 0 {
        entries
    } else {
        touched(touched_all(entries, ids.drop_last()), ids.last())
    }
}

/// The score of a cluster against a line.
pub open spec fn score(
    cluster: ClusterView,
    tokens: Seq<Seq<char>>,
    param: Seq<char>,
    include_params: bool,
) -> (nat, nat) {
    distance(tokens, cluster.template, param, include_params)
}

/// The best candidate among the clusters that the store holds under
/// `ids`: the one whose score against `tokens` no other beats, and the
/// earliest in `ids` of those.
pub open spec fn best(
    ids: Seq<usize>,
    entries: Seq<(usize, ClusterView)>,
    tokens: Seq<Seq<char>>,
    param: Seq<char>,
    include_params: bool,
) -> Option<ClusterView>
    decreases ids.len(),
{
    if ids.len() == 0 {
        None
    } else {
        let before = best(ids.drop_last(), entries, tokens, param, include_params);
        match (lookup(entries, ids.last()), before) {
            (None, _) => before,
            (Some(cluster), None) => Some(cluster),
            (Some(cluster), Some(leader)) => if beats(
                score(cluster, tokens, param, include_params),
                score(leader, tokens, param, include_params),
            ) {
                Some(cluster)
            } else {
                before
            },
        }
    }
}

/// The cluster that matches `tokens` among those under `ids`: the best
/// candidate, if its similarity reaches the threshold.
pub open spec fn fast_matched(
    ids: Seq<usize>,
    entries: Seq<(usize, ClusterView)>,
    tokens: Seq<Seq<char>>,
    param: Seq<char>,
    sim_th: Threshold,
    include_params: bool,
) -> Option<ClusterView> {
    match best(ids, entries, tokens, param, include_params) {
        Some(cluster) => if sim_th.met_by(
            score(cluster, tokens, param, include_params).0,
            tokens.len(),
        ) {
            Some(cluster)
        } else {
            None
        },
        None => None,
    }
}

/// The identifiers that a search for `tokens` looks up in the store, in
/// that order: for a line without tokens the first identifier of its
/// node, otherwise those of the leaf that the search reaches.
pub open spec fn candidates(state: DrainView, tokens: Seq<Seq<char>>) -> Seq<usize> {
    let n = tokens.len() as usize;
    if !state.buckets.contains_key(n) {
        Seq::empty()
    } else if n == 0 {
        if state.buckets[n].ids.len() == 0 {
            Seq::empty()
        } else {
            seq![state.buckets[n].ids[0]]
        }
    } else {
        match leaf_ids(
            state.buckets[n],
            tokens,
            1,
            state.max_node_depth as nat,
            state.param,
        ) {
            Some(ids) => ids,
            None => Seq::empty(),
        }
    }
}

/// The cluster that a search for `tokens` finds, if any. A line without
/// tokens matches the first cluster of its node if the store still holds
/// it; any other line matches as `fast_matched` says.
pub open spec fn search_result(
    state: DrainView,
    tokens: Seq<Seq<char>>,
    sim_th: Threshold,
    include_params: bool,
) -> Option<ClusterView> {
    let ids = candidates(state, tokens);
    if tokens.len() == 0 {
        if ids.len() == 0 {
            None
        } else {
            lookup(state.entries, ids[0])
        }
    } else {
        fast_matched(ids, state.entries, tokens, state.param, sim_th, include_params)
    }
}

/// The state after a search for `tokens`: every candidate that was
/// looked up has become the most recently used in its turn.
pub open spec fn searched(state: DrainView, tokens: Seq<Seq<char>>) -> DrainView {
    DrainView { entries: touched_all(state.entries, candidates(state, tokens)), ..state }
}

/// The node for lines of `n` tokens, or an empty one where there is none
/// yet.
pub open spec fn bucket(state: DrainView, n: usize) -> NodeView {
    if state.buckets.contains_key(n) {
        state.buckets[n]
    } else {
        empty_node()
    }
}

/// The state after the cluster `id`, whose template is `tokens`, has been
/// entered into the tree.
pub open spec fn planted(state: DrainView, tokens: Seq<Seq<char>>, id: usize) -> DrainView {
    let n = tokens.len() as usize;
    let node = bucket(state, n);
    let grown = if n == 0 {
        NodeView { children: node.children, ids: node.ids.push(id) }
    } else {
        inserted(
            node,
            tokens,
            1,
            id,
            state.max_node_depth as nat,
            state.max_children as nat,
            state.param,
            state.entries,
        )
    };
    DrainView { buckets: state.buckets.insert(n, grown), ..state }
}

/// The cluster that a line of `tokens` joins or founds: the cluster found
/// by the search, with its template merged with the line and its size
/// raised by one, or else a new cluster of size 1 under the next
/// identifier, with the line as its template.
pub open spec fn trained_cluster(state: DrainView, tokens: Seq<Seq<char>>) -> ClusterView {
    match search_result(state, tokens, state.sim_th, false) {
        Some(found) => ClusterView {
            template: merged(tokens, found.template, state.param),
            id: found.id,
            size: (found.size + 1) as usize,
        },
        None => ClusterView { template: tokens, id: (state.counter + 1) as usize, size: 1 },
    }
}

/// The state after the search for a line of `tokens` and the write that
/// follows it: the cluster of `trained_cluster` stands in the store, and
/// the counter has moved on if the cluster is new.
pub open spec fn written(state: DrainView, tokens: Seq<Seq<char>>) -> DrainView {
    let cluster = trained_cluster(state, tokens);
    let after = searched(state, tokens);
    DrainView {
        entries: stored(after.entries, after.limit, cluster.id, cluster),
        counter: if search_result(state, tokens, state.sim_th, false) is Some {
            state.counter
        } else {
            cluster.id
        },
        ..after
    }
}

/// The state after training on a line of `tokens`: the state that
/// `written` describes, in which a new cluster is then entered into the
/// tree as well.
pub open spec fn trained(state: DrainView, tokens: Seq<Seq<char>>) -> DrainView {
    match search_result(state, tokens, state.sim_th, false) {
        Some(_) => written(state, tokens),
        None => planted(written(state, tokens), tokens, trained_cluster(state, tokens).id),
    }
}

/// Reads move entries and change none: after any number of them the
/// store holds the same clusters under the same identifiers, as many as
/// before, and no identifier twice.
pub proof fn lemma_touched_all(entries: Seq<(usize, ClusterView)>, ids: Seq<usize>)
    ensures
        touched_all(entries, ids).len() == entries.len(),
        distinct_keys(entries) ==> distinct_keys(touched_all(entries, ids)),
        forall|j: int|
            0 <= j < entries.len() ==> entries.contains(#[trigger] touched_all(entries, ids)[j]),
        forall|other: usize| #[trigger]
            lookup(touched_all(entries, ids), other) == lookup(entries, other),
        forall|other: usize| #[trigger]
            has_key(touched_all(entries, ids), other) == has_key(entries, other),
    decreases ids.len(),
{
    if ids.len() > 0 {
        let before = touched_all(entries, ids.drop_last());
        lemma_touched_all(entries, ids.drop_last());
        lemma_touched_entries(before, ids.last());
        assert forall|j: int| 0 <= j < entries.len() implies entries.contains(
            #[trigger] touched_all(entries, ids)[j],
        ) by {
            let entry = touched_all(entries, ids)[j];
            assert(before.contains(entry));
            let k = choose|k: int| 0 <= k < before.len() && before[k] == entry;
            assert(entries.contains(before[k]));
        }
        assert forall|other: usize| #[trigger]
            lookup(touched_all(entries, ids), other) == lookup(entries, other) by {
            lemma_touched_lookup(before, ids.last(), other);
        }
        assert forall|other: usize| #[trigger]
            has_key(touched_all(entries, ids), other) == has_key(entries, other) by {
            lemma_touched_lookup(before, ids.last(), other);
        }
    }
}

/// Whether the cluster stored under `ids[k]` leads among the candidates:
/// no stored candidate beats it, and it beats every stored candidate
/// that stands before it.
pub open spec fn leads(
    ids: Seq<usize>,
    k: int,
    entries: Seq<(usize, ClusterView)>,
    tokens: Seq<Seq<char>>,
    param: Seq<char>,
    include_params: bool,
) -> bool {
    &&& 0 <= k < ids.len()
    &&& lookup(entries, ids[k]) is Some
    &&& forall|j: int|
        0 <= j < ids.len() && lookup(entries, #[trigger] ids[j]) is Some ==> !beats(
            score(lookup(entries, ids[j])->0, tokens, param, include_params),
            score(lookup(entries, ids[k])->0, tokens, param, include_params),
        )
    &&& forall|j: int|
        0 <= j < k && lookup(entries, #[trigger] ids[j]) is Some ==> beats(
            score(lookup(entries, ids[k])->0, tokens, param, include_params),
            score(lookup(entries, ids[j])->0, tokens, param, include_params),
        )
}

/// The best candidate is the stored cluster that leads: the one with the
/// highest similarity, of several such the one with the most wildcards,
/// and of several such the earliest. There is none only where the store
/// holds none of the candidates.
pub proof fn lemma_best_leads(
    ids: Seq<usize>,
    entries: Seq<(usize, ClusterView)>,
    tokens: Seq<Seq<char>>,
    param: Seq<char>,
    include_params: bool,
)
    ensures
        match best(ids, entries, tokens, param, include_params) {
            Some(cluster) => exists|k: int|
                leads(ids, k, entries, tokens, param, include_params) && lookup(
                    entries,
                    #[trigger] ids[k],
                ) == Some(cluster),
            None => forall|k: int|
                0 <= k < ids.len() ==> lookup(entries, #[trigger] ids[k]) is None,
        },
    decreases ids.len(),
{
    if ids.len() > 0 {
        let front = ids.drop_last();
        lemma_best_leads(front, entries, tokens, param, include_params);
        let last = ids.len() - 1;
        assert(forall|k: int| 0 <= k < front.len() ==> front[k] == ids[k]);
        match best(ids, entries, tokens, param, include_params) {
            Some(cluster) => {
                let before = best(front, entries, tokens, param, include_params);
                if before == Some(cluster) {
                    let k = choose|k: int|
                        leads(front, k, entries, tokens, param, include_params) && lookup(
                            entries,
                            #[trigger] front[k],
                        ) == Some(cluster);
                    assert(ids[k] == front[k]);
                    assert forall|j: int|
                        0 <= j < ids.len() && lookup(entries, #[trigger] ids[j]) is Some implies
                        !beats(
                        score(lookup(entries, ids[j])->0, tokens, param, include_params),
                        score(cluster, tokens, param, include_params),
                    ) by {
                        if j < last {
                            assert(front[j] == ids[j]);
                        }
                    }
                    assert forall|j: int|
                        0 <= j < k && lookup(entries, #[trigger] ids[j]) is Some implies beats(
                        score(cluster, tokens, param, include_params),
                        score(lookup(entries, ids[j])->0, tokens, param, include_params),
                    ) by {
                        assert(front[j] == ids[j]);
                    }
                    assert(leads(ids, k, entries, tokens, param, include_params));
                } else {
                    assert(lookup(entries, ids[last]) == Some(cluster));
                    assert forall|j: int|
                        0 <= j < last && lookup(entries, #[trigger] ids[j]) is Some implies beats(
                        score(cluster, tokens, param, include_params),
                        score(lookup(entries, ids[j])->0, tokens, param, include_params),
                    ) by {
                        assert(front[j] == ids[j]);
                        let k = choose|k: int|
                            leads(front, k, entries, tokens, param, include_params) && lookup(
                                entries,
                                #[trigger] front[k],
                            ) == before;
                        assert(lookup(entries, front[j]) is Some);
                    }
                    assert(leads(ids, last, entries, tokens, param, include_params));
                }
            },
            None => {
                assert forall|k: int| 0 <= k < ids.len() implies lookup(
                    entries,
                    #[trigger] ids[k],
                ) is None by {
                    if k < last {
                        assert(front[k] == ids[k]);
                    }
                }
            },
        }
    }
}

/// Reads keep the engine valid, and keep the room that the counters
/// leave.
pub proof fn lemma_touched_all_valid(state: DrainView, ids: Seq<usize>)
    requires
        valid(state),
    ensures
        valid(DrainView { entries: touched_all(state.entries, ids), ..state }),
        has_room(state) ==> has_room(
            DrainView { entries: touched_all(state.entries, ids), ..state },
        ),
{
    let after = DrainView { entries: touched_all(state.entries, ids), ..state };
    lemma_touched_all(state.entries, ids);
    assert forall|i: int| 0 <= i < after.entries.len() implies (#[trigger] after.entries[i]).0
        == after.entries[i].1.id && after.entries[i].0 <= after.counter && (has_room(state)
        ==> after.entries[i].1.size < usize::MAX) by {
        let entry = after.entries[i];
        assert(state.entries.contains(entry));
        let j = choose|j: int| 0 <= j < state.entries.len() && state.entries[j] == entry;
        assert(state.entries[j].0 == state.entries[j].1.id);
    }
    assert forall|n: usize| #[trigger] after.buckets.contains_key(n) implies every_id(
        after.buckets[n],
        placed(after.entries, after.counter, n),
    ) by {
        lemma_every_id_implied(
            state.buckets[n],
            placed(state.entries, state.counter, n),
            placed(after.entries, after.counter, n),
        );
    }
}

/// A search keeps the engine valid, and keeps the room that the counters
/// leave.
pub proof fn lemma_searched_valid(state: DrainView, tokens: Seq<Seq<char>>)
    requires
        valid(state),
    ensures
        valid(searched(state, tokens)),
        has_room(state) ==> has_room(searched(state, tokens)),
{
    lemma_touched_all_valid(state, candidates(state, tokens));
}

/// What a search finds is a cluster of the store, held under its own
/// identifier before the search and after it.
pub proof fn lemma_search_result_stored(
    state: DrainView,
    tokens: Seq<Seq<char>>,
    sim_th: Threshold,
    include_params: bool,
)
    requires
        valid(state),
    ensures
        search_result(state, tokens, sim_th, include_params) matches Some(found) ==> {
            &&& lookup(state.entries, found.id) == Some(found)
            &&& lookup(searched(state, tokens).entries, found.id) == Some(found)
            &&& found.id <= state.counter
            &&& has_room(state) ==> found.size < usize::MAX
            &&& tokens.len() <= usize::MAX ==> found.template.len() == tokens.len()
        },
{
    let ids = candidates(state, tokens);
    let n = tokens.len() as usize;
    lemma_touched_all(state.entries, ids);
    if state.buckets.contains_key(n) {
        lemma_leaf_ids_every_id(
            state.buckets[n],
            tokens,
            1,
            state.max_node_depth as nat,
            state.param,
            placed(state.entries, state.counter, n),
        );
    }
    assert(forall|k: int|
        0 <= k < ids.len() ==> placed(state.entries, state.counter, n)(#[trigger] ids[k]));
    match search_result(state, tokens, sim_th, include_params) {
        Some(found) => {
            let id = if tokens.len() == 0 {
                ids[0]
            } else {
                lemma_best_leads(ids, state.entries, tokens, state.param, include_params);
                let k = choose|k: int|
                    leads(ids, k, state.entries, tokens, state.param, include_params) && lookup(
                        state.entries,
                        #[trigger] ids[k],
                    ) == Some(found);
                ids[k]
            };
            assert(lookup(state.entries, id) == Some(found));
            assert(placed(state.entries, state.counter, n)(id));
            lemma_position(state.entries, id);
            let p = position(state.entries, id);
            assert(state.entries[p].0 == state.entries[p].1.id);
        },
        None => {},
    }
}

/// Entering a cluster into the tree keeps the engine valid, if the
/// cluster stands in the store with the template that it is entered by.
pub proof fn lemma_planted_valid(state: DrainView, tokens: Seq<Seq<char>>, id: usize)
    requires
        valid(state),
        tokens.len() <= usize::MAX,
        id <= state.counter,
        lookup(state.entries, id) matches Some(cluster) ==> cluster.template.len() == tokens.len(),
    ensures
        valid(planted(state, tokens, id)),
{
    let n = tokens.len() as usize;
    let node = bucket(state, n);
    let after = planted(state, tokens, id);
    lemma_position(empty_node().children, state.param);
    let holds = placed(state.entries, state.counter, n);
    assert(bounded(node, state.max_children as nat, state.param));
    assert(shallow(node, (state.max_node_depth - 1) as nat));
    assert(every_id(node, holds));
    assert(holds(id));
    if n != 0 {
        lemma_inserted_every_id(
            node,
            tokens,
            1,
            id,
            state.max_node_depth as nat,
            state.max_children as nat,
            state.param,
            state.entries,
            holds,
        );
        lemma_inserted_bounded(
            node,
            tokens,
            1,
            id,
            state.max_node_depth as nat,
            state.max_children as nat,
            state.param,
            state.entries,
        );
        lemma_inserted_shallow(
            node,
            tokens,
            1,
            id,
            state.max_node_depth as nat,
            state.max_children as nat,
            state.param,
            state.entries,
        );
    }
    assert forall|m: usize| #[trigger] after.buckets.contains_key(m) implies bounded(
        after.buckets[m],
        after.max_children as nat,
        after.param,
    ) && shallow(after.buckets[m], (after.max_node_depth - 1) as nat) && every_id(
        after.buckets[m],
        placed(after.entries, after.counter, m),
    ) by {
        if m != n {
            assert(state.buckets.contains_key(m));
        }
    }
}

/// The write of a training step keeps the engine valid. The cluster
/// that it writes has as many positions as the line has tokens, and
/// stands in the store under an identifier that the counter has reached.
pub proof fn lemma_written_valid(state: DrainView, tokens: Seq<Seq<char>>)
    requires
        valid(state),
        has_room(state),
        tokens.len() <= usize::MAX,
    ensures
        valid(written(state, tokens)),
        trained_cluster(state, tokens).template.len() == tokens.len(),
        trained_cluster(state, tokens).id <= written(state, tokens).counter,
        lookup(written(state, tokens).entries, trained_cluster(state, tokens).id) == Some(
            trained_cluster(state, tokens),
        ),
{
    let cluster = trained_cluster(state, tokens);
    let after = searched(state, tokens);
    let moved = written(state, tokens);
    let entries = moved.entries;
    lemma_searched_valid(state, tokens);
    lemma_search_result_stored(state, tokens, state.sim_th, false);
    lemma_stored(after.entries, after.limit, cluster.id, cluster);
    assert forall|i: int| 0 <= i < entries.len() implies (#[trigger] entries[i]).0
        == entries[i].1.id && entries[i].0 <= moved.counter by {
        if i > 0 {
            assert(after.entries.contains(entries[i]));
            let j = choose|j: int| 0 <= j < after.entries.len() && after.entries[j] == entries[i];
            assert(after.entries[j].0 == after.entries[j].1.id);
        }
    }
    assert forall|n: usize| #[trigger] moved.buckets.contains_key(n) implies every_id(
        moved.buckets[n],
        placed(moved.entries, moved.counter, n),
    ) by {
        let before = placed(after.entries, after.counter, n);
        let now = placed(moved.entries, moved.counter, n);
        assert forall|id: usize| #[trigger] before(id) implies now(id) by {
            if id != cluster.id {
                assert(lookup(entries, id) is None || lookup(entries, id) == lookup(
                    after.entries,
                    id,
                ));
            }
        }
        lemma_every_id_implied(moved.buckets[n], before, now);
    }
}

/// Training keeps the engine valid.
pub proof fn lemma_trained_valid(state: DrainView, tokens: Seq<Seq<char>>)
    requires
        valid(state),
        has_room(state),
        tokens.len() <= usize::MAX,
    ensures
        valid(trained(state, tokens)),
{
    lemma_written_valid(state, tokens);
    if search_result(state, tokens, state.sim_th, false) is None {
        lemma_planted_valid(written(state, tokens), tokens, trained_cluster(state, tokens).id);
    }
}

} // verus!
