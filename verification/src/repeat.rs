//! What becomes of a line that comes a second time.

use crate::cluster::ClusterView;
use crate::keyed::{has_key, lemma_position, position};
use crate::model::{
    best, bucket, candidates, has_room, leads, lemma_best_leads,
    lemma_search_result_stored, lemma_searched_valid, lemma_touched_all, lemma_written_valid,
    placed, score, search_result, searched, trained, trained_cluster, valid, written,
    DrainView,
};
use crate::similarity::{
    beats, common_len, lemma_alike_same, lemma_counts_bounded, lemma_merged_same,
    lemma_merged_score, lemma_merged_twice,
};
use crate::store::{evicted, lemma_stored, lookup};
use crate::tree::{
    landing, lemma_inserted_leaf, lemma_landing_fresh, lemma_landing_searched,
    lemma_leaf_ids_every_id, live, refreshed,
};
use vstd::prelude::*;

verus! {

/// There is one leader: the best candidate is the cluster that leads.
pub proof fn lemma_leader_is_best(
    ids: Seq<usize>,
    k: int,
    entries: Seq<(usize, ClusterView)>,
    tokens: Seq<Seq<char>>,
    param: Seq<char>,
    include_params: bool,
)
    requires
        leads(ids, k, entries, tokens, param, include_params),
    ensures
        best(ids, entries, tokens, param, include_params) == lookup(entries, ids[k]),
{
    lemma_best_leads(ids, entries, tokens, param, include_params);
    let found = best(ids, entries, tokens, param, include_params);
    assert(found is Some);
    let other = choose|other: int|
        leads(ids, other, entries, tokens, param, include_params) && lookup(
            entries,
            #[trigger] ids[other],
        ) == found;
    assert(lookup(entries, ids[k]) is Some);
    assert(lookup(entries, ids[other]) is Some);
    if k < other {
        assert(beats(
            score(lookup(entries, ids[other])->0, tokens, param, include_params),
            score(lookup(entries, ids[k])->0, tokens, param, include_params),
        ));
    } else if other < k {
        assert(beats(
            score(lookup(entries, ids[k])->0, tokens, param, include_params),
            score(lookup(entries, ids[other])->0, tokens, param, include_params),
        ));
    }
}

/// A line that joined a cluster finds that cluster when it comes again.
proof fn lemma_joined_again(state: DrainView, tokens: Seq<Seq<char>>)
    requires
        valid(state),
        has_room(state),
        1 <= tokens.len() <= usize::MAX,
        search_result(state, tokens, state.sim_th, false) is Some,
    ensures
        search_result(trained(state, tokens), tokens, state.sim_th, false) == Some(
            trained_cluster(state, tokens),
        ),
{
    let param = state.param;
    let found = search_result(state, tokens, state.sim_th, false)->0;
    let cluster = trained_cluster(state, tokens);
    let ids = candidates(state, tokens);
    let before = state.entries;
    let read = searched(state, tokens).entries;
    let after = trained(state, tokens).entries;
    lemma_search_result_stored(state, tokens, state.sim_th, false);
    lemma_searched_valid(state, tokens);
    lemma_touched_all(before, ids);
    lemma_stored(read, state.limit, found.id, cluster);
    assert(has_key(read, found.id));
    assert(evicted(read, state.limit, found.id) is None);
    assert forall|other: usize| other != found.id implies #[trigger] lookup(after, other)
        == lookup(before, other) by {
        assert(lookup(after, other) == lookup(read, other));
    }
    lemma_best_leads(ids, before, tokens, param, false);
    let k = choose|k: int|
        leads(ids, k, before, tokens, param, false) && lookup(before, #[trigger] ids[k]) == Some(
            found,
        );
    lemma_position(before, ids[k]);
    assert(before[position(before, ids[k])].0 == found.id);
    assert(ids[k] == found.id);
    lemma_merged_score(tokens, found.template, param, tokens.len());
    assert(common_len(tokens, cluster.template) == tokens.len());
    assert(!beats(score(found, tokens, param, false), score(cluster, tokens, param, false)));
    assert forall|j: int|
        0 <= j < ids.len() && lookup(after, #[trigger] ids[j]) is Some implies !beats(
        score(lookup(after, ids[j])->0, tokens, param, false),
        score(cluster, tokens, param, false),
    ) by {
        if ids[j] != found.id {
            assert(lookup(after, ids[j]) == lookup(before, ids[j]));
        }
    }
    assert forall|j: int| 0 <= j < k && lookup(after, #[trigger] ids[j]) is Some implies beats(
        score(cluster, tokens, param, false),
        score(lookup(after, ids[j])->0, tokens, param, false),
    ) by {
        if ids[j] != found.id {
            assert(lookup(after, ids[j]) == lookup(before, ids[j]));
        } else {
            assert(lookup(before, ids[j]) == Some(found));
        }
    }
    assert(leads(ids, k, after, tokens, param, false));
    lemma_leader_is_best(ids, k, after, tokens, param, false);
    assert(candidates(trained(state, tokens), tokens) == ids);
}

/// A line that founded a cluster finds that cluster when it comes again,
/// if it holds no wildcard marker.
proof fn lemma_founded_again(state: DrainView, tokens: Seq<Seq<char>>)
    requires
        valid(state),
        has_room(state),
        1 <= tokens.len() <= usize::MAX,
        search_result(state, tokens, state.sim_th, false) is None,
        forall|i: int| 0 <= i < tokens.len() ==> #[trigger] tokens[i] != state.param,
    ensures
        search_result(trained(state, tokens), tokens, state.sim_th, false) == Some(
            trained_cluster(state, tokens),
        ),
{
    let param = state.param;
    let n = tokens.len() as usize;
    let cluster = trained_cluster(state, tokens);
    let old_ids = candidates(state, tokens);
    let before = state.entries;
    let read = searched(state, tokens).entries;
    let middle = written(state, tokens);
    let after = trained(state, tokens).entries;
    let node = bucket(middle, n);
    lemma_searched_valid(state, tokens);
    lemma_written_valid(state, tokens);
    lemma_touched_all(before, old_ids);
    lemma_stored(read, state.limit, cluster.id, cluster);
    lemma_inserted_leaf(
        node,
        tokens,
        1,
        cluster.id,
        state.max_node_depth as nat,
        state.max_children as nat,
        param,
        after,
    );
    let landed = landing(
        node,
        tokens,
        1,
        state.max_node_depth as nat,
        state.max_children as nat,
        param,
    );
    let ids = candidates(trained(state, tokens), tokens);
    assert(ids == refreshed(landed, cluster.id, after));
    let kept = landed.filter(live(after));
    let last = ids.len() - 1;
    assert(ids[last] == cluster.id);
    // the score of the new cluster: alike at every position, no wildcard
    lemma_alike_same(tokens, param, tokens.len());
    lemma_merged_same(tokens, param);
    assert(score(cluster, tokens, param, false) == (tokens.len(), 0nat));
    state.sim_th.lemma_met_by_more(0, tokens.len(), tokens.len());
    // what stood at the leaf before was a candidate of the first search
    lemma_landing_searched(
        node,
        tokens,
        1,
        state.max_node_depth as nat,
        state.max_children as nat,
        param,
    );
    if !state.buckets.contains_key(n) {
        lemma_landing_fresh(
            tokens,
            1,
            state.max_node_depth as nat,
            state.max_children as nat,
            param,
        );
    }
    assert(landed.len() == 0 || landed == old_ids);
    if landed.len() == 0 {
        assert(kept.len() == 0) by {
            landed.lemma_filter_len(live(after));
        }
    } else {
        lemma_leaf_ids_every_id(
            state.buckets[n],
            tokens,
            1,
            state.max_node_depth as nat,
            param,
            placed(state.entries, state.counter, n),
        );
        lemma_best_leads(old_ids, before, tokens, param, false);
    }
    assert forall|j: int| 0 <= j < last && lookup(after, #[trigger] ids[j]) is Some implies beats(
        score(cluster, tokens, param, false),
        score(lookup(after, ids[j])->0, tokens, param, false),
    ) by {
        // an identifier kept at the leaf stood there before
        assert(ids[j] == kept[j]);
        landed.lemma_filter_contains_rev(live(after), kept[j]);
        assert(landed.contains(kept[j]));
        let m = choose|m: int| 0 <= m < landed.len() && landed[m] == kept[j];
        assert(old_ids[m] == ids[j]);
        assert(placed(state.entries, state.counter, n)(old_ids[m]));
        assert(ids[j] != cluster.id);
        assert(lookup(after, ids[j]) == lookup(read, ids[j]));
        assert(lookup(read, ids[j]) == lookup(before, ids[j]));
        let rival = lookup(before, old_ids[m])->0;
        // the first search found no match, so the best of then fell short
        let leader = best(old_ids, before, tokens, param, false)->0;
        assert(best(old_ids, before, tokens, param, false) is Some);
        let k = choose|k: int|
            leads(old_ids, k, before, tokens, param, false) && lookup(
                before,
                #[trigger] old_ids[k],
            ) == Some(leader);
        assert(!beats(score(rival, tokens, param, false), score(leader, tokens, param, false)));
        assert(!state.sim_th.met_by(score(leader, tokens, param, false).0, tokens.len()));
        state.sim_th.lemma_met_by_more(
            score(rival, tokens, param, false).0,
            score(leader, tokens, param, false).0,
            tokens.len(),
        );
        if score(rival, tokens, param, false).0 >= tokens.len() {
            state.sim_th.lemma_met_by_more(
                tokens.len(),
                score(rival, tokens, param, false).0,
                tokens.len(),
            );
        }
    }
    assert forall|j: int|
        0 <= j < ids.len() && lookup(after, #[trigger] ids[j]) is Some implies !beats(
        score(lookup(after, ids[j])->0, tokens, param, false),
        score(cluster, tokens, param, false),
    ) by {
        let rival = lookup(after, ids[j])->0;
        lemma_counts_bounded(tokens, rival.template, param, common_len(tokens, rival.template));
    }
    assert(leads(ids, last, after, tokens, param, false));
    lemma_leader_is_best(ids, last, after, tokens, param, false);
}

/// A line that comes again joins the cluster of the first time: the
/// cluster that it joined or founded takes it in once more, with its
/// template as it was and its size raised by one. A line that founds a
/// cluster must hold no wildcard marker for this.
pub proof fn lemma_trained_again(state: DrainView, tokens: Seq<Seq<char>>)
    requires
        valid(state),
        has_room(state),
        1 <= tokens.len() <= usize::MAX,
        search_result(state, tokens, state.sim_th, false) is None ==> forall|i: int|
            0 <= i < tokens.len() ==> #[trigger] tokens[i] != state.param,
    ensures
        trained_cluster(trained(state, tokens), tokens) == (ClusterView {
            template: trained_cluster(state, tokens).template,
            id: trained_cluster(state, tokens).id,
            size: (trained_cluster(state, tokens).size + 1) as usize,
        }),
{
    lemma_search_result_stored(state, tokens, state.sim_th, false);
    match search_result(state, tokens, state.sim_th, false) {
        Some(found) => {
            lemma_joined_again(state, tokens);
            lemma_merged_twice(tokens, found.template, state.param);
        },
        None => {
            lemma_founded_again(state, tokens);
            lemma_merged_same(tokens, state.param);
        },
    }
}

} // verus!
