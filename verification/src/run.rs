//! What a run of lines, taken one at a time, makes of an engine.

use crate::cluster::ClusterView;
use crate::keyed::{has_key, lemma_position, position};
use crate::model::{
    best, bucket, candidates, has_room, initial, leads, lemma_best_leads,
    lemma_search_result_stored, lemma_searched_valid, lemma_touched_all, lemma_trained_valid,
    lemma_written_valid, search_result, searched, touched_all, trained, trained_cluster, valid,
    written, DrainView,
};
use crate::similarity::Threshold;
use crate::store::{
    displaced_size, lemma_stored, lemma_stored_evicts, lemma_stored_total, lemma_total_remove,
    lemma_touched_total, lookup, total_size,
};
use crate::token::tokens_of;
use crate::tree::{
    lemma_bounded_reached, lemma_inserted_leaf, lemma_shallow_reached, live, reached,
};
use vstd::prelude::*;

verus! {

/// The state after the engine has taken the lines in their order.
pub open spec fn trained_all(state: DrainView, lines: Seq<Seq<char>>) -> DrainView
    decreases lines.len(),
{
    if lines.len() == 0 {
        state
    } else {
        trained(trained_all(state, lines.drop_last()), tokens_of(lines.last()))
    }
}

/// The outcome of a run is fixed by the settings and the lines: two
/// engines that start alike and take the same lines end alike, with the
/// same clusters under the same identifiers, of the same sizes and in the
/// same order.
pub proof fn lemma_runs_agree(first: DrainView, second: DrainView, lines: Seq<Seq<char>>)
    requires
        first == second,
    ensures
        trained_all(first, lines) == trained_all(second, lines),
        trained_all(first, lines).entries == trained_all(second, lines).entries,
{
}

/// Reads leave the total of the sizes as it is.
pub proof fn lemma_touched_all_total(entries: Seq<(usize, ClusterView)>, ids: Seq<usize>)
    ensures
        total_size(touched_all(entries, ids)) == total_size(entries),
    decreases ids.len(),
{
    if ids.len() > 0 {
        lemma_touched_all_total(entries, ids.drop_last());
        lemma_touched_total(touched_all(entries, ids.drop_last()), ids.last());
    }
}

/// No stored cluster is larger than all of them together.
pub proof fn lemma_size_within_total(entries: Seq<(usize, ClusterView)>, i: int)
    requires
        0 <= i < entries.len(),
    ensures
        entries[i].1.size <= total_size(entries),
{
    lemma_total_remove(entries, i);
}

/// The size of the cluster that a training step evicts: that of the
/// least recently used one, where the line founds a cluster and the
/// store is full; otherwise nothing.
pub open spec fn evicted_size(state: DrainView, tokens: Seq<Seq<char>>) -> nat {
    if search_result(state, tokens, state.sim_th, false) is None && state.entries.len()
        == state.limit {
        searched(state, tokens).entries.last().1.size as nat
    } else {
        0
    }
}

/// Each line counts once: a training step raises the total of the sizes
/// by one, less the size of the cluster that it evicts. It adds at most
/// one cluster and moves the counter by at most one.
pub proof fn lemma_trained_total(state: DrainView, tokens: Seq<Seq<char>>)
    requires
        valid(state),
        has_room(state),
        tokens.len() <= usize::MAX,
    ensures
        total_size(trained(state, tokens).entries) + evicted_size(state, tokens) == total_size(
            state.entries,
        ) + 1,
        trained(state, tokens).entries.len() <= state.entries.len() + 1,
        trained(state, tokens).counter <= state.counter + 1,
        trained(state, tokens).limit == state.limit,
{
    let cluster = trained_cluster(state, tokens);
    let after = searched(state, tokens);
    lemma_searched_valid(state, tokens);
    lemma_search_result_stored(state, tokens, state.sim_th, false);
    lemma_touched_all_total(state.entries, candidates(state, tokens));
    lemma_touched_all(state.entries, candidates(state, tokens));
    lemma_stored_total(after.entries, after.limit, cluster.id, cluster);
    lemma_stored(after.entries, after.limit, cluster.id, cluster);
    lemma_position(after.entries, cluster.id);
    match search_result(state, tokens, state.sim_th, false) {
        Some(found) => {
            assert(has_key(after.entries, cluster.id));
            assert(displaced_size(after.entries, after.limit, cluster.id) == found.size);
        },
        None => {
            if has_key(after.entries, cluster.id) {
                let p = position(after.entries, cluster.id);
                assert(after.entries[p].0 <= after.counter);
            }
        },
    }
}

/// Whether the counters leave room for a run of `lines`: neither the
/// identifiers nor the sizes can pass the largest `usize`, and no line
/// has more tokens than that.
pub open spec fn room_for(state: DrainView, lines: Seq<Seq<char>>) -> bool {
    &&& state.counter + lines.len() <= usize::MAX
    &&& total_size(state.entries) + lines.len() <= usize::MAX
    &&& forall|i: int| 0 <= i < lines.len() ==> tokens_of(#[trigger] lines[i]).len() <= usize::MAX
}

/// Every state that a run reaches is valid, and has the settings that
/// the run began with. The sizes and the counter grow by at most one with
/// each line.
pub proof fn lemma_run_valid(state: DrainView, lines: Seq<Seq<char>>)
    requires
        valid(state),
        room_for(state, lines),
    ensures
        valid(trained_all(state, lines)),
        total_size(trained_all(state, lines).entries) <= total_size(state.entries) + lines.len(),
        trained_all(state, lines).counter <= state.counter + lines.len(),
        trained_all(state, lines).entries.len() <= state.entries.len() + lines.len(),
        trained_all(state, lines).limit == state.limit,
        trained_all(state, lines).max_node_depth == state.max_node_depth,
        trained_all(state, lines).max_children == state.max_children,
        trained_all(state, lines).max_clusters == state.max_clusters,
        trained_all(state, lines).sim_th == state.sim_th,
        trained_all(state, lines).param == state.param,
        lines.len() > 0 ==> has_room(trained_all(state, lines.drop_last())),
    decreases lines.len(),
{
    if lines.len() > 0 {
        let front = lines.drop_last();
        let before = trained_all(state, front);
        let tokens = tokens_of(lines.last());
        assert(forall|i: int| 0 <= i < front.len() ==> front[i] == lines[i]);
        lemma_run_valid(state, front);
        assert(lines.last() == lines[lines.len() - 1]);
        assert(has_room(before)) by {
            assert forall|i: int| 0 <= i < before.entries.len() implies (
            #[trigger] before.entries[i]).1.size < usize::MAX by {
                lemma_size_within_total(before.entries, i);
            }
        }
        lemma_trained_valid(before, tokens);
        lemma_trained_total(before, tokens);
    }
}

/// The sizes of the clusters that a run evicts, all together.
pub open spec fn evicted_in_run(state: DrainView, lines: Seq<Seq<char>>) -> nat
    decreases lines.len(),
{
    if lines.len() == 0 {
        0
    } else {
        evicted_in_run(state, lines.drop_last()) + evicted_size(
            trained_all(state, lines.drop_last()),
            tokens_of(lines.last()),
        )
    }
}

/// Size conservation: the sizes of the stored clusters after a run,
/// together with the sizes of the clusters that the run evicted, add up
/// to what was stored before the run plus the number of lines taken.
pub proof fn lemma_sizes_add_up(state: DrainView, lines: Seq<Seq<char>>)
    requires
        valid(state),
        room_for(state, lines),
    ensures
        total_size(trained_all(state, lines).entries) + evicted_in_run(state, lines) == total_size(
            state.entries,
        ) + lines.len(),
    decreases lines.len(),
{
    if lines.len() > 0 {
        let front = lines.drop_last();
        assert(forall|i: int| 0 <= i < front.len() ==> front[i] == lines[i]);
        lemma_sizes_add_up(state, front);
        lemma_run_valid(state, front);
        lemma_run_valid(state, lines);
        assert(lines.last() == lines[lines.len() - 1]);
        lemma_trained_total(trained_all(state, front), tokens_of(lines.last()));
    }
}

/// A run evicts nothing while the store is large enough to hold a
/// cluster for every line.
pub proof fn lemma_nothing_evicted(state: DrainView, lines: Seq<Seq<char>>)
    requires
        valid(state),
        room_for(state, lines),
        state.entries.len() + lines.len() <= state.limit,
    ensures
        evicted_in_run(state, lines) == 0,
    decreases lines.len(),
{
    if lines.len() > 0 {
        let front = lines.drop_last();
        assert(forall|i: int| 0 <= i < front.len() ==> front[i] == lines[i]);
        lemma_nothing_evicted(state, front);
        lemma_run_valid(state, front);
    }
}

/// Bounded branching: in every state that a run reaches, whatever node a
/// path leads to from the node of a token count has at most
/// `max_children` children, each under a key of its own.
pub proof fn lemma_branching_bounded(
    state: DrainView,
    lines: Seq<Seq<char>>,
    n: usize,
    path: Seq<int>,
)
    requires
        valid(state),
        room_for(state, lines),
        trained_all(state, lines).buckets.contains_key(n),
        reached(trained_all(state, lines).buckets[n], path) is Some,
    ensures
        reached(trained_all(state, lines).buckets[n], path)->0.children.len()
            <= state.max_children,
{
    lemma_run_valid(state, lines);
    lemma_bounded_reached(
        trained_all(state, lines).buckets[n],
        state.max_children as nat,
        state.param,
        path,
    );
}

/// Bounded depth: in every state that a run reaches, a path that leads to
/// a node from the node of a token count has fewer than `max_node_depth`
/// steps. Searches and insertions walk such paths.
pub proof fn lemma_depth_bounded(state: DrainView, lines: Seq<Seq<char>>, n: usize, path: Seq<int>)
    requires
        valid(state),
        room_for(state, lines),
        trained_all(state, lines).buckets.contains_key(n),
        reached(trained_all(state, lines).buckets[n], path) is Some,
    ensures
        path.len() < state.max_node_depth,
{
    lemma_run_valid(state, lines);
    lemma_shallow_reached(
        trained_all(state, lines).buckets[n],
        (state.max_node_depth - 1) as nat,
        path,
    );
}

/// Size conservation from the start: in an engine with an unbounded
/// store that has taken `lines.len()` lines, the sizes of the clusters
/// add up to `lines.len()`.
pub proof fn lemma_sizes_count_lines(
    max_node_depth: usize,
    sim_th: Threshold,
    max_children: usize,
    param: Seq<char>,
    lines: Seq<Seq<char>>,
)
    requires
        valid(initial(None, max_node_depth, sim_th, max_children, param)),
        room_for(initial(None, max_node_depth, sim_th, max_children, param), lines),
    ensures
        total_size(
            trained_all(initial(None, max_node_depth, sim_th, max_children, param), lines).entries,
        ) == lines.len(),
{
    let start = initial(None, max_node_depth, sim_th, max_children, param);
    assert(total_size(start.entries) == 0);
    lemma_sizes_add_up(start, lines);
    lemma_nothing_evicted(start, lines);
}

/// Eviction: a line that founds a cluster while the store is full evicts
/// exactly one cluster, the least recently used after the search. The
/// store stays as large as it was, the new cluster is there, and every
/// other cluster is as it was.
pub proof fn lemma_trained_evicts(state: DrainView, tokens: Seq<Seq<char>>)
    requires
        valid(state),
        has_room(state),
        tokens.len() <= usize::MAX,
        search_result(state, tokens, state.sim_th, false) is None,
        state.entries.len() == state.limit,
    ensures
        trained(state, tokens).entries.len() == state.limit,
        lookup(trained(state, tokens).entries, trained_cluster(state, tokens).id) == Some(
            trained_cluster(state, tokens),
        ),
        !has_key(trained(state, tokens).entries, searched(state, tokens).entries.last().0),
        forall|i: int|
            0 <= i < state.entries.len() - 1 ==> lookup(
                trained(state, tokens).entries,
                (#[trigger] searched(state, tokens).entries[i]).0,
            ) == Some(searched(state, tokens).entries[i].1),
{
    let cluster = trained_cluster(state, tokens);
    let after = searched(state, tokens);
    lemma_searched_valid(state, tokens);
    lemma_touched_all(state.entries, candidates(state, tokens));
    lemma_position(after.entries, cluster.id);
    if has_key(after.entries, cluster.id) {
        let p = position(after.entries, cluster.id);
        assert(after.entries[p].0 <= after.counter);
    }
    lemma_stored_evicts(after.entries, after.limit, cluster.id, cluster);
}

/// A search passes over what the store no longer holds: the best
/// candidate among identifiers is the best among those of them that are
/// still stored.
pub proof fn lemma_best_skips_absent(
    ids: Seq<usize>,
    entries: Seq<(usize, ClusterView)>,
    tokens: Seq<Seq<char>>,
    param: Seq<char>,
    include_params: bool,
)
    ensures
        best(ids, entries, tokens, param, include_params) == best(
            ids.filter(live(entries)),
            entries,
            tokens,
            param,
            include_params,
        ),
    decreases ids.len(),
{
    reveal(Seq::filter);
    if ids.len() > 0 {
        let front = ids.drop_last();
        lemma_best_skips_absent(front, entries, tokens, param, include_params);
        if live(entries)(ids.last()) {
            let kept = front.filter(live(entries)).push(ids.last());
            assert(kept.drop_last() =~= front.filter(live(entries)));
            assert(kept.last() == ids.last());
        }
    }
}

/// A search moves nothing for what the store no longer holds: the reads
/// of identifiers leave the store as the reads of those still stored do.
pub proof fn lemma_touched_all_skips_absent(entries: Seq<(usize, ClusterView)>, ids: Seq<usize>)
    ensures
        touched_all(entries, ids) == touched_all(entries, ids.filter(live(entries))),
    decreases ids.len(),
{
    reveal(Seq::filter);
    if ids.len() > 0 {
        let front = ids.drop_last();
        lemma_touched_all_skips_absent(entries, front);
        lemma_touched_all(entries, front);
        if live(entries)(ids.last()) {
            let kept = front.filter(live(entries)).push(ids.last());
            assert(kept.drop_last() =~= front.filter(live(entries)));
            assert(kept.last() == ids.last());
        } else {
            assert(!has_key(touched_all(entries, front), ids.last()));
        }
    }
}

/// Templates only generalize: a cluster that is stored before a training
/// step and after it has a template of the same length, and wherever it
/// held the wildcard marker before, it holds it after; its identifier
/// stays, and its size does not shrink.
pub proof fn lemma_trained_generalizes(state: DrainView, tokens: Seq<Seq<char>>, id: usize)
    requires
        valid(state),
        has_room(state),
        tokens.len() <= usize::MAX,
        lookup(state.entries, id) is Some,
        lookup(trained(state, tokens).entries, id) is Some,
    ensures
        ({
            let before = lookup(state.entries, id)->0;
            let after = lookup(trained(state, tokens).entries, id)->0;
            &&& after.id == before.id
            &&& after.size >= before.size
            &&& after.template.len() == before.template.len()
            &&& forall|i: int|
                0 <= i < before.template.len() && #[trigger] before.template[i] == state.param
                    ==> after.template[i] == state.param
        }),
{
    let cluster = trained_cluster(state, tokens);
    let after = searched(state, tokens);
    lemma_searched_valid(state, tokens);
    lemma_search_result_stored(state, tokens, state.sim_th, false);
    lemma_touched_all(state.entries, candidates(state, tokens));
    lemma_stored(after.entries, after.limit, cluster.id, cluster);
    if id == cluster.id {
        lemma_position(state.entries, id);
        let p = position(state.entries, id);
        assert(state.entries[p].0 <= state.counter);
    } else {
        assert(lookup(trained(state, tokens).entries, id) == lookup(after.entries, id));
    }
}

/// A line finds its cluster again: after training on a line with at
/// least one token, the cluster that the line joined or founded stands in
/// the store, and is among the candidates of a search for the same line.
pub proof fn lemma_trained_found(state: DrainView, tokens: Seq<Seq<char>>)
    requires
        valid(state),
        has_room(state),
        1 <= tokens.len() <= usize::MAX,
    ensures
        lookup(trained(state, tokens).entries, trained_cluster(state, tokens).id) == Some(
            trained_cluster(state, tokens),
        ),
        candidates(trained(state, tokens), tokens).contains(trained_cluster(state, tokens).id),
{
    let cluster = trained_cluster(state, tokens);
    let before = written(state, tokens);
    let n = tokens.len() as usize;
    lemma_written_valid(state, tokens);
    match search_result(state, tokens, state.sim_th, false) {
        Some(found) => {
            let ids = candidates(state, tokens);
            lemma_best_leads(ids, state.entries, tokens, state.param, false);
            let k = choose|k: int|
                leads(ids, k, state.entries, tokens, state.param, false) && lookup(
                    state.entries,
                    #[trigger] ids[k],
                ) == Some(found);
            lemma_position(state.entries, ids[k]);
            assert(ids[k] == found.id);
            assert(candidates(trained(state, tokens), tokens) == ids);
        },
        None => {
            lemma_inserted_leaf(
                bucket(before, n),
                tokens,
                1,
                cluster.id,
                before.max_node_depth as nat,
                before.max_children as nat,
                before.param,
                before.entries,
            );
            let ids = candidates(trained(state, tokens), tokens);
            assert(ids.last() == cluster.id);
            assert(ids[ids.len() - 1] == cluster.id);
        },
    }
}

} // verus!
