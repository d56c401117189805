//! The cluster store: clusters by identifier, ordered by how recently each
//! was used, and bounded by a limit beyond which the least recently used
//! entry gives way.

use crate::cluster::{ClusterView, LogCluster};
use crate::keyed::{
    distinct_keys, has_key, lemma_position, lemma_position_absent, lemma_position_is, position,
};
use lru::LruCache;
use std::num::NonZeroUsize;
use vstd::prelude::*;

verus! {

/// `lru::LruCache`, declared so that it can stand in fields and signatures.
#[verifier::external_type_specification]
#[verifier::external_body]
#[verifier::reject_recursive_types(K)]
#[verifier::reject_recursive_types(V)]
#[verifier::reject_recursive_types(S)]
pub struct ExLruCache<K, V, S>(LruCache<K, V, S>);

/// `lru::DefaultHasher`, the hasher that an `LruCache` uses unless told
/// otherwise.
#[verifier::external_type_specification]
#[verifier::external_body]
pub struct ExDefaultHasher(lru::DefaultHasher);

/// The entries of a cache, each an identifier with its cluster, from the
/// most recently used to the least recently used.
pub uninterp spec fn cache_entries(cache: LruCache<usize, LogCluster>) -> Seq<(usize, ClusterView)>;

/// The number of entries that a cache holds at most.
pub uninterp spec fn cache_limit(cache: LruCache<usize, LogCluster>) -> nat;

/// The cluster stored under `id`, if any.
pub open spec fn lookup(entries: Seq<(usize, ClusterView)>, id: usize) -> Option<ClusterView> {
    if has_key(entries, id) {
        Some(entries[position(entries, id)].1)
    } else {
        None
    }
}

/// The entries after a read of `id`: the entry, if present, has moved to
/// the front; the others keep their order.
pub open spec fn touched(entries: Seq<(usize, ClusterView)>, id: usize) -> Seq<
    (usize, ClusterView),
> {
    let i = position(entries, id);
    if i < entries.len() {
        seq![entries[i]] + entries.remove(i)
    } else {
        entries
    }
}

/// The entries after `cluster` has been written under `id` into a store
/// of at most `limit` entries. The written entry stands at the front. It
/// replaces the entry of the same identifier if there is one; otherwise,
/// in a full store, the last entry leaves.
pub open spec fn stored(
    entries: Seq<(usize, ClusterView)>,
    limit: nat,
    id: usize,
    cluster: ClusterView,
) -> Seq<(usize, ClusterView)> {
    let i = position(entries, id);
    if i < entries.len() {
        seq![(id, cluster)] + entries.remove(i)
    } else if entries.len() == limit {
        seq![(id, cluster)] + entries.drop_last()
    } else {
        seq![(id, cluster)] + entries
    }
}

/// The entries that stay when the limit becomes `limit`: the most recently
/// used ones.
pub open spec fn shrunk(entries: Seq<(usize, ClusterView)>, limit: nat) -> Seq<
    (usize, ClusterView),
> {
    if entries.len() > limit {
        entries.take(limit as int)
    } else {
        entries
    }
}

/// `LruCache::unbounded`: a cache without entries, whose limit is the
/// largest `usize`.
#[verifier::external_body]
pub(crate) fn cache_unbounded() -> (cache: LruCache<usize, LogCluster>)
    ensures
        cache_entries(cache) == Seq::<(usize, ClusterView)>::empty(),
        cache_limit(cache) == usize::MAX,
{
    LruCache::unbounded()
}

/// `LruCache::resize`: the limit becomes `limit`, and the least recently
/// used entries beyond it leave.
#[verifier::external_body]
pub(crate) fn cache_resize(cache: &mut LruCache<usize, LogCluster>, limit: usize)
    requires
        limit > 0,
    ensures
        cache_limit(*final(cache)) == limit,
        cache_entries(*final(cache)) == shrunk(cache_entries(*old(cache)), limit as nat),
{
    cache.resize(NonZeroUsize::new(limit).unwrap())
}

/// `LruCache::put`: the cluster is written under `id` and becomes the most
/// recently used entry; see [`stored`]. The limit stays.
#[verifier::external_body]
pub(crate) fn cache_put(cache: &mut LruCache<usize, LogCluster>, id: usize, cluster: LogCluster)
    ensures
        cache_limit(*final(cache)) == cache_limit(*old(cache)),
        cache_entries(*final(cache)) == stored(
            cache_entries(*old(cache)),
            cache_limit(*old(cache)),
            id,
            cluster@,
        ),
{
    cache.put(id, cluster);
}

/// `LruCache::get`: a copy of the cluster stored under `id`, if any; that
/// entry becomes the most recently used one. The limit stays.
#[verifier::external_body]
pub(crate) fn cache_get(cache: &mut LruCache<usize, LogCluster>, id: usize) -> (found: Option<
    LogCluster,
>)
    ensures
        cache_limit(*final(cache)) == cache_limit(*old(cache)),
        cache_entries(*final(cache)) == touched(cache_entries(*old(cache)), id),
        match found {
            Some(cluster) => lookup(cache_entries(*old(cache)), id) == Some(cluster@),
            None => lookup(cache_entries(*old(cache)), id) is None,
        },
{
    cache.get(&id).cloned()
}

/// `LruCache::contains`: whether an entry with identifier `id` is present.
#[verifier::external_body]
pub(crate) fn cache_contains(cache: &LruCache<usize, LogCluster>, id: usize) -> (present: bool)
    ensures
        present == has_key(cache_entries(*cache), id),
{
    cache.contains(&id)
}

/// `LruCache::iter`: the stored clusters, from the most recently used to
/// the least recently used.
#[verifier::external_body]
pub(crate) fn cache_values(cache: &LruCache<usize, LogCluster>) -> (values: Vec<&LogCluster>)
    ensures
        values.len() == cache_entries(*cache).len(),
        forall|i: int|
            0 <= i < values.len() ==> (#[trigger] values[i])@ == cache_entries(*cache)[i].1,
{
    cache.iter().map(|(_, v)| v).collect()
}

/// A read moves entries and changes none: what is stored under each
/// identifier stays.
pub proof fn lemma_touched_lookup(entries: Seq<(usize, ClusterView)>, id: usize, other: usize)
    ensures
        lookup(touched(entries, id), other) == lookup(entries, other),
        has_key(touched(entries, id), other) == has_key(entries, other),
{
    let p = position(entries, id);
    let q = position(entries, other);
    let after = touched(entries, id);
    lemma_position(entries, id);
    lemma_position(entries, other);
    if p < entries.len() {
        if other == id {
            lemma_position_is(after, other, 0);
        } else if q < entries.len() {
            let at = if q < p {
                q + 1
            } else {
                q
            };
            assert(after[at] == entries[q]);
            assert forall|j: int| 0 <= j < at implies (#[trigger] after[j]).0 != other by {
                if j > 0 && j <= p {
                    assert(after[j] == entries[j - 1]);
                } else if j > p {
                    assert(after[j] == entries[j]);
                }
            }
            lemma_position_is(after, other, at);
        } else {
            assert forall|j: int| 0 <= j < after.len() implies (#[trigger] after[j]).0 != other by {
                if j > 0 && j <= p {
                    assert(after[j] == entries[j - 1]);
                } else if j > p {
                    assert(after[j] == entries[j]);
                }
            }
            lemma_position_absent(after, other);
        }
    }
}

/// A read keeps the number of entries and the entries themselves: each
/// entry after it is one of the entries before it, and no identifier
/// comes to stand twice.
pub proof fn lemma_touched_entries(entries: Seq<(usize, ClusterView)>, id: usize)
    ensures
        touched(entries, id).len() == entries.len(),
        forall|j: int|
            0 <= j < entries.len() ==> entries.contains(#[trigger] touched(entries, id)[j]),
        distinct_keys(entries) ==> distinct_keys(touched(entries, id)),
{
    let p = position(entries, id);
    let after = touched(entries, id);
    lemma_position(entries, id);
    if p < entries.len() {
        assert forall|j: int| 0 <= j < entries.len() implies entries.contains(
            #[trigger] after[j],
        ) by {
            if j == 0 {
                assert(after[j] == entries[p]);
            } else if j <= p {
                assert(after[j] == entries[j - 1]);
            } else {
                assert(after[j] == entries[j]);
            }
        }
        if distinct_keys(entries) {
            assert forall|a: int, b: int| 0 <= a < b < after.len() implies (#[trigger] after[a]).0
                != (#[trigger] after[b]).0 by {
                let from_a = if a == 0 {
                    p
                } else if a <= p {
                    a - 1
                } else {
                    a
                };
                let from_b = if b <= p {
                    b - 1
                } else {
                    b
                };
                assert(after[a] == entries[from_a]);
                assert(after[b] == entries[from_b]);
                assert(from_a != from_b);
                if from_a < from_b {
                    assert(entries[from_a].0 != entries[from_b].0);
                } else {
                    assert(entries[from_b].0 != entries[from_a].0);
                }
            }
        }
    }
}

/// The identifier whose entry leaves when `id` is written: the last one,
/// where `id` is new and the store is full.
pub open spec fn evicted(entries: Seq<(usize, ClusterView)>, limit: nat, id: usize) -> Option<
    usize,
> {
    if !has_key(entries, id) && entries.len() == limit && entries.len() > 0 {
        Some(entries.last().0)
    } else {
        None
    }
}

/// A write puts the cluster at the front under its identifier, keeps the
/// store within its limit and the identifiers distinct, and leaves every
/// other entry as it was, but for the one that is evicted.
pub proof fn lemma_stored(
    entries: Seq<(usize, ClusterView)>,
    limit: nat,
    id: usize,
    cluster: ClusterView,
)
    requires
        distinct_keys(entries),
        entries.len() <= limit,
        limit >= 1,
    ensures
        stored(entries, limit, id, cluster).len() <= limit,
        stored(entries, limit, id, cluster).len() >= 1,
        stored(entries, limit, id, cluster)[0] == (id, cluster),
        distinct_keys(stored(entries, limit, id, cluster)),
        lookup(stored(entries, limit, id, cluster), id) == Some(cluster),
        forall|j: int|
            1 <= j < stored(entries, limit, id, cluster).len() ==> entries.contains(
                #[trigger] stored(entries, limit, id, cluster)[j],
            ),
        forall|other: usize|
            other != id ==> #[trigger] lookup(stored(entries, limit, id, cluster), other)
                == if Some(other) == evicted(entries, limit, id) {
                None
            } else {
                lookup(entries, other)
            },
{
    let p = position(entries, id);
    let after = stored(entries, limit, id, cluster);
    let n = entries.len() as int;
    lemma_position(entries, id);
    lemma_position_is(after, id, 0);
    // where each entry behind the front comes from
    let origin = |j: int|
        if p < n && j > p {
            j
        } else {
            j - 1
        };
    assert forall|j: int| 1 <= j < after.len() implies after[j] == entries[origin(j)] && 0
        <= origin(j) < n && entries[origin(j)].0 != id by {
        if p < n {
            assert(distinct_keys(entries));
            if origin(j) < p {
                assert(entries[origin(j)].0 != entries[p].0);
            } else {
                assert(entries[p].0 != entries[origin(j)].0);
            }
        }
    }
    assert forall|j: int| 1 <= j < after.len() implies entries.contains(#[trigger] after[j]) by {
        assert(after[j] == entries[origin(j)]);
    }
    assert forall|a: int, b: int| 0 <= a < b < after.len() implies (#[trigger] after[a]).0 != (
    #[trigger] after[b]).0 by {
        assert(after[b] == entries[origin(b)]);
        if a > 0 {
            assert(after[a] == entries[origin(a)]);
            assert(entries[origin(a)].0 != entries[origin(b)].0);
        }
    }
    assert forall|other: usize| other != id implies #[trigger] lookup(after, other) == if Some(
        other,
    ) == evicted(entries, limit, id) {
        None
    } else {
        lookup(entries, other)
    } by {
        let q = position(entries, other);
        lemma_position(entries, other);
        let gone = evicted(entries, limit, id);
        if q < n && gone != Some(other) {
            let at = if p < n && q > p {
                q
            } else {
                q + 1
            };
            if gone is Some {
                assert(q != n - 1) by {
                    assert(entries[n - 1].0 != other);
                }
            }
            assert(after[at] == entries[q]);
            assert forall|j: int| 0 <= j < at implies (#[trigger] after[j]).0 != other by {
                if j > 0 {
                    assert(after[j] == entries[origin(j)]);
                }
            }
            lemma_position_is(after, other, at);
        } else {
            assert forall|j: int| 0 <= j < after.len() implies (#[trigger] after[j]).0 != other by {
                if j > 0 {
                    assert(after[j] == entries[origin(j)]);
                    if q < n {
                        assert(origin(j) != q);
                        if origin(j) < q {
                            assert(entries[origin(j)].0 != entries[q].0);
                        } else {
                            assert(entries[q].0 != entries[origin(j)].0);
                        }
                    }
                }
            }
            lemma_position_absent(after, other);
        }
    }
}

/// A new cluster that comes to a full store evicts exactly one cluster,
/// the least recently used: the store stays as large as it was, the last
/// entry is gone, the new cluster is there, and every other entry stays
/// as it was.
pub proof fn lemma_stored_evicts(
    entries: Seq<(usize, ClusterView)>,
    limit: nat,
    id: usize,
    cluster: ClusterView,
)
    requires
        distinct_keys(entries),
        entries.len() == limit,
        limit >= 1,
        !has_key(entries, id),
    ensures
        stored(entries, limit, id, cluster).len() == limit,
        lookup(stored(entries, limit, id, cluster), id) == Some(cluster),
        !has_key(stored(entries, limit, id, cluster), entries.last().0),
        forall|i: int|
            0 <= i < entries.len() - 1 ==> lookup(
                stored(entries, limit, id, cluster),
                (#[trigger] entries[i]).0,
            ) == Some(entries[i].1),
{
    let after = stored(entries, limit, id, cluster);
    let last = entries.len() - 1;
    lemma_stored(entries, limit, id, cluster);
    lemma_position(entries, id);
    assert(entries[last].0 != id);
    assert(evicted(entries, limit, id) == Some(entries[last].0));
    assert(lookup(after, entries[last].0) is None);
    assert forall|i: int| 0 <= i < entries.len() - 1 implies lookup(
        after,
        (#[trigger] entries[i]).0,
    ) == Some(entries[i].1) by {
        assert(entries[i].0 != id);
        assert(entries[i].0 != entries[last].0);
        assert forall|j: int| 0 <= j < i implies (#[trigger] entries[j]).0 != entries[i].0 by {
            assert(entries[j].0 != entries[i].0);
        }
        lemma_position_is(entries, entries[i].0, i);
        assert(lookup(after, entries[i].0) == lookup(entries, entries[i].0));
    }
}

/// The sizes of all stored clusters together.
pub open spec fn total_size(entries: Seq<(usize, ClusterView)>) -> nat
    decreases entries.len(),
{
    if entries.len() == 0 {
        0
    } else {
        total_size(entries.drop_last()) + entries.last().1.size as nat
    }
}

/// The total of two runs of entries is the sum of their totals.
pub proof fn lemma_total_concat(
    first: Seq<(usize, ClusterView)>,
    second: Seq<(usize, ClusterView)>,
)
    ensures
        total_size(first + second) == total_size(first) + total_size(second),
    decreases second.len(),
{
    if second.len() == 0 {
        assert(first + second =~= first);
    } else {
        assert((first + second).drop_last() =~= first + second.drop_last());
        lemma_total_concat(first, second.drop_last());
    }
}

/// The total without the entry at `i` is the total less that entry's size.
pub proof fn lemma_total_remove(entries: Seq<(usize, ClusterView)>, i: int)
    requires
        0 <= i < entries.len(),
    ensures
        total_size(entries.remove(i)) + entries[i].1.size == total_size(entries),
        entries[i].1.size <= total_size(entries),
{
    let head = entries.take(i);
    let one = seq![entries[i]];
    let tail = entries.skip(i + 1);
    assert(entries =~= head + one + tail);
    assert(entries.remove(i) =~= head + tail);
    lemma_total_concat(head, one);
    lemma_total_concat(head + one, tail);
    lemma_total_concat(head, tail);
    assert(one.drop_last() =~= Seq::<(usize, ClusterView)>::empty());
    assert(total_size(one) == entries[i].1.size) by {
        assert(total_size(one.drop_last()) == 0);
    }
}

/// A read leaves the total as it is.
pub proof fn lemma_touched_total(entries: Seq<(usize, ClusterView)>, id: usize)
    ensures
        total_size(touched(entries, id)) == total_size(entries),
{
    let p = position(entries, id);
    lemma_position(entries, id);
    if p < entries.len() {
        let one = seq![entries[p]];
        lemma_total_remove(entries, p);
        lemma_total_concat(one, entries.remove(p));
        assert(one.drop_last() =~= Seq::<(usize, ClusterView)>::empty());
        assert(total_size(one) == entries[p].1.size) by {
            assert(total_size(one.drop_last()) == 0);
        }
    }
}

/// The size that leaves the store when `id` is written: that of the
/// entry which is replaced or evicted, if there is one.
pub open spec fn displaced_size(entries: Seq<(usize, ClusterView)>, limit: nat, id: usize) -> nat {
    if has_key(entries, id) {
        entries[position(entries, id)].1.size as nat
    } else if entries.len() == limit && entries.len() > 0 {
        entries.last().1.size as nat
    } else {
        0
    }
}

/// A write adds the size of the written cluster to the total and takes
/// away the size that it displaces.
pub proof fn lemma_stored_total(
    entries: Seq<(usize, ClusterView)>,
    limit: nat,
    id: usize,
    cluster: ClusterView,
)
    requires
        limit >= 1,
    ensures
        total_size(stored(entries, limit, id, cluster)) + displaced_size(entries, limit, id)
            == total_size(entries) + cluster.size,
{
    let p = position(entries, id);
    let one = seq![(id, cluster)];
    lemma_position(entries, id);
    assert(one.drop_last() =~= Seq::<(usize, ClusterView)>::empty());
    assert(total_size(one) == cluster.size) by {
        assert(total_size(one.drop_last()) == 0);
    }
    if p < entries.len() {
        lemma_total_remove(entries, p);
        lemma_total_concat(one, entries.remove(p));
    } else if entries.len() == limit {
        lemma_total_concat(one, entries.drop_last());
    } else {
        lemma_total_concat(one, entries);
    }
}

} // verus!
