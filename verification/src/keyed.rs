//! Sequences of pairs read as maps: each pair is a key with its value, and
//! a key is looked up from the front.

use vstd::prelude::*;

verus! {

/// The index of the first pair with key `key`, or the number of pairs if
/// there is none.
pub open spec fn position<K, V>(entries: Seq<(K, V)>, key: K) -> int
    decreases entries.len(),
{
    if entries.len() == 0 {
        0
    } else if entries[0].0 == key {
        0
    } else {
        1 + position(entries.drop_first(), key)
    }
}

/// Whether a pair with key `key` is present.
pub open spec fn has_key<K, V>(entries: Seq<(K, V)>, key: K) -> bool {
    position(entries, key) < entries.len()
}

/// No key occurs twice.
pub open spec fn distinct_keys<K, V>(entries: Seq<(K, V)>) -> bool {
    forall|i: int, j: int|
        0 <= i < j < entries.len() ==> (#[trigger] entries[i]).0 != (#[trigger] entries[j]).0
}

/// `position` is the least index at which the key stands.
pub proof fn lemma_position<K, V>(entries: Seq<(K, V)>, key: K)
    ensures
        0 <= position(entries, key) <= entries.len(),
        has_key(entries, key) ==> entries[position(entries, key)].0 == key,
        forall|j: int| 0 <= j < position(entries, key) ==> (#[trigger] entries[j]).0 != key,
    decreases entries.len(),
{
    if entries.len() > 0 && entries[0].0 != key {
        let rest = entries.drop_first();
        lemma_position(rest, key);
        assert forall|j: int| 0 <= j < position(entries, key) implies (#[trigger] entries[j]).0
            != key by {
            if j > 0 {
                assert(entries[j] == rest[j - 1]);
            }
        }
    }
}

/// A key that stands at index `i` is found at `i` or before.
pub proof fn lemma_position_found<K, V>(entries: Seq<(K, V)>, i: int)
    requires
        0 <= i < entries.len(),
    ensures
        position(entries, entries[i].0) <= i,
        has_key(entries, entries[i].0),
{
    lemma_position(entries, entries[i].0);
}

/// A key that stands nowhere is not found.
pub proof fn lemma_position_absent<K, V>(entries: Seq<(K, V)>, key: K)
    requires
        forall|j: int| 0 <= j < entries.len() ==> (#[trigger] entries[j]).0 != key,
    ensures
        !has_key(entries, key),
{
    lemma_position(entries, key);
}

/// Where a key is found depends on the keys alone: a new value under an
/// old key moves nothing.
pub proof fn lemma_position_update<K, V>(entries: Seq<(K, V)>, i: int, value: V, key: K)
    requires
        0 <= i < entries.len(),
    ensures
        position(entries.update(i, (entries[i].0, value)), key) == position(entries, key),
    decreases entries.len(),
{
    let updated = entries.update(i, (entries[i].0, value));
    if entries[0].0 != key {
        if i == 0 {
            assert(updated.drop_first() =~= entries.drop_first());
        } else {
            assert(updated.drop_first() =~= entries.drop_first().update(
                i - 1,
                (entries.drop_first()[i - 1].0, value),
            ));
            lemma_position_update(entries.drop_first(), i - 1, value, key);
        }
    }
}

/// The index at which a key stands first is its position.
pub proof fn lemma_position_is<K, V>(entries: Seq<(K, V)>, key: K, p: int)
    requires
        0 <= p < entries.len(),
        entries[p].0 == key,
        forall|j: int| 0 <= j < p ==> (#[trigger] entries[j]).0 != key,
    ensures
        position(entries, key) == p,
{
    lemma_position(entries, key);
}

} // verus!
