//! Sequences of key/value pairs and the mappings they stand for.
//!
//! The aggregated set is described twice: as a sequence of pairs, which has
//! an order, and as a mapping from key to value, which has none. This module
//! holds both descriptions and the facts that connect them.

use vstd::prelude::*;

verus! {

/// A key with its value.
pub type Pair = (Seq<char>, Seq<char>);

/// Whether some pair of `pairs` carries `key`.
pub open spec fn has_key(pairs: Seq<Pair>, key: Seq<char>) -> bool {
    exists|i: int| 0 <= i < pairs.len() && (#[trigger] pairs[i]).0 == key
}

/// Whether no key occurs in two pairs of `pairs`.
pub open spec fn distinct_keys(pairs: Seq<Pair>) -> bool {
    forall|i: int, j: int|
        0 <= i < j < pairs.len() ==> (#[trigger] pairs[i]).0 != (#[trigger] pairs[j]).0
}

/// Whether the pair at `i` is the last pair of `pairs` that carries `key`.
pub open spec fn is_last_with_key(pairs: Seq<Pair>, i: int, key: Seq<char>) -> bool {
    &&& 0 <= i < pairs.len()
    &&& pairs[i].0 == key
    &&& forall|j: int| i < j < pairs.len() ==> (#[trigger] pairs[j]).0 != key
}

/// `pairs` with `key` set to `value`: a pair that already carries `key` keeps
/// its place and takes the new value, a new key goes to the end.
pub open spec fn inserted(pairs: Seq<Pair>, key: Seq<char>, value: Seq<char>) -> Seq<Pair> {
    if has_key(pairs, key) {
        let at = choose|i: int| 0 <= i < pairs.len() && (#[trigger] pairs[i]).0 == key;
        pairs.update(at, (key, value))
    } else {
        pairs.push((key, value))
    }
}

/// `pairs` after each pair of `incoming` was set in it, in order.
pub open spec fn merged(pairs: Seq<Pair>, incoming: Seq<Pair>) -> Seq<Pair>
    decreases incoming.len(),
{
    if incoming.len() == 0 {
        pairs
    } else {
        inserted(merged(pairs, incoming.drop_last()), incoming.last().0, incoming.last().1)
    }
}

/// `pairs` after each sequence of `incoming` was merged into it, in order.
pub open spec fn merged_all(pairs: Seq<Pair>, incoming: Seq<Seq<Pair>>) -> Seq<Pair>
    decreases incoming.len(),
{
    if incoming.len() == 0 {
        pairs
    } else {
        merged(merged_all(pairs, incoming.drop_last()), incoming.last())
    }
}

/// `base` after the pairs of `pairs` were written into it one after the
/// other, each overwriting what the key had before.
pub open spec fn overlay(base: Map<Seq<char>, Seq<char>>, pairs: Seq<Pair>) -> Map<
    Seq<char>,
    Seq<char>,
>
    decreases pairs.len(),
{
    if pairs.len() == 0 {
        base
    } else {
        overlay(base, pairs.drop_last()).insert(pairs.last().0, pairs.last().1)
    }
}

/// `base` after each sequence of `incoming` was written over it, in order.
pub open spec fn overlay_all(base: Map<Seq<char>, Seq<char>>, incoming: Seq<Seq<Pair>>) -> Map<
    Seq<char>,
    Seq<char>,
>
    decreases incoming.len(),
{
    if incoming.len() == 0 {
        base
    } else {
        overlay(overlay_all(base, incoming.drop_last()), incoming.last())
    }
}

/// The mapping that a sequence of pairs stands for.
pub open spec fn mapping(pairs: Seq<Pair>) -> Map<Seq<char>, Seq<char>> {
    overlay(Map::empty(), pairs)
}

/// The keys of `overlay(base, pairs)` are those of `base` and those of the
/// pairs; a key that no pair carries keeps its value from `base`.
pub proof fn lemma_overlay_keys(base: Map<Seq<char>, Seq<char>>, pairs: Seq<Pair>, key: Seq<char>)
    ensures
        overlay(base, pairs).contains_key(key) <==> base.contains_key(key) || has_key(pairs, key),
        !has_key(pairs, key) ==> overlay(base, pairs)[key] == base[key],
    decreases pairs.len(),
{
    if pairs.len() > 0 {
        let front = pairs.drop_last();
        lemma_overlay_keys(base, front, key);
        if has_key(pairs, key) {
            let i = choose|i: int| 0 <= i < pairs.len() && (#[trigger] pairs[i]).0 == key;
            if i < front.len() {
                assert(front[i].0 == key);
            }
        }
        if has_key(front, key) {
            let i = choose|i: int| 0 <= i < front.len() && (#[trigger] front[i]).0 == key;
            assert(pairs[i].0 == key);
        }
        if pairs.last().0 == key {
            assert(pairs[pairs.len() - 1].0 == key);
        }
    }
}

/// In `overlay(base, pairs)` a key has the value of the last pair that
/// carries it.
pub proof fn lemma_overlay_last_wins(
    base: Map<Seq<char>, Seq<char>>,
    pairs: Seq<Pair>,
    i: int,
    key: Seq<char>,
)
    requires
        is_last_with_key(pairs, i, key),
    ensures
        overlay(base, pairs).contains_key(key),
        overlay(base, pairs)[key] == pairs[i].1,
    decreases pairs.len(),
{
    let front = pairs.drop_last();
    if i < front.len() {
        assert(pairs[pairs.len() - 1].0 != key);
        assert(front[i] == pairs[i]);
        assert forall|j: int| i < j < front.len() implies (#[trigger] front[j]).0 != key by {
            assert(front[j] == pairs[j]);
        }
        lemma_overlay_last_wins(base, front, i, key);
    }
}

/// With distinct keys, every pair is found again under its key.
pub proof fn lemma_distinct_lookup(pairs: Seq<Pair>, i: int)
    requires
        distinct_keys(pairs),
        0 <= i < pairs.len(),
    ensures
        mapping(pairs).contains_key(pairs[i].0),
        mapping(pairs)[pairs[i].0] == pairs[i].1,
{
    lemma_overlay_last_wins(Map::empty(), pairs, i, pairs[i].0);
}

/// Pairs with distinct keys stand for a mapping with as many keys as there
/// are pairs.
pub proof fn lemma_mapping_size(pairs: Seq<Pair>)
    requires
        distinct_keys(pairs),
    ensures
        mapping(pairs).dom().finite(),
        mapping(pairs).dom().len() == pairs.len(),
    decreases pairs.len(),
{
    if pairs.len() > 0 {
        let front = pairs.drop_last();
        let key = pairs.last().0;
        assert forall|i: int, j: int| 0 <= i < j < front.len() implies (#[trigger] front[i]).0 != (
        #[trigger] front[j]).0 by {
            assert(pairs[i].0 != pairs[j].0);
        }
        lemma_mapping_size(front);
        lemma_overlay_keys(Map::empty(), front, key);
        if has_key(front, key) {
            let i = choose|i: int| 0 <= i < front.len() && (#[trigger] front[i]).0 == key;
            assert(pairs[i].0 != pairs[pairs.len() - 1].0);
        }
        assert(mapping(pairs).dom() =~= mapping(front).dom().insert(key));
    } else {
        assert(mapping(pairs).dom() =~= Set::empty());
    }
}

/// Setting a key in pairs with distinct keys keeps the keys distinct and
/// sets that key in the mapping.
pub proof fn lemma_inserted(pairs: Seq<Pair>, key: Seq<char>, value: Seq<char>)
    requires
        distinct_keys(pairs),
    ensures
        distinct_keys(inserted(pairs, key, value)),
        mapping(inserted(pairs, key, value)) == mapping(pairs).insert(key, value),
{
    let after = inserted(pairs, key, value);
    let at = if has_key(pairs, key) {
        choose|i: int| 0 <= i < pairs.len() && (#[trigger] pairs[i]).0 == key
    } else {
        pairs.len() as int
    };
    assert(after[at] == (key, value));
    assert forall|i: int| 0 <= i < after.len() && i != at implies #[trigger] after[i] == pairs[i]
        && pairs[i].0 != key by {
        if has_key(pairs, key) {
            assert(pairs[at].0 == key);
        }
    }
    assert forall|i: int, j: int| 0 <= i < j < after.len() implies (#[trigger] after[i]).0 != (
    #[trigger] after[j]).0 by {
        if i != at && j != at {
            assert(pairs[i].0 != pairs[j].0);
        }
    }
    let before_map = mapping(pairs).insert(key, value);
    let after_map = mapping(after);
    assert forall|q: Seq<char>| after_map.contains_key(q) <==> before_map.contains_key(q) by {
        lemma_overlay_keys(Map::empty(), pairs, q);
        lemma_overlay_keys(Map::empty(), after, q);
        if has_key(after, q) {
            let i = choose|i: int| 0 <= i < after.len() && (#[trigger] after[i]).0 == q;
            if i != at {
                assert(pairs[i].0 == q);
            }
        }
        if has_key(pairs, q) && q != key {
            let i = choose|i: int| 0 <= i < pairs.len() && (#[trigger] pairs[i]).0 == q;
            assert(after[i].0 == q);
        }
        if q == key {
            assert(after[at].0 == q);
        }
    }
    assert forall|q: Seq<char>| after_map.contains_key(q) implies after_map[q] == before_map[q] by {
        lemma_overlay_keys(Map::empty(), after, q);
        let i = choose|i: int| 0 <= i < after.len() && (#[trigger] after[i]).0 == q;
        lemma_distinct_lookup(after, i);
        if i != at {
            lemma_distinct_lookup(pairs, i);
        }
    }
    assert(after_map =~= before_map);
}

/// Merging into pairs with distinct keys keeps the keys distinct, and the
/// result stands for the old mapping overlaid with the incoming pairs.
pub proof fn lemma_merged(pairs: Seq<Pair>, incoming: Seq<Pair>)
    requires
        distinct_keys(pairs),
    ensures
        distinct_keys(merged(pairs, incoming)),
        mapping(merged(pairs, incoming)) == overlay(mapping(pairs), incoming),
    decreases incoming.len(),
{
    if incoming.len() > 0 {
        lemma_merged(pairs, incoming.drop_last());
        lemma_inserted(merged(pairs, incoming.drop_last()), incoming.last().0, incoming.last().1);
    }
}

/// The keys of `overlay_all(base, incoming)` are those of `base` and those
/// of the incoming sequences.
pub proof fn lemma_overlay_all_keys(
    base: Map<Seq<char>, Seq<char>>,
    incoming: Seq<Seq<Pair>>,
    key: Seq<char>,
)
    ensures
        overlay_all(base, incoming).contains_key(key) <==> base.contains_key(key) || exists|i: int|
            0 <= i < incoming.len() && has_key(#[trigger] incoming[i], key),
    decreases incoming.len(),
{
    if incoming.len() > 0 {
        let front = incoming.drop_last();
        lemma_overlay_all_keys(base, front, key);
        lemma_overlay_keys(overlay_all(base, front), incoming.last(), key);
        if exists|i: int| 0 <= i < front.len() && has_key(#[trigger] front[i], key) {
            let i = choose|i: int| 0 <= i < front.len() && has_key(#[trigger] front[i], key);
            assert(has_key(incoming[i], key));
        }
        if has_key(incoming.last(), key) {
            assert(has_key(incoming[incoming.len() - 1], key));
        }
        if exists|i: int| 0 <= i < incoming.len() && has_key(#[trigger] incoming[i], key) {
            let i = choose|i: int| 0 <= i < incoming.len() && has_key(#[trigger] incoming[i], key);
            if i < front.len() {
                assert(has_key(front[i], key));
            }
        }
    }
}

/// In `overlay_all(base, incoming)` a key has the value that the last
/// sequence with that key gives it in its last pair with that key.
pub proof fn lemma_overlay_all_last_wins(
    base: Map<Seq<char>, Seq<char>>,
    incoming: Seq<Seq<Pair>>,
    j: int,
    f: int,
    key: Seq<char>,
)
    requires
        0 <= j < incoming.len(),
        is_last_with_key(incoming[j], f, key),
        forall|l: int| j < l < incoming.len() ==> !has_key(#[trigger] incoming[l], key),
    ensures
        overlay_all(base, incoming).contains_key(key),
        overlay_all(base, incoming)[key] == incoming[j][f].1,
    decreases incoming.len(),
{
    let front = incoming.drop_last();
    if j == incoming.len() - 1 {
        lemma_overlay_last_wins(overlay_all(base, front), incoming.last(), f, key);
    } else {
        assert(!has_key(incoming[incoming.len() - 1], key));
        assert(front[j] == incoming[j]);
        assert forall|l: int| j < l < front.len() implies !has_key(#[trigger] front[l], key) by {
            assert(front[l] == incoming[l]);
        }
        lemma_overlay_all_last_wins(base, front, j, f, key);
        lemma_overlay_keys(overlay_all(base, front), incoming.last(), key);
    }
}

} // verus!
