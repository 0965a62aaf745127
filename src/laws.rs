//! Properties of the commitment stated over the model.

use vstd::prelude::*;
use crate::letters::letter_index;
use crate::model::{
    commitment, fold_root, is_sorted, leaf_level, lemma_map_of_empty, lemma_sorted_entries,
    lemma_sorted_unique, lookup, map_of,
};

verus! {

/// Rebuilding is deterministic: any two ascending enumerations of the same
/// leaf content reduce to the same root digest, which is the commitment to
/// that content.
pub proof fn lemma_rebuild_deterministic(a: Seq<(i32, char)>, b: Seq<(i32, char)>)
    requires
        is_sorted(a),
        is_sorted(b),
        map_of(a) == map_of(b),
        a.len() > 0,
    ensures
        fold_root(leaf_level(a)) == fold_root(leaf_level(b)),
        commitment(map_of(a)) == Some(fold_root(leaf_level(a))),
{
    lemma_sorted_unique(a, b);
    lemma_sorted_entries(a);
    lemma_map_of_empty(a);
}

/// A lookup after inserting `v` at `k` yields `v` at `k` and what it yielded
/// before at every other key.
pub proof fn lemma_get_after_insert(m: Map<i32, char>, k: i32, v: char, q: i32)
    ensures
        lookup(m.insert(k, v), q) == if q == k {
            v
        } else {
            lookup(m, q)
        },
{
}

/// The map reached from `m` by inserting each pair of `ops` in order.
pub open spec fn apply_inserts(m: Map<i32, char>, ops: Seq<(i32, char)>) -> Map<i32, char>
    decreases ops.len(),
{
    if ops.len() == 0 {
        m
    } else {
        apply_inserts(m, ops.drop_last()).insert(ops.last().0, ops.last().1)
    }
}

/// After any sequence of inserts, a key looks up as the value of the last
/// insert at that key, whatever was inserted at other keys after it.
pub proof fn lemma_last_insert_wins(m: Map<i32, char>, ops: Seq<(i32, char)>, i: int)
    requires
        0 <= i < ops.len(),
        forall|j: int| i < j < ops.len() ==> (#[trigger] ops[j]).0 != ops[i].0,
    ensures
        lookup(apply_inserts(m, ops), ops[i].0) == ops[i].1,
    decreases ops.len(),
{
    if i < ops.len() - 1 {
        let rest = ops.drop_last();
        assert forall|j: int| i < j < rest.len() implies (#[trigger] rest[j]).0 != rest[i].0 by {
            assert(rest[j] == ops[j]);
        }
        lemma_last_insert_wins(m, rest, i);
        assert(ops[ops.len() - 1].0 != ops[i].0);
    }
}

/// A key that was never inserted looks up as `'_'`.
pub proof fn lemma_get_absent(m: Map<i32, char>, q: i32)
    requires
        !m.contains_key(q),
    ensures
        lookup(m, q) == '_',
{
}

/// Inserting two different keys in either order commits to the same root.
pub proof fn lemma_insertion_order(m: Map<i32, char>, k1: i32, v1: char, k2: i32, v2: char)
    requires
        k1 != k2,
    ensures
        m.insert(k1, v1).insert(k2, v2) == m.insert(k2, v2).insert(k1, v1),
        commitment(m.insert(k1, v1).insert(k2, v2)) == commitment(m.insert(k2, v2).insert(k1, v1)),
{
    assert(m.insert(k1, v1).insert(k2, v2) =~= m.insert(k2, v2).insert(k1, v1));
}

/// Consecutive keys map to consecutive letters, `Z` wrapping round to `A`.
pub proof fn lemma_consecutive_letters(n: int)
    ensures
        letter_index(n + 1) == (letter_index(n) + 1) % 26,
        0 <= letter_index(n) < 26,
{
}

} // verus!
