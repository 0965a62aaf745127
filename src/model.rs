//! The mathematical model: entries, the level-by-level reduction, digest
//! trails and inclusion proofs, with the lemmas relating them.

use vstd::prelude::*;
use crate::hashing::{leaf_digest, node_digest};

verus! {

/// Keys strictly ascending: the order leaves are stored and hashed in.
pub open spec fn is_sorted(s: Seq<(i32, char)>) -> bool {
    forall|i: int, j: int| 0 <= i < j < s.len() ==> #[trigger] s[i].0 < #[trigger] s[j].0
}

/// The key/value map that a sequence of entries holds.
pub open spec fn map_of(s: Seq<(i32, char)>) -> Map<i32, char> {
    Map::new(
        |k: i32| exists|i: int| 0 <= i < s.len() && #[trigger] s[i].0 == k,
        |k: i32| s[choose|i: int| 0 <= i < s.len() && #[trigger] s[i].0 == k].1,
    )
}

/// The entries of `m` in ascending key order.
pub open spec fn sorted_entries(m: Map<i32, char>) -> Seq<(i32, char)> {
    choose|s: Seq<(i32, char)>| is_sorted(s) && map_of(s) == m
}

/// What a lookup of `k` in `m` yields: the stored value, or `'_'` when absent.
pub open spec fn lookup(m: Map<i32, char>, k: i32) -> char {
    if m.contains_key(k) {
        m[k]
    } else {
        '_'
    }
}

/// The digests of the leaves, in order.
pub open spec fn leaf_level(s: Seq<(i32, char)>) -> Seq<Seq<u8>> {
    Seq::new(s.len(), |i: int| leaf_digest(s[i].0, s[i].1))
}

/// Whether the node at position `i` of a level of `n` nodes has a sibling.
pub open spec fn is_paired(n: int, i: int) -> bool {
    i % 2 == 1 || i + 1 < n
}

/// One pass of the pairwise reduction: consecutive pairs are combined and an
/// unpaired last node is carried up unchanged.
pub open spec fn next_level(level: Seq<Seq<u8>>) -> Seq<Seq<u8>> {
    Seq::new(
        ((level.len() + 1) / 2) as nat,
        |i: int|
            if 2 * i + 1 < level.len() {
                node_digest(level[2 * i], level[2 * i + 1])
            } else {
                level[2 * i]
            },
    )
}

/// The digest left over once `level` has been reduced to one node.
pub open spec fn fold_root(level: Seq<Seq<u8>>) -> Seq<u8>
    decreases level.len(),
{
    if level.len() <= 1 {
        level[0]
    } else {
        fold_root(next_level(level))
    }
}

/// The levels built over `level`: the level itself, then each reduction of
/// it, down to the level of one node.
pub open spec fn reduction(level: Seq<Seq<u8>>) -> Seq<Seq<Seq<u8>>>
    decreases level.len(),
{
    if level.len() <= 1 {
        seq![level]
    } else {
        seq![level] + reduction(next_level(level))
    }
}

/// The root digest committing to `m`; `None` for the empty map.
pub open spec fn commitment(m: Map<i32, char>) -> Option<Seq<u8>> {
    if m == Map::<i32, char>::empty() {
        None
    } else {
        Some(fold_root(leaf_level(sorted_entries(m))))
    }
}

/// Digests of the distinct nodes strictly above position `i` of `level`.
pub open spec fn trail_above(level: Seq<Seq<u8>>, i: int) -> Seq<Seq<u8>>
    decreases level.len(),
{
    if level.len() <= 1 {
        seq![]
    } else if is_paired(level.len() as int, i) {
        seq![next_level(level)[i / 2]] + trail_above(next_level(level), i / 2)
    } else {
        trail_above(next_level(level), i / 2)
    }
}

/// Number of internal nodes above position `i` of `level`: the leaf's depth.
pub open spec fn depth(level: Seq<Seq<u8>>, i: int) -> nat
    decreases level.len(),
{
    if level.len() <= 1 {
        0
    } else if is_paired(level.len() as int, i) {
        1 + depth(next_level(level), i / 2)
    } else {
        depth(next_level(level), i / 2)
    }
}

/// The digest trail from the node at position `i` of `level` up to the root.
pub open spec fn trail(level: Seq<Seq<u8>>, i: int) -> Seq<Seq<u8>> {
    seq![level[i]] + trail_above(level, i)
}

/// Position of key `k` in `s`.
pub open spec fn index_of(s: Seq<(i32, char)>, k: i32) -> int {
    choose|i: int| 0 <= i < s.len() && s[i].0 == k
}

/// The digest trail of key `k` in the tree committing to `m`; empty when `k` is absent.
pub open spec fn path_of(m: Map<i32, char>, k: i32) -> Seq<Seq<u8>> {
    if m.contains_key(k) {
        let s = sorted_entries(m);
        trail(leaf_level(s), index_of(s, k))
    } else {
        seq![]
    }
}

/// Number of internal nodes above the leaf of key `k` in the tree committing to `m`.
pub open spec fn leaf_depth(m: Map<i32, char>, k: i32) -> nat {
    let s = sorted_entries(m);
    depth(leaf_level(s), index_of(s, k))
}

/// The sibling digests met going up from position `i` of `level`, each with
/// whether the sibling sits on the left; an unpaired node carried up has none.
pub open spec fn sibling_steps(level: Seq<Seq<u8>>, i: int) -> Seq<(Seq<u8>, bool)>
    decreases level.len(),
{
    if level.len() <= 1 {
        seq![]
    } else if is_paired(level.len() as int, i) {
        let on_left = i % 2 == 1;
        let sibling = if on_left {
            level[i - 1]
        } else {
            level[i + 1]
        };
        seq![(sibling, on_left)] + sibling_steps(next_level(level), i / 2)
    } else {
        sibling_steps(next_level(level), i / 2)
    }
}

/// The digest reached from `start` by combining it with each sibling in turn.
pub open spec fn apply_steps(start: Seq<u8>, steps: Seq<(Seq<u8>, bool)>) -> Seq<u8>
    decreases steps.len(),
{
    if steps.len() == 0 {
        start
    } else {
        let next = if steps[0].1 {
            node_digest(steps[0].0, start)
        } else {
            node_digest(start, steps[0].0)
        };
        apply_steps(next, steps.drop_first())
    }
}

/// The inclusion proof of key `k` in the tree committing to `m`.
pub open spec fn proof_of(m: Map<i32, char>, k: i32) -> Seq<(Seq<u8>, bool)> {
    let s = sorted_entries(m);
    sibling_steps(leaf_level(s), index_of(s, k))
}

/// In sorted entries each key sits at exactly one position, and the map
/// holds that position's value.
pub proof fn lemma_map_of_index(s: Seq<(i32, char)>, i: int)
    requires
        is_sorted(s),
        0 <= i < s.len(),
    ensures
        map_of(s).contains_key(s[i].0),
        map_of(s)[s[i].0] == s[i].1,
        index_of(s, s[i].0) == i,
{
    let k = s[i].0;
    assert(exists|j: int| 0 <= j < s.len() && #[trigger] s[j].0 == k);
    let j = choose|j: int| 0 <= j < s.len() && #[trigger] s[j].0 == k;
    if j < i {
        assert(s[j].0 < s[i].0);
    } else if i < j {
        assert(s[i].0 < s[j].0);
    }
}

/// A key is in the map exactly when some entry carries it.
pub proof fn lemma_map_of_dom(s: Seq<(i32, char)>, k: i32)
    ensures
        map_of(s).contains_key(k) <==> exists|i: int| 0 <= i < s.len() && #[trigger] s[i].0 == k,
{
}

/// Dropping the last entry removes its key.
proof fn lemma_map_of_drop_last(s: Seq<(i32, char)>)
    requires
        is_sorted(s),
        s.len() > 0,
    ensures
        is_sorted(s.drop_last()),
        map_of(s.drop_last()) == map_of(s).remove(s.last().0),
{
    let t = s.drop_last();
    let n = s.len() - 1;
    assert forall|k: i32| #[trigger] map_of(t).contains_key(k) == map_of(s).remove(s.last().0).contains_key(k) by {
        if map_of(t).contains_key(k) {
            let i = choose|i: int| 0 <= i < t.len() && #[trigger] t[i].0 == k;
            assert(s[i].0 == k);
            assert(s[i].0 < s[n].0);
        }
        if map_of(s).remove(s.last().0).contains_key(k) {
            let i = choose|i: int| 0 <= i < s.len() && #[trigger] s[i].0 == k;
            assert(i != n);
            assert(t[i].0 == k);
        }
    }
    assert forall|k: i32| #[trigger] map_of(t).contains_key(k) implies map_of(t)[k] == map_of(s)[k] by {
        let i = choose|i: int| 0 <= i < t.len() && #[trigger] t[i].0 == k;
        lemma_map_of_index(t, i);
        lemma_map_of_index(s, i);
    }
    assert(map_of(t) =~= map_of(s).remove(s.last().0));
}

/// Overwriting the value at an existing key's position.
pub proof fn lemma_update_entry(s: Seq<(i32, char)>, i: int, k: i32, v: char)
    requires
        is_sorted(s),
        0 <= i < s.len(),
        s[i].0 == k,
    ensures
        is_sorted(s.update(i, (k, v))),
        map_of(s.update(i, (k, v))) == map_of(s).insert(k, v),
{
    let t = s.update(i, (k, v));
    assert forall|a: int, b: int| 0 <= a < b < t.len() implies #[trigger] t[a].0 < #[trigger] t[b].0 by {
        assert(s[a].0 < s[b].0);
    }
    assert forall|x: i32| #[trigger] map_of(t).contains_key(x) == map_of(s).insert(k, v).contains_key(x) by {
        if map_of(t).contains_key(x) {
            let j = choose|j: int| 0 <= j < t.len() && #[trigger] t[j].0 == x;
            assert(s[j].0 == x);
        }
        if map_of(s).contains_key(x) {
            let j = choose|j: int| 0 <= j < s.len() && #[trigger] s[j].0 == x;
            assert(t[j].0 == x);
        }
        if x == k {
            assert(t[i].0 == x);
        }
    }
    assert forall|x: i32| #[trigger] map_of(t).contains_key(x) implies map_of(t)[x] == map_of(s).insert(k, v)[x] by {
        let j = choose|j: int| 0 <= j < t.len() && #[trigger] t[j].0 == x;
        lemma_map_of_index(t, j);
        if j != i {
            lemma_map_of_index(s, j);
        }
    }
    assert(map_of(t) =~= map_of(s).insert(k, v));
}

/// Placing a new key at the position that keeps the keys ascending.
pub proof fn lemma_insert_entry(s: Seq<(i32, char)>, i: int, k: i32, v: char)
    requires
        is_sorted(s),
        0 <= i <= s.len(),
        forall|j: int| 0 <= j < i ==> #[trigger] s[j].0 < k,
        i < s.len() ==> s[i].0 > k,
    ensures
        is_sorted(s.insert(i, (k, v))),
        map_of(s.insert(i, (k, v))) == map_of(s).insert(k, v),
{
    let t = s.insert(i, (k, v));
    assert forall|j: int| i <= j < s.len() implies #[trigger] s[j].0 > k by {
        if j > i {
            assert(s[i].0 < s[j].0);
        }
    }
    assert forall|a: int, b: int| 0 <= a < b < t.len() implies #[trigger] t[a].0 < #[trigger] t[b].0 by {
        if b < i {
            assert(s[a].0 < s[b].0);
        } else if a > i {
            assert(s[a - 1].0 < s[b - 1].0);
        } else if a == i {
            assert(s[b - 1].0 > k);
        } else if b == i {
            assert(s[a].0 < k);
        } else {
            assert(s[a].0 < k);
            assert(s[b - 1].0 > k);
        }
    }
    assert forall|x: i32| #[trigger] map_of(t).contains_key(x) == map_of(s).insert(k, v).contains_key(x) by {
        if map_of(t).contains_key(x) {
            let j = choose|j: int| 0 <= j < t.len() && #[trigger] t[j].0 == x;
            if j < i {
                assert(s[j].0 == x);
            } else if j > i {
                assert(s[j - 1].0 == x);
            }
        }
        if map_of(s).contains_key(x) {
            let j = choose|j: int| 0 <= j < s.len() && #[trigger] s[j].0 == x;
            if j < i {
                assert(t[j].0 == x);
            } else {
                assert(t[j + 1].0 == x);
            }
        }
        if x == k {
            assert(t[i].0 == x);
        }
    }
    assert forall|x: i32| #[trigger] map_of(t).contains_key(x) implies map_of(t)[x] == map_of(s).insert(k, v)[x] by {
        let j = choose|j: int| 0 <= j < t.len() && #[trigger] t[j].0 == x;
        lemma_map_of_index(t, j);
        if j < i {
            lemma_map_of_index(s, j);
        } else if j > i {
            lemma_map_of_index(s, j - 1);
        }
    }
    assert(map_of(t) =~= map_of(s).insert(k, v));
}

/// Two sorted entry sequences holding the same map are the same sequence.
pub proof fn lemma_sorted_unique(a: Seq<(i32, char)>, b: Seq<(i32, char)>)
    requires
        is_sorted(a),
        is_sorted(b),
        map_of(a) == map_of(b),
    ensures
        a == b,
    decreases a.len() + b.len(),
{
    if a.len() == 0 {
        if b.len() > 0 {
            lemma_map_of_index(b, 0);
        }
        assert(a =~= b);
    } else if b.len() == 0 {
        lemma_map_of_index(a, 0);
    } else {
        let na = a.len() - 1;
        let nb = b.len() - 1;
        lemma_map_of_index(a, na);
        lemma_map_of_index(b, nb);
        let ia = choose|i: int| 0 <= i < b.len() && #[trigger] b[i].0 == a[na].0;
        let ib = choose|i: int| 0 <= i < a.len() && #[trigger] a[i].0 == b[nb].0;
        if ia < nb {
            assert(b[ia].0 < b[nb].0);
        }
        if ib < na {
            assert(a[ib].0 < a[na].0);
        }
        assert(a[na].0 == b[nb].0);
        lemma_map_of_drop_last(a);
        lemma_map_of_drop_last(b);
        lemma_sorted_unique(a.drop_last(), b.drop_last());
        assert(a =~= a.drop_last().push(a[na]));
        assert(b =~= b.drop_last().push(b[nb]));
    }
}

/// Sorted entries are the ones `sorted_entries` picks for their map.
pub proof fn lemma_sorted_entries(s: Seq<(i32, char)>)
    requires
        is_sorted(s),
    ensures
        sorted_entries(map_of(s)) == s,
{
    let m = map_of(s);
    assert(exists|t: Seq<(i32, char)>| is_sorted(t) && map_of(t) == m);
    let t = sorted_entries(m);
    lemma_sorted_unique(t, s);
}

/// The map of sorted entries is empty exactly when there are none.
pub proof fn lemma_map_of_empty(s: Seq<(i32, char)>)
    requires
        is_sorted(s),
    ensures
        (map_of(s) == Map::<i32, char>::empty()) <==> s.len() == 0,
{
    if s.len() == 0 {
        assert(map_of(s) =~= Map::<i32, char>::empty());
    } else {
        lemma_map_of_index(s, 0);
    }
}

/// Combining a node with its siblings in order leads to the root.
pub proof fn lemma_steps_reach_root(level: Seq<Seq<u8>>, i: int)
    requires
        0 <= i < level.len(),
    ensures
        apply_steps(level[i], sibling_steps(level, i)) == fold_root(level),
    decreases level.len(),
{
    if level.len() > 1 {
        let up = next_level(level);
        lemma_position_up(level, i);
        lemma_steps_reach_root(up, i / 2);
        if is_paired(level.len() as int, i) {
            let steps = sibling_steps(level, i);
            assert(steps.drop_first() =~= sibling_steps(up, i / 2));
            if i % 2 == 1 {
                assert(up[i / 2] == node_digest(level[i - 1], level[i]));
            } else {
                assert(up[i / 2] == node_digest(level[i], level[i + 1]));
            }
        }
    }
}

/// Reduction strictly shortens a level of two or more nodes and never empties it.
pub proof fn lemma_next_level_shorter(level: Seq<Seq<u8>>)
    requires
        level.len() > 1,
    ensures
        next_level(level).len() < level.len(),
        next_level(level).len() >= 1,
{
}

/// Reducing a level does not change the root it folds to.
pub proof fn lemma_fold_root_next(level: Seq<Seq<u8>>)
    ensures
        fold_root(next_level(level)) == fold_root(level),
{
    if level.len() <= 1 {
        assert(next_level(level) =~= level);
    }
}

/// Above a level of one node there is nothing left to visit.
pub proof fn lemma_trail_above_single(level: Seq<Seq<u8>>, i: int)
    requires
        level.len() <= 1,
    ensures
        trail_above(level, i) == Seq::<Seq<u8>>::empty(),
{
}

/// A node's position in the next level is half its position.
pub proof fn lemma_position_up(level: Seq<Seq<u8>>, i: int)
    requires
        0 <= i < level.len(),
        level.len() > 1,
    ensures
        0 <= i / 2 < next_level(level).len(),
        !is_paired(level.len() as int, i) ==> next_level(level)[i / 2] == level[i],
{
}

/// The trail from any node ends at the root and holds one digest per level
/// that the node reaches through a parent.
pub proof fn lemma_trail(level: Seq<Seq<u8>>, i: int)
    requires
        0 <= i < level.len(),
    ensures
        trail(level, i).last() == fold_root(level),
        trail(level, i).len() == depth(level, i) + 1,
    decreases level.len(),
{
    if level.len() > 1 {
        let up = next_level(level);
        lemma_position_up(level, i);
        lemma_trail(up, i / 2);
        if is_paired(level.len() as int, i) {
            assert(trail(level, i) =~= seq![level[i]] + trail(up, i / 2));
        } else {
            assert(trail(level, i) =~= trail(up, i / 2));
        }
    }
}

} // verus!
