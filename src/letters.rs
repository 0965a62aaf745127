//! The key-to-letter mapping of the lettered datasets.

use vstd::prelude::*;
use crate::tree::MerkleTree;

verus! {

/// Position in the alphabet (0 for `A`) of the letter that key `n` maps to:
/// keys 1, 2, ..., 26 take `A` to `Z`, and the cycle repeats in both directions.
pub open spec fn letter_index(n: int) -> int {
    (n - 1) % 26
}

/// The upper-case letter that key `n` maps to.
pub open spec fn letter(n: int) -> char {
    ((65 + letter_index(n)) as u8) as char
}

/// The upper-case letter for `n`: `A` for 1, `B` for 2, ..., `Z` for 26, then again `A`.
pub fn int_to_char(n: i32) -> (r: char)
    ensures
        r == letter(n as int),
        r as u32 == 65 + letter_index(n as int),
{
    let shifted: u64 = ((n as i64) - 1 + 2147483650) as u64;
    let index: u64 = shifted % 26;
    assert(index == letter_index(n as int)) by {
        assert(2147483650 == 26 * 82595525);
        vstd::arithmetic::div_mod::lemma_mod_multiples_vanish(82595525, (n as int) - 1, 26);
    }
    let code: u8 = 65u8 + index as u8;
    code as char
}

/// The map that `lettered_tree(count, offset)` holds.
pub open spec fn lettered_map(count: int, offset: int) -> Map<i32, char> {
    Map::new(|k: i32| 1 <= k <= count, |k: i32| letter(k + offset))
}

/// A tree holding, at each key `k` from 1 to `count`, the letter for `k + offset`.
pub fn lettered_tree(count: i32, offset: i32) -> (t: MerkleTree)
    requires
        count as int + offset as int <= i32::MAX,
    ensures
        t.wf(),
        t@ == lettered_map(count as int, offset as int),
{
    let mut t = MerkleTree::new();
    let mut i: i32 = 0;
    assert(t@ =~= lettered_map(0, offset as int));
    while i < count
        invariant
            t.wf(),
            0 <= i,
            i <= count || i == 0,
            count as int + offset as int <= i32::MAX,
            t@ == lettered_map(i as int, offset as int),
        decreases count - i,
    {
        let k = i + 1;
        t.insert(k, int_to_char(k + offset));
        assert(t@ =~= lettered_map(k as int, offset as int));
        i = k;
    }
    assert(t@ =~= lettered_map(count as int, offset as int));
    t
}

} // verus!
