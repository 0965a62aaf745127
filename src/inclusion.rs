//! Sibling-based inclusion proofs and their verification.

use vstd::prelude::*;
use crate::hashing::{leaf_digest, leaf_hash, node_hash};
use crate::model::apply_steps;

verus! {

/// One level of an inclusion proof: the digest of the sibling met there, and
/// whether it is the left child.
pub struct ProofStep {
    pub sibling: Vec<u8>,
    pub sibling_on_left: bool,
}

impl View for ProofStep {
    type V = (Seq<u8>, bool);

    open spec fn view(&self) -> (Seq<u8>, bool) {
        (self.sibling@, self.sibling_on_left)
    }
}

/// Views a list of proof steps.
pub open spec fn steps_of(v: Seq<ProofStep>) -> Seq<(Seq<u8>, bool)> {
    v.map_values(|s: ProofStep| s@)
}

/// Whether two byte strings are equal.
pub fn bytes_equal(a: &Vec<u8>, b: &Vec<u8>) -> (r: bool)
    ensures
        r == (a@ == b@),
{
    if a.len() != b.len() {
        return false;
    }
    let mut i: usize = 0;
    while i < a.len()
        invariant
            a@.len() == b@.len(),
            i <= a@.len(),
            forall|j: int| 0 <= j < i ==> a@[j] == b@[j],
        decreases a@.len() - i,
    {
        if a[i] != b[i] {
            return false;
        }
        i = i + 1;
    }
    assert(a@ =~= b@);
    true
}

/// Whether `steps` proves that `value` is stored at `key` in the tree whose
/// root digest is `root`: the leaf digest, combined with each sibling in
/// turn, must arrive at `root`.
pub fn verify_inclusion(root: &Vec<u8>, key: i32, value: char, steps: &Vec<ProofStep>) -> (r: bool)
    ensures
        r == (apply_steps(leaf_digest(key, value), steps_of(steps@)) == root@),
{
    let mut current = leaf_hash(key, value);
    let mut i: usize = 0;
    assert(steps_of(steps@).subrange(0, steps@.len() as int) =~= steps_of(steps@));
    while i < steps.len()
        invariant
            i <= steps@.len(),
            apply_steps(current@, steps_of(steps@).subrange(i as int, steps@.len() as int))
                == apply_steps(leaf_digest(key, value), steps_of(steps@)),
        decreases steps@.len() - i,
    {
        let ghost rest = steps_of(steps@).subrange(i as int, steps@.len() as int);
        let step = &steps[i];
        current = if step.sibling_on_left {
            node_hash(&step.sibling, &current)
        } else {
            node_hash(&current, &step.sibling)
        };
        assert(rest.drop_first() =~= steps_of(steps@).subrange(i + 1, steps@.len() as int));
        i = i + 1;
    }
    assert(steps_of(steps@).subrange(i as int, steps@.len() as int) =~= Seq::<(Seq<u8>, bool)>::empty());
    bytes_equal(&current, root)
}

} // verus!
