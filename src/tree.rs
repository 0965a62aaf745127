//! The Merkle tree itself.

use vstd::prelude::*;
use crate::hashing::{leaf_digest, leaf_hash, node_hash};
use crate::inclusion::{steps_of, ProofStep};
use crate::model::{
    apply_steps, commitment, fold_root, index_of, is_paired, is_sorted, leaf_depth, leaf_level,
    lemma_fold_root_next, lemma_insert_entry, lemma_map_of_dom, lemma_map_of_empty,
    lemma_map_of_index, lemma_next_level_shorter, lemma_position_up, lemma_sorted_entries,
    lemma_steps_reach_root, lemma_trail, lemma_trail_above_single, lemma_update_entry, lookup,
    map_of, next_level, path_of, proof_of, reduction, sibling_steps, sorted_entries, trail,
    trail_above,
};

verus! {

/// Views a level of digest buffers as digest values.
pub open spec fn digests_of(v: Seq<Vec<u8>>) -> Seq<Seq<u8>> {
    v.map_values(|d: Vec<u8>| d@)
}

/// A Merkle commitment over integer keys and character values.
///
/// Leaves are held in ascending key order. The tree is stored level by
/// level: `levels[0]` holds the leaf digests and each following level is
/// the pairwise reduction of the one below it, so a node's parent is the
/// node at half its position one level up.
pub struct MerkleTree {
    leaves: Vec<(i32, char)>,
    levels: Vec<Vec<Vec<u8>>>,
}

impl View for MerkleTree {
    type V = Map<i32, char>;

    closed spec fn view(&self) -> Map<i32, char> {
        map_of(self.leaves@)
    }
}

/// Every digest of the level is a full 32-byte SHA-256 digest.
pub open spec fn full_width(level: Seq<Vec<u8>>) -> bool {
    forall|p: int| 0 <= p < level.len() ==> (#[trigger] level[p])@.len() == 32
}

/// Each level after the first is the reduction of the one below it.
pub open spec fn is_chain(levels: Seq<Vec<Vec<u8>>>) -> bool {
    forall|j: int|
        0 <= j < levels.len() - 1 ==> digests_of(#[trigger] levels[j + 1]@) == next_level(
            digests_of(levels[j]@),
        )
}

/// One node of a tree listing: its depth below the root, its key and value
/// when it is a leaf, and its digest.
pub struct NodeLine {
    pub depth: usize,
    pub key: Option<i32>,
    pub value: Option<char>,
    pub hash: Vec<u8>,
}

impl View for NodeLine {
    type V = (nat, Option<i32>, Option<char>, Seq<u8>);

    open spec fn view(&self) -> (nat, Option<i32>, Option<char>, Seq<u8>) {
        (self.depth as nat, self.key, self.value, self.hash@)
    }
}

/// Views a list of node lines.
pub open spec fn lines_of(v: Seq<NodeLine>) -> Seq<(nat, Option<i32>, Option<char>, Seq<u8>)> {
    v.map_values(|l: NodeLine| l@)
}

/// Pre-order listing of the subtree whose top is position `p` of level `j`,
/// at depth `d`. A node carried up unchanged from the level below is the
/// same node, so it is listed once, at its highest depth.
pub open spec fn listing(
    levels: Seq<Seq<Seq<u8>>>,
    leaves: Seq<(i32, char)>,
    j: int,
    p: int,
    d: nat,
) -> Seq<(nat, Option<i32>, Option<char>, Seq<u8>)>
    decreases j,
{
    if j <= 0 {
        seq![(d, Some(leaves[p].0), Some(leaves[p].1), levels[0][p])]
    } else if 2 * p + 1 < levels[j - 1].len() {
        seq![(d, None, None, levels[j][p])] + listing(levels, leaves, j - 1, 2 * p, d + 1)
            + listing(levels, leaves, j - 1, 2 * p + 1, d + 1)
    } else {
        listing(levels, leaves, j - 1, 2 * p, d)
    }
}

/// Pre-order listing of every node of the tree committing to `m`, root first.
pub open spec fn tree_listing(m: Map<i32, char>) -> Seq<(nat, Option<i32>, Option<char>, Seq<u8>)> {
    let s = sorted_entries(m);
    let levels = reduction(leaf_level(s));
    listing(levels, s, levels.len() - 1, 0, 0)
}

impl MerkleTree {
    /// The tree's internal consistency: sorted leaves, and levels that
    /// reduce the leaf digests down to a single root.
    pub closed spec fn wf(&self) -> bool {
        &&& is_sorted(self.leaves@)
        &&& forall|j: int| 0 <= j < self.levels@.len() ==> full_width(#[trigger] self.levels@[j]@)
        &&& self.leaves@.len() == 0 ==> self.levels@.len() == 0
        &&& self.leaves@.len() > 0 ==> {
            &&& self.levels@.len() >= 1
            &&& digests_of(self.levels@[0]@) == leaf_level(self.leaves@)
            &&& is_chain(self.levels@)
            &&& forall|j: int| 0 <= j < self.levels@.len() - 1 ==> (#[trigger] self.levels@[j])@.len() > 1
            &&& self.levels@.last()@.len() == 1
        }
    }

    /// An empty tree.
    pub fn new() -> (r: Self)
        ensures
            r.wf(),
            r@ == Map::<i32, char>::empty(),
    {
        let r = MerkleTree { leaves: Vec::new(), levels: Vec::new() };
        proof {
            lemma_map_of_empty(r.leaves@);
        }
        r
    }

    /// Inserts `value` at `key`, replacing any value already there, and
    /// rebuilds the tree from all leaves.
    pub fn insert(&mut self, key: i32, value: char)
        requires
            old(self).wf(),
        ensures
            final(self).wf(),
            final(self)@ == old(self)@.insert(key, value),
    {
        let n = self.leaves.len();
        let mut i: usize = 0;
        while i < n && self.leaves[i].0 < key
            invariant
                n == self.leaves.len(),
                i <= n,
                forall|j: int| 0 <= j < i ==> #[trigger] self.leaves@[j].0 < key,
            decreases n - i,
        {
            i = i + 1;
        }
        let ghost s = self.leaves@;
        if i < n && self.leaves[i].0 == key {
            self.leaves.set(i, (key, value));
            proof {
                lemma_update_entry(s, i as int, key, value);
            }
        } else {
            self.leaves.insert(i, (key, value));
            proof {
                lemma_insert_entry(s, i as int, key, value);
            }
        }
        self.build_tree();
    }

    /// Rebuilds the whole tree from its leaves. The contents, and with them
    /// the root digest, are unchanged: rebuilding is deterministic.
    pub fn rebuild(&mut self)
        requires
            old(self).wf(),
        ensures
            final(self).wf(),
            final(self)@ == old(self)@,
            commitment(final(self)@) == commitment(old(self)@),
    {
        self.build_tree();
    }

    /// Recomputes every level from the current leaves.
    fn build_tree(&mut self)
        requires
            is_sorted(old(self).leaves@),
        ensures
            final(self).wf(),
            final(self).leaves@ == old(self).leaves@,
    {
        let n = self.leaves.len();
        let mut levels: Vec<Vec<Vec<u8>>> = Vec::new();
        if n == 0 {
            self.levels = levels;
            return;
        }
        let mut current: Vec<Vec<u8>> = Vec::new();
        let mut i: usize = 0;
        while i < n
            invariant
                n == self.leaves.len(),
                i <= n,
                current@.len() == i,
                full_width(current@),
                forall|j: int|
                    0 <= j < i ==> (#[trigger] current@[j])@ == leaf_level(self.leaves@)[j],
            decreases n - i,
        {
            let (k, v) = self.leaves[i];
            current.push(leaf_hash(k, v));
            i = i + 1;
        }
        assert(digests_of(current@) =~= leaf_level(self.leaves@));
        while current.len() > 1
            invariant
                n == self.leaves.len(),
                n > 0,
                current@.len() >= 1,
                full_width(current@),
                forall|j: int| 0 <= j < levels@.len() ==> full_width(#[trigger] levels@[j]@),
                levels@.len() == 0 ==> digests_of(current@) == leaf_level(self.leaves@),
                forall|j: int| 0 <= j < levels@.len() ==> (#[trigger] levels@[j])@.len() > 1,
                levels@.len() > 0 ==> {
                    &&& digests_of(levels@[0]@) == leaf_level(self.leaves@)
                    &&& is_chain(levels@)
                    &&& digests_of(current@) == next_level(digests_of(levels@.last()@))
                },
            decreases current@.len(),
        {
            let next = pair_up(&current);
            proof {
                lemma_next_level_shorter(digests_of(current@));
                assert(next@.len() == digests_of(next@).len());
            }
            let ghost old_levels = levels@;
            levels.push(current);
            current = next;
            proof {
                assert forall|j: int| 0 <= j < levels@.len() - 1 implies digests_of(
                    #[trigger] levels@[j + 1]@,
                ) == next_level(digests_of(levels@[j]@)) by {
                    if j < old_levels.len() - 1 {
                        assert(old_levels[j + 1] == levels@[j + 1]);
                    }
                }
            }
        }
        let ghost old_levels = levels@;
        levels.push(current);
        proof {
            assert forall|j: int| 0 <= j < levels@.len() - 1 implies digests_of(
                #[trigger] levels@[j + 1]@,
            ) == next_level(digests_of(levels@[j]@)) by {
                if j < old_levels.len() - 1 {
                    assert(old_levels[j + 1] == levels@[j + 1]);
                }
            }
        }
        self.levels = levels;
    }

    /// The levels of digests, leaf level first.
    closed spec fn level_digests(&self) -> Seq<Seq<Seq<u8>>> {
        Seq::new(self.levels@.len(), |j: int| digests_of(self.levels@[j]@))
    }

    /// Every node of the tree in pre-order, root first, each with its depth;
    /// empty when the tree has no leaves.
    pub fn node_listing(&self) -> (r: Vec<NodeLine>)
        requires
            self.wf(),
        ensures
            self@ == Map::<i32, char>::empty() ==> r@.len() == 0,
            self@ != Map::<i32, char>::empty() ==> lines_of(r@) == tree_listing(self@),
    {
        let mut out: Vec<NodeLine> = Vec::new();
        proof {
            lemma_map_of_empty(self.leaves@);
        }
        let n = self.levels.len();
        if n > 0 {
            self.list_subtree(n - 1, 0, 0, &mut out);
            proof {
                let ls = self.level_digests();
                assert forall|i: int| 0 <= i < ls.len() - 1 implies #[trigger] ls[i + 1] == next_level(ls[i]) by {
                    assert(digests_of(self.levels@[i + 1]@) == next_level(digests_of(self.levels@[i]@)));
                }
                lemma_levels_are_reduction(ls, 0);
                assert(ls.subrange(0, ls.len() as int) =~= ls);
                lemma_sorted_entries(self.leaves@);
                assert(lines_of(out@) =~= Seq::empty() + listing(ls, self.leaves@, (n - 1) as int, 0, 0));
            }
        }
        out
    }

    fn list_subtree(&self, j: usize, p: usize, d: usize, out: &mut Vec<NodeLine>)
        requires
            self.wf(),
            j < self.levels@.len(),
            p < self.levels@[j as int]@.len(),
            d + j < self.levels@.len() <= usize::MAX,
        ensures
            lines_of(final(out)@) == lines_of(old(out)@) + listing(
                self.level_digests(),
                self.leaves@,
                j as int,
                p as int,
                d as nat,
            ),
        decreases j,
    {
        let ghost levels = self.level_digests();
        if j == 0 {
            assert(self.levels@[0]@.len() == leaf_level(self.leaves@).len());
            let (k, v) = self.leaves[p];
            out.push(NodeLine { depth: d, key: Some(k), value: Some(v), hash: self.levels[0][p].clone() });
            assert(lines_of(final(out)@) =~= lines_of(old(out)@) + listing(levels, self.leaves@, 0, p as int, d as nat));
        } else {
            let i = j - 1;
            assert(digests_of(self.levels@[i + 1]@) == next_level(digests_of(self.levels@[i as int]@)));
            let width = self.levels[i].len();
            assert(self.levels@[j as int]@.len() == digests_of(self.levels@[j as int]@).len());
            assert(p < (width + 1) / 2);
            if p < width / 2 {
                out.push(NodeLine { depth: d, key: None, value: None, hash: self.levels[j][p].clone() });
                self.list_subtree(i, 2 * p, d + 1, out);
                self.list_subtree(i, 2 * p + 1, d + 1, out);
                assert(lines_of(final(out)@) =~= lines_of(old(out)@) + listing(levels, self.leaves@, j as int, p as int, d as nat));
            } else {
                self.list_subtree(i, 2 * p, d, out);
            }
        }
    }

    /// The value stored at `key`, or `'_'` when the key has no leaf.
    pub fn get(&self, key: i32) -> (r: char)
        requires
            self.wf(),
        ensures
            r == lookup(self@, key),
    {
        match self.position(key) {
            Some(i) => self.leaves[i].1,
            None => '_',
        }
    }

    /// Where the leaf of `key` sits in the key order, if there is one.
    fn position(&self, key: i32) -> (r: Option<usize>)
        requires
            self.wf(),
        ensures
            match r {
                Some(i) => {
                    &&& i < self.leaves@.len()
                    &&& self.leaves@[i as int].0 == key
                    &&& self@.contains_key(key)
                    &&& self@[key] == self.leaves@[i as int].1
                    &&& index_of(self.leaves@, key) == i
                },
                None => !self@.contains_key(key),
            },
    {
        let n = self.leaves.len();
        let mut i: usize = 0;
        while i < n
            invariant
                self.wf(),
                n == self.leaves.len(),
                i <= n,
                forall|j: int| 0 <= j < i ==> #[trigger] self.leaves@[j].0 != key,
            decreases n - i,
        {
            if self.leaves[i].0 == key {
                proof {
                    lemma_map_of_index(self.leaves@, i as int);
                }
                return Some(i);
            }
            i = i + 1;
        }
        proof {
            lemma_map_of_dom(self.leaves@, key);
        }
        None
    }

    /// The root digest, or `None` when the tree has no leaves.
    pub fn root_hash(&self) -> (r: Option<Vec<u8>>)
        requires
            self.wf(),
        ensures
            match r {
                Some(d) => commitment(self@) == Some(d@),
                None => commitment(self@) == None::<Seq<u8>>,
            },
            r matches Some(d) ==> d@.len() == 32,
    {
        proof {
            lemma_map_of_empty(self.leaves@);
        }
        let n = self.levels.len();
        if n == 0 {
            return None;
        }
        proof {
            lemma_chain_root(self.levels@, n - 1);
            lemma_sorted_entries(self.leaves@);
        }
        Some(self.levels[n - 1][0].clone())
    }

    /// An inclusion proof for `key`: the sibling digests from the leaf up to
    /// the root, each with its side; `None` when `key` has no leaf.
    pub fn get_inclusion_proof(&self, key: i32) -> (r: Option<Vec<ProofStep>>)
        requires
            self.wf(),
        ensures
            r is Some <==> self@.contains_key(key),
            r matches Some(p) ==> steps_of(p@) == proof_of(self@, key),
            r matches Some(p) ==> forall|i: int| 0 <= i < p@.len() ==> (#[trigger] p@[i]).sibling@.len() == 32,
    {
        let i = match self.position(key) {
            Some(i) => i,
            None => {
                return None;
            },
        };
        let n = self.leaves.len();
        let ghost base = digests_of(self.levels@[0]@);
        assert(base.len() == n);
        let mut steps: Vec<ProofStep> = Vec::new();
        let top = self.levels.len() - 1;
        let mut pos: usize = i;
        let mut j: usize = 0;
        assert(steps_of(steps@) =~= Seq::<(Seq<u8>, bool)>::empty());
        while j < top
            invariant
                self.wf(),
                n == self.leaves.len(),
                n > 0,
                top == self.levels@.len() - 1,
                j <= top,
                i < n,
                base == digests_of(self.levels@[0]@),
                pos < self.levels@[j as int]@.len(),
                forall|t: int| 0 <= t < steps@.len() ==> (#[trigger] steps@[t]).sibling@.len() == 32,
                steps_of(steps@) + sibling_steps(digests_of(self.levels@[j as int]@), pos as int)
                    == sibling_steps(base, i as int),
            decreases top - j,
        {
            let ghost l = digests_of(self.levels@[j as int]@);
            let ghost up = digests_of(self.levels@[j + 1]@);
            let ghost before = steps_of(steps@);
            assert(up == next_level(l));
            let width = self.levels[j].len();
            if pos % 2 == 1 {
                steps.push(ProofStep { sibling: self.levels[j][pos - 1].clone(), sibling_on_left: true });
            } else if pos + 1 < width {
                steps.push(ProofStep { sibling: self.levels[j][pos + 1].clone(), sibling_on_left: false });
            }
            proof {
                if l.len() > 1 {
                    lemma_position_up(l, pos as int);
                    if is_paired(l.len() as int, pos as int) {
                        let added = steps_of(steps@).last();
                        assert(steps_of(steps@) =~= before.push(added));
                        assert(before + sibling_steps(l, pos as int) =~= before.push(added)
                            + sibling_steps(up, (pos / 2) as int));
                    } else {
                        assert(steps_of(steps@) =~= before);
                    }
                } else {
                    assert(up =~= l);
                    assert(steps_of(steps@) =~= before);
                }
            }
            pos = pos / 2;
            j = j + 1;
        }
        proof {
            assert(steps_of(steps@) =~= sibling_steps(base, i as int));
            lemma_sorted_entries(self.leaves@);
        }
        Some(steps)
    }

    /// The digests met going from the leaf at `key` up to the root, leaf
    /// first and root last; empty when `key` has no leaf.
    pub fn get_path_to_root(&self, key: i32) -> (r: Vec<Vec<u8>>)
        requires
            self.wf(),
        ensures
            digests_of(r@) == path_of(self@, key),
            self@.contains_key(key) ==> r@.len() >= 1 && r@[0]@ == leaf_digest(key, self@[key]),
            full_width(r@),
    {
        let i = match self.position(key) {
            Some(i) => i,
            None => {
                return Vec::new();
            },
        };
        let n = self.leaves.len();
        let ghost base = digests_of(self.levels@[0]@);
        assert(base.len() == n);
        assert(self.levels@[0]@.len() == base.len());
        let mut path: Vec<Vec<u8>> = Vec::new();
        path.push(self.levels[0][i].clone());
        let top = self.levels.len() - 1;
        let mut pos: usize = i;
        let mut j: usize = 0;
        assert(digests_of(path@) =~= seq![base[i as int]]);
        while j < top
            invariant
                self.wf(),
                n == self.leaves.len(),
                n > 0,
                top == self.levels@.len() - 1,
                j <= top,
                i < n,
                base == digests_of(self.levels@[0]@),
                pos < self.levels@[j as int]@.len(),
                full_width(path@),
                path@.len() >= 1,
                path@[0]@ == base[i as int],
                digests_of(path@) + trail_above(digests_of(self.levels@[j as int]@), pos as int)
                    == trail(base, i as int),
            decreases top - j,
        {
            let ghost l = digests_of(self.levels@[j as int]@);
            let ghost up = digests_of(self.levels@[j + 1]@);
            let ghost before = digests_of(path@);
            assert(up == next_level(l));
            let width = self.levels[j].len();
            if pos % 2 == 1 || pos + 1 < width {
                path.push(self.levels[j + 1][pos / 2].clone());
            }
            proof {
                if l.len() > 1 {
                    lemma_position_up(l, pos as int);
                    if is_paired(l.len() as int, pos as int) {
                        assert(digests_of(path@) =~= before.push(up[(pos / 2) as int]));
                        assert(before + trail_above(l, pos as int) =~= before.push(up[(pos / 2) as int])
                            + trail_above(up, (pos / 2) as int));
                    } else {
                        assert(digests_of(path@) =~= before);
                    }
                } else {
                    assert(up =~= l);
                    assert(digests_of(path@) =~= before);
                    lemma_trail_above_single(l, pos as int);
                    lemma_trail_above_single(up, (pos / 2) as int);
                }
            }
            pos = pos / 2;
            j = j + 1;
        }
        proof {
            lemma_trail_above_single(digests_of(self.levels@[top as int]@), pos as int);
            assert(digests_of(path@) =~= trail(base, i as int));
            lemma_sorted_entries(self.leaves@);
            lemma_map_of_index(self.leaves@, i as int);
        }
        path
    }
}

/// The digest trail of a stored key ends at the root digest and holds one
/// digest more than the leaf's depth.
pub proof fn lemma_path_ends_at_root(t: &MerkleTree, k: i32)
    requires
        t.wf(),
        t@.contains_key(k),
    ensures
        commitment(t@) == Some(path_of(t@, k).last()),
        path_of(t@, k).len() == leaf_depth(t@, k) + 1,
{
    let s = t.leaves@;
    let i = choose|i: int| 0 <= i < s.len() && #[trigger] s[i].0 == k;
    lemma_map_of_index(s, i);
    lemma_sorted_entries(s);
    lemma_map_of_empty(s);
    lemma_trail(leaf_level(s), i);
}

/// Levels that each reduce the one below, down to a single node, are the
/// reduction of their first level.
proof fn lemma_levels_are_reduction(ls: Seq<Seq<Seq<u8>>>, j: int)
    requires
        0 <= j < ls.len(),
        forall|i: int| 0 <= i < ls.len() - 1 ==> #[trigger] ls[i + 1] == next_level(ls[i]),
        forall|i: int| 0 <= i < ls.len() - 1 ==> (#[trigger] ls[i]).len() > 1,
        ls.last().len() == 1,
    ensures
        ls.subrange(j, ls.len() as int) == reduction(ls[j]),
    decreases ls.len() - j,
{
    if j == ls.len() - 1 {
        assert(ls.subrange(j, ls.len() as int) =~= seq![ls[j]]);
    } else {
        lemma_levels_are_reduction(ls, j + 1);
        assert(ls[j + 1] == next_level(ls[j]));
        assert(ls.subrange(j, ls.len() as int) =~= seq![ls[j]] + ls.subrange(j + 1, ls.len() as int));
    }
}

/// The inclusion proof of a stored key leads from its leaf digest to the
/// root digest, so it is accepted by `verify_inclusion` against that root.
pub proof fn lemma_inclusion_proof_verifies(t: &MerkleTree, k: i32)
    requires
        t.wf(),
        t@.contains_key(k),
    ensures
        commitment(t@) == Some(apply_steps(leaf_digest(k, t@[k]), proof_of(t@, k))),
{
    let s = t.leaves@;
    let i = choose|i: int| 0 <= i < s.len() && #[trigger] s[i].0 == k;
    lemma_map_of_index(s, i);
    lemma_sorted_entries(s);
    lemma_map_of_empty(s);
    lemma_steps_reach_root(leaf_level(s), i);
}

/// Every level of a chain folds to the same root.
proof fn lemma_chain_root(levels: Seq<Vec<Vec<u8>>>, j: int)
    requires
        is_chain(levels),
        0 <= j < levels.len(),
    ensures
        fold_root(digests_of(levels[0]@)) == fold_root(digests_of(levels[j]@)),
    decreases j,
{
    if j > 0 {
        lemma_chain_root(levels, j - 1);
        let k = j - 1;
        assert(digests_of(levels[k + 1]@) == next_level(digests_of(levels[k]@)));
        lemma_fold_root_next(digests_of(levels[j - 1]@));
    }
}

/// Combines consecutive pairs of `level`, carrying an unpaired last node up.
fn pair_up(level: &Vec<Vec<u8>>) -> (r: Vec<Vec<u8>>)
    requires
        level@.len() >= 1,
        full_width(level@),
    ensures
        digests_of(r@) == next_level(digests_of(level@)),
        full_width(r@),
{
    let n = level.len();
    let mut r: Vec<Vec<u8>> = Vec::new();
    let mut i: usize = 0;
    let ghost d = digests_of(level@);
    while i < n
        invariant
            n == level@.len(),
            d == digests_of(level@),
            i % 2 == 0 || i == n,
            i <= n,
            r@.len() == (i + 1) / 2,
            full_width(level@),
            full_width(r@),
            forall|j: int| 0 <= j < r@.len() ==> (#[trigger] r@[j])@ == next_level(d)[j],
        decreases n - i,
    {
        if i + 1 < n {
            r.push(node_hash(&level[i], &level[i + 1]));
            i = i + 2;
        } else {
            r.push(level[i].clone());
            i = n;
        }
    }
    assert(digests_of(r@) =~= next_level(d));
    r
}

} // verus!
