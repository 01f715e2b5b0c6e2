use vstd::prelude::*;

use crate::challenger;
use crate::field::{take_prefix, vals, FieldElement};
use crate::hash::{permute, permute_spec};

verus! {

/// The largest tree height an accumulator may be built with: every leaf position, and the
/// number of positions, must fit in a `usize` of 32 bits.
pub const MAX_TREE_HEIGHT: usize = 31;

/// `2^n`.
pub open spec fn pow2(n: nat) -> nat
    decreases n,
{
    if n == 0 {
        1
    } else {
        2 * pow2((n - 1) as nat)
    }
}

/// The four integers a digest stands for.
pub open spec fn digest_vals(h: challenger::Hash) -> Seq<int> {
    vals(h.elements@)
}

/// The digest of the empty leaf.
pub open spec fn zero_digest() -> Seq<int> {
    seq![0, 0, 0, 0]
}

/// Two-to-one compression: the first four elements of the permutation of `a ‖ b ‖ 0 0 0 0`.
pub open spec fn compress_spec(a: Seq<int>, b: Seq<int>) -> Seq<int> {
    permute_spec(a + b + zero_digest()).take(4)
}

/// The leaf at `index`, or the empty leaf past the inserted ones.
pub open spec fn leaf_at(leaves: Seq<Seq<int>>, index: int) -> Seq<int> {
    if 0 <= index < leaves.len() {
        leaves[index]
    } else {
        zero_digest()
    }
}

/// The digest of the subtree at `level` (leaves are level 0) and position `index`.
pub open spec fn node_spec(leaves: Seq<Seq<int>>, level: nat, index: int) -> Seq<int>
    decreases level,
{
    if level == 0 {
        leaf_at(leaves, index)
    } else {
        compress_spec(
            node_spec(leaves, (level - 1) as nat, 2 * index),
            node_spec(leaves, (level - 1) as nat, 2 * index + 1),
        )
    }
}

/// The root of a tree of the given height over `leaves`.
pub open spec fn root_spec(leaves: Seq<Seq<int>>, height: nat) -> Seq<int> {
    node_spec(leaves, height, 0)
}

/// The position of the other child of the same parent.
pub open spec fn sibling(index: int) -> int {
    if index % 2 == 0 {
        index + 1
    } else {
        index - 1
    }
}

/// The siblings on the path from position `index` of `level` up to `height`.
pub open spec fn path_spec(leaves: Seq<Seq<int>>, level: nat, index: int, height: nat) -> Seq<Seq<int>>
    decreases height - level,
{
    if level >= height {
        seq![]
    } else {
        seq![node_spec(leaves, level, sibling(index))] + path_spec(leaves, level + 1, index / 2, height)
    }
}

/// The root that a leaf at `index` and its siblings, lowest first, hash up to.
pub open spec fn path_root(leaf: Seq<int>, index: int, siblings: Seq<Seq<int>>) -> Seq<int>
    decreases siblings.len(),
{
    if siblings.len() == 0 {
        leaf
    } else {
        let parent = if index % 2 == 0 {
            compress_spec(leaf, siblings[0])
        } else {
            compress_spec(siblings[0], leaf)
        };
        path_root(parent, index / 2, siblings.skip(1))
    }
}

/// A node's siblings hash it up to the root.
proof fn lemma_path_from_node(leaves: Seq<Seq<int>>, level: nat, index: int, height: nat)
    requires
        level <= height,
        0 <= index < pow2((height - level) as nat),
    ensures
        path_root(node_spec(leaves, level, index), index, path_spec(leaves, level, index, height))
            == root_spec(leaves, height),
    decreases height - level,
{
    if level < height {
        let sibs = path_spec(leaves, level, index, height);
        assert(sibs.skip(1) =~= path_spec(leaves, level + 1, index / 2, height));
        assert(pow2((height - level) as nat) == 2 * pow2((height - (level + 1)) as nat));
        lemma_path_from_node(leaves, level + 1, index / 2, height);
    }
}

/// A membership proof: the leaf's position and its siblings from the leaf level up.
pub struct MerkleProof {
    pub leaf_index: usize,
    pub siblings: Vec<challenger::Hash>,
}

/// An append-only Merkle accumulator over the leaves of a tree of fixed height.
pub struct Accumulator {
    leaves: Vec<challenger::Hash>,
    height: usize,
    root: challenger::Hash,
    /// `levels[l]`: the digests of the subtrees of level `l` that hold an inserted leaf.
    levels: Vec<Vec<challenger::Hash>>,
    /// `empty[l]`: the digest of an empty subtree of level `l`.
    empty: Vec<challenger::Hash>,
}

/// The integers of each digest of `hs`.
pub open spec fn digests_vals(hs: Seq<challenger::Hash>) -> Seq<Seq<int>> {
    hs.map_values(|h: challenger::Hash| digest_vals(h))
}

/// Membership of `leaf` at `proof.leaf_index` in the tree whose root is `root`.
pub open spec fn proof_valid(leaf: Seq<int>, proof: MerkleProof, root: Seq<int>) -> bool {
    path_root(leaf, proof.leaf_index as int, digests_vals(proof.siblings@)) == root
}

fn zero_hash() -> (r: challenger::Hash)
    ensures
        digest_vals(r) == zero_digest(),
{
    let z = FieldElement::zero();
    let r = challenger::Hash { elements: [z, z, z, z] };
    assert(digest_vals(r) =~= zero_digest());
    r
}

/// Two-to-one compression of digests.
pub fn compress(a: &challenger::Hash, b: &challenger::Hash) -> (r: challenger::Hash)
    ensures
        digest_vals(r) == compress_spec(digest_vals(*a), digest_vals(*b)),
{
    let mut st: Vec<FieldElement> = Vec::new();
    let mut i: usize = 0;
    while i < 4
        invariant
            i <= 4,
            vals(st@) == digest_vals(*a).take(i as int),
        decreases 4 - i,
    {
        let ghost prev = st@;
        st.push(a.elements[i]);
        assert(vals(st@) =~= vals(prev).push(a.elements@[i as int].val()));
        assert(digest_vals(*a).take(i as int + 1) =~= digest_vals(*a).take(i as int).push(a.elements@[i as int].val()));
        i = i + 1;
    }
    let mut j: usize = 0;
    while j < 4
        invariant
            j <= 4,
            vals(st@) == digest_vals(*a) + digest_vals(*b).take(j as int),
        decreases 4 - j,
    {
        let ghost prev = st@;
        st.push(b.elements[j]);
        assert(vals(st@) =~= vals(prev).push(b.elements@[j as int].val()));
        assert(digest_vals(*b).take(j as int + 1) =~= digest_vals(*b).take(j as int).push(b.elements@[j as int].val()));
        j = j + 1;
    }
    let mut k: usize = 0;
    while k < 4
        invariant
            k <= 4,
            vals(st@) == digest_vals(*a) + digest_vals(*b) + zero_digest().take(k as int),
        decreases 4 - k,
    {
        let ghost prev = st@;
        st.push(FieldElement::zero());
        assert(zero_digest().take(k as int + 1) =~= zero_digest().take(k as int).push(0));
        assert(vals(st@) =~= vals(prev).push(0));
        k = k + 1;
    }
    assert(digest_vals(*a).take(4) =~= digest_vals(*a));
    assert(digest_vals(*b).take(4) =~= digest_vals(*b));
    assert(zero_digest().take(4) =~= zero_digest());
    let out = permute(&st);
    let r = challenger::Hash { elements: [out[0], out[1], out[2], out[3]] };
    assert(digest_vals(r) =~= vals(out@).take(4));
    r
}

/// Whether two digests are equal.
pub fn digest_eq(a: &challenger::Hash, b: &challenger::Hash) -> (r: bool)
    ensures
        r == (digest_vals(*a) == digest_vals(*b)),
{
    let mut i: usize = 0;
    while i < 4
        invariant
            i <= 4,
            forall|j: int| 0 <= j < i ==> digest_vals(*a)[j] == digest_vals(*b)[j],
        decreases 4 - i,
    {
        if a.elements[i].to_canonical_u64() != b.elements[i].to_canonical_u64() {
            assert(digest_vals(*a)[i as int] != digest_vals(*b)[i as int]);
            return false;
        }
        i = i + 1;
    }
    assert(digest_vals(*a) =~= digest_vals(*b));
    true
}

proof fn lemma_pow2_monotone(a: nat, b: nat)
    requires
        a <= b,
    ensures
        pow2(a) <= pow2(b),
    decreases b,
{
    if a < b {
        lemma_pow2_monotone(a, (b - 1) as nat);
    }
}

proof fn lemma_pow2_max()
    ensures
        pow2(MAX_TREE_HEIGHT as nat) == 2147483648,
{
    reveal_with_fuel(pow2, 32);
}

/// The digest of a subtree of the given level with no leaf inserted.
pub open spec fn empty_node(level: nat) -> Seq<int> {
    node_spec(Seq::<Seq<int>>::empty(), level, 0)
}

proof fn lemma_pow2_pos(n: nat)
    ensures
        pow2(n) >= 1,
    decreases n,
{
    if n > 0 {
        lemma_pow2_pos((n - 1) as nat);
    }
}

/// A subtree that lies wholly past the inserted leaves is empty.
proof fn lemma_zero_subtree(leaves: Seq<Seq<int>>, level: nat, index: int)
    requires
        index >= 0,
        index * pow2(level) >= leaves.len(),
    ensures
        node_spec(leaves, level, index) == empty_node(level),
    decreases level,
{
    if level == 0 {
        let q = pow2(level);
        assert(q == 1);
        assert(index * q == index) by (nonlinear_arith)
            requires
                q == 1,
        ;
    } else {
        let p = pow2((level - 1) as nat);
        lemma_pow2_pos((level - 1) as nat);
        assert(pow2(level) == 2 * p);
        assert((2 * index) * p == index * (2 * p)) by (nonlinear_arith);
        assert((2 * index + 1) * p >= (2 * index) * p) by (nonlinear_arith)
            requires
                p >= 1,
                index >= 0,
        ;
        lemma_zero_subtree(leaves, (level - 1) as nat, 2 * index);
        lemma_zero_subtree(leaves, (level - 1) as nat, 2 * index + 1);
        lemma_zero_subtree(Seq::<Seq<int>>::empty(), (level - 1) as nat, 1);
    }
}

/// Appending a leaf leaves every subtree that does not cover its position as it was.
proof fn lemma_push_other(leaves: Seq<Seq<int>>, x: Seq<int>, level: nat, index: int)
    requires
        index >= 0,
        !(index * pow2(level) <= leaves.len() < (index + 1) * pow2(level)),
    ensures
        node_spec(leaves.push(x), level, index) == node_spec(leaves, level, index),
    decreases level,
{
    if level == 0 {
        let q = pow2(level);
        assert(q == 1);
        assert(index * q == index && (index + 1) * q == index + 1) by (nonlinear_arith)
            requires
                q == 1,
        ;
        assert(index != leaves.len());
        if index < leaves.len() {
            assert(leaves.push(x)[index] == leaves[index]);
        }
    } else {
        let p = pow2((level - 1) as nat);
        let q = pow2(level);
        let n = leaves.len() as int;
        lemma_pow2_pos((level - 1) as nat);
        assert(q == 2 * p);
        assert(index * q == (2 * index) * p) by (nonlinear_arith)
            requires
                q == 2 * p,
        ;
        assert((index + 1) * q == (2 * index + 2) * p) by (nonlinear_arith)
            requires
                q == 2 * p,
        ;
        assert((2 * index + 1) * p == (2 * index) * p + p) by (nonlinear_arith);
        assert((2 * index + 2) * p == (2 * index + 1) * p + p) by (nonlinear_arith);
        assert(!(index * q <= n < (index + 1) * q));
        lemma_push_other(leaves, x, (level - 1) as nat, 2 * index);
        lemma_push_other(leaves, x, (level - 1) as nat, 2 * index + 1);
    }
}

/// The cached digests of `level` are the nodes over `leaves`, one for each subtree that holds an
/// inserted leaf, and no more.
pub open spec fn level_cached(cached: Seq<challenger::Hash>, leaves: Seq<Seq<int>>, level: nat) -> bool {
    &&& cached.len() * pow2(level) >= leaves.len()
    &&& forall|j: int|
        0 <= j < cached.len() ==> digest_vals(#[trigger] cached[j]) == node_spec(leaves, level, j) && j
            * pow2(level) < leaves.len()
}

/// The node at `level` and `index`, from the cache or the digest of an empty subtree.
fn cached_node(
    cached: &Vec<challenger::Hash>,
    empty: &challenger::Hash,
    level: usize,
    index: usize,
    Ghost(leaves): Ghost<Seq<Seq<int>>>,
) -> (r: challenger::Hash)
    requires
        level_cached(cached@, leaves, level as nat),
        digest_vals(*empty) == empty_node(level as nat),
    ensures
        digest_vals(r) == node_spec(leaves, level as nat, index as int),
{
    if index < cached.len() {
        cached[index]
    } else {
        proof {
            let p = pow2(level as nat);
            lemma_pow2_pos(level as nat);
            assert(index * p >= cached.len() * p) by (nonlinear_arith)
                requires
                    index >= cached.len(),
                    p >= 1,
            ;
            lemma_zero_subtree(leaves, level as nat, index as int);
        }
        *empty
    }
}

/// Why an insertion was refused.
#[derive(Clone, Copy, PartialEq, Eq, Structural, Debug)]
pub enum AccumulatorError {
    /// Every leaf position of the tree is taken.
    CapacityExceeded,
}

impl Accumulator {
    /// The digests of the inserted leaves, in insertion order.
    pub closed spec fn leaves(&self) -> Seq<Seq<int>> {
        digests_vals(self.leaves@)
    }

    /// The height of the tree: it has `2^height` leaf positions.
    pub closed spec fn height(&self) -> nat {
        self.height as nat
    }

    /// The leaves fit in the tree and the cached root is the root over them.
    pub closed spec fn wf(&self) -> bool {
        &&& self.height <= MAX_TREE_HEIGHT
        &&& self.leaves.len() <= pow2(self.height as nat)
        &&& digest_vals(self.root) == root_spec(digests_vals(self.leaves@), self.height as nat)
        &&& self.levels.len() == self.height + 1
        &&& self.empty.len() == self.height + 1
        &&& forall|l: int| 0 <= l <= self.height ==> digest_vals(#[trigger] self.empty@[l]) == empty_node(l as nat)
        &&& forall|l: int|
            0 <= l <= self.height ==> level_cached(#[trigger] self.levels@[l]@, digests_vals(self.leaves@), l as nat)
    }

    /// An empty accumulator over a tree of the given height.
    pub fn new(height: usize) -> (r: Accumulator)
        requires
            height <= MAX_TREE_HEIGHT,
        ensures
            r.wf(),
            r.height() == height,
            r.leaves() == Seq::<Seq<int>>::empty(),
    {
        let leaves: Vec<challenger::Hash> = Vec::new();
        let ghost none = Seq::<Seq<int>>::empty();
        assert(digests_vals(leaves@) =~= none);
        let mut empty: Vec<challenger::Hash> = Vec::new();
        let mut levels: Vec<Vec<challenger::Hash>> = Vec::new();
        let mut e = zero_hash();
        let mut l: usize = 0;
        while l <= height
            invariant
                l <= height + 1,
                height <= MAX_TREE_HEIGHT,
                none == Seq::<Seq<int>>::empty(),
                empty.len() == l,
                levels.len() == l,
                l <= height ==> digest_vals(e) == empty_node(l as nat),
                forall|k: int| 0 <= k < l ==> digest_vals(#[trigger] empty@[k]) == empty_node(k as nat),
                forall|k: int| 0 <= k < l ==> (#[trigger] levels@[k])@.len() == 0,
            decreases height + 1 - l,
        {
            empty.push(e);
            levels.push(Vec::new());
            if l < height {
                proof {
                    lemma_pow2_pos(l as nat);
                    assert(1 * pow2(l as nat) >= 0);
                    lemma_zero_subtree(none, l as nat, 1);
                    assert(((l + 1) - 1) as nat == l as nat);
                }
                e = compress(&e, &e);
            }
            l = l + 1;
        }
        let root = empty[height];
        let r = Accumulator { leaves, height, root, levels, empty };
        assert(r.leaves() =~= none);
        assert forall|k: int| 0 <= k <= height implies level_cached(
            #[trigger] r.levels@[k]@,
            digests_vals(r.leaves@),
            k as nat,
        ) by {
            assert(r.levels@[k]@.len() == 0);
        }
        r
    }

    /// The number of leaves inserted so far: the position of the next insertion.
    pub fn next_free_index(&self) -> (r: usize)
        ensures
            r == self.leaves().len(),
    {
        self.leaves.len()
    }

    pub fn tree_height(&self) -> (r: usize)
        ensures
            r == self.height(),
    {
        self.height
    }

    /// The current root.
    pub fn root(&self) -> (r: challenger::Hash)
        requires
            self.wf(),
        ensures
            digest_vals(r) == root_spec(self.leaves(), self.height()),
    {
        self.root
    }

    /// Appends `leaf` at the next free position and returns that position, unless the tree is
    /// full.
    pub fn insert(&mut self, leaf: challenger::Hash) -> (r: Result<usize, AccumulatorError>)
        requires
            old(self).wf(),
        ensures
            final(self).wf(),
            final(self).height() == old(self).height(),
            old(self).leaves().len() < pow2(old(self).height()) <==> r is Ok,
            r is Ok ==> final(self).leaves() == old(self).leaves().push(digest_vals(leaf))
                && r->Ok_0 == old(self).leaves().len(),
            r is Err ==> final(self).leaves() == old(self).leaves() && r->Err_0
                == AccumulatorError::CapacityExceeded,
    {
        proof {
            lemma_pow2_monotone(self.height as nat, MAX_TREE_HEIGHT as nat);
            lemma_pow2_max();
        }
        if self.leaves.len() as u64 >= self.capacity() as u64 {
            return Err(AccumulatorError::CapacityExceeded);
        }
        let index = self.leaves.len();
        let ghost old_leaves = self.leaves();
        self.leaves.push(leaf);
        let ghost nl = self.leaves();
        assert(nl =~= old_leaves.push(digest_vals(leaf)));
        let ghost levels0 = self.levels@;
        let mut lv = self.levels.remove(0);
        proof {
            assert(old(self).levels@[0]@ == lv@);
            assert(pow2(0) == 1);
            if lv.len() > index {
                assert(digest_vals(lv@[index as int]) == node_spec(old_leaves, 0, index as int));
                assert(index * pow2(0) == index);
            }
            assert(lv.len() * pow2(0) == lv.len());
            assert(lv.len() == index);
        }
        lv.push(leaf);
        proof {
            assert forall|j: int| 0 <= j < lv@.len() implies digest_vals(#[trigger] lv@[j]) == node_spec(nl, 0, j)
                && j * pow2(0) < nl.len() by {
                if j < index {
                    assert(old(self).levels@[0]@[j] == lv@[j]);
                }
            }
        }
        assert(lv@.len() * pow2(0) == lv@.len());
        assert(level_cached(lv@, nl, 0));
        self.levels.insert(0, lv);
        assert(self.levels@ =~= levels0.update(0, lv));
        let h = self.height;
        let mut l: usize = 1;
        let mut idx: usize = index;
        while l <= h
            invariant
                1 <= l <= h + 1,
                h == self.height,
                h <= MAX_TREE_HEIGHT,
                index == old_leaves.len(),
                nl == self.leaves(),
                nl == old_leaves.push(digest_vals(leaf)),
                index < pow2(h as nat),
                self.levels.len() == h + 1,
                self.empty@ == old(self).empty@,
                self.empty.len() == h + 1,
                forall|k: int| 0 <= k <= h ==> digest_vals(#[trigger] self.empty@[k]) == empty_node(k as nat),
                forall|k: int| 0 <= k < l ==> level_cached(#[trigger] self.levels@[k]@, nl, k as nat),
                forall|k: int| l <= k <= h ==> level_cached(#[trigger] self.levels@[k]@, old_leaves, k as nat),
                idx * pow2((l - 1) as nat) <= index < (idx + 1) * pow2((l - 1) as nat),
            decreases h + 1 - l,
        {
            let parent = idx / 2;
            let ghost pp = pow2((l - 1) as nat);
            let ghost q = pow2(l as nat);
            proof {
                lemma_pow2_pos((l - 1) as nat);
                assert(q == 2 * pp);
                assert(parent * q <= index < (parent + 1) * q) by (nonlinear_arith)
                    requires
                        q == 2 * pp,
                        pp >= 1,
                        idx * pp <= index < (idx + 1) * pp,
                        parent == idx / 2,
                        idx >= 0,
                ;
                lemma_pow2_monotone(l as nat, MAX_TREE_HEIGHT as nat);
                lemma_pow2_max();
                assert(parent * q >= parent) by (nonlinear_arith)
                    requires
                        q >= 1,
                        parent >= 0,
                ;
            }
            let left = cached_node(&self.levels[l - 1], &self.empty[l - 1], l - 1, 2 * parent, Ghost(nl));
            let right = cached_node(&self.levels[l - 1], &self.empty[l - 1], l - 1, 2 * parent + 1, Ghost(nl));
            let node = compress(&left, &right);
            assert(digest_vals(node) == node_spec(nl, l as nat, parent as int));
            let ghost levels_before = self.levels@;
            let mut lv = self.levels.remove(l);
            let ghost before = lv@;
            assert(before == levels_before[l as int]@);
            proof {
                assert(level_cached(before, old_leaves, l as nat));
                if parent > lv.len() {
                    assert(before.len() * q < parent * q) by (nonlinear_arith)
                        requires
                            before.len() < parent,
                            q >= 1,
                    ;
                    let j = before.len() - 1;
                    if before.len() > 0 {
                        assert(j * q < index);
                        assert(j + 1 <= parent - 1);
                        assert((j + 1) * q <= parent * q) by (nonlinear_arith)
                            requires
                                j + 1 <= parent,
                                q >= 1,
                        ;
                    }
                }
            }
            if parent < lv.len() {
                lv.set(parent, node);
            } else {
                lv.push(node);
            }
            proof {
                assert(lv@.len() * q >= nl.len()) by (nonlinear_arith)
                    requires
                        lv@.len() >= parent + 1,
                        (parent + 1) * q > index,
                        nl.len() == index + 1,
                ;
                assert forall|j: int| 0 <= j < lv@.len() implies digest_vals(#[trigger] lv@[j]) == node_spec(nl, l as nat, j)
                    && j * q < nl.len() by {
                    if j != parent {
                        assert(lv@[j] == before[j]);
                        assert(!(j * q <= index < (j + 1) * q)) by (nonlinear_arith)
                            requires
                                j != parent,
                                parent * q <= index < (parent + 1) * q,
                                q >= 1,
                                j >= 0,
                                parent >= 0,
                        ;
                        lemma_push_other(old_leaves, digest_vals(leaf), l as nat, j);
                    }
                }
            }
            self.levels.insert(l, lv);
            assert(self.levels@ =~= levels_before.update(l as int, lv));
            assert(level_cached(lv@, nl, l as nat));
            idx = parent;
            l = l + 1;
        }
        self.root = cached_node(&self.levels[h], &self.empty[h], h, 0, Ghost(nl));
        Ok(index)
    }

    /// The number of leaf positions, `2^height`.
    pub fn capacity(&self) -> (r: usize)
        requires
            self.wf(),
        ensures
            r == pow2(self.height()),
    {
        let mut c: usize = 1;
        let mut i: usize = 0;
        while i < self.height
            invariant
                i <= self.height <= MAX_TREE_HEIGHT,
                c == pow2(i as nat),
            decreases self.height - i,
        {
            proof {
                lemma_pow2_monotone((i + 1) as nat, MAX_TREE_HEIGHT as nat);
                lemma_pow2_max();
            }
            c = c * 2;
            i = i + 1;
        }
        c
    }

    /// Round trip: after any sequence of insertions, the proof of each inserted leaf, as
    /// `prove` builds it, is valid against the root as `root` returns it.
    pub proof fn lemma_prove_verifies(&self, proof: MerkleProof, index: int)
        requires
            self.wf(),
            0 <= index < self.leaves().len(),
            proof.leaf_index == index,
            digests_vals(proof.siblings@) == path_spec(self.leaves(), 0, index, self.height()),
        ensures
            proof_valid(self.leaves()[index], proof, root_spec(self.leaves(), self.height())),
    {
        lemma_path_from_node(self.leaves(), 0, index, self.height());
    }

    /// Whether `leaf` has been inserted.
    pub fn contains(&self, leaf: &challenger::Hash) -> (r: bool)
        ensures
            r == self.leaves().contains(digest_vals(*leaf)),
    {
        let mut i: usize = 0;
        while i < self.leaves.len()
            invariant
                i <= self.leaves.len(),
                forall|j: int| 0 <= j < i ==> self.leaves()[j] != digest_vals(*leaf),
            decreases self.leaves.len() - i,
        {
            if digest_eq(&self.leaves[i], leaf) {
                assert(self.leaves()[i as int] == digest_vals(*leaf));
                return true;
            }
            i = i + 1;
        }
        false
    }

    /// A copy of the accumulator.
    pub fn snapshot(&self) -> (r: Accumulator)
        ensures
            r.leaves() == self.leaves(),
            r.height() == self.height(),
            self.wf() ==> r.wf(),
    {
        let leaves = take_prefix(&self.leaves, self.leaves.len());
        assert(leaves@ =~= self.leaves@);
        let empty = take_prefix(&self.empty, self.empty.len());
        assert(empty@ =~= self.empty@);
        let mut levels: Vec<Vec<challenger::Hash>> = Vec::new();
        let mut l: usize = 0;
        while l < self.levels.len()
            invariant
                l <= self.levels.len(),
                levels.len() == l,
                forall|k: int| 0 <= k < l ==> (#[trigger] levels@[k])@ == self.levels@[k]@,
            decreases self.levels.len() - l,
        {
            let lv = take_prefix(&self.levels[l], self.levels[l].len());
            assert(lv@ =~= self.levels@[l as int]@);
            levels.push(lv);
            l = l + 1;
        }
        Accumulator { leaves, height: self.height, root: self.root, levels, empty }
    }

    /// A membership proof for the leaf at `index`, against the current root.
    pub fn prove(&self, index: usize) -> (r: MerkleProof)
        requires
            self.wf(),
            index < self.leaves().len(),
        ensures
            r.leaf_index == index,
            digests_vals(r.siblings@) == path_spec(self.leaves(), 0, index as int, self.height()),
    {
        let mut siblings: Vec<challenger::Hash> = Vec::new();
        let mut level: usize = 0;
        let mut idx: usize = index;
        proof {
            lemma_pow2_monotone(self.height as nat, MAX_TREE_HEIGHT as nat);
        }
        while level < self.height
            invariant
                self.wf(),
                level <= self.height,
                idx < pow2((self.height - level) as nat),
                digests_vals(siblings@) + path_spec(self.leaves(), level as nat, idx as int, self.height())
                    == path_spec(self.leaves(), 0, index as int, self.height()),
            decreases self.height - level,
        {
            assert(pow2((self.height - level) as nat) == 2 * pow2((self.height - level - 1) as nat));
            let sib: usize = if idx % 2 == 0 { idx + 1 } else { idx - 1 };
            let h = cached_node(&self.levels[level], &self.empty[level], level, sib, Ghost(self.leaves()));
            let ghost prev = siblings@;
            siblings.push(h);
            assert(digests_vals(siblings@) =~= digests_vals(prev).push(digest_vals(h)));
            assert(digests_vals(siblings@) + path_spec(self.leaves(), (level + 1) as nat, idx as int / 2, self.height())
                =~= digests_vals(prev) + path_spec(self.leaves(), level as nat, idx as int, self.height()));
            idx = idx / 2;
            level = level + 1;
        }
        assert(digests_vals(siblings@) + seq![] =~= digests_vals(siblings@));
        MerkleProof { leaf_index: index, siblings }
    }
}

/// Whether `proof` shows `leaf` at `proof.leaf_index` in the tree whose root is `root`.
pub fn verify_merkle_proof(leaf: &challenger::Hash, proof: &MerkleProof, root: &challenger::Hash) -> (r: bool)
    ensures
        r == proof_valid(digest_vals(*leaf), *proof, digest_vals(*root)),
{
    let ghost sibs = digests_vals(proof.siblings@);
    let mut cur = *leaf;
    let mut idx: usize = proof.leaf_index;
    let mut l: usize = 0;
    assert(sibs.skip(0) =~= sibs);
    while l < proof.siblings.len()
        invariant
            l <= proof.siblings.len(),
            sibs == digests_vals(proof.siblings@),
            path_root(digest_vals(cur), idx as int, sibs.skip(l as int))
                == path_root(digest_vals(*leaf), proof.leaf_index as int, sibs),
        decreases proof.siblings.len() - l,
    {
        let sib = proof.siblings[l];
        assert(sibs.skip(l as int)[0] == digest_vals(sib));
        assert(sibs.skip(l as int).skip(1) =~= sibs.skip(l as int + 1));
        cur = if idx % 2 == 0 { compress(&cur, &sib) } else { compress(&sib, &cur) };
        idx = idx / 2;
        l = l + 1;
    }
    digest_eq(&cur, root)
}

} // verus!
