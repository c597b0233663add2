//! Poseidon Merkle trees over note commitments, and membership paths.
use vstd::prelude::*;
use crate::encoding::decimal_text;
use crate::field::{decimal_value, fe_zero, is_canonical_decimal, modulus_r, Fe};
use crate::note::{fe_to_string, string_to_fe};
use crate::poseidon::{poseidon2_spec, poseidon_hash_2};

verus! {

/// The default tree height: 20 levels, about a million leaves.
pub const DEFAULT_TREE_HEIGHT: usize = 20;

/// 2 to the power `n`.
pub open spec fn two_pow(n: nat) -> nat
    decreases n,
{
    if n == 0 {
        1
    } else {
        2 * two_pow((n - 1) as nat)
    }
}

/// The hash of an empty subtree of the given height:
/// Z(0) = 0 and Z(k) = Poseidon(Z(k-1), Z(k-1)).
pub open spec fn zero_value(level: nat) -> Fe
    decreases level,
{
    if level == 0 {
        fe_zero()
    } else {
        poseidon2_spec(zero_value((level - 1) as nat), zero_value((level - 1) as nat))
    }
}

/// The leaf at an index: the inserted leaf, or zero past the last one.
pub open spec fn leaf_at(leaves: Seq<Fe>, index: nat) -> Fe {
    if index < leaves.len() {
        leaves[index as int]
    } else {
        fe_zero()
    }
}

/// The hash of the node at `index` among the nodes `level` levels above
/// the leaves.
pub open spec fn node_hash(leaves: Seq<Fe>, index: nat, level: nat) -> Fe
    decreases level,
{
    if level == 0 {
        leaf_at(leaves, index)
    } else {
        poseidon2_spec(
            node_hash(leaves, 2 * index, (level - 1) as nat),
            node_hash(leaves, 2 * index + 1, (level - 1) as nat),
        )
    }
}

/// The index of a node's sibling.
pub open spec fn sibling_index(index: nat) -> nat {
    if index % 2 == 1 {
        (index - 1) as nat
    } else {
        index + 1
    }
}

/// The value reached from `leaf` after the first `n` steps of a path: at each
/// step the current value is hashed with the sibling, on the right of it when
/// the index bit is set and on its left otherwise.
pub open spec fn fold_path(siblings: Seq<Fe>, indices: Seq<bool>, leaf: Fe, n: nat) -> Fe
    decreases n,
{
    if n == 0 {
        leaf
    } else {
        let cur = fold_path(siblings, indices, leaf, (n - 1) as nat);
        if indices[n - 1] {
            poseidon2_spec(siblings[n - 1], cur)
        } else {
            poseidon2_spec(cur, siblings[n - 1])
        }
    }
}

/// The root a path yields for a leaf; steps go as far as both the siblings
/// and the index bits reach.
pub open spec fn path_root(siblings: Seq<Fe>, indices: Seq<bool>, leaf: Fe) -> Fe {
    fold_path(siblings, indices, leaf, if siblings.len() <= indices.len() { siblings.len() } else { indices.len() })
}

/// The leaf position that path bits encode, least significant first:
/// the sum of 2^l over the levels l whose bit is set.
pub open spec fn path_position(bits: Seq<bool>) -> nat
    decreases bits.len(),
{
    if bits.len() == 0 {
        0
    } else {
        (if bits[0] { 1nat } else { 0nat }) + 2 * path_position(bits.drop_first())
    }
}

/// The index bits of a leaf position below 2^height encode that position.
pub proof fn lemma_position_of_bits(i: nat, height: nat)
    requires
        i < two_pow(height),
    ensures
        path_position(Seq::new(height, |l: int| (i / two_pow(l as nat)) % 2 == 1)) == i,
    decreases height,
{
    let s = Seq::new(height, |l: int| (i / two_pow(l as nat)) % 2 == 1);
    if height > 0 {
        let h1 = (height - 1) as nat;
        let half = i / 2;
        let t = Seq::new(h1, |l: int| (half / two_pow(l as nat)) % 2 == 1);
        assert forall|l: int| 0 <= l < h1 implies #[trigger] s.drop_first()[l] == t[l] by {
            assert(two_pow((l + 1) as nat) == 2 * two_pow(l as nat));
            lemma_two_pow_positive(l as nat);
            vstd::arithmetic::div_mod::lemma_div_denominator(i as int, 2, two_pow(l as nat) as int);
        }
        assert(s.drop_first() =~= t);
        assert(half < two_pow(h1));
        lemma_position_of_bits(half, h1);
        assert(two_pow(0) == 1);
        assert(s[0] == ((i / two_pow(0)) % 2 == 1));
        assert(i / 1 == i);
    }
}

proof fn lemma_two_pow_positive(n: nat)
    ensures
        two_pow(n) > 0,
    decreases n,
{
    if n > 0 {
        lemma_two_pow_positive((n - 1) as nat);
    }
}

/// The decimal texts of a sequence of field elements.
pub fn serialize_vec_fe(vec: &Vec<Fe>) -> (out: Vec<String>)
    requires
        forall|i: int| 0 <= i < vec@.len() ==> (#[trigger] vec@[i]).wf(),
    ensures
        out@.len() == vec@.len(),
        forall|i: int| 0 <= i < vec@.len() ==> #[trigger] out@[i]@ == decimal_text(vec@[i].value()),
{
    let mut out: Vec<String> = Vec::new();
    let mut i: usize = 0;
    while i < vec.len()
        invariant
            i <= vec@.len(),
            forall|k: int| 0 <= k < vec@.len() ==> (#[trigger] vec@[k]).wf(),
            out@.len() == i,
            forall|k: int| 0 <= k < i ==> #[trigger] out@[k]@ == decimal_text(vec@[k].value()),
        decreases vec@.len() - i,
    {
        out.push(fe_to_string(&vec[i]));
        i = i + 1;
    }
    out
}

/// Parses decimal texts into field elements; fails on the first that is not
/// a canonical decimal.
pub fn deserialize_vec_fe(strings: &Vec<String>) -> (res: Result<Vec<Fe>, String>)
    ensures
        res is Ok <==> forall|i: int| 0 <= i < strings@.len() ==> is_canonical_decimal(#[trigger] strings@[i]@),
        res matches Ok(v) ==> v@.len() == strings@.len() && forall|i: int| 0 <= i < v@.len()
            ==> (#[trigger] v@[i]).wf() && v@[i].value() == decimal_value(strings@[i]@) % modulus_r(),
        res matches Err(m) ==> m@ == "FieldElement parse error"@,
{
    let mut out: Vec<Fe> = Vec::new();
    let mut i: usize = 0;
    while i < strings.len()
        invariant
            i <= strings@.len(),
            out@.len() == i,
            forall|k: int| 0 <= k < i ==> is_canonical_decimal(#[trigger] strings@[k]@),
            forall|k: int| 0 <= k < i ==> (#[trigger] out@[k]).wf() && out@[k].value() == decimal_value(strings@[k]@) % modulus_r(),
        decreases strings@.len() - i,
    {
        match string_to_fe(strings[i].as_str()) {
            Ok(f) => out.push(f),
            Err(e) => {
                return Err(e);
            },
        }
        i = i + 1;
    }
    Ok(out)
}

/// The path bits as circuit integers: 1 for a right child, 0 otherwise.
pub fn serialize_bool_as_int(vec: &Vec<bool>) -> (out: Vec<u8>)
    ensures
        out@.len() == vec@.len(),
        forall|i: int| 0 <= i < vec@.len() ==> #[trigger] out@[i] == if vec@[i] { 1u8 } else { 0u8 },
{
    let mut out: Vec<u8> = Vec::new();
    let mut i: usize = 0;
    while i < vec.len()
        invariant
            i <= vec@.len(),
            out@.len() == i,
            forall|k: int| 0 <= k < i ==> #[trigger] out@[k] == if vec@[k] { 1u8 } else { 0u8 },
        decreases vec@.len() - i,
    {
        out.push(if vec[i] { 1u8 } else { 0u8 });
        i = i + 1;
    }
    out
}

/// Circuit integers back to path bits: exactly 1 is a right child.
pub fn deserialize_int_as_bool(vec: &Vec<u8>) -> (out: Vec<bool>)
    ensures
        out@.len() == vec@.len(),
        forall|i: int| 0 <= i < vec@.len() ==> #[trigger] out@[i] == (vec@[i] == 1),
{
    let mut out: Vec<bool> = Vec::new();
    let mut i: usize = 0;
    while i < vec.len()
        invariant
            i <= vec@.len(),
            out@.len() == i,
            forall|k: int| 0 <= k < i ==> #[trigger] out@[k] == (vec@[k] == 1),
        decreases vec@.len() - i,
    {
        out.push(vec[i] == 1);
        i = i + 1;
    }
    out
}

/// Path bits survive the round trip through circuit integers.
pub proof fn lemma_bool_int_roundtrip(bits: Seq<bool>, ints: Seq<u8>, back: Seq<bool>)
    requires
        ints.len() == bits.len(),
        forall|i: int| 0 <= i < bits.len() ==> #[trigger] ints[i] == if bits[i] { 1u8 } else { 0u8 },
        back.len() == ints.len(),
        forall|i: int| 0 <= i < ints.len() ==> #[trigger] back[i] == (ints[i] == 1),
    ensures
        back == bits,
{
    assert forall|i: int| 0 <= i < bits.len() implies back[i] == bits[i] by {
        assert(ints[i] == if bits[i] { 1u8 } else { 0u8 });
    }
    assert(back =~= bits);
}

/// A Merkle path: the siblings from the leaf up, and for each level whether
/// the current node is the right child.
#[derive(Clone, Debug)]
pub struct MerklePath {
    pub siblings: Vec<Fe>,
    pub path_indices: Vec<bool>,
}

impl MerklePath {
    /// All siblings are canonical.
    pub open spec fn wf(&self) -> bool {
        forall|i: int| 0 <= i < self.siblings@.len() ==> (#[trigger] self.siblings@[i]).wf()
    }

    /// Whether the path leads from `leaf` to `root`.
    pub fn verify(&self, leaf: &Fe, root: &Fe) -> (b: bool)
        requires
            self.wf(),
            leaf.wf(),
        ensures
            b == (path_root(self.siblings@, self.path_indices@, *leaf) == *root),
    {
        let computed_root = self.compute_root(leaf);
        computed_root == *root
    }

    /// Whether the path's index bits encode the leaf position `index`.
    pub fn encodes_position(&self, index: u64) -> (b: bool)
        ensures
            b == (path_position(self.path_indices@) == index as nat),
    {
        let ghost bits = self.path_indices@;
        let mut rem: u64 = index;
        let mut l: usize = 0;
        proof {
            assert(bits.skip(0) =~= bits);
        }
        while l < self.path_indices.len()
            invariant
                bits == self.path_indices@,
                l <= bits.len(),
                (path_position(bits) == index as nat) == (path_position(bits.skip(l as int)) == rem as nat),
            decreases bits.len() - l,
        {
            let bit = self.path_indices[l];
            proof {
                assert(bits.skip(l as int).drop_first() =~= bits.skip(l + 1));
                assert(bits.skip(l as int)[0] == bit);
            }
            if bit != (rem % 2 == 1) {
                return false;
            }
            rem = rem / 2;
            l = l + 1;
        }
        proof {
            assert(bits.skip(l as int) =~= Seq::<bool>::empty());
        }
        rem == 0
    }

    /// The root that the path yields for `leaf`.
    pub fn compute_root(&self, leaf: &Fe) -> (r: Fe)
        requires
            self.wf(),
            leaf.wf(),
        ensures
            r == path_root(self.siblings@, self.path_indices@, *leaf),
            r.wf(),
    {
        let mut current = *leaf;
        let n = if self.siblings.len() <= self.path_indices.len() {
            self.siblings.len()
        } else {
            self.path_indices.len()
        };
        let mut i: usize = 0;
        while i < n
            invariant
                n <= self.siblings@.len(),
                n <= self.path_indices@.len(),
                n == (if self.siblings@.len() <= self.path_indices@.len() { self.siblings@.len() } else { self.path_indices@.len() }),
                i <= n,
                self.wf(),
                current.wf(),
                current == fold_path(self.siblings@, self.path_indices@, *leaf, i as nat),
            decreases n - i,
        {
            let sibling = self.siblings[i];
            current = if self.path_indices[i] {
                poseidon_hash_2([sibling, current])
            } else {
                poseidon_hash_2([current, sibling])
            };
            i = i + 1;
        }
        current
    }
}

/// Z(0), ..., Z(height): the hashes of empty subtrees of each height.
fn compute_zero_values(height: usize) -> (zeros: Vec<Fe>)
    requires
        height < usize::MAX,
    ensures
        zeros@.len() == height + 1,
        forall|i: int| 0 <= i <= height ==> #[trigger] zeros@[i] == zero_value(i as nat),
        forall|i: int| 0 <= i <= height ==> (#[trigger] zeros@[i]).wf(),
{
    let mut zeros: Vec<Fe> = Vec::with_capacity(height + 1);
    zeros.push(Fe::zero());
    let mut i: usize = 1;
    while i <= height
        invariant
            1 <= i <= height + 1,
            height < usize::MAX,
            zeros@.len() == i,
            forall|k: int| 0 <= k < i ==> #[trigger] zeros@[k] == zero_value(k as nat),
            forall|k: int| 0 <= k < i ==> (#[trigger] zeros@[k]).wf(),
        decreases height + 1 - i,
    {
        let prev = zeros[i - 1];
        zeros.push(poseidon_hash_2([prev, prev]));
        i = i + 1;
    }
    zeros
}

/// An in-memory Merkle tree of a fixed height whose leaves fill from the left.
#[derive(Clone, Debug)]
pub struct MerkleTree {
    height: usize,
    leaves: Vec<Fe>,
    zero_values: Vec<Fe>,
}

impl MerkleTree {
    /// The height: the number of levels above the leaves.
    pub closed spec fn height_spec(&self) -> nat {
        self.height as nat
    }

    /// The inserted leaves, from left to right.
    pub closed spec fn leaves_spec(&self) -> Seq<Fe> {
        self.leaves@
    }

    /// The precomputed hashes of empty subtrees.
    pub closed spec fn zero_values_spec(&self) -> Seq<Fe> {
        self.zero_values@
    }

    /// The tree's invariant: the empty-subtree hashes are Z(0..=height), the
    /// leaves are canonical and there are at most 2^height of them.
    pub closed spec fn wf(&self) -> bool {
        &&& self.zero_values@.len() == self.height + 1
        &&& forall|i: int| 0 <= i <= self.height ==> #[trigger] self.zero_values@[i] == zero_value(i as nat)
        &&& forall|i: int| 0 <= i <= self.height ==> (#[trigger] self.zero_values@[i]).wf()
        &&& forall|i: int| 0 <= i < self.leaves@.len() ==> (#[trigger] self.leaves@[i]).wf()
        &&& self.leaves@.len() <= two_pow(self.height as nat)
    }

    /// The root hash.
    pub open spec fn root_spec(&self) -> Fe {
        node_hash(self.leaves_spec(), 0, self.height_spec())
    }

    /// The siblings on the path of leaf `i`, from the leaf level up.
    pub open spec fn path_siblings(&self, i: nat) -> Seq<Fe> {
        Seq::new(self.height_spec(), |l: int| node_hash(self.leaves_spec(), sibling_index(i / two_pow(l as nat)), l as nat))
    }

    /// The index bits on the path of leaf `i`: set where the node is a right child.
    pub open spec fn path_indices(&self, i: nat) -> Seq<bool> {
        Seq::new(self.height_spec(), |l: int| (i / two_pow(l as nat)) % 2 == 1)
    }

    /// An empty tree of the given height.
    pub fn new(height: usize) -> (t: MerkleTree)
        requires
            height < usize::MAX,
        ensures
            t.wf(),
            t.height_spec() == height,
            t.leaves_spec() == Seq::<Fe>::empty(),
            forall|i: int| 0 <= i <= height ==> #[trigger] t.zero_values_spec()[i] == zero_value(i as nat),
    {
        MerkleTree { height, leaves: Vec::new(), zero_values: compute_zero_values(height) }
    }

    /// An empty tree of the default height.
    pub fn default_height() -> (t: MerkleTree)
        ensures
            t.wf(),
            t.height_spec() == DEFAULT_TREE_HEIGHT,
            t.leaves_spec() == Seq::<Fe>::empty(),
    {
        Self::new(DEFAULT_TREE_HEIGHT)
    }

    /// Appends a leaf and returns its index. A full tree (2^height leaves)
    /// takes no more.
    pub fn insert(&mut self, leaf: Fe) -> (index: usize)
        requires
            old(self).wf(),
            leaf.wf(),
            old(self).leaves_spec().len() < two_pow(old(self).height_spec()),
        ensures
            final(self).wf(),
            final(self).height_spec() == old(self).height_spec(),
            final(self).leaves_spec() == old(self).leaves_spec().push(leaf),
            index == old(self).leaves_spec().len(),
    {
        let index = self.leaves.len();
        self.leaves.push(leaf);
        index
    }

    /// The root hash. Index arithmetic needs 2^height to fit in a `usize`.
    pub fn root(&self) -> (r: Fe)
        requires
            self.wf(),
            two_pow(self.height_spec()) <= usize::MAX,
        ensures
            r == self.root_spec(),
            r.wf(),
    {
        proof {
            let p = two_pow(self.height as nat);
            assert((0 + 1) * p == p) by (nonlinear_arith);
        }
        self.compute_root_at_level(0, 0, self.height)
    }

    /// The hash of the subtree of the given height whose leftmost node on its
    /// own level is `start_index`.
    fn compute_root_at_level(&self, start_index: usize, level: usize, remaining_height: usize) -> (r: Fe)
        requires
            self.wf(),
            level + remaining_height == self.height,
            (start_index + 1) * two_pow(remaining_height as nat) <= usize::MAX,
        ensures
            r == node_hash(self.leaves@, start_index as nat, remaining_height as nat),
            r.wf(),
        decreases remaining_height,
    {
        if remaining_height == 0 {
            if start_index < self.leaves.len() {
                self.leaves[start_index]
            } else {
                self.zero_values[0]
            }
        } else {
            proof {
                lemma_child_range(start_index as nat, remaining_height as nat);
            }
            let left_child = self.compute_root_at_level(start_index * 2, level + 1, remaining_height - 1);
            let right_child = self.compute_root_at_level(start_index * 2 + 1, level + 1, remaining_height - 1);
            poseidon_hash_2([left_child, right_child])
        }
    }

    /// The Merkle path of leaf `leaf_index`. Index arithmetic needs
    /// `leaf_index` + 2^height to fit in a `usize`.
    pub fn get_path(&self, leaf_index: usize) -> (path: MerklePath)
        requires
            self.wf(),
            leaf_index + two_pow(self.height_spec()) <= usize::MAX,
        ensures
            path.siblings@ == self.path_siblings(leaf_index as nat),
            path.path_indices@ == self.path_indices(leaf_index as nat),
            path.wf(),
    {
        let mut siblings: Vec<Fe> = Vec::with_capacity(self.height);
        let mut path_indices: Vec<bool> = Vec::with_capacity(self.height);
        let mut current_index = leaf_index;
        let mut level: usize = 0;
        proof {
            assert(two_pow(0) == 1);
        }
        while level < self.height
            invariant
                self.wf(),
                leaf_index + two_pow(self.height as nat) <= usize::MAX,
                level <= self.height,
                current_index == leaf_index as nat / two_pow(level as nat),
                siblings@.len() == level,
                path_indices@.len() == level,
                forall|l: int| 0 <= l < level ==> #[trigger] siblings@[l] == node_hash(self.leaves@,
                    sibling_index(leaf_index as nat / two_pow(l as nat)), l as nat),
                forall|l: int| 0 <= l < level ==> #[trigger] path_indices@[l] == ((leaf_index as nat / two_pow(l as nat)) % 2 == 1),
                forall|l: int| 0 <= l < level ==> (#[trigger] siblings@[l]).wf(),
            decreases self.height - level,
        {
            let is_right = current_index % 2 == 1;
            path_indices.push(is_right);
            proof {
                lemma_sibling_range(leaf_index as nat, level as nat, self.height as nat);
            }
            let sibling_index = if is_right {
                current_index - 1
            } else {
                current_index + 1
            };
            let sibling = self.get_node_at_level(sibling_index, level);
            siblings.push(sibling);
            proof {
                lemma_div_step(leaf_index as nat, level as nat);
            }
            current_index = current_index / 2;
            level = level + 1;
        }
        proof {
            assert(siblings@ =~= self.path_siblings(leaf_index as nat));
            assert(path_indices@ =~= self.path_indices(leaf_index as nat));
        }
        MerklePath { siblings, path_indices }
    }

    /// The hash of the node at `index` on the given level above the leaves.
    fn get_node_at_level(&self, index: usize, level: usize) -> (r: Fe)
        requires
            self.wf(),
            (index + 1) * two_pow(level as nat) <= usize::MAX,
        ensures
            r == node_hash(self.leaves@, index as nat, level as nat),
            r.wf(),
        decreases level,
    {
        if level == 0 {
            if index < self.leaves.len() {
                self.leaves[index]
            } else {
                self.zero_values[0]
            }
        } else {
            proof {
                lemma_child_range(index as nat, level as nat);
            }
            let left_child = self.get_node_at_level(index * 2, level - 1);
            let right_child = self.get_node_at_level(index * 2 + 1, level - 1);
            poseidon_hash_2([left_child, right_child])
        }
    }

    /// The number of inserted leaves.
    pub fn len(&self) -> (n: usize)
        ensures
            n == self.leaves_spec().len(),
    {
        self.leaves.len()
    }

    /// Whether no leaf has been inserted.
    pub fn is_empty(&self) -> (b: bool)
        ensures
            b == (self.leaves_spec().len() == 0),
    {
        self.leaves.len() == 0
    }
}

proof fn lemma_two_pow_pos(n: nat)
    ensures
        two_pow(n) >= 1,
    decreases n,
{
    if n > 0 {
        lemma_two_pow_pos((n - 1) as nat);
    }
}

proof fn lemma_two_pow_mono(a: nat, b: nat)
    requires
        a <= b,
    ensures
        two_pow(a) <= two_pow(b),
    decreases b,
{
    if a < b {
        lemma_two_pow_mono(a, (b - 1) as nat);
        lemma_two_pow_pos((b - 1) as nat);
    }
}

/// The children of a node stay within the index range of their parent.
proof fn lemma_child_range(s: nat, r: nat)
    requires
        r > 0,
    ensures
        (2 * s + 1 + 1) * two_pow((r - 1) as nat) == (s + 1) * two_pow(r),
        (2 * s + 1) * two_pow((r - 1) as nat) <= (s + 1) * two_pow(r),
        2 * s + 1 < (s + 1) * two_pow(r),
{
    let p = two_pow((r - 1) as nat);
    lemma_two_pow_pos((r - 1) as nat);
    assert(two_pow(r) == 2 * p);
    assert((2 * s + 2) * p == (s + 1) * (2 * p)) by (nonlinear_arith);
    assert((2 * s + 1) * p <= (2 * s + 2) * p) by (nonlinear_arith)
        requires
            p >= 1,
    ;
    assert(2 * s + 1 < (s + 1) * (2 * p)) by (nonlinear_arith)
        requires
            p >= 1,
    ;
}

/// Dividing by 2^(l+1) is dividing by 2^l and then by 2.
proof fn lemma_div_step(i: nat, l: nat)
    ensures
        (i / two_pow(l)) / 2 == i / two_pow(l + 1),
{
    lemma_two_pow_pos(l);
    assert(two_pow(l + 1) == two_pow(l) * 2);
    vstd::arithmetic::div_mod::lemma_div_denominator(i as int, two_pow(l) as int, 2);
}

/// The sibling on level `l` of the path of leaf `i` lies in the range that
/// index arithmetic allows.
proof fn lemma_sibling_range(i: nat, l: nat, h: nat)
    requires
        l < h,
        i + two_pow(h) <= usize::MAX,
    ensures
        i / two_pow(l) + 1 <= usize::MAX,
        (sibling_index(i / two_pow(l)) + 1) * two_pow(l) <= usize::MAX,
{
    let p = two_pow(l);
    let c = i / p;
    lemma_two_pow_pos(l);
    lemma_two_pow_mono(l + 1, h);
    assert(two_pow(l + 1) == 2 * p);
    vstd::arithmetic::div_mod::lemma_fundamental_div_mod(i as int, p as int);
    assert(c * p <= i) by (nonlinear_arith)
        requires
            i == p * c + i % p,
            i % p >= 0,
    ;
    assert(c <= i) by (nonlinear_arith)
        requires
            c * p <= i,
            p >= 1,
            c >= 0,
    ;
    assert((c + 2) * p == c * p + 2 * p) by (nonlinear_arith);
    assert((sibling_index(c) + 1) * p <= (c + 2) * p) by (nonlinear_arith)
        requires
            sibling_index(c) + 1 <= c + 2,
            p >= 1,
    ;
}

/// Folding the path of leaf `i` over its first `l` levels reaches the node
/// above the leaf on level `l`.
proof fn lemma_fold_reaches_node(leaves: Seq<Fe>, i: nat, h: nat, l: nat)
    requires
        l <= h,
    ensures
        fold_path(
            Seq::new(h, |k: int| node_hash(leaves, sibling_index(i / two_pow(k as nat)), k as nat)),
            Seq::new(h, |k: int| (i / two_pow(k as nat)) % 2 == 1),
            leaf_at(leaves, i),
            l,
        ) == node_hash(leaves, i / two_pow(l), l),
    decreases l,
{
    if l > 0 {
        let k = (l - 1) as nat;
        lemma_fold_reaches_node(leaves, i, h, k);
        lemma_div_step(i, k);
        let c = i / two_pow(k);
        let c2 = i / two_pow(l);
        assert(c2 == c / 2);
        vstd::arithmetic::div_mod::lemma_fundamental_div_mod(c as int, 2);
        lemma_halves(c, c2);
    } else {
        assert(two_pow(0) == 1);
        assert(i / two_pow(0) == i);
    }
}

proof fn lemma_halves(c: nat, c2: nat)
    requires
        c2 == c / 2,
    ensures
        c % 2 == 1 ==> c == 2 * c2 + 1 && sibling_index(c) == 2 * c2,
        c % 2 != 1 ==> c == 2 * c2 && sibling_index(c) == 2 * c2 + 1,
{
    vstd::arithmetic::div_mod::lemma_fundamental_div_mod(c as int, 2);
}

/// The path of any leaf position inside the tree leads from that leaf to the
/// root: `get_path(i).verify(leaf, root())` holds for the leaf at `i` (zero
/// past the last inserted leaf).
pub proof fn lemma_path_leads_to_root(tree: MerkleTree, i: nat)
    requires
        tree.wf(),
        i < two_pow(tree.height_spec()),
    ensures
        path_root(tree.path_siblings(i), tree.path_indices(i), leaf_at(tree.leaves_spec(), i)) == tree.root_spec(),
{
    let h = tree.height_spec();
    lemma_fold_reaches_node(tree.leaves_spec(), i, h, h);
    assert(i / two_pow(h) == 0) by {
        lemma_two_pow_pos(h);
        vstd::arithmetic::div_mod::lemma_basic_div(i as int, two_pow(h) as int);
    }
    assert(tree.path_siblings(i).len() == h);
    assert(tree.path_indices(i).len() == h);
}

/// A leaf just inserted is proved a member by its path: after `insert`
/// returns `index`, the path of `index` leads from the leaf to the new root.
pub proof fn lemma_inserted_leaf_verifies(before: MerkleTree, after: MerkleTree, leaf: Fe)
    requires
        after.wf(),
        after.height_spec() == before.height_spec(),
        after.leaves_spec() == before.leaves_spec().push(leaf),
    ensures
        path_root(after.path_siblings(before.leaves_spec().len()), after.path_indices(before.leaves_spec().len()), leaf)
            == after.root_spec(),
{
    let i = before.leaves_spec().len();
    assert(after.leaves_spec().len() <= two_pow(after.height_spec()));
    assert(leaf_at(after.leaves_spec(), i) == leaf);
    lemma_path_leads_to_root(after, i);
}

/// A subtree lying wholly past the last leaf hashes to the precomputed empty
/// value Z(level); in particular an empty tree's root is Z(height).
pub proof fn lemma_unfilled_subtree(leaves: Seq<Fe>, index: nat, level: nat)
    requires
        index * two_pow(level) >= leaves.len(),
    ensures
        node_hash(leaves, index, level) == zero_value(level),
    decreases level,
{
    if level > 0 {
        let k = (level - 1) as nat;
        let p = two_pow(k);
        lemma_two_pow_pos(k);
        assert(index * two_pow(level) == (2 * index) * p) by (nonlinear_arith)
            requires
                two_pow(level) == 2 * p,
        ;
        assert((2 * index) * p <= (2 * index + 1) * p) by (nonlinear_arith)
            requires
                p >= 1,
        ;
        lemma_unfilled_subtree(leaves, 2 * index, k);
        lemma_unfilled_subtree(leaves, 2 * index + 1, k);
    } else {
        assert(index * 1 == index);
    }
}

/// The shape of the tree, at every level alike: a node on the leaf level is
/// the leaf at its index (zero past the last leaf), and every node above is
/// Poseidon(left child, right child) with the left child (index 2i) first.
pub proof fn lemma_node_is_hash_of_children(leaves: Seq<Fe>, index: nat, level: nat)
    ensures
        level == 0 ==> node_hash(leaves, index, level)
            == (if index < leaves.len() { leaves[index as int] } else { fe_zero() }),
        level > 0 ==> node_hash(leaves, index, level) == poseidon2_spec(
            node_hash(leaves, 2 * index, (level - 1) as nat),
            node_hash(leaves, 2 * index + 1, (level - 1) as nat),
        ),
{
}

/// The walk up a path, at every step alike: it starts at the leaf, and each
/// step hashes the current value with the step's sibling, the current value
/// on the right exactly when the step's index bit is set.
pub proof fn lemma_path_step(siblings: Seq<Fe>, indices: Seq<bool>, leaf: Fe, n: nat)
    ensures
        n == 0 ==> fold_path(siblings, indices, leaf, n) == leaf,
        n > 0 && indices[n - 1] ==> fold_path(siblings, indices, leaf, n)
            == poseidon2_spec(siblings[n - 1], fold_path(siblings, indices, leaf, (n - 1) as nat)),
        n > 0 && !indices[n - 1] ==> fold_path(siblings, indices, leaf, n)
            == poseidon2_spec(fold_path(siblings, indices, leaf, (n - 1) as nat), siblings[n - 1]),
{
}

/// The root of a tree is the node at index 0 on the top level, and a path
/// is walked over as many steps as it has both siblings and index bits.
pub proof fn lemma_root_and_path_root(t: MerkleTree, siblings: Seq<Fe>, indices: Seq<bool>, leaf: Fe)
    ensures
        t.root_spec() == node_hash(t.leaves_spec(), 0, t.height_spec()),
        path_root(siblings, indices, leaf) == fold_path(siblings, indices, leaf,
            if siblings.len() <= indices.len() { siblings.len() } else { indices.len() }),
{
}

} // verus!
