use crate::finite_field::{default_field, residue, FiniteFieldElement};
use crate::hashing::{hash, hash_value};
use vstd::prelude::*;

verus! {

/// `n` is a power of two.
pub open spec fn is_power_of_two(n: nat) -> bool
    decreases n,
{
    if n == 1 {
        true
    } else if n == 0 || n % 2 != 0 {
        false
    } else {
        is_power_of_two(n / 2)
    }
}

/// The two-input hash of a node: both inputs are hashed, and the hash of the
/// sum of the two, smaller first, is the result. The order of the inputs does
/// not matter.
#[verifier::opaque]
pub open spec fn combined(a: i128, b: i128) -> i128 {
    let ha = hash_value(a);
    let hb = hash_value(b);
    if ha <= hb {
        hash_value(ha.wrapping_add(hb))
    } else {
        hash_value(hb.wrapping_add(ha))
    }
}

/// The leaf hashes followed by zeros up to `size` leaves.
pub open spec fn padded_hashes(hashes: Seq<i128>, size: nat) -> Seq<i128> {
    Seq::new(
        size,
        |i: int|
            if i < hashes.len() {
                hashes[i]
            } else {
                0i128
            },
    )
}

/// The level above `level`: the hashes of its consecutive pairs.
pub open spec fn next_level(level: Seq<i128>) -> Seq<i128> {
    Seq::new(level.len() / 2, |i: int| combined(level[2 * i], level[2 * i + 1]))
}

/// The `k`-th level above the leaves.
pub open spec fn level_at(leaves: Seq<i128>, k: nat) -> Seq<i128>
    decreases k,
{
    if k == 0 {
        leaves
    } else {
        next_level(level_at(leaves, (k - 1) as nat))
    }
}

/// The number of halvings that take `n` down to one.
pub open spec fn depth_of(n: nat) -> nat
    decreases n,
{
    if n <= 1 {
        0
    } else {
        1 + depth_of(n / 2)
    }
}

/// The smallest power of two that is at least `n`.
pub open spec fn padded_size(n: nat) -> nat
    decreases n,
{
    if n <= 1 {
        1
    } else {
        2 * padded_size((n + 1) / 2)
    }
}

/// All levels over a leaf layer, leaves first and the root last.
pub open spec fn levels_over(leaves: Seq<i128>) -> Seq<Seq<i128>> {
    Seq::new(depth_of(leaves.len()) + 1, |k: int| level_at(leaves, k as nat))
}

/// The levels of the tree over `hashes`: the padded leaf layer and everything
/// above it; a single empty level when there is no leaf.
pub open spec fn tree_levels(hashes: Seq<i128>) -> Seq<Seq<i128>> {
    if hashes.len() == 0 {
        seq![Seq::<i128>::empty()]
    } else {
        levels_over(padded_hashes(hashes, padded_size(hashes.len())))
    }
}

/// The leaf layer of the tree over `hashes`: the hashes followed by zeros up
/// to the next power of two; empty when there is no leaf.
pub open spec fn leaf_layer(hashes: Seq<i128>) -> Seq<i128> {
    if hashes.len() == 0 {
        Seq::<i128>::empty()
    } else {
        padded_hashes(hashes, padded_size(hashes.len()))
    }
}

/// The root of the tree over `hashes`; none when there is no leaf.
pub open spec fn root_of(hashes: Seq<i128>) -> Option<i128> {
    if hashes.len() == 0 {
        None
    } else {
        Some(tree_levels(hashes).last()[0])
    }
}

/// The index of the other child of the same parent.
pub open spec fn sibling_of(index: int) -> int {
    if index % 2 == 0 {
        index + 1
    } else {
        index - 1
    }
}

/// The authentication path of the node `index` of level `k`: the sibling at
/// each level up to the root, and the root itself as the last entry.
pub open spec fn path_from(levels: Seq<Seq<i128>>, k: int, index: int) -> Seq<i128>
    decreases levels.len() - k,
{
    if k < 0 || k >= levels.len() {
        Seq::<i128>::empty()
    } else if levels[k].len() == 1 {
        seq![levels[k][0]]
    } else {
        seq![levels[k][sibling_of(index)]] + path_from(levels, k + 1, index / 2)
    }
}

/// The hash that a leaf hash gives when it is combined with the siblings in turn.
pub open spec fn folded_path(leaf: i128, siblings: Seq<i128>) -> i128
    decreases siblings.len(),
{
    if siblings.len() == 0 {
        leaf
    } else {
        combined(folded_path(leaf, siblings.drop_last()), siblings.last())
    }
}

/// The hashes of the elements.
pub open spec fn leaf_hashes(elements: Seq<FiniteFieldElement>) -> Seq<i128> {
    Seq::new(elements.len(), |i: int| hash_value(elements[i].value))
}

/// The elements followed by zeros of the default field up to `size` leaves.
pub open spec fn padded_elements(elements: Seq<FiniteFieldElement>, size: nat) -> Seq<
    FiniteFieldElement,
> {
    Seq::new(
        size,
        |i: int|
            if i < elements.len() {
                elements[i]
            } else {
                residue(0, default_field())
            },
    )
}

/// The two-input hash does not depend on the order of its inputs.
pub proof fn lemma_combined_commutes(a: i128, b: i128)
    ensures
        combined(a, b) == combined(b, a),
{
    reveal(combined);
}

/// The padded size is a power of two, at least `n`, and less than twice `n`.
pub proof fn lemma_padded_size(n: nat)
    ensures
        is_power_of_two(padded_size(n)),
        padded_size(n) >= n,
        padded_size(n) >= 1,
        n >= 1 ==> padded_size(n) < 2 * n,
    decreases n,
{
    if n > 1 {
        lemma_padded_size((n + 1) / 2);
    }
}

/// No power of two lies between `n` and its padded size.
pub proof fn lemma_padded_size_least(n: nat, m: nat)
    requires
        is_power_of_two(m),
        m >= n,
    ensures
        m >= padded_size(n),
    decreases n,
{
    if n > 1 {
        lemma_padded_size_least((n + 1) / 2, m / 2);
    }
}

/// Halving a power of two above one gives a power of two, and the depth
/// counts the halvings.
pub proof fn lemma_levels_shape(leaves: Seq<i128>, k: nat)
    requires
        is_power_of_two(leaves.len()),
        k <= depth_of(leaves.len()),
    ensures
        is_power_of_two(level_at(leaves, k).len()),
        depth_of(level_at(leaves, k).len()) == depth_of(leaves.len()) - k,
        k == depth_of(leaves.len()) <==> level_at(leaves, k).len() == 1,
    decreases k,
{
    if k > 0 {
        lemma_levels_shape(leaves, (k - 1) as nat);
        let below = level_at(leaves, (k - 1) as nat);
        assert(depth_of(below.len()) >= 1);
        assert(below.len() > 1);
        assert(is_power_of_two(below.len() / 2));
        assert(level_at(leaves, k) == next_level(below));
        assert(level_at(leaves, k).len() == below.len() / 2);
        assert(depth_of(below.len()) == 1 + depth_of(below.len() / 2));
    } else {
        assert(level_at(leaves, 0) == leaves);
    }
    let here = level_at(leaves, k).len();
    assert(is_power_of_two(here));
    assert(depth_of(here) == 0 <==> here == 1);
}

/// Halving takes fewer rounds than there are items.
pub proof fn lemma_depth_bound(n: nat)
    ensures
        depth_of(n) <= n,
    decreases n,
{
    if n > 1 {
        lemma_depth_bound(n / 2);
    }
}

/// The smallest power of two that is at least `n`.
pub fn next_power_of_two(n: usize) -> (result: usize)
    requires
        n <= usize::MAX / 2 + 1,
    ensures
        result == padded_size(n as nat),
{
    let mut size: usize = 1;
    let mut rest: usize = n;
    proof {
        lemma_padded_size(n as nat);
    }
    while rest > 1
        invariant
            size >= 1,
            size * padded_size(rest as nat) == padded_size(n as nat),
            padded_size(n as nat) <= usize::MAX,
            padded_size(rest as nat) >= 1,
        decreases rest,
    {
        proof {
            let inner = padded_size(((rest + 1) / 2) as nat);
            lemma_padded_size(((rest + 1) / 2) as nat);
            assert(size * (2 * inner) == (size * 2) * inner) by (nonlinear_arith);
            assert(size * 2 <= (size * 2) * inner) by (nonlinear_arith)
                requires
                    inner >= 1,
                    size >= 1,
            ;
        }
        size = size * 2;
        rest = rest / 2 + rest % 2;
    }
    assert(size * 1 == size) by (nonlinear_arith);
    size
}

/// The two-input hash of a tree node.
pub fn hash_two_inputs(a: i128, b: i128) -> (result: i128)
    ensures
        result == combined(a, b),
{
    proof {
        reveal(combined);
    }
    let ha = hash(a);
    let hb = hash(b);
    if ha <= hb {
        hash(ha.wrapping_add(hb))
    } else {
        hash(hb.wrapping_add(ha))
    }
}

/// Combines a leaf hash with the siblings of an authentication path in turn;
/// the last entry of the path, the root, is left out.
pub fn reconstruct_root(leaf_hash: i128, proof: &[i128]) -> (result: i128)
    requires
        proof@.len() > 0,
    ensures
        result == folded_path(leaf_hash, proof@.drop_last()),
{
    let mut current: i128 = leaf_hash;
    let mut i: usize = 0;
    let n: usize = proof.len() - 1;
    let ghost siblings = proof@.drop_last();
    assert(siblings.take(0) =~= Seq::<i128>::empty());
    while i < n
        invariant
            n == proof@.len() - 1,
            siblings == proof@.drop_last(),
            i <= n,
            current == folded_path(leaf_hash, siblings.take(i as int)),
        decreases n - i,
    {
        assert(siblings.take(i + 1).drop_last() =~= siblings.take(i as int));
        assert(siblings.take(i + 1).last() == proof@[i as int]);
        current = hash_two_inputs(current, proof[i]);
        i = i + 1;
    }
    assert(siblings.take(siblings.len() as int) =~= siblings);
    current
}

/// A Merkle tree over leaf hashes, padded with zeros to a power of two.
#[derive(Debug)]
pub struct MerkleTree {
    root: Option<i128>,
    nodes: Vec<Vec<i128>>,
    padded_leaves: Vec<FiniteFieldElement>,
}

impl MerkleTree {
    /// The levels of the tree, leaves first; empty before anything is built.
    pub closed spec fn levels(&self) -> Seq<Seq<i128>> {
        Seq::new(self.nodes@.len(), |k: int| self.nodes@[k]@)
    }

    /// The root as it is stored.
    pub closed spec fn root_value(&self) -> Option<i128> {
        self.root
    }

    /// The leaves as field elements, as they are stored.
    pub closed spec fn leaves(&self) -> Seq<FiniteFieldElement> {
        self.padded_leaves@
    }

    /// The stored levels are those of a tree: nothing yet, a single empty
    /// level, or all levels over a leaf layer whose length is a power of two,
    /// with the root stored beside them.
    pub open spec fn wf(&self) -> bool {
        let levels = self.levels();
        if levels.len() == 0 {
            self.root_value().is_none()
        } else if levels[0].len() == 0 {
            levels.len() == 1 && self.root_value().is_none()
        } else {
            &&& is_power_of_two(levels[0].len())
            &&& levels == levels_over(levels[0])
            &&& self.root_value() == Some(levels.last()[0])
        }
    }

    /// A tree with nothing built.
    pub fn new() -> (result: Self)
        ensures
            result.levels().len() == 0,
            result.root_value().is_none(),
            result.leaves().len() == 0,
            result.wf(),
    {
        MerkleTree { root: None, nodes: Vec::new(), padded_leaves: Vec::new() }
    }

    /// Builds the tree over the hashes of `elements`.
    pub fn build(&mut self, elements: &[FiniteFieldElement])
        requires
            elements@.len() <= usize::MAX / 2 + 1,
        ensures
            final(self).levels() == tree_levels(leaf_hashes(elements@)),
            final(self).root_value() == root_of(leaf_hashes(elements@)),
            final(self).leaves() == (if elements@.len() == 0 {
                Seq::<FiniteFieldElement>::empty()
            } else {
                padded_elements(elements@, padded_size(elements@.len()))
            }),
            final(self).wf(),
            final(self).levels().len() > 0,
            final(self).levels()[0] == leaf_layer(leaf_hashes(elements@)),
            final(self).leaves().len() == final(self).levels()[0].len(),
            elements@.len() > 0 ==> is_power_of_two(final(self).levels()[0].len())
                && elements@.len() <= final(self).levels()[0].len() < 2 * elements@.len(),
    {
        let mut hashes: Vec<i128> = Vec::new();
        let mut i: usize = 0;
        while i < elements.len()
            invariant
                i <= elements@.len(),
                hashes@.len() == i,
                forall|k: int| 0 <= k < i ==> hashes@[k] == hash_value(elements@[k].value),
            decreases elements@.len() - i,
        {
            hashes.push(elements[i].hash());
            i = i + 1;
        }
        assert(hashes@ =~= leaf_hashes(elements@));
        self.build_from_hashes(hashes.as_slice());
        if elements.len() > 0 {
            let target = next_power_of_two(elements.len());
            proof {
                lemma_padded_size(elements@.len());
            }
            let mut leaves: Vec<FiniteFieldElement> = Vec::new();
            let mut j: usize = 0;
            while j < target
                invariant
                    j <= target,
                    leaves@.len() == j,
                    forall|k: int|
                        0 <= k < j ==> leaves@[k] == padded_elements(elements@, target as nat)[k],
                decreases target - j,
            {
                if j < elements.len() {
                    leaves.push(elements[j]);
                } else {
                    leaves.push(FiniteFieldElement::new(0));
                }
                j = j + 1;
            }
            assert(leaves@ =~= padded_elements(elements@, target as nat));
            self.padded_leaves = leaves;
        }
    }

    /// Builds the tree over leaf hashes that are already computed.
    pub fn build_from_hashes(&mut self, hashes: &[i128])
        requires
            hashes@.len() <= usize::MAX / 2 + 1,
        ensures
            final(self).levels() == tree_levels(hashes@),
            final(self).root_value() == root_of(hashes@),
            final(self).leaves().len() == 0,
            final(self).wf(),
            final(self).levels().len() > 0,
            final(self).levels()[0] == leaf_layer(hashes@),
            hashes@.len() > 0 ==> is_power_of_two(final(self).levels()[0].len()) && hashes@.len()
                <= final(self).levels()[0].len() < 2 * hashes@.len(),
    {
        self.padded_leaves = Vec::new();
        if hashes.len() == 0 {
            let mut nodes: Vec<Vec<i128>> = Vec::new();
            nodes.push(Vec::new());
            self.root = None;
            self.nodes = nodes;
            assert(self.levels() =~= tree_levels(hashes@));
            return ;
        }
        let target = next_power_of_two(hashes.len());
        let ghost leaves = padded_hashes(hashes@, target as nat);
        proof {
            lemma_padded_size(hashes@.len());
        }
        let mut level: Vec<i128> = Vec::new();
        let mut i: usize = 0;
        while i < target
            invariant
                i <= target,
                level@.len() == i,
                forall|k: int| 0 <= k < i ==> level@[k] == padded_hashes(hashes@, target as nat)[k],
            decreases target - i,
        {
            if i < hashes.len() {
                level.push(hashes[i]);
            } else {
                level.push(0);
            }
            i = i + 1;
        }
        assert(level@ =~= leaves);
        let mut nodes: Vec<Vec<i128>> = Vec::new();
        nodes.push(level);
        let mut top: usize = 0;
        proof {
            lemma_levels_shape(leaves, 0);
            lemma_depth_bound(leaves.len());
        }
        while nodes[top].len() > 1
            invariant
                is_power_of_two(leaves.len()),
                depth_of(leaves.len()) <= leaves.len(),
                leaves.len() <= usize::MAX,
                nodes@.len() == top + 1,
                top <= depth_of(leaves.len()),
                forall|k: int|
                    0 <= k <= top ==> (#[trigger] nodes@[k])@ == level_at(leaves, k as nat),
            decreases depth_of(leaves.len()) - top,
        {
            proof {
                lemma_levels_shape(leaves, top as nat);
                lemma_levels_shape(leaves, (top + 1) as nat);
            }
            let size: usize = nodes[top].len();
            let half: usize = size / 2;
            let mut above: Vec<i128> = Vec::new();
            let mut j: usize = 0;
            while j < half
                invariant
                    top < nodes@.len(),
                    size == nodes@[top as int]@.len(),
                    half == size / 2,
                    j <= half,
                    above@.len() == j,
                    forall|k: int|
                        0 <= k < j ==> above@[k] == next_level(nodes@[top as int]@)[k],
                decreases half - j,
            {
                let left = nodes[top][2 * j];
                let right = nodes[top][2 * j + 1];
                above.push(hash_two_inputs(left, right));
                j = j + 1;
            }
            assert(above@ =~= next_level(nodes@[top as int]@));
            nodes.push(above);
            top = top + 1;
        }
        proof {
            lemma_levels_shape(leaves, top as nat);
        }
        self.root = Some(nodes[top][0]);
        self.nodes = nodes;
        assert(self.levels() =~= levels_over(leaves));
    }

    /// The root; none before the tree is built, and for a tree without leaves.
    pub fn root(&self) -> (result: Option<i128>)
        ensures
            result == self.root_value(),
    {
        self.root
    }

    /// The number of leaves after padding.
    pub fn leaf_count(&self) -> (result: usize)
        ensures
            result == (if self.levels().len() == 0 {
                0
            } else {
                self.levels()[0].len()
            }),
    {
        if self.nodes.len() == 0 {
            0
        } else {
            self.nodes[0].len()
        }
    }

    /// The padded leaves as field elements.
    pub fn padded_leaves(&self) -> (result: &[FiniteFieldElement])
        ensures
            result@ == self.leaves(),
    {
        self.padded_leaves.as_slice()
    }

    /// The stored levels, leaves first.
    pub fn nodes(&self) -> (result: &Vec<Vec<i128>>)
        ensures
            result@.len() == self.levels().len(),
            forall|k: int| 0 <= k < result@.len() ==> (#[trigger] result@[k])@ == self.levels()[k],
    {
        &self.nodes
    }

    /// The authentication path of leaf `index`: the sibling at each level and
    /// the root as the last entry; none when there is no such leaf.
    pub fn get_merkle_proof(&self, index: usize) -> (result: Option<Vec<i128>>)
        requires
            self.wf(),
            self.levels().len() > 0,
        ensures
            result.is_none() <==> index >= self.levels()[0].len(),
            result.is_some() ==> result.unwrap()@ == path_from(self.levels(), 0, index as int),
            result.is_some() ==> result.unwrap()@.len() > 0 && Some(
                folded_path(self.levels()[0][index as int], result.unwrap()@.drop_last()),
            ) == self.root_value(),
            result.is_some() ==> result.unwrap()@.len() == depth_of(self.levels()[0].len()) + 1
                && Some(result.unwrap()@.last()) == self.root_value(),
    {
        if index >= self.nodes[0].len() {
            return None;
        }
        proof {
            lemma_path_reaches_root(self.levels()[0], index as int);
        }
        let ghost levels = self.levels();
        let ghost leaves = levels[0];
        let mut proof: Vec<i128> = Vec::new();
        let mut idx: usize = index;
        let mut k: usize = 0;
        proof {
            lemma_levels_shape(leaves, 0);
        }
        while k < self.nodes.len()
            invariant
                self.wf(),
                levels == self.levels(),
                leaves == levels[0],
                leaves.len() > 0,
                index < leaves.len(),
                k <= levels.len(),
                k < levels.len() ==> idx < levels[k as int].len(),
                proof@ + path_from(levels, k as int, idx as int) == path_from(
                    levels,
                    0,
                    index as int,
                ),
            decreases levels.len() - k,
        {
            let size: usize = self.nodes[k].len();
            proof {
                lemma_levels_shape(leaves, k as nat);
                assert(self.nodes@[k as int]@ == levels[k as int]);
                if k + 1 < levels.len() {
                    lemma_levels_shape(leaves, (k + 1) as nat);
                }
            }
            if size == 1 {
                proof.push(self.nodes[k][0]);
                proof {
                    assert(proof@ =~= path_from(levels, 0, index as int));
                    lemma_path_reaches_root(leaves, index as int);
                }
                return Some(proof);
            }
            let sibling: usize = if idx % 2 == 0 {
                idx + 1
            } else {
                idx - 1
            };
            let ghost before = proof@;
            proof.push(self.nodes[k][sibling]);
            proof {
                assert(before + (seq![levels[k as int][sibling as int]] + path_from(
                    levels,
                    k + 1,
                    idx as int / 2,
                )) =~= proof@ + path_from(levels, k + 1, idx as int / 2));
            }
            idx = idx / 2;
            k = k + 1;
        }
        proof {
            assert(proof@ + Seq::<i128>::empty() =~= proof@);
            lemma_path_reaches_root(leaves, index as int);
        }
        Some(proof)
    }
}

/// Folding starts with the first sibling.
pub proof fn lemma_folded_path_front(leaf: i128, first: i128, rest: Seq<i128>)
    ensures
        folded_path(leaf, seq![first] + rest) == folded_path(combined(leaf, first), rest),
    decreases rest.len(),
{
    let whole = seq![first] + rest;
    if rest.len() == 0 {
        assert(whole.drop_last() =~= Seq::<i128>::empty());
        assert(folded_path(leaf, whole.drop_last()) == leaf);
    } else {
        assert(whole.drop_last() =~= seq![first] + rest.drop_last());
        assert(whole.last() == rest.last());
        lemma_folded_path_front(leaf, first, rest.drop_last());
    }
}

/// From any level on, the path of a node ends with the root, and folding the
/// node with the siblings of the path gives the root.
proof fn lemma_path_from_level(leaves: Seq<i128>, k: nat, index: int)
    requires
        is_power_of_two(leaves.len()),
        k <= depth_of(leaves.len()),
        0 <= index < level_at(leaves, k).len(),
    ensures
        path_from(levels_over(leaves), k as int, index).len() == depth_of(leaves.len()) - k + 1,
        path_from(levels_over(leaves), k as int, index).last() == levels_over(leaves).last()[0],
        folded_path(
            level_at(leaves, k)[index],
            path_from(levels_over(leaves), k as int, index).drop_last(),
        ) == levels_over(leaves).last()[0],
    decreases depth_of(leaves.len()) - k,
{
    let levels = levels_over(leaves);
    let depth = depth_of(leaves.len());
    let level = level_at(leaves, k);
    lemma_levels_shape(leaves, k);
    assert(levels[k as int] == level);
    let path = path_from(levels, k as int, index);
    if level.len() == 1 {
        assert(k == depth);
        assert(path =~= seq![level[0]]);
        assert(path.drop_last() =~= Seq::<i128>::empty());
    } else {
        lemma_levels_shape(leaves, k + 1);
        let above = level_at(leaves, k + 1);
        assert(above == next_level(level));
        let sibling = sibling_of(index);
        let inner = path_from(levels, k as int + 1, index / 2);
        lemma_path_from_level(leaves, k + 1, index / 2);
        assert(path == seq![level[sibling]] + inner);
        assert(path.drop_last() =~= seq![level[sibling]] + inner.drop_last());
        assert(path.last() == inner.last());
        lemma_folded_path_front(level[index], level[sibling], inner.drop_last());
        lemma_combined_commutes(level[index], level[sibling]);
        assert(above[index / 2] == combined(level[2 * (index / 2)], level[2 * (index / 2) + 1]));
        assert(combined(level[index], level[sibling]) == above[index / 2]);
    }
}

/// Every leaf authenticates: its path ends with the root, and folding the
/// leaf with the siblings of the path gives the root.
pub proof fn lemma_path_reaches_root(leaves: Seq<i128>, index: int)
    requires
        is_power_of_two(leaves.len()),
        0 <= index < leaves.len(),
    ensures
        path_from(levels_over(leaves), 0, index).len() == depth_of(leaves.len()) + 1,
        path_from(levels_over(leaves), 0, index).last() == levels_over(leaves).last()[0],
        folded_path(leaves[index], path_from(levels_over(leaves), 0, index).drop_last())
            == levels_over(leaves).last()[0],
{
    lemma_path_from_level(leaves, 0, index);
}

/// In the tree over `hashes`, the path of every leaf of the padded layer
/// leads to the root: the leaf is a given hash, or zero in the padding.
pub proof fn lemma_tree_path_verifies(hashes: Seq<i128>, index: int)
    requires
        hashes.len() > 0,
        0 <= index < padded_size(hashes.len()),
    ensures
        path_from(tree_levels(hashes), 0, index).len() > 0,
        Some(
            folded_path(
                padded_hashes(hashes, padded_size(hashes.len()))[index],
                path_from(tree_levels(hashes), 0, index).drop_last(),
            ),
        ) == root_of(hashes),
{
    lemma_padded_size(hashes.len());
    lemma_path_reaches_root(padded_hashes(hashes, padded_size(hashes.len())), index);
}

} // verus!
