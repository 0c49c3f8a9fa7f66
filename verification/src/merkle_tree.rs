//! Construction of a binary hash tree (Merkle tree) over an ordered
//! sequence of string values, reduced level by level to a single root digest.

use crate::arith::{
    is_pow2, log2, pow2, lemma_is_pow2_half, lemma_log2_le, lemma_odd_not_pow2,
    lemma_pow2_injective,
};
use vstd::prelude::*;
use vstd::string::StringExecFns;

verus! {

/// The digest that `sha256::digest` computes for a given sequence of input
/// characters: a fixed hexadecimal encoding of the input's SHA-256 hash.
/// The result depends on the input characters alone.
pub uninterp spec fn sha256_of(s: Seq<char>) -> Seq<char>;

/// Relies on `sha256::digest`: hex-encodes the SHA-256 digest of the
/// argument's UTF-8 bytes, a pure function of the input characters.
#[verifier::external_body]
fn hash(data: String) -> (r: String)
    ensures
        r@ == sha256_of(data@),
{
    sha256::digest(data)
}

/// Why tree construction can fail.
#[derive(Clone, Copy, Debug, PartialEq, Eq, Structural)]
pub enum MerkleError {
    /// The input sequence was empty: there is no root to compute.
    EmptyInput,
    /// Some level of the reduction had an odd number of nodes (that is,
    /// the leaf count is not a power of two), so the nodes cannot be
    /// paired without dropping data.
    InvalidInputSize,
}

/// A node of the tree. A leaf (`left = right = None`, `height = 0`) carries
/// the digest of one input element; an internal node carries the digest of
/// the concatenation of its two children's digests and owns both children.
#[derive(Debug, PartialEq)]
pub struct Node {
    pub hash: String,
    pub height: usize,
    pub left: Option<Box<Node>>,
    pub right: Option<Box<Node>>,
}

/// A fully built Merkle tree: owns exactly one root node and is never
/// mutated after construction.
#[derive(Debug, PartialEq)]
pub struct MerkleTree {
    pub root: Node,
}

impl Node {
    /// A node with no children.
    pub open spec fn is_leaf(self) -> bool {
        self.left is None && self.right is None
    }

    /// The structural invariant: every node is either a leaf of height 0 or
    /// has exactly two well-formed children of equal height, sits one level
    /// above them, and carries the digest of their concatenated digests.
    pub open spec fn wf(self) -> bool
        decreases self,
    {
        match self.left {
            None => self.right is None && self.height == 0,
            Some(l) => match self.right {
                None => false,
                Some(r) => {
                    &&& l.wf()
                    &&& r.wf()
                    &&& r.height == l.height
                    &&& self.height == l.height + 1
                    &&& self.hash@ == sha256_of(l.hash@ + r.hash@)
                },
            },
        }
    }

    /// The digests of this node's leaves, left to right.
    pub open spec fn leaf_hashes(self) -> Seq<Seq<char>>
        decreases self,
    {
        match self.left {
            None => seq![self.hash@],
            Some(l) => match self.right {
                None => seq![self.hash@],
                Some(r) => l.leaf_hashes() + r.leaf_hashes(),
            },
        }
    }

    /// Structural equality: equal digest, height and (recursively) children.
    pub open spec fn same_tree(self, other: Node) -> bool
        decreases self,
    {
        &&& self.hash@ == other.hash@
        &&& self.height == other.height
        &&& (match self.left {
            None => other.left is None,
            Some(l) => match other.left {
                None => false,
                Some(l2) => l.same_tree(*l2),
            },
        })
        &&& (match self.right {
            None => other.right is None,
            Some(r) => match other.right {
                None => false,
                Some(r2) => r.same_tree(*r2),
            },
        })
    }
}

impl Clone for Node {
    /// A clone is equal to the value it was cloned from, throughout the tree.
    fn clone(&self) -> (res: Self)
        ensures
            res == *self,
        decreases self,
    {
        Node {
            hash: self.hash.clone(),
            height: self.height,
            left: (match &self.left {
                Some(node) => Some(Box::new((&**node).clone())),
                None => None,
            }),
            right: (match &self.right {
                Some(node) => Some(Box::new((&**node).clone())),
                None => None,
            }),
        }
    }
}

/// The digests of a sequence of nodes, in order.
pub open spec fn node_hashes(nodes: Seq<Node>) -> Seq<Seq<char>> {
    nodes.map_values(|n: Node| n.hash@)
}

/// The leaf digests under a sequence of nodes, concatenated in order.
pub open spec fn level_leaves(nodes: Seq<Node>) -> Seq<Seq<char>>
    decreases nodes.len(),
{
    if nodes.len() == 0 {
        Seq::empty()
    } else {
        nodes[0].leaf_hashes() + level_leaves(nodes.skip(1))
    }
}

/// One pairing step of the reduction: each two consecutive digests are
/// concatenated (left then right) and hashed into one parent digest.
pub open spec fn pair_hashes(level: Seq<Seq<char>>) -> Seq<Seq<char>> {
    Seq::new(level.len() / 2, |i: int| sha256_of(level[2 * i] + level[2 * i + 1]))
}

/// The root digest that the level-by-level reduction computes from a level
/// of digests (meaningful when the level's length is a power of two).
pub open spec fn root_of(level: Seq<Seq<char>>) -> Seq<char>
    decreases level.len(),
{
    if level.len() == 1 {
        level[0]
    } else if level.len() == 0 {
        Seq::empty()
    } else {
        root_of(pair_hashes(level))
    }
}

/// The digests of the leaves that a sequence of input elements is mapped to.
pub open spec fn leaf_hashes_of(elements: Seq<Seq<char>>) -> Seq<Seq<char>> {
    elements.map_values(|e: Seq<char>| sha256_of(e))
}

/// A sequence of leaves contributes exactly its own digests.
proof fn lemma_level_leaves_of_leaves(nodes: Seq<Node>)
    requires
        forall|j: int| 0 <= j < nodes.len() ==> (#[trigger] nodes[j]).is_leaf(),
    ensures
        level_leaves(nodes) == node_hashes(nodes),
    decreases nodes.len(),
{
    if nodes.len() == 0 {
        assert(level_leaves(nodes) =~= node_hashes(nodes));
    } else {
        lemma_level_leaves_of_leaves(nodes.skip(1));
        assert(node_hashes(nodes.skip(1)) =~= node_hashes(nodes).skip(1));
        assert(level_leaves(nodes) =~= node_hashes(nodes));
    }
}

/// Pairing a level keeps the concatenation of leaf digests unchanged.
proof fn lemma_level_leaves_pairs(parents: Seq<Node>, nodes: Seq<Node>)
    requires
        nodes.len() % 2 == 0,
        parents.len() == nodes.len() / 2,
        forall|j: int| 0 <= j < parents.len() ==> (#[trigger] parents[j]).leaf_hashes()
            == nodes[2 * j].leaf_hashes() + nodes[2 * j + 1].leaf_hashes(),
    ensures
        level_leaves(parents) == level_leaves(nodes),
    decreases parents.len(),
{
    if parents.len() == 0 {
        assert(level_leaves(parents) =~= level_leaves(nodes));
    } else {
        let ptail = parents.skip(1);
        let ntail = nodes.skip(2);
        assert forall|j: int| 0 <= j < ptail.len() implies (#[trigger] ptail[j]).leaf_hashes()
            == ntail[2 * j].leaf_hashes() + ntail[2 * j + 1].leaf_hashes() by {
            assert(ptail[j] == parents[j + 1]);
            assert(ntail[2 * j] == nodes[2 * (j + 1)]);
            assert(ntail[2 * j + 1] == nodes[2 * (j + 1) + 1]);
            assert(parents[j + 1].leaf_hashes() == nodes[2 * (j + 1)].leaf_hashes()
                + nodes[2 * (j + 1) + 1].leaf_hashes());
        }
        lemma_level_leaves_pairs(ptail, ntail);
        assert(nodes.skip(1).skip(1) =~= nodes.skip(2));
        assert(nodes.skip(1)[0] == nodes[1]);
        assert(level_leaves(nodes.skip(1)) == nodes[1].leaf_hashes() + level_leaves(ntail));
        assert((nodes[0].leaf_hashes() + nodes[1].leaf_hashes()) + level_leaves(ntail) =~= nodes[0]
            .leaf_hashes() + (nodes[1].leaf_hashes() + level_leaves(ntail)));
        assert(level_leaves(parents) == level_leaves(nodes));
    }
}

impl MerkleTree {
    /// The whole tree is well-formed.
    pub open spec fn wf(self) -> bool {
        self.root.wf()
    }

    /// The leaf digests the tree commits to, in order.
    pub open spec fn leaf_hashes(self) -> Seq<Seq<char>> {
        self.root.leaf_hashes()
    }

    /// Builds a Merkle tree over `elements`, hashing each element into a
    /// leaf in input order and reducing the leaves level by level.
    ///
    /// Succeeds exactly when the number of elements is a power of two:
    /// an empty input has no root, and any other count reaches a level of
    /// odd length whose nodes cannot all be paired, which is rejected
    /// rather than silently dropping the unpaired node.
    pub fn new(elements: Vec<String>) -> (r: Result<Self, MerkleError>)
        ensures
            r is Ok <==> is_pow2(elements@.len() as nat),
            elements@.len() == 0 ==> r == Err::<Self, MerkleError>(MerkleError::EmptyInput),
            elements@.len() >= 1 && !is_pow2(elements@.len() as nat) ==> r == Err::<
                Self,
                MerkleError,
            >(MerkleError::InvalidInputSize),
            r matches Ok(t) ==> {
                &&& t.wf()
                &&& t.leaf_hashes() == leaf_hashes_of(elements.deep_view())
                &&& t.root.height == log2(elements@.len() as nat)
                &&& t.root.hash@ == root_of(leaf_hashes_of(elements.deep_view()))
            },
    {
        let mut leafs: Vec<Node> = Vec::new();
        let mut i: usize = 0;
        while i < elements.len()
            invariant
                i <= elements@.len(),
                leafs@.len() == i,
                forall|j: int| 0 <= j < i ==> (#[trigger] leafs@[j]).left is None
                    && leafs@[j].right is None && leafs@[j].height == 0,
                forall|j: int| 0 <= j < i ==> (#[trigger] leafs@[j]).hash@ == sha256_of(
                    elements@[j]@,
                ),
            decreases elements@.len() - i,
        {
            let leaf = Node { hash: hash(elements[i].clone()), height: 0, left: None, right: None };
            leafs.push(leaf);
            i += 1;
        }
        let ghost gleafs = leafs@;
        proof {
            lemma_log2_le(elements@.len() as nat);
            lemma_level_leaves_of_leaves(gleafs);
            assert(node_hashes(gleafs) =~= leaf_hashes_of(elements.deep_view()));
        }
        match Self::build_tree(leafs) {
            Ok(root) => Ok(MerkleTree { root }),
            Err(e) => Err(e),
        }
    }

    /// Reduces a level of nodes to the single root above them: consecutive
    /// nodes are paired in order, every pair is hashed into its parent, and
    /// the parents form the next level, until one node remains.
    ///
    /// Fails with `EmptyInput` on an empty level and with
    /// `InvalidInputSize` as soon as a level of two or more nodes has odd
    /// length, since its nodes cannot all be paired.
    fn build_tree(nodes: Vec<Node>) -> (r: Result<Node, MerkleError>)
        requires
            forall|k: int| 0 <= k < nodes@.len() ==> (#[trigger] nodes@[k]).wf(),
            forall|k: int| 0 <= k < nodes@.len() ==> (#[trigger] nodes@[k]).height
                == nodes@[0].height,
            nodes@.len() >= 1 ==> nodes@[0].height + log2(nodes@.len() as nat) <= usize::MAX,
        ensures
            r is Ok <==> is_pow2(nodes@.len() as nat),
            nodes@.len() == 0 ==> r == Err::<Node, MerkleError>(MerkleError::EmptyInput),
            nodes@.len() >= 1 && !is_pow2(nodes@.len() as nat) ==> r == Err::<
                Node,
                MerkleError,
            >(MerkleError::InvalidInputSize),
            r matches Ok(root) ==> {
                &&& root.wf()
                &&& root.height == nodes@[0].height + log2(nodes@.len() as nat)
                &&& root.hash@ == root_of(node_hashes(nodes@))
                &&& root.leaf_hashes() == level_leaves(nodes@)
            },
        decreases nodes@.len(),
    {
        let len: usize = nodes.len();
        if len == 0 {
            return Err(MerkleError::EmptyInput);
        }
        if len == 1 {
            let ghost gnodes = nodes@;
            let mut singleton = nodes;
            let root = singleton.pop().unwrap();
            proof {
                assert(root == gnodes[0]);
                assert(level_leaves(gnodes.skip(1)) =~= Seq::<Seq<char>>::empty());
                assert(root.leaf_hashes() + Seq::<Seq<char>>::empty() =~= root.leaf_hashes());
            }
            return Ok(root);
        }
        if len % 2 == 1 {
            proof {
                lemma_odd_not_pow2(len as nat);
            }
            return Err(MerkleError::InvalidInputSize);
        }
        let half: usize = len / 2;
        let mut parent_nodes: Vec<Node> = Vec::new();
        let mut i: usize = 0;
        while i < half
            invariant
                nodes@.len() == len,
                len % 2 == 0,
                2 <= len,
                half == len / 2,
                i <= half,
                forall|k: int| 0 <= k < len ==> (#[trigger] nodes@[k]).wf(),
                forall|k: int| 0 <= k < len ==> (#[trigger] nodes@[k]).height == nodes@[0].height,
                nodes@[0].height + log2(len as nat) <= usize::MAX,
                parent_nodes@.len() == i,
                forall|j: int| 0 <= j < i ==> (#[trigger] parent_nodes@[j]).wf(),
                forall|j: int| 0 <= j < i ==> (#[trigger] parent_nodes@[j]).height == nodes@[0].height
                    + 1,
                forall|j: int| 0 <= j < i ==> (#[trigger] parent_nodes@[j]).hash@ == sha256_of(
                    nodes@[2 * j].hash@ + nodes@[2 * j + 1].hash@,
                ),
                forall|j: int| 0 <= j < i ==> (#[trigger] parent_nodes@[j]).leaf_hashes()
                    == nodes@[2 * j].leaf_hashes() + nodes@[2 * j + 1].leaf_hashes(),
            decreases half - i,
        {
            let left_node = &nodes[2 * i];
            let right_node = &nodes[2 * i + 1];
            let parent = Node {
                hash: hash(left_node.hash.clone().concat(right_node.hash.as_str())),
                height: left_node.height + 1,
                left: Some(Box::new(left_node.clone())),
                right: Some(Box::new(right_node.clone())),
            };
            parent_nodes.push(parent);
            i += 1;
        }
        let ghost gnodes = nodes@;
        let ghost gparents = parent_nodes@;
        proof {
            lemma_is_pow2_half(len as nat);
            lemma_level_leaves_pairs(gparents, gnodes);
            assert(node_hashes(gparents) =~= pair_hashes(node_hashes(gnodes)));
        }
        match Self::build_tree(parent_nodes) {
            Ok(root) => {
                proof {
                    assert(root.hash@ == root_of(pair_hashes(node_hashes(gnodes))));
                    assert(root_of(node_hashes(gnodes)) == root_of(pair_hashes(node_hashes(gnodes))));
                }
                Ok(root)
            },
            Err(e) => Err(e),
        }
    }

    /// Read access to the root digest that the tree commits to.
    pub fn root_hash(&self) -> (h: &String)
        ensures
            h@ == self.root.hash@,
    {
        &self.root.hash
    }
}

/// A well-formed node of height `h` covers exactly `2^h` leaves.
pub proof fn lemma_wf_leaf_count(n: Node)
    requires
        n.wf(),
    ensures
        n.leaf_hashes().len() == pow2(n.height as nat),
    decreases n,
{
    match n.left {
        None => {
        },
        Some(l) => match n.right {
            None => {
                assert(false);
            },
            Some(r) => {
                lemma_wf_leaf_count(*l);
                lemma_wf_leaf_count(*r);
            },
        },
    }
}

/// Two well-formed trees over the same ordered leaf digests are identical —
/// equal digest, height and children at every node. Since the tree built
/// from a given input is well-formed and its leaf digests are a function of
/// the input alone, construction is deterministic and two trees built from
/// the same input are structurally equal.
pub proof fn lemma_same_structure(a: Node, b: Node)
    requires
        a.wf(),
        b.wf(),
        a.leaf_hashes() == b.leaf_hashes(),
    ensures
        a.same_tree(b),
    decreases a,
{
    lemma_wf_leaf_count(a);
    lemma_wf_leaf_count(b);
    lemma_pow2_injective(a.height as nat, b.height as nat);
    match a.left {
        None => {
            assert(b.left is None && b.right is None);
            assert(a.leaf_hashes()[0] == a.hash@);
            assert(b.leaf_hashes()[0] == b.hash@);
        },
        Some(al) => match a.right {
            None => {
                assert(false);
            },
            Some(ar) => {
                assert(b.left is Some && b.right is Some);
                let bl = b.left->0;
                let br = b.right->0;
                lemma_wf_leaf_count(*al);
                lemma_wf_leaf_count(*ar);
                lemma_wf_leaf_count(*bl);
                lemma_wf_leaf_count(*br);
                let la = al.leaf_hashes();
                let ra = ar.leaf_hashes();
                let lb = bl.leaf_hashes();
                let rb = br.leaf_hashes();
                assert(la.len() == lb.len());
                assert forall|i: int| 0 <= i < la.len() implies la[i] == lb[i] by {
                    assert(la[i] == (la + ra)[i]);
                    assert(lb[i] == (lb + rb)[i]);
                }
                assert(la =~= lb);
                assert forall|i: int| 0 <= i < ra.len() implies ra[i] == rb[i] by {
                    assert(ra[i] == (la + ra)[la.len() + i]);
                    assert(rb[i] == (lb + rb)[lb.len() + i]);
                }
                assert(ra =~= rb);
                lemma_same_structure(*al, *bl);
                lemma_same_structure(*ar, *br);
            },
        },
    }
}

/// Trees built from the same ordered input are interchangeable: equal leaf
/// digests give the same digest, height and children at every node, and in
/// particular the same root digest.
pub proof fn lemma_build_deterministic(a: MerkleTree, b: MerkleTree)
    requires
        a.wf(),
        b.wf(),
        a.leaf_hashes() == b.leaf_hashes(),
    ensures
        a.root.same_tree(b.root),
        a.root.hash@ == b.root.hash@,
{
    lemma_same_structure(a.root, b.root);
}

/// With `2^k` leaves the root sits at height exactly `k`.
pub proof fn lemma_root_height(t: MerkleTree, k: nat)
    requires
        t.wf(),
        t.leaf_hashes().len() == pow2(k),
    ensures
        t.root.height == k,
{
    lemma_wf_leaf_count(t.root);
    lemma_pow2_injective(t.root.height as nat, k);
}

} // verus!
