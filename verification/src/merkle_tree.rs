//! The hash tree: its nodes, the path locator and the proof generator.

use crate::digest::{hash_pair, hashable, sha256, sha256_digest, DIGEST_LEN};
use crate::file_map::{content_of, has_name, Entries, FileMap};
use crate::utils::{closest_bigger_power_of_two, next_power_of_two};
use vstd::prelude::*;

verus! {

/// The operand position that a digest takes when two digests are combined.
#[derive(Clone, Copy, Debug, PartialEq, Eq, Structural)]
pub enum NodeOrder {
    /// The digest comes second.
    Right,
    /// The digest comes first.
    Left,
}

/// One step of an audit path: a digest and the operand position it takes
/// when the path is replayed. The position is absent only on a digest that a
/// replay has computed.
pub struct ProofListItem {
    pub hash: Vec<u8>,
    pub order: Option<NodeOrder>,
}

/// What a [`ProofListItem`] stands for in contracts.
pub struct ProofStep {
    pub hash: Seq<u8>,
    pub order: Option<NodeOrder>,
}

impl View for ProofListItem {
    type V = ProofStep;

    open spec fn view(&self) -> ProofStep {
        ProofStep { hash: self.hash@, order: self.order }
    }
}

impl Clone for ProofListItem {
    fn clone(&self) -> (copy: Self)
        ensures
            copy@ == self@,
    {
        ProofListItem { hash: self.hash.clone(), order: self.order }
    }
}

impl ProofListItem {
    /// The step that carries `hash` on the side `order`.
    pub fn new(hash: Vec<u8>, order: Option<NodeOrder>) -> (item: Self)
        ensures
            item.hash == hash,
            item.order == order,
    {
        ProofListItem { hash, order }
    }
}

/// The steps that a list of items stands for, in the same order.
pub open spec fn steps_of(items: Seq<ProofListItem>) -> Seq<ProofStep> {
    Seq::new(items.len(), |i: int| items[i]@)
}

/// A node of the tree: a leaf when it has no children.
#[derive(Debug)]
pub struct MerkleNode {
    pub hash: Vec<u8>,
    pub left: Option<Box<MerkleNode>>,
    pub right: Option<Box<MerkleNode>>,
}

/// What a [`MerkleNode`] stands for in contracts.
pub struct NodeView {
    pub hash: Seq<u8>,
    pub left: Option<Box<NodeView>>,
    pub right: Option<Box<NodeView>>,
}

impl MerkleNode {
    /// The view of an optional child.
    pub open spec fn child_view(child: Option<Box<MerkleNode>>) -> Option<Box<NodeView>>
        decreases child,
    {
        match child {
            Some(node) => Some(Box::new(node.shape())),
            None => None,
        }
    }

    /// The digests of this node and of all nodes below it, in their places.
    pub open spec fn shape(self) -> NodeView
        decreases self,
    {
        NodeView {
            hash: self.hash@,
            left: MerkleNode::child_view(self.left),
            right: MerkleNode::child_view(self.right),
        }
    }
}

impl MerkleNode {
    /// A leaf for the file content `data`: its digest is that of the content.
    pub fn new(data: &Vec<u8>) -> (node: Self)
        requires
            hashable(data@),
        ensures
            node@ == NodeView::leaf(sha256(data@)),
            node@.consistent(),
    {
        let hash = sha256_digest(data.as_slice());
        MerkleNode { hash, left: None, right: None }
    }

    /// The parent of copies of `left` and `right`.
    pub fn combine(left: &MerkleNode, right: &MerkleNode) -> (node: Self)
        requires
            hashable(left@.hash + right@.hash),
        ensures
            node@ == NodeView::fork(left@, right@),
            node@.hash.len() == DIGEST_LEN,
            left@.consistent() && right@.consistent() ==> node@.consistent(),
    {
        MerkleNode::join(left.clone(), right.clone())
    }

    /// The parent of `left` and `right`, which it takes over.
    fn join(left: MerkleNode, right: MerkleNode) -> (node: Self)
        requires
            hashable(left@.hash + right@.hash),
        ensures
            node@ == NodeView::fork(left@, right@),
            node@.hash.len() == DIGEST_LEN,
            left@.consistent() && right@.consistent() ==> node@.consistent(),
    {
        let hash = hash_pair(&left.hash, &right.hash);
        MerkleNode { hash, left: Some(Box::new(left)), right: Some(Box::new(right)) }
    }
}

impl View for MerkleNode {
    type V = NodeView;

    open spec fn view(&self) -> NodeView {
        self.shape()
    }
}

impl NodeView {
    /// A node without children.
    pub open spec fn leaf(hash: Seq<u8>) -> NodeView {
        NodeView { hash, left: None, right: None }
    }

    /// The parent of `first` and `second`: its digest is that of the two
    /// children's digests, `first`'s before `second`'s.
    pub open spec fn fork(first: NodeView, second: NodeView) -> NodeView {
        NodeView {
            hash: sha256(first.hash + second.hash),
            left: Some(Box::new(first)),
            right: Some(Box::new(second)),
        }
    }

    /// Whether `target` is the digest of `node` or of a node below it.
    pub open spec fn holds(node: Option<Box<NodeView>>, target: Seq<u8>) -> bool
        decreases node,
    {
        match node {
            Some(n) => n.hash == target || NodeView::holds(n.left, target) || NodeView::holds(
                n.right,
                target,
            ),
            None => false,
        }
    }

    /// The side of this node under which `target` is found, the left one
    /// first; `None` when it is under neither.
    pub open spec fn locate(self, target: Seq<u8>) -> Option<NodeOrder> {
        if NodeView::holds(self.left, target) {
            Some(NodeOrder::Left)
        } else if NodeView::holds(self.right, target) {
            Some(NodeOrder::Right)
        } else {
            None
        }
    }
}

impl ProofStep {
    /// The step that stands for `node` as the child on `side` of its parent.
    pub open spec fn of(node: NodeView, side: NodeOrder) -> ProofStep {
        ProofStep { hash: node.hash, order: Some(side) }
    }
}

impl NodeView {
    /// Whether this node and all nodes below it are as the builder makes them:
    /// every digest has the length of a digest, a node has two children or
    /// none, and the digest of a parent is that of its children's digests,
    /// the left one's first.
    pub open spec fn consistent(self) -> bool
        decreases self,
    {
        &&& self.hash.len() == DIGEST_LEN
        &&& match (self.left, self.right) {
            (Some(left), Some(right)) => {
                &&& self.hash == sha256(left.hash + right.hash)
                &&& left.consistent()
                &&& right.consistent()
            },
            (None, None) => true,
            _ => false,
        }
    }

    /// The number of nodes: this one and all below it.
    pub open spec fn size(self) -> nat
        decreases self,
    {
        1 + NodeView::size_below(self.left) + NodeView::size_below(self.right)
    }

    /// The number of nodes of an optional child; 0 when there is none.
    pub open spec fn size_below(child: Option<Box<NodeView>>) -> nat
        decreases child,
    {
        match child {
            Some(node) => node.size(),
            None => 0,
        }
    }

    /// The audit path for `target` from this node down.
    ///
    /// At each node on the way the path holds the child that is not entered,
    /// with its side; where one of the two children carries `target`, the child
    /// that is entered comes before it, with its side. The way ends at a node
    /// under which `target` is not found, or which lacks a child.
    pub open spec fn audit_path(self, target: Seq<u8>) -> Seq<ProofStep>
        decreases self,
    {
        match (self.left, self.right) {
            (Some(left), Some(right)) => {
                let at_target = left.hash == target || right.hash == target;
                match self.locate(target) {
                    Some(NodeOrder::Left) => {
                        let entered = if at_target {
                            seq![ProofStep::of(*left, NodeOrder::Left)]
                        } else {
                            seq![]
                        };
                        entered + seq![ProofStep::of(*right, NodeOrder::Right)] + left.audit_path(
                            target,
                        )
                    },
                    Some(NodeOrder::Right) => {
                        let entered = if at_target {
                            seq![ProofStep::of(*right, NodeOrder::Right)]
                        } else {
                            seq![]
                        };
                        entered + seq![ProofStep::of(*left, NodeOrder::Left)] + right.audit_path(
                            target,
                        )
                    },
                    None => seq![],
                }
            },
            _ => seq![],
        }
    }
}

impl Clone for MerkleNode {
    fn clone(&self) -> (copy: Self)
        ensures
            copy@ == self@,
        decreases self,
    {
        MerkleNode {
            hash: self.hash.clone(),
            left: (match &self.left {
                Some(node) => Some(Box::new((&**node).clone())),
                None => None,
            }),
            right: (match &self.right {
                Some(node) => Some(Box::new((&**node).clone())),
                None => None,
            }),
        }
    }
}

/// The views of a row of nodes, in the same order.
pub open spec fn shapes(nodes: Seq<MerkleNode>) -> Seq<NodeView> {
    Seq::new(nodes.len(), |i: int| nodes[i]@)
}

/// The leaves of a snapshot: one for each file, in the order of the names,
/// with the digest of the file's content.
pub open spec fn leaves_of(entries: Entries) -> Seq<NodeView> {
    Seq::new(entries.len(), |i: int| NodeView::leaf(sha256(entries[i].1)))
}

/// A row of leaves brought up to a power of two by repeating the last one.
pub open spec fn padded(row: Seq<NodeView>) -> Seq<NodeView> {
    if row.len() == 0 {
        row
    } else {
        Seq::new(
            next_power_of_two(row.len()),
            |i: int|
                if i < row.len() {
                    row[i]
                } else {
                    row.last()
                },
        )
    }
}

/// One pass over a row, from its end: the last node and the one before it
/// become the children of a new node, in that order, then the two before
/// them, and so on; a node left alone at the front is carried over as it is.
pub open spec fn paired(row: Seq<NodeView>) -> Seq<NodeView>
    decreases row.len(),
{
    if row.len() <= 1 {
        row
    } else {
        seq![NodeView::fork(row[row.len() - 1], row[row.len() - 2])] + paired(
            row.take(row.len() - 2),
        )
    }
}

/// A pass over `n` nodes leaves half of them, rounded up.
pub proof fn lemma_paired_len(row: Seq<NodeView>)
    ensures
        paired(row).len() == (row.len() + 1) / 2,
    decreases row.len(),
{
    if row.len() > 1 {
        lemma_paired_len(row.take(row.len() - 2));
    }
}

/// The node that is left when a row is passed over until one node remains.
pub open spec fn reduced(row: Seq<NodeView>) -> NodeView
    recommends
        row.len() > 0,
    decreases row.len(),
    via reduced_decreases
{
    if row.len() <= 1 {
        row[0]
    } else {
        reduced(paired(row))
    }
}

#[via_fn]
proof fn reduced_decreases(row: Seq<NodeView>) {
    lemma_paired_len(row);
}

/// The root of the tree of a snapshot.
pub open spec fn root_of(entries: Entries) -> NodeView
    recommends
        entries.len() > 0,
{
    reduced(padded(leaves_of(entries)))
}

/// Why no tree was built.
#[derive(Clone, Copy, Debug, PartialEq, Eq, Structural)]
pub enum MerkleError {
    /// The snapshot holds no file.
    EmptyInput,
}

/// The tree: it owns its root.
#[derive(Debug)]
pub struct MerkleTree {
    pub root: MerkleNode,
}

impl Clone for MerkleTree {
    fn clone(&self) -> (copy: Self)
        ensures
            copy.root@ == self.root@,
    {
        MerkleTree { root: self.root.clone() }
    }
}

impl MerkleTree {
    /// Builds the tree of a snapshot: a leaf for each file in the order of
    /// the names, the last leaf repeated up to a power of two, and the rows
    /// passed over until the root is left.
    pub fn new(files: &FileMap) -> (built: Result<MerkleTree, MerkleError>)
        ensures
            files@.len() == 0 ==> built == Err::<MerkleTree, _>(MerkleError::EmptyInput),
            files@.len() > 0 ==> built is Ok,
            built matches Ok(tree) ==> tree.root@ == root_of(files@) && tree.root@.consistent(),
    {
        let count = files.len();
        if count == 0 {
            return Err(MerkleError::EmptyInput);
        }
        let mut nodes: Vec<MerkleNode> = Vec::new();
        let mut i: usize = 0;
        while i < count
            invariant
                i <= count,
                count == files@.len(),
                shapes(nodes@) == leaves_of(files@).take(i as int),
                forall|k: int| 0 <= k < nodes@.len() ==> (#[trigger] nodes@[k])@.consistent(),
            decreases count - i,
        {
            let ghost done = shapes(nodes@);
            let leaf = MerkleNode::new(files.content_at(i));
            let ghost added = leaf@;
            nodes.push(leaf);
            proof {
                assert(shapes(nodes@) =~= done.push(added));
                assert(leaves_of(files@).take(i + 1) =~= leaves_of(files@).take(i as int).push(
                    leaves_of(files@)[i as int],
                ));
            }
            i += 1;
        }
        assert(leaves_of(files@).take(count as int) =~= leaves_of(files@));
        let ghost leaves = leaves_of(files@);
        let full = closest_bigger_power_of_two(count as u32) as usize;
        let last_item = nodes[count - 1].clone();
        while nodes.len() < full
            invariant
                count <= nodes@.len() <= full,
                count == leaves.len(),
                count > 0,
                full == next_power_of_two(count as nat),
                last_item@ == leaves.last(),
                last_item@.consistent(),
                shapes(nodes@) == padded(leaves).take(nodes@.len() as int),
                forall|k: int| 0 <= k < nodes@.len() ==> (#[trigger] nodes@[k])@.consistent(),
            decreases full - nodes@.len(),
        {
            let ghost before = nodes@.len() as int;
            let ghost done = shapes(nodes@);
            let copy = last_item.clone();
            let ghost added = copy@;
            nodes.push(copy);
            proof {
                assert(shapes(nodes@) =~= done.push(added));
                assert(padded(leaves).take(before + 1) =~= padded(leaves).take(before).push(
                    padded(leaves)[before],
                ));
            }
        }
        assert(padded(leaves).take(full as int) =~= padded(leaves));
        while nodes.len() > 1
            invariant
                nodes@.len() >= 1,
                reduced(shapes(nodes@)) == root_of(files@),
                forall|k: int| 0 <= k < nodes@.len() ==> (#[trigger] nodes@[k])@.consistent(),
            decreases nodes@.len(),
        {
            let ghost row = shapes(nodes@);
            let ghost width = nodes@.len();
            let mut next_level: Vec<MerkleNode> = Vec::new();
            proof {
                lemma_paired_len(row);
                assert(shapes(next_level@) + paired(shapes(nodes@)) =~= paired(row));
            }
            while nodes.len() > 0
                invariant
                    shapes(next_level@) + paired(shapes(nodes@)) == paired(row),
                    forall|k: int| 0 <= k < nodes@.len() ==> (#[trigger] nodes@[k])@.consistent(),
                    forall|k: int| 0 <= k < next_level@.len() ==> (#[trigger] next_level@[k])@.consistent(),
                decreases nodes@.len(),
            {
                let ghost rest = shapes(nodes@);
                let ghost done = shapes(next_level@);
                let left = nodes.pop().unwrap();
                match nodes.pop() {
                    Some(right) => {
                        let parent = MerkleNode::join(left, right);
                        next_level.push(parent);
                        proof {
                            assert(shapes(nodes@) =~= rest.take(rest.len() - 2));
                            assert(left@ == rest[rest.len() - 1]);
                            assert(right@ == rest[rest.len() - 2]);
                            assert(shapes(next_level@) =~= done.push(parent@));
                            assert(done.push(parent@) + paired(rest.take(rest.len() - 2)) =~= done
                                + paired(rest));
                        }
                    },
                    None => {
                        next_level.push(left);
                        proof {
                            assert(rest =~= seq![left@]);
                            assert(shapes(nodes@) =~= Seq::<NodeView>::empty());
                            assert(shapes(next_level@) =~= done.push(left@));
                            assert(done.push(left@) + paired(shapes(nodes@)) =~= done + paired(rest));
                        }
                    },
                }
            }
            proof {
                assert(shapes(nodes@) =~= Seq::<NodeView>::empty());
                assert(shapes(next_level@) =~= paired(row));
            }
            nodes = next_level;
        }
        let root = nodes.pop().unwrap();
        Ok(MerkleTree { root })
    }

    /// A copy of the root's digest.
    pub fn get_root_hash(&self) -> (hash: Vec<u8>)
        ensures
            hash@ == self.root@.hash,
    {
        self.root.hash.clone()
    }

    /// The audit path for the file `file_name` of `files`, the snapshot that
    /// this tree was built from: the steps from the root down to the leaf.
    ///
    /// There is none when `files` has no such file, and none when the digest
    /// of its content is not found below the root.
    pub fn generate_merkle_proof(&self, file_name: &str, files: &FileMap) -> (proof_list: Option<
        Vec<ProofListItem>,
    >)
        ensures
            !has_name(files@, file_name@) ==> proof_list is None,
            has_name(files@, file_name@) ==> {
                let path = self.root@.audit_path(sha256(content_of(files@, file_name@)));
                match proof_list {
                    Some(list) => path.len() > 0 && steps_of(list@) == path,
                    None => path.len() == 0,
                }
            },
    {
        let file_contents = match files.get(file_name) {
            Some(content) => content,
            None => {
                return None;
            },
        };
        let target_hash = sha256_digest(file_contents.as_slice());
        let proof_list = self.audit_path(&target_hash);
        if proof_list.len() == 0 {
            return None;
        }
        Some(proof_list)
    }

    /// The audit path for the digest `target_hash`: the steps from the root
    /// down to the node that carries it, none where no node below the root
    /// does.
    pub fn audit_path(&self, target_hash: &Vec<u8>) -> (proof_list: Vec<ProofListItem>)
        ensures
            steps_of(proof_list@) == self.root@.audit_path(target_hash@),
    {
        let mut proof_list: Vec<ProofListItem> = Vec::new();
        let mut node: &MerkleNode = &self.root;
        let ghost whole = self.root@.audit_path(target_hash@);
        assert(steps_of(proof_list@) + node@.audit_path(target_hash@) =~= whole);
        loop
            invariant
                steps_of(proof_list@) + node@.audit_path(target_hash@) == whole,
            ensures
                steps_of(proof_list@) == whole,
            decreases node@.size(),
        {
            let ghost done = steps_of(proof_list@);
            let side = self.find_target_relative_to_node(node, target_hash);
            match (&node.left, &node.right, side) {
                (Some(left), Some(right), Some(NodeOrder::Right)) => {
                    let at_target = left.hash == *target_hash || right.hash == *target_hash;
                    proof {
                        assert(left.hash@ == target_hash@ <==> left.hash@ =~= target_hash@);
                        assert(right.hash@ == target_hash@ <==> right.hash@ =~= target_hash@);
                    }
                    if at_target {
                        proof_list.push(
                            ProofListItem::new(right.hash.clone(), Some(NodeOrder::Right)),
                        );
                    }
                    proof_list.push(ProofListItem::new(left.hash.clone(), Some(NodeOrder::Left)));
                    proof {
                        let entered = if at_target {
                            seq![ProofStep::of(right@, NodeOrder::Right)]
                        } else {
                            seq![]
                        };
                        assert(steps_of(proof_list@) =~= done + (entered + seq![
                            ProofStep::of(left@, NodeOrder::Left),
                        ]));
                        assert(steps_of(proof_list@) + right@.audit_path(target_hash@) =~= done
                            + node@.audit_path(target_hash@));
                    }
                    node = &**right;
                },
                (Some(left), Some(right), Some(NodeOrder::Left)) => {
                    let at_target = left.hash == *target_hash || right.hash == *target_hash;
                    proof {
                        assert(left.hash@ == target_hash@ <==> left.hash@ =~= target_hash@);
                        assert(right.hash@ == target_hash@ <==> right.hash@ =~= target_hash@);
                    }
                    if at_target {
                        proof_list.push(
                            ProofListItem::new(left.hash.clone(), Some(NodeOrder::Left)),
                        );
                    }
                    proof_list.push(
                        ProofListItem::new(right.hash.clone(), Some(NodeOrder::Right)),
                    );
                    proof {
                        let entered = if at_target {
                            seq![ProofStep::of(left@, NodeOrder::Left)]
                        } else {
                            seq![]
                        };
                        assert(steps_of(proof_list@) =~= done + (entered + seq![
                            ProofStep::of(right@, NodeOrder::Right),
                        ]));
                        assert(steps_of(proof_list@) + left@.audit_path(target_hash@) =~= done
                            + node@.audit_path(target_hash@));
                    }
                    node = &**left;
                },
                _ => {
                    assert(node@.audit_path(target_hash@) =~= Seq::<ProofStep>::empty());
                    assert(steps_of(proof_list@) =~= whole);
                    break ;
                },
            }
        }
        proof_list
    }

    /// Whether `target_hash` is the digest of `node` or of a node below it.
    pub fn is_node_in_subtree(node: &Option<Box<MerkleNode>>, target_hash: &Vec<u8>) -> (found:
        bool)
        ensures
            found == NodeView::holds(MerkleNode::child_view(*node), target_hash@),
        decreases node,
    {
        match node {
            Some(n) => {
                if n.hash == *target_hash {
                    assert(n.hash@ =~= target_hash@);
                    return true;
                }
                MerkleTree::is_node_in_subtree(&n.left, target_hash)
                    || MerkleTree::is_node_in_subtree(&n.right, target_hash)
            },
            None => false,
        }
    }

    /// The side of `node` under which `target_hash` is found: `Left` when a
    /// node of the left subtree carries it, else `Right` when one of the right
    /// subtree does, else `None`.
    pub fn find_target_relative_to_node(&self, node: &MerkleNode, target_hash: &Vec<u8>) -> (side:
        Option<NodeOrder>)
        ensures
            side == node@.locate(target_hash@),
    {
        if MerkleTree::is_node_in_subtree(&node.left, target_hash) {
            Some(NodeOrder::Left)
        } else if MerkleTree::is_node_in_subtree(&node.right, target_hash) {
            Some(NodeOrder::Right)
        } else {
            None
        }
    }
}

} // verus!
