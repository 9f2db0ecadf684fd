//! What holds of trees, audit paths and their replay together.

use crate::digest::{hashable, sha256, DIGEST_LEN};
use crate::file_map::{content_of, has_name, lemma_content_of, well_formed, Entries};
use crate::merkle_tree::{
    leaves_of, padded, paired, reduced, root_of, lemma_paired_len, NodeOrder, NodeView, ProofStep,
};
use crate::utils::{
    accepts, combined_input, halvings, is_power_of_two, lemma_next_power_of_two, lists_hash,
    next_power_of_two, replayed,
};
use vstd::prelude::*;

verus! {

impl NodeView {
    /// Whether, on the way down to `target`, a child carries `target` at a
    /// node from which the way still goes on below the child that is entered.
    pub open spec fn matches_early(self, target: Seq<u8>) -> bool
        decreases self,
    {
        match (self.left, self.right, self.locate(target)) {
            (Some(left), Some(right), Some(side)) => {
                let entered = if side == NodeOrder::Left {
                    *left
                } else {
                    *right
                };
                ||| entered.locate(target) is Some && (left.hash == target || right.hash
                    == target)
                ||| entered.matches_early(target)
            },
            _ => false,
        }
    }

    /// Whether every leaf at or below this node stands `depth` levels below
    /// it, and every other node has two children.
    pub open spec fn perfect(self, depth: nat) -> bool
        decreases self,
    {
        match (self.left, self.right) {
            (Some(left), Some(right)) => depth > 0 && left.perfect((depth - 1) as nat)
                && right.perfect((depth - 1) as nat),
            (None, None) => depth == 0,
            _ => false,
        }
    }

    /// Whether a node with children, this one or one below it, carries
    /// `target`.
    pub open spec fn branch_carries(self, target: Seq<u8>) -> bool
        decreases self,
    {
        match (self.left, self.right) {
            (None, None) => false,
            _ => self.hash == target || NodeView::branch_carries_below(self.left, target)
                || NodeView::branch_carries_below(self.right, target),
        }
    }

    /// Whether a node with children at or below an optional child carries
    /// `target`.
    pub open spec fn branch_carries_below(child: Option<Box<NodeView>>, target: Seq<u8>) -> bool
        decreases child,
    {
        match child {
            Some(node) => node.branch_carries(target),
            None => false,
        }
    }
}

/// The step that a replay puts back for the node `node`.
pub open spec fn computed(node: NodeView) -> ProofStep {
    ProofStep { hash: node.hash, order: None }
}

/// A replay folds the audit path of a node into that node's digest.
///
/// Let `target` be found under the consistent node `node`, with no early
/// match on the way down. Then the path has two steps or more, one of them
/// carries `target`, and behind any steps `before` its replay goes on as if
/// the digest of `node` stood in its place.
pub proof fn lemma_audit_path_folds(node: NodeView, target: Seq<u8>, before: Seq<ProofStep>)
    requires
        node.consistent(),
        node.locate(target) is Some,
        !node.matches_early(target),
    ensures
        node.audit_path(target).len() >= 2,
        lists_hash(node.audit_path(target), target),
        replayed(before + node.audit_path(target)) == replayed(before.push(computed(node))),
    decreases node,
{
    let left = *node.left->0;
    let right = *node.right->0;
    let side = node.locate(target)->0;
    let path = node.audit_path(target);
    let (entered, other, other_side) = if side == NodeOrder::Left {
        (left, right, NodeOrder::Right)
    } else {
        (right, left, NodeOrder::Left)
    };
    assert(node.left is Some && node.right is Some);
    assert(left.consistent() && right.consistent());
    assert(left.hash.len() == DIGEST_LEN && right.hash.len() == DIGEST_LEN);
    assert(NodeView::holds(Some(Box::new(entered)), target));
    assert(hashable(left.hash + right.hash));
    let whole = before + path;
    if entered.locate(target) is None {
        assert(entered.hash == target);
        assert(entered.audit_path(target) =~= Seq::<ProofStep>::empty());
        assert(path =~= seq![ProofStep::of(entered, side), ProofStep::of(other, other_side)]);
        assert(path[0].hash == target);
        assert(whole[whole.len() - 1] == ProofStep::of(other, other_side));
        assert(whole[whole.len() - 2] == ProofStep::of(entered, side));
        assert(combined_input(whole[whole.len() - 1], whole[whole.len() - 2]) == Some(
            left.hash + right.hash,
        ));
        assert(whole.take(whole.len() - 2) =~= before);
    } else {
        let longer = before.push(ProofStep::of(other, other_side));
        lemma_audit_path_folds(entered, target, longer);
        let below = entered.audit_path(target);
        assert(path =~= seq![ProofStep::of(other, other_side)] + below);
        assert(whole =~= longer + below);
        let witness = choose|i: int| 0 <= i < below.len() && (#[trigger] below[i]).hash == target;
        assert(path[witness + 1] == below[witness]);
        let folded = longer.push(computed(entered));
        assert(folded[folded.len() - 1] == computed(entered));
        assert(folded[folded.len() - 2] == ProofStep::of(other, other_side));
        assert(combined_input(folded[folded.len() - 1], folded[folded.len() - 2]) == Some(
            left.hash + right.hash,
        ));
        assert(folded.take(folded.len() - 2) =~= before);
    }
}

/// The replay of a node's audit path arrives at the node's digest.
pub proof fn lemma_audit_path_replays(node: NodeView, target: Seq<u8>)
    requires
        node.consistent(),
        node.locate(target) is Some,
        !node.matches_early(target),
    ensures
        node.audit_path(target).len() >= 2,
        lists_hash(node.audit_path(target), target),
        replayed(node.audit_path(target)) == Some(node.hash),
{
    let none = Seq::<ProofStep>::empty();
    lemma_audit_path_folds(node, target, none);
    assert(none + node.audit_path(target) =~= node.audit_path(target));
    assert(none.push(computed(node)) =~= seq![computed(node)]);
}

/// Whether some node of `row` carries `target`, itself or below it.
pub open spec fn row_holds(row: Seq<NodeView>, target: Seq<u8>) -> bool {
    exists|i: int| 0 <= i < row.len() && NodeView::holds(Some(Box::new(#[trigger] row[i])), target)
}

/// A pass over a row loses no digest: what a node of the row carries, a node
/// of the next row carries too.
pub proof fn lemma_paired_keeps(row: Seq<NodeView>, target: Seq<u8>)
    requires
        row_holds(row, target),
    ensures
        row_holds(paired(row), target),
    decreases row.len(),
{
    let at = choose|i: int|
        0 <= i < row.len() && NodeView::holds(Some(Box::new(#[trigger] row[i])), target);
    if row.len() > 1 {
        let front = row.take(row.len() - 2);
        let parent = NodeView::fork(row[row.len() - 1], row[row.len() - 2]);
        if at >= row.len() - 2 {
            assert(NodeView::holds(Some(Box::new(parent)), target));
            assert(paired(row)[0] == parent);
        } else {
            assert(front[at] == row[at]);
            lemma_paired_keeps(front, target);
            let next = choose|i: int|
                0 <= i < paired(front).len() && NodeView::holds(
                    Some(Box::new(#[trigger] paired(front)[i])),
                    target,
                );
            assert(paired(row)[next + 1] == paired(front)[next]);
        }
    }
}

/// What a node of a row of two or more carries is found under the node that
/// the row is reduced to.
pub proof fn lemma_reduced_locates(row: Seq<NodeView>, target: Seq<u8>)
    requires
        row.len() >= 2,
        row_holds(row, target),
    ensures
        reduced(row).locate(target) is Some,
    decreases row.len(),
{
    lemma_paired_len(row);
    if row.len() == 2 {
        let parent = NodeView::fork(row[1], row[0]);
        assert(row.take(0) =~= Seq::<NodeView>::empty());
        assert(paired(row) =~= seq![parent]);
        assert(reduced(paired(row)) == parent);
        let at = choose|i: int|
            0 <= i < row.len() && NodeView::holds(Some(Box::new(#[trigger] row[i])), target);
        assert(at == 0 || at == 1);
    } else {
        lemma_paired_keeps(row, target);
        lemma_reduced_locates(paired(row), target);
    }
}

/// The tree of a snapshot holds the digest of each of its files below the
/// root, as soon as it has two files.
pub proof fn lemma_root_locates_file(entries: Entries, name: Seq<char>)
    requires
        well_formed(entries),
        entries.len() >= 2,
        has_name(entries, name),
    ensures
        root_of(entries).locate(sha256(content_of(entries, name))) is Some,
{
    let at = choose|i: int| 0 <= i < entries.len() && #[trigger] entries[i].0 == name;
    let target = sha256(content_of(entries, name));
    let leaves = leaves_of(entries);
    let row = padded(leaves);
    lemma_next_power_of_two(leaves.len());
    assert(row[at] == leaves[at]);
    lemma_content_of(entries, name, at);
    assert(leaves[at].hash == target);
    assert(NodeView::holds(Some(Box::new(row[at])), target));
    lemma_reduced_locates(row, target);
}

/// Round trip: the audit path that the tree of a snapshot gives for one of
/// its files is accepted against the root of that tree and the file's
/// content.
///
/// This holds of a snapshot of two files or more (a single file is its own
/// root and has no path), and where no early match is met on the way to the
/// file's digest (such a match puts one step too many on the path).
pub proof fn lemma_generated_proof_is_accepted(entries: Entries, name: Seq<char>)
    requires
        well_formed(entries),
        entries.len() >= 2,
        has_name(entries, name),
        root_of(entries).consistent(),
        !root_of(entries).matches_early(sha256(content_of(entries, name))),
    ensures
        accepts(
            root_of(entries).audit_path(sha256(content_of(entries, name))),
            root_of(entries).hash,
            content_of(entries, name),
        ),
{
    let at = choose|i: int| 0 <= i < entries.len() && #[trigger] entries[i].0 == name;
    assert(hashable(entries[at].1));
    lemma_root_locates_file(entries, name);
    lemma_audit_path_replays(root_of(entries), sha256(content_of(entries, name)));
}

/// A list of steps is accepted against one root at most: what is accepted
/// against `root` is turned down against every other digest.
pub proof fn lemma_accepted_against_one_root(
    steps: Seq<ProofStep>,
    root: Seq<u8>,
    other_root: Seq<u8>,
    content: Seq<u8>,
)
    requires
        accepts(steps, root, content),
        other_root != root,
    ensures
        !accepts(steps, other_root, content),
{
}

/// Cross-root rejection: the audit path that the tree of a snapshot gives
/// for one of its files is turned down against the root of any tree with
/// another root digest.
pub proof fn lemma_generated_proof_fails_other_root(
    entries: Entries,
    name: Seq<char>,
    other: Entries,
)
    requires
        well_formed(entries),
        entries.len() >= 2,
        has_name(entries, name),
        root_of(entries).consistent(),
        !root_of(entries).matches_early(sha256(content_of(entries, name))),
        root_of(other).hash != root_of(entries).hash,
    ensures
        !accepts(
            root_of(entries).audit_path(sha256(content_of(entries, name))),
            root_of(other).hash,
            content_of(entries, name),
        ),
{
    lemma_generated_proof_is_accepted(entries, name);
}

/// A list of fewer than two steps is never accepted, nor is one without a
/// step that carries the digest of the content.
pub proof fn lemma_malformed_is_rejected(steps: Seq<ProofStep>, root: Seq<u8>, content: Seq<u8>)
    requires
        steps.len() < 2 || !lists_hash(steps, sha256(content)),
    ensures
        !accepts(steps, root, content),
{
}

/// Determinism: the root of a tree depends on the snapshot alone, so two
/// trees of one snapshot have the same root digest.
pub proof fn lemma_same_snapshot_same_root(first: NodeView, second: NodeView, entries: Entries)
    requires
        first == root_of(entries),
        second == root_of(entries),
    ensures
        first.hash == second.hash,
{
}

/// Padding: a row with nodes is brought up to the least power of two that is
/// not below its length; its own nodes keep their places, every place behind
/// them holds its last node, and a row whose length is a power of two, a
/// padded one among them, stays as it is.
pub proof fn lemma_padded_row(row: Seq<NodeView>)
    requires
        row.len() > 0,
    ensures
        padded(row).len() == next_power_of_two(row.len()),
        is_power_of_two(padded(row).len()),
        row.len() <= padded(row).len() < 2 * row.len(),
        forall|i: int| 0 <= i < row.len() ==> padded(row)[i] == row[i],
        forall|i: int| row.len() <= i < padded(row).len() ==> padded(row)[i] == row.last(),
        is_power_of_two(row.len()) ==> padded(row) == row,
        padded(padded(row)) == padded(row),
{
    lemma_next_power_of_two(row.len());
    lemma_next_power_of_two(padded(row).len());
    if is_power_of_two(row.len()) {
        assert(padded(row) =~= row);
    }
    assert(padded(padded(row)) =~= padded(row));
}

/// Padding is duplication: a snapshot whose leaves are those of `entries`
/// with the last one repeated up to a power of two has the root of `entries`.
pub proof fn lemma_padding_is_duplication(entries: Entries, repeated: Entries)
    requires
        entries.len() > 0,
        leaves_of(repeated) == padded(leaves_of(entries)),
    ensures
        root_of(repeated) == root_of(entries),
{
    lemma_padded_row(leaves_of(entries));
}

/// A snapshot of one file has the leaf of that file for its root, and the
/// root gives no audit path, whatever the digest.
pub proof fn lemma_root_of_one(entries: Entries, target: Seq<u8>)
    requires
        entries.len() == 1,
    ensures
        root_of(entries) == NodeView::leaf(sha256(entries[0].1)),
        root_of(entries).audit_path(target) == Seq::<ProofStep>::empty(),
{
    lemma_padded_row(leaves_of(entries));
    assert(padded(leaves_of(entries))[0] == leaves_of(entries)[0]);
}

/// Three leaves are padded to four with the third one twice: the root has
/// the parent of the second and the first on its left, and the parent of the
/// third and its copy on its right.
pub proof fn lemma_root_of_three(first: NodeView, second: NodeView, third: NodeView)
    ensures
        reduced(padded(seq![first, second, third])) == NodeView::fork(
            NodeView::fork(second, first),
            NodeView::fork(third, third),
        ),
{
    let row = seq![first, second, third];
    let full = seq![first, second, third, third];
    assert(next_power_of_two(3) == 4) by {
        reveal_with_fuel(next_power_of_two, 3);
    }
    assert(padded(row) =~= full);
    let low = NodeView::fork(second, first);
    let high = NodeView::fork(third, third);
    assert(full.take(2) =~= seq![first, second]);
    assert(seq![first, second].take(0) =~= Seq::<NodeView>::empty());
    assert(paired(seq![first, second]) =~= seq![low]) by {
        reveal_with_fuel(paired, 2);
    }
    assert(paired(full) =~= seq![high, low]);
    assert(seq![high, low].take(0) =~= Seq::<NodeView>::empty());
    assert(paired(seq![high, low]) =~= seq![NodeView::fork(low, high)]) by {
        reveal_with_fuel(paired, 2);
    }
    assert(reduced(full) == NodeView::fork(low, high)) by {
        reveal_with_fuel(reduced, 3);
    }
}

/// The nodes of the next row, by their places: the node at place `j` is the
/// parent of the two nodes that stand `2 * j` places before the end of the
/// row, and the first node itself where only that one is left.
pub proof fn lemma_paired_at(row: Seq<NodeView>, j: int)
    requires
        0 <= j < paired(row).len(),
    ensures
        2 * j + 1 <= row.len(),
        2 * j + 1 < row.len() ==> paired(row)[j] == NodeView::fork(
            row[row.len() - 1 - 2 * j],
            row[row.len() - 2 - 2 * j],
        ),
        2 * j + 1 == row.len() ==> paired(row)[j] == row[0],
    decreases row.len(),
{
    lemma_paired_len(row);
    if row.len() > 1 && j > 0 {
        let front = row.take(row.len() - 2);
        assert(paired(row)[j] == paired(front)[j - 1]);
        lemma_paired_at(front, j - 1);
        if 2 * j + 1 < row.len() {
            assert(front[front.len() - 1 - 2 * (j - 1)] == row[row.len() - 1 - 2 * j]);
            assert(front[front.len() - 2 - 2 * (j - 1)] == row[row.len() - 2 - 2 * j]);
        } else {
            assert(front[0] == row[0]);
        }
    }
}

/// A row of perfect trees of one depth, a power of two in number, is reduced
/// to a perfect tree, higher by one level for each halving of the number.
pub proof fn lemma_reduced_perfect(row: Seq<NodeView>, depth: nat)
    requires
        is_power_of_two(row.len()),
        forall|i: int| 0 <= i < row.len() ==> (#[trigger] row[i]).perfect(depth),
    ensures
        reduced(row).perfect(depth + halvings(row.len())),
    decreases row.len(),
{
    if row.len() > 1 {
        let next = paired(row);
        lemma_paired_len(row);
        assert forall|j: int| 0 <= j < next.len() implies (#[trigger] next[j]).perfect(
            depth + 1,
        ) by {
            lemma_paired_at(row, j);
            assert(row[row.len() - 1 - 2 * j].perfect(depth));
            assert(row[row.len() - 2 - 2 * j].perfect(depth));
        }
        lemma_reduced_perfect(next, depth + 1);
    }
}

/// The height of the tree of a snapshot of `count` files: the number of
/// halvings of the least power of two that is not below `count`.
pub open spec fn height_for(count: nat) -> nat {
    halvings(next_power_of_two(count))
}

/// The tree of a snapshot is perfect: its leaves stand at one depth, which
/// the number of files decides.
pub proof fn lemma_root_is_perfect(entries: Entries)
    requires
        entries.len() > 0,
    ensures
        root_of(entries).perfect(height_for(entries.len())),
{
    let row = padded(leaves_of(entries));
    lemma_padded_row(leaves_of(entries));
    assert forall|i: int| 0 <= i < row.len() implies (#[trigger] row[i]).perfect(0) by {
        if i < entries.len() {
            assert(row[i] == leaves_of(entries)[i]);
        } else {
            assert(row[i] == leaves_of(entries).last());
        }
    }
    lemma_reduced_perfect(row, 0);
}

/// In a perfect tree an early match is a match on a branch: where no node
/// with children carries `target`, the way down to `target` meets no early
/// match.
pub proof fn lemma_early_match_is_on_branch(node: NodeView, target: Seq<u8>, height: nat)
    requires
        node.perfect(height),
        !node.branch_carries(target),
    ensures
        !node.matches_early(target),
    decreases node,
{
    if node.left is Some && node.right is Some && node.locate(target) is Some {
        let left = *node.left->0;
        let right = *node.right->0;
        let entered = if node.locate(target)->0 == NodeOrder::Left {
            left
        } else {
            right
        };
        lemma_early_match_is_on_branch(entered, target, (height - 1) as nat);
        assert(!left.branch_carries(target) && !right.branch_carries(target));
        assert(left.perfect((height - 1) as nat) && right.perfect((height - 1) as nat));
        if left.hash == target {
            assert(left.left is None && left.right is None);
            assert(height == 1);
            assert(entered.locate(target) is None);
        } else if right.hash == target {
            assert(right.left is None && right.right is None);
            assert(height == 1);
            assert(entered.locate(target) is None);
        }
    }
}

/// In a perfect tree of height `height` the audit path to a digest that is
/// met without an early match has one step for each level and one more.
pub proof fn lemma_audit_path_len(node: NodeView, target: Seq<u8>, height: nat)
    requires
        node.perfect(height),
        !node.branch_carries(target),
        node.locate(target) is Some,
    ensures
        node.audit_path(target).len() == height + 1,
    decreases node,
{
    let left = *node.left->0;
    let right = *node.right->0;
    let entered = if node.locate(target)->0 == NodeOrder::Left {
        left
    } else {
        right
    };
    assert(node.left is Some && node.right is Some);
    assert(!left.branch_carries(target) && !right.branch_carries(target));
    assert(NodeView::holds(Some(Box::new(entered)), target));
    assert(left.perfect((height - 1) as nat) && right.perfect((height - 1) as nat));
    if entered.locate(target) is Some {
        assert(entered.left is Some || entered.right is Some);
        assert(height > 1);
        assert(left.left is Some && right.left is Some);
        assert(left.hash != target && right.hash != target);
        lemma_audit_path_len(entered, target, (height - 1) as nat);
    } else {
        assert(entered.hash == target);
        assert(entered.left is None && entered.right is None);
        assert(entered.audit_path(target) =~= Seq::<ProofStep>::empty());
    }
}

/// Round trip, for a file whose digest no branch carries: the audit path
/// that the tree of a snapshot of two files or more gives for the file is
/// accepted against the root of that tree and the file's content, and it has
/// one step for each level of the tree and one more.
pub proof fn lemma_generated_proof_is_accepted_off_branches(entries: Entries, name: Seq<char>)
    requires
        well_formed(entries),
        entries.len() >= 2,
        has_name(entries, name),
        root_of(entries).consistent(),
        !root_of(entries).branch_carries(sha256(content_of(entries, name))),
    ensures
        accepts(
            root_of(entries).audit_path(sha256(content_of(entries, name))),
            root_of(entries).hash,
            content_of(entries, name),
        ),
        root_of(entries).audit_path(sha256(content_of(entries, name))).len() == height_for(
            entries.len(),
        ) + 1,
{
    lemma_root_is_perfect(entries);
    lemma_root_locates_file(entries, name);
    lemma_early_match_is_on_branch(
        root_of(entries),
        sha256(content_of(entries, name)),
        height_for(entries.len()),
    );
    lemma_audit_path_len(
        root_of(entries),
        sha256(content_of(entries, name)),
        height_for(entries.len()),
    );
    lemma_generated_proof_is_accepted(entries, name);
}

impl NodeView {
    /// Whether `input` was hashed for a node with two children, this one or
    /// one below it: whether it is the digests of such a node's children, the
    /// left one's first.
    pub open spec fn hashes(self, input: Seq<u8>) -> bool
        decreases self,
    {
        ||| match (self.left, self.right) {
            (Some(left), Some(right)) => input == left.hash + right.hash,
            _ => false,
        }
        ||| NodeView::hashes_below(self.left, input)
        ||| NodeView::hashes_below(self.right, input)
    }

    /// Whether `input` was hashed for a node at or below an optional child.
    pub open spec fn hashes_below(child: Option<Box<NodeView>>, input: Seq<u8>) -> bool
        decreases child,
    {
        match child {
            Some(node) => node.hashes(input),
            None => false,
        }
    }
}

/// The place in the next row of the node that takes up the node at place
/// `i` of a row.
pub open spec fn place_in_next(row: Seq<NodeView>, i: int) -> int {
    (row.len() - 1 - i) / 2
}

/// The node at place `i` of a row is, in the next row, the node at its place
/// there or a child of it.
pub proof fn lemma_taken_up(row: Seq<NodeView>, i: int)
    requires
        0 <= i < row.len(),
    ensures
        0 <= place_in_next(row, i) < paired(row).len(),
        ({
            let parent = paired(row)[place_in_next(row, i)];
            ||| parent == row[i]
            ||| parent.left == Some(Box::new(row[i])) && parent.right is Some
            ||| parent.right == Some(Box::new(row[i])) && parent.left is Some
        }),
{
    lemma_paired_len(row);
    lemma_paired_at(row, place_in_next(row, i));
}

/// The rows below a consistent node are consistent: where the node that a
/// row is reduced to is consistent, so is every node of the row.
pub proof fn lemma_rows_of_consistent_root(row: Seq<NodeView>)
    requires
        row.len() > 0,
        reduced(row).consistent(),
    ensures
        forall|i: int| 0 <= i < row.len() ==> (#[trigger] row[i]).consistent(),
    decreases row.len(),
{
    if row.len() > 1 {
        lemma_paired_len(row);
        lemma_rows_of_consistent_root(paired(row));
        assert forall|i: int| 0 <= i < row.len() implies (#[trigger] row[i]).consistent() by {
            lemma_taken_up(row, i);
            assert(paired(row)[place_in_next(row, i)].consistent());
        }
    }
}

/// Whether `input` was hashed for a node at or below a node of `row`.
pub open spec fn row_hashes(row: Seq<NodeView>, input: Seq<u8>) -> bool {
    exists|i: int| 0 <= i < row.len() && (#[trigger] row[i]).hashes(input)
}

/// What was hashed for a row was hashed for the node that the row is reduced
/// to.
pub proof fn lemma_reduced_hashes(row: Seq<NodeView>, input: Seq<u8>)
    requires
        row_hashes(row, input),
    ensures
        reduced(row).hashes(input),
    decreases row.len(),
{
    let at = choose|i: int| 0 <= i < row.len() && (#[trigger] row[i]).hashes(input);
    if row.len() > 1 {
        lemma_paired_len(row);
        lemma_taken_up(row, at);
        assert(paired(row)[place_in_next(row, at)].hashes(input));
        lemma_reduced_hashes(paired(row), input);
    }
}

/// Whether no input hashed for `first` and input hashed for `second` are
/// two inputs with one digest.
pub open spec fn collision_free(first: NodeView, second: NodeView) -> bool {
    forall|x: Seq<u8>, y: Seq<u8>|
        #![trigger first.hashes(x), second.hashes(y)]
        first.hashes(x) && second.hashes(y) && sha256(x) == sha256(y) ==> x == y
}

/// Two rows of one length that are reduced to consistent nodes with one
/// digest carry the same digests, place by place, unless an input hashed for
/// the one and an input hashed for the other collide.
pub proof fn lemma_rows_agree(first: Seq<NodeView>, second: Seq<NodeView>)
    requires
        first.len() == second.len(),
        first.len() > 0,
        reduced(first).consistent(),
        reduced(second).consistent(),
        reduced(first).hash == reduced(second).hash,
        collision_free(reduced(first), reduced(second)),
    ensures
        forall|i: int| 0 <= i < first.len() ==> (#[trigger] first[i]).hash == second[i].hash,
    decreases first.len(),
{
    if first.len() > 1 {
        lemma_paired_len(first);
        lemma_paired_len(second);
        lemma_rows_agree(paired(first), paired(second));
        lemma_rows_of_consistent_root(first);
        lemma_rows_of_consistent_root(second);
        assert forall|i: int| 0 <= i < first.len() implies (#[trigger] first[i]).hash
            == second[i].hash by {
            let j = place_in_next(first, i);
            lemma_paired_at(first, j);
            lemma_paired_at(second, j);
            assert(paired(first)[j].hash == paired(second)[j].hash);
            if 2 * j + 1 < first.len() {
                let high = first.len() - 1 - 2 * j;
                let low = first.len() - 2 - 2 * j;
                let x = first[high].hash + first[low].hash;
                let y = second[high].hash + second[low].hash;
                assert(paired(first)[j].hashes(x));
                assert(paired(second)[j].hashes(y));
                lemma_reduced_hashes(paired(first), x);
                lemma_reduced_hashes(paired(second), y);
                assert(x == y);
                assert(first[high].consistent() && second[high].consistent());
                assert(first[high].hash =~= x.take(DIGEST_LEN as int));
                assert(second[high].hash =~= y.take(DIGEST_LEN as int));
                assert(first[low].hash =~= x.skip(DIGEST_LEN as int));
                assert(second[low].hash =~= y.skip(DIGEST_LEN as int));
            }
        }
    }
}

/// Whether `input` was hashed for the tree of `entries`: for a leaf, as the
/// content of a file, or for a node with children.
pub open spec fn hashed_for(entries: Entries, input: Seq<u8>) -> bool {
    ||| exists|i: int| 0 <= i < entries.len() && (#[trigger] entries[i]).1 == input
    ||| root_of(entries).hashes(input)
}

/// Tamper detection: two snapshots of one size that differ in the content of
/// a file have trees with different root digests, unless an input hashed for
/// the one tree and an input hashed for the other are two inputs with one
/// digest.
pub proof fn lemma_changed_content_changes_root(first: Entries, second: Entries)
    requires
        first.len() == second.len(),
        exists|i: int| 0 <= i < first.len() && (#[trigger] first[i]).1 != second[i].1,
        root_of(first).consistent(),
        root_of(second).consistent(),
        forall|x: Seq<u8>, y: Seq<u8>|
            #![trigger hashed_for(first, x), hashed_for(second, y)]
            hashed_for(first, x) && hashed_for(second, y) && sha256(x) == sha256(y) ==> x == y,
    ensures
        root_of(first).hash != root_of(second).hash,
{
    let changed = choose|i: int| 0 <= i < first.len() && (#[trigger] first[i]).1 != second[i].1;
    let one = padded(leaves_of(first));
    let other = padded(leaves_of(second));
    lemma_padded_row(leaves_of(first));
    lemma_padded_row(leaves_of(second));
    if root_of(first).hash == root_of(second).hash {
        assert(collision_free(root_of(first), root_of(second))) by {
            assert forall|x: Seq<u8>, y: Seq<u8>|
                #![trigger root_of(first).hashes(x), root_of(second).hashes(y)]
                root_of(first).hashes(x) && root_of(second).hashes(y) && sha256(x) == sha256(
                    y,
                ) implies x == y by {
                assert(hashed_for(first, x) && hashed_for(second, y));
            }
        }
        lemma_rows_agree(one, other);
        assert(one[changed] == leaves_of(first)[changed]);
        assert(other[changed] == leaves_of(second)[changed]);
        assert(one[changed].hash == other[changed].hash);
        assert(hashed_for(first, first[changed].1));
        assert(hashed_for(second, second[changed].1));
    }
}

/// Cross-root rejection after a change: the audit path that the tree of a
/// snapshot gives for one of its files is turned down against the root of
/// the tree of a snapshot of the same size in which the content of a file
/// has changed, unless inputs hashed for the two trees collide.
pub proof fn lemma_generated_proof_fails_after_change(
    entries: Entries,
    name: Seq<char>,
    changed: Entries,
)
    requires
        well_formed(entries),
        entries.len() >= 2,
        has_name(entries, name),
        root_of(entries).consistent(),
        !root_of(entries).matches_early(sha256(content_of(entries, name))),
        changed.len() == entries.len(),
        exists|i: int| 0 <= i < entries.len() && (#[trigger] entries[i]).1 != changed[i].1,
        root_of(changed).consistent(),
        forall|x: Seq<u8>, y: Seq<u8>|
            #![trigger hashed_for(entries, x), hashed_for(changed, y)]
            hashed_for(entries, x) && hashed_for(changed, y) && sha256(x) == sha256(y) ==> x == y,
    ensures
        !accepts(
            root_of(entries).audit_path(sha256(content_of(entries, name))),
            root_of(changed).hash,
            content_of(entries, name),
        ),
{
    lemma_changed_content_changes_root(entries, changed);
    lemma_generated_proof_fails_other_root(entries, name, changed);
}

} // verus!
