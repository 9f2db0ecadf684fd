//! Nodes, trees and proof steps as text: each digest by the hexadecimal form
//! of its first three bytes.

use crate::merkle_tree::{MerkleNode, MerkleTree, NodeOrder, NodeView, ProofListItem};
use vstd::prelude::*;
use vstd::string::StringExecFns;

verus! {

/// Number of bytes of a digest that are shown.
pub const SHOWN_BYTES: usize = 3;

/// The lower-case hexadecimal digit for `value`, which is below 16.
pub open spec fn hex_digit(value: int) -> char {
    seq!['0', '1', '2', '3', '4', '5', '6', '7', '8', '9', 'a', 'b', 'c', 'd', 'e', 'f'][value]
}

/// The lower-case hexadecimal form of `bytes`: two digits for each byte, the
/// high half first.
pub open spec fn hex_lower(bytes: Seq<u8>) -> Seq<char> {
    Seq::new(
        2 * bytes.len(),
        |i: int|
            if i % 2 == 0 {
                hex_digit(bytes[i / 2] as int / 16)
            } else {
                hex_digit(bytes[i / 2] as int % 16)
            },
    )
}

/// The short form of a digest: the hexadecimal form of its first bytes.
pub open spec fn short_form(hash: Seq<u8>) -> Seq<char> {
    hex_lower(hash.take(SHOWN_BYTES as int))
}

/// Encodes `bytes` with `hex::encode`.
///
/// Trusted, not proved: the result holds two lower-case hexadecimal digits
/// for each byte, in the order of the bytes, the high half of a byte first.
/// Inputs whose text does not fit in memory are left out.
#[verifier::external_body]
fn hex_encode(bytes: &[u8]) -> (text: String)
    requires
        2 * bytes@.len() <= isize::MAX,
    ensures
        text@ == hex_lower(bytes@),
{
    hex::encode(bytes)
}

/// The short form of `hash`, which has three bytes or more.
pub fn short_hash(hash: &Vec<u8>) -> (text: String)
    requires
        hash@.len() >= SHOWN_BYTES,
    ensures
        text@ == short_form(hash@),
{
    let shown = &hash.as_slice()[0..SHOWN_BYTES];
    assert(shown@ =~= hash@.take(SHOWN_BYTES as int));
    hex_encode(shown)
}

/// The line that describes a proof step: the short form of its digest after
/// `h: `, and its side, if it has one, after a space.
pub open spec fn step_line(hash: Seq<u8>, order: Option<NodeOrder>) -> Seq<char> {
    "h: "@ + short_form(hash) + match order {
        Some(NodeOrder::Right) => " Right"@,
        Some(NodeOrder::Left) => " Left"@,
        None => ""@,
    }
}

impl ProofListItem {
    /// This step as text, for a digest of three bytes or more.
    pub fn describe(&self) -> (text: String)
        requires
            self.hash@.len() >= SHOWN_BYTES,
        ensures
            text@ == step_line(self.hash@, self.order),
    {
        let mut text = String::from_str("h: ");
        text.append(short_hash(&self.hash).as_str());
        match self.order {
            Some(NodeOrder::Right) => text.append(" Right"),
            Some(NodeOrder::Left) => text.append(" Left"),
            None => {
                assert(text@ + ""@ =~= text@) by {
                    reveal_strlit("");
                }
            },
        }
        text
    }
}

/// The indentation that each level of a tree adds.
pub open spec fn indent_step() -> Seq<char> {
    "        "@
}

impl NodeView {
    /// Whether every digest at and below this node is long enough to show.
    pub open spec fn showable(self) -> bool
        decreases self,
    {
        &&& self.hash.len() >= SHOWN_BYTES
        &&& NodeView::showable_below(self.left)
        &&& NodeView::showable_below(self.right)
    }

    /// Whether an optional child is showable; true when there is none.
    pub open spec fn showable_below(child: Option<Box<NodeView>>) -> bool
        decreases child,
    {
        match child {
            Some(node) => node.showable(),
            None => true,
        }
    }

    /// The tree below this node as text, one line for each node: the left
    /// subtree, then the node's own line, then the right subtree. A line holds
    /// `indent` and the short form of the digest; the lines of a subtree are
    /// indented by one step more.
    pub open spec fn drawn(self, indent: Seq<char>) -> Seq<char>
        decreases self,
    {
        NodeView::drawn_below(self.left, indent + indent_step()) + indent + short_form(self.hash)
            + seq!['\n'] + NodeView::drawn_below(self.right, indent + indent_step())
    }

    /// The text of an optional child; empty when there is none.
    pub open spec fn drawn_below(child: Option<Box<NodeView>>, indent: Seq<char>) -> Seq<char>
        decreases child,
    {
        match child {
            Some(node) => node.drawn(indent),
            None => seq![],
        }
    }
}

/// A consistent tree can be shown: its digests are long enough.
pub proof fn lemma_consistent_is_showable(node: NodeView)
    requires
        node.consistent(),
    ensures
        node.showable(),
    decreases node,
{
    if node.left is Some {
        lemma_consistent_is_showable(*node.left->0);
        lemma_consistent_is_showable(*node.right->0);
    }
}

impl MerkleNode {
    /// Appends to `text` the lines of this node and of the nodes below it.
    fn draw(&self, indent: &str, text: &mut String)
        requires
            self@.showable(),
        ensures
            final(text)@ == old(text)@ + self@.drawn(indent@),
        decreases self,
    {
        let ghost start = text@;
        let mut deeper = String::from_str(indent);
        deeper.append("        ");
        if let Some(left) = &self.left {
            left.draw(deeper.as_str(), text);
        }
        text.append(indent);
        text.append(short_hash(&self.hash).as_str());
        text.append("\n");
        proof {
            reveal_strlit("\n");
            assert("\n"@ =~= seq!['\n']);
        }
        if let Some(right) = &self.right {
            right.draw(deeper.as_str(), text);
        }
        assert(text@ =~= start + self@.drawn(indent@));
    }

    /// The tree below this node as text, without indentation at this node.
    pub fn to_string(&self) -> (text: String)
        requires
            self@.showable(),
        ensures
            text@ == self@.drawn(Seq::empty()),
    {
        let mut text = String::new();
        proof {
            reveal_strlit("");
        }
        self.draw("", &mut text);
        assert(text@ =~= self@.drawn(Seq::empty()));
        text
    }
}

impl MerkleTree {
    /// The tree as text: that of its root.
    pub fn to_string(&self) -> (text: String)
        requires
            self.root@.showable(),
        ensures
            text@ == self.root@.drawn(Seq::empty()),
    {
        self.root.to_string()
    }
}

} // verus!
