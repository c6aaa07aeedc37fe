use vstd::prelude::*;

use crate::child::Child;

verus! {

/// The index of a node in the node arena of a tree.
pub type NodeId = usize;

/// A node in the expression tree.
///
/// A node carries an optional operator (`None` marks a pure grouping
/// node, created by an opening parenthesis), a back-reference to its
/// parent, two child slots, and a flag telling whether the operator
/// stands in unary position (in which case only the `left` slot is
/// ever used as operand).
#[derive(Debug, Clone, Copy, PartialEq)]
pub struct Node<Op> {
    pub operator: Option<Op>,
    pub parent: Option<NodeId>,
    pub left: Child,
    pub right: Child,
    pub unary: bool,
}

impl<Op> Node<Op> {
    /// whether no further child may be added to this node: a unary
    /// node is full as soon as its `left` slot is occupied, a binary
    /// node once its `right` slot is
    pub open spec fn spec_is_full(&self) -> bool {
        if self.unary {
            self.left.spec_is_some()
        } else {
            self.right.spec_is_some()
        }
    }

    /// a node is full when we can't add other children
    #[verifier::when_used_as_spec(spec_is_full)]
    pub fn is_full(&self) -> (r: bool)
        ensures
            r == self.spec_is_full(),
    {
        if self.unary {
            self.left.is_some()
        } else {
            self.right.is_some()
        }
    }

    /// the node a tree starts with: no operator, no parent, no child
    pub fn empty() -> (r: Self)
        ensures
            r == (Node::<Op> {
                operator: None,
                parent: None,
                left: Child::Absent,
                right: Child::Absent,
                unary: false,
            }),
    {
        Self { operator: None, parent: None, left: Child::Absent, right: Child::Absent, unary: false }
    }
}

} // verus!
