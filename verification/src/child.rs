use vstd::prelude::*;

verus! {

/// One of the two child slots of a node: either empty, or a reference
/// to another node of the tree, or a reference to a stored atom.
///
/// This tagged reference is the only way nodes connect to each other
/// or to atoms.
#[derive(Debug, Clone, Copy, PartialEq, Eq, Structural)]
pub enum Child {
    Absent,
    Node(crate::node::NodeId),
    Atom(crate::be_tree::AtomId),
}

impl Child {
    /// whether this child slot is occupied, by a node or by an atom
    pub open spec fn spec_is_some(self) -> bool {
        self != Child::Absent
    }

    /// tell whether this child slot is occupied
    #[verifier::when_used_as_spec(spec_is_some)]
    pub fn is_some(self) -> (r: bool)
        ensures
            r == self.spec_is_some(),
    {
        !matches!(self, Self::Absent)
    }
}

} // verus!
