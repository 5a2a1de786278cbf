//! The numbers of nodes and of lists of children.

use vstd::prelude::*;

verus! {

/// The number of a list of children, or none.
#[derive(PartialEq, Eq, Structural, PartialOrd, Clone, Copy, Hash, Debug)]
pub struct DirId(u32);

/// The number of a node, or none.
#[derive(PartialEq, Eq, Structural, PartialOrd, Clone, Copy, Hash, Debug)]
pub struct NodeId(u32);

impl View for DirId {
    type V = Option<int>;

    /// The number, where there is one.
    closed spec fn view(&self) -> Option<int> {
        if self.0 == u32::MAX {
            None
        } else {
            Some(self.0 as int)
        }
    }
}

impl DirId {
    /// Without a number.
    pub fn none() -> (r: DirId)
        ensures
            r@ is None,
    {
        DirId(u32::MAX)
    }

    /// Whether there is no number.
    pub fn is_none(self) -> (r: bool)
        ensures
            r == (self@ is None),
    {
        self.0 == u32::MAX
    }

    /// Whether there is a number.
    pub fn is_some(self) -> (r: bool)
        ensures
            r == (self@ is Some),
    {
        self.0 != u32::MAX
    }

    /// The number, as an index.
    pub fn idx(self) -> (r: usize)
        requires
            self@ is Some,
        ensures
            self@ == Some(r as int),
            r < u32::MAX,
    {
        self.0 as usize
    }

    /// The number that an index stands for.
    pub fn from(value: usize) -> (r: DirId)
        requires
            value < u32::MAX,
        ensures
            r@ == Some(value as int),
    {
        DirId(value as u32)
    }
}

impl View for NodeId {
    type V = Option<int>;

    /// The number, where there is one.
    closed spec fn view(&self) -> Option<int> {
        if self.0 == u32::MAX {
            None
        } else {
            Some(self.0 as int)
        }
    }
}

/// The number of a node that was returned, where there is one.
pub open spec fn node_number(id: Option<NodeId>) -> Option<int> {
    match id {
        Some(id) => id@,
        None => None,
    }
}

impl NodeId {
    /// Without a number.
    pub fn none() -> (r: NodeId)
        ensures
            r@ is None,
    {
        NodeId(u32::MAX)
    }

    /// Whether there is a number.
    pub fn is_some(self) -> (r: bool)
        ensures
            r == (self@ is Some),
    {
        self.0 != u32::MAX
    }

    /// Whether there is no number.
    pub fn is_none(self) -> (r: bool)
        ensures
            r == (self@ is None),
    {
        self.0 == u32::MAX
    }

    /// The number, as an index.
    pub fn idx(self) -> (r: usize)
        requires
            self@ is Some,
        ensures
            self@ == Some(r as int),
            r < u32::MAX,
    {
        self.0 as usize
    }

    /// The number that an index stands for.
    pub fn from(value: usize) -> (r: NodeId)
        requires
            value < u32::MAX,
        ensures
            r@ == Some(value as int),
    {
        NodeId(value as u32)
    }
}

/// The number of a node is all there is to it: made from its index it is the same again.
pub proof fn law_node_id_is_its_number(a: NodeId, b: NodeId)
    requires
        a@ == b@,
    ensures
        a == b,
{
}

/// The number of a list of children is all there is to it: made from its index it is the same
/// again.
pub proof fn law_dir_id_is_its_number(a: DirId, b: DirId)
    requires
        a@ == b@,
    ensures
        a == b,
{
}

} // verus!
