//! What a watcher decides before the worker comes in.

use crate::config::{ignores_with_ancestors, Filter};
use crate::path::{has_room_for, joined, CanonicalPathBuf};
use vstd::prelude::*;

verus! {

/// Decides whether a directory becomes a root. It does not if the filter ignores it or one of its
/// ancestors. `root` is its canonical path.
pub fn accept_root<F: Filter + ?Sized>(filter: &F, root: &[u8]) -> (r: Option<CanonicalPathBuf>)
    requires
        has_room_for(Seq::empty(), root@.len() as int),
    ensures
        r is None <==> ignores_with_ancestors(filter, root@, None),
        r matches Some(path) ==> path@ == joined(Seq::empty(), root@),
{
    if filter.ignore_path_rec(root, None) {
        return None;
    }
    Some(CanonicalPathBuf::assert_canonicalized(root))
}

/// Ends a watch when it goes out of scope, unless that was called off.
#[derive(Debug)]
pub struct ShutdownOnDrop {
    armed: bool,
}

impl View for ShutdownOnDrop {
    type V = bool;

    /// Whether the watch is still to be ended.
    closed spec fn view(&self) -> bool {
        self.armed
    }
}

impl ShutdownOnDrop {
    /// A guard that ends the watch.
    pub fn new() -> (r: ShutdownOnDrop)
        ensures
            r@,
    {
        ShutdownOnDrop { armed: true }
    }

    /// Calls the end of the watch off.
    pub fn cancel(&mut self)
        ensures
            !final(self)@,
    {
        self.armed = false;
    }

    /// Whether the watch is still to be ended.
    pub fn is_armed(&self) -> (r: bool)
        ensures
            r == self@,
    {
        self.armed
    }
}

} // verus!
