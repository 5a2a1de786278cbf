//! The tree of files and directories as it was last seen on disk.

use crate::events::EventType;
use crate::ids::{DirId, NodeId};
use crate::metadata::Metadata;
use crate::path::{parent_text, path_text, CanonicalPathBuf};
use crate::table::{
    id_limit, is_filed, max_entries, table_ids, table_reach, PathKey, PathSource, PathTable,
};
use crate::eco::{eco_ids, ids_push, ids_slice, ids_with_capacity};
use crate::tree::model::TreeView;
use ecow::EcoVec;
use vstd::prelude::*;

pub mod apply;
pub mod change_laws;
pub mod crawl;
pub mod crawl_laws;
pub mod delete;
pub mod disk_laws;
pub mod event_laws;
pub mod followed;
pub mod laws;
pub mod lemmas;
pub mod model;
pub mod second_crawl;
pub mod walk;

verus! {

/// What is known of the file or directory that a node stands for.
#[derive(Debug, Clone, Copy, PartialEq, Eq, Structural)]
pub enum NodeMeta {
    Dir,
    File { mtime: i128, size: usize },
    Deleted,
}

/// What a node records of a file or directory on disk.
pub open spec fn node_meta(meta: Metadata) -> NodeMeta {
    if meta.is_dir {
        NodeMeta::Dir
    } else {
        NodeMeta::File { mtime: meta.mtime, size: meta.size }
    }
}

/// The event that a change from `old` to `new` is. Only files matter; with `skip_check` a file
/// counts as modified even if it looks the same.
pub open spec fn meta_change(old: NodeMeta, new: NodeMeta, skip_check: bool) -> Option<EventType> {
    match (old, new) {
        (NodeMeta::File { .. }, NodeMeta::File { .. }) => if skip_check || old != new {
            Some(EventType::Modified)
        } else {
            None
        },
        (_, NodeMeta::File { .. }) => Some(EventType::Create),
        (NodeMeta::File { .. }, _) => Some(EventType::Delete),
        _ => None,
    }
}

impl NodeMeta {
    /// Whether it is a directory.
    pub fn is_dir(&self) -> (r: bool)
        ensures
            r == (*self == NodeMeta::Dir),
    {
        matches!(self, NodeMeta::Dir)
    }

    /// Whether it is a file.
    pub fn is_file(&self) -> (r: bool)
        ensures
            r == (*self is File),
    {
        matches!(self, NodeMeta::File { .. })
    }

    /// What a node records of a file or directory on disk.
    pub fn new(meta: &Metadata) -> (r: NodeMeta)
        ensures
            r == node_meta(*meta),
    {
        if meta.is_dir {
            NodeMeta::Dir
        } else {
            NodeMeta::File { mtime: meta.mtime, size: meta.size }
        }
    }

    /// The event that a change to `new` is.
    pub fn change_type(&self, new: &NodeMeta, skip_check: bool) -> (r: Option<EventType>)
        ensures
            r == meta_change(*self, *new, skip_check),
    {
        match (*self, *new) {
            (
                NodeMeta::File { mtime, size },
                NodeMeta::File { mtime: new_mtime, size: new_size },
            ) => {
                if !skip_check && mtime == new_mtime && size == new_size {
                    None
                } else {
                    Some(EventType::Modified)
                }
            },
            (NodeMeta::Deleted, NodeMeta::File { .. }) => Some(EventType::Create),
            (NodeMeta::Dir, NodeMeta::File { .. }) => Some(EventType::Create),
            (NodeMeta::File { .. }, NodeMeta::Deleted) => Some(EventType::Delete),
            (NodeMeta::File { .. }, NodeMeta::Dir) => Some(EventType::Delete),
            _ => None,
        }
    }
}

/// How a node is watched.
#[derive(Debug, Clone, Copy, PartialEq, Eq, Structural)]
pub struct Flags {
    /// Set during a crawl on the children that were not visited yet. Those that still have it in
    /// the end are marked as deleted.
    pub maybe_deleted: bool,
    /// Whether the children of this node are watched.
    pub watch_children: bool,
    /// Whether the children of the children are watched as well, and so on.
    pub watch_subtree: bool,
}

impl Flags {
    /// Whether the node is watched recursively.
    pub open spec fn recursive(self) -> bool {
        self.watch_children && self.watch_subtree
    }

    /// Not watched.
    pub open spec fn none() -> Flags {
        Flags { maybe_deleted: false, watch_children: false, watch_subtree: false }
    }

    /// The same flags, and watched recursively.
    pub open spec fn marked_recursive(self) -> Flags {
        Flags { maybe_deleted: self.maybe_deleted, watch_children: true, watch_subtree: true }
    }

    /// Whether the node is watched recursively.
    pub fn is_recursive(&self) -> (r: bool)
        ensures
            r == self.recursive(),
            r == (self.watch_children && self.watch_subtree),
    {
        self.watch_children && self.watch_subtree
    }

    /// Not watched.
    pub fn empty() -> (r: Flags)
        ensures
            r == Flags::none(),
            !r.maybe_deleted && !r.watch_children && !r.watch_subtree,
    {
        Flags { maybe_deleted: false, watch_children: false, watch_subtree: false }
    }

    /// The same flags, and watched recursively.
    pub fn with_recursive(&self) -> (r: Flags)
        ensures
            r == self.marked_recursive(),
            r.watch_children && r.watch_subtree,
            r.maybe_deleted == self.maybe_deleted,
    {
        Flags { maybe_deleted: self.maybe_deleted, watch_children: true, watch_subtree: true }
    }
}

/// A file or directory.
#[derive(Debug)]
pub struct FsNode {
    pub path: CanonicalPathBuf,
    meta: NodeMeta,
    inode: u64,
    flags: Flags,
    children: DirId,
}

/// A node, with its path taken as the stored bytes.
#[verifier::ext_equal]
pub struct NodeView {
    pub path: Seq<u8>,
    pub meta: NodeMeta,
    pub inode: u64,
    pub flags: Flags,
    /// The list of the children, where there is one.
    pub children: Option<int>,
}

impl View for FsNode {
    type V = NodeView;

    closed spec fn view(&self) -> NodeView {
        NodeView {
            path: self.path@,
            meta: self.meta,
            inode: self.inode,
            flags: self.flags,
            children: self.children@,
        }
    }
}

impl FsNode {
    /// Marks the node as not visited by the crawl.
    pub fn set_maybe_deleted_flag(&mut self)
        ensures
            final(self)@ == (NodeView {
                flags: Flags { maybe_deleted: true, ..old(self)@.flags },
                ..old(self)@
            }),
    {
        self.flags.maybe_deleted = true;
    }

    /// Whether the node is marked as not visited by the crawl.
    pub fn maybe_deleted_flag(&self) -> (r: bool)
        ensures
            r == self@.flags.maybe_deleted,
    {
        self.flags.maybe_deleted
    }

    /// Marks the node as visited by the crawl.
    pub fn unset_maybe_deleted_flag(&mut self)
        ensures
            final(self)@ == (NodeView {
                flags: Flags { maybe_deleted: false, ..old(self)@.flags },
                ..old(self)@
            }),
    {
        self.flags.maybe_deleted = false;
    }

    /// What is known of the file or directory.
    pub fn meta(&self) -> (r: NodeMeta)
        ensures
            r == self@.meta,
    {
        self.meta
    }
}

impl PathSource for Vec<FsNode> {
    open spec fn has_entry(&self, id: u32) -> bool {
        id < self@.len()
    }

    open spec fn entry_path(&self, id: u32) -> Seq<u8> {
        self@[id as int]@.path
    }

    fn path_at(&self, id: u32) -> (r: &CanonicalPathBuf) {
        &self[id as usize].path
    }
}

/// The tree of watched files and directories.
pub struct FileTree {
    path_table: PathTable,
    nodes: Vec<FsNode>,
    dirs: Vec<EcoVec<u32>>,
}

impl View for FileTree {
    type V = TreeView;

    closed spec fn view(&self) -> TreeView {
        TreeView {
            nodes: self.nodes@.map_values(|n: FsNode| n@),
            dirs: self.dirs@.map_values(|d: EcoVec<u32>| eco_ids(d)),
        }
    }
}

impl FileTree {
    /// The tree is well formed, and the table finds each node by its path.
    pub closed spec fn wf(&self) -> bool {
        &&& self@.wf()
        &&& forall|id: u32| #[trigger]
            table_ids(self.path_table).contains(id) <==> id < self.nodes@.len()
        &&& is_filed(self.path_table, self.nodes)
    }

    /// A well-formed tree is so as a mathematical value.
    pub proof fn lemma_wf(&self)
        requires
            self.wf(),
        ensures
            self@.wf(),
    {
    }

    /// A tree without nodes.
    pub fn new() -> (r: Self)
        ensures
            r.wf(),
            r@.nodes.len() == 0,
            r@.dirs.len() == 0,
    {
        FileTree {
            path_table: PathTable::with_capacity(1024),
            nodes: Vec::with_capacity(1024),
            dirs: Vec::with_capacity(128),
        }
    }

    /// Whether there is room for one more node.
    pub fn has_room(&self) -> (r: bool)
        ensures
            r == self@.has_room(),
    {
        let limit = max_entries();
        self.nodes.len() < limit && limit >= 2 && self.dirs.len() <= limit - 2
    }

    /// The node with this number.
    pub fn index(&self, id: NodeId) -> (r: &FsNode)
        requires
            id@ is Some,
            0 <= id@->0 < self@.nodes.len(),
        ensures
            r@ == self@.nodes[id@->0],
    {
        &self.nodes[id.idx()]
    }

    /// The path of the node with this number.
    pub fn path_of(&self, id: NodeId) -> (r: &CanonicalPathBuf)
        requires
            id@ is Some,
            0 <= id@->0 < self@.nodes.len(),
        ensures
            r@ == self@.nodes[id@->0].path,
    {
        assert(self@.nodes[id@->0] == self.nodes@[id@->0]@);
        &self.nodes[id.idx()].path
    }

    /// Gives a node a new, empty list of children. `size` is how many children to expect.
    fn reserve_dir(&mut self, i: usize, size: usize)
        requires
            old(self).wf(),
            i < old(self)@.nodes.len(),
            old(self)@.nodes[i as int].children is None,
            old(self)@.dirs.len() < id_limit(),
        ensures
            final(self).wf(),
            final(self)@ == old(self)@.with_list(i as int),
    {
        let dir = DirId::from(self.dirs.len());
        let hint: usize = if size < 0x100_0000 {
            size
        } else {
            0x100_0000
        };
        self.nodes[i].children = dir;
        self.dirs.push(ids_with_capacity(hint));
        proof {
            assert(self@.nodes =~= old(self)@.with_list(i as int).nodes);
            assert(self@.dirs =~= old(self)@.with_list(i as int).dirs);
            lemmas::lemma_with_list(old(self)@, i as int);
        }
    }

    /// Adds a child to the list of children of a node.
    fn add_child(&mut self, i: usize, child: u32)
        requires
            old(self).wf(),
            i < child,
            child < old(self)@.nodes.len(),
            parent_text(old(self)@.nodes[child as int].path) == Some(
                path_text(old(self)@.nodes[i as int].path),
            ),
            forall|d: int, k: int|
                0 <= d < old(self)@.dirs.len() && 0 <= k < old(self)@.dirs[d].len()
                    ==> #[trigger] old(self)@.dirs[d][k] != child,
            forall|d: int|
                0 <= d < old(self)@.dirs.len() ==> (#[trigger] old(self)@.dirs[d]).len() < old(
                    self,
                )@.nodes.len(),
            old(self)@.dirs.len() < id_limit(),
        ensures
            final(self).wf(),
            final(self)@ == old(self)@.with_child(i as int, child),
            final(self)@.dirs.len() <= old(self)@.dirs.len() + 1,
    {
        if self.nodes[i].children.is_none() {
            self.reserve_dir(i, 4);
        }
        let ghost middle = self@;
        assert(self@.nodes[i as int] == self.nodes@[i as int]@);
        let d = self.nodes[i].children.idx();
        assert(self@.dirs[d as int] == eco_ids(self.dirs@[d as int]));
        ids_push(&mut self.dirs[d], child);
        proof {
            assert(self@.nodes =~= old(self)@.with_child(i as int, child).nodes);
            assert(self@.dirs =~= old(self)@.with_child(i as int, child).dirs);
            lemmas::lemma_with_entry(middle, i as int, child);
        }
    }

    /// Adds a node. It is in no list of children yet.
    fn push_node(&mut self, path: CanonicalPathBuf, meta: NodeMeta, inode: u64, flags: Flags)
        requires
            old(self).wf(),
            old(self)@.find(path@) is None,
            old(self)@.nodes.len() < id_limit(),
        ensures
            final(self).wf(),
            final(self)@ == old(self)@.with_new_node(
                NodeView { path: path@, meta, inode, flags, children: None },
            ),
    {
        let id: u32 = self.nodes.len() as u32;
        self.path_table.insert(path.as_bytes(), id, &self.nodes);
        self.nodes.push(FsNode { path, meta, inode, flags, children: DirId::none() });
        proof {
            let node = NodeView { path: path@, meta, inode, flags, children: None };
            assert(self@.nodes =~= old(self)@.nodes.push(node));
            lemmas::lemma_with_new_node(old(self)@, node);
            assert forall|j: u32| #[trigger] table_ids(self.path_table).contains(j) implies
                self.nodes.has_entry(j) && table_reach(self.path_table).contains(
                (path_text(self.nodes.entry_path(j)), j),
            ) by {
                if j != id {
                    assert(table_ids(old(self).path_table).contains(j));
                    assert(self.nodes.entry_path(j) == old(self).nodes.entry_path(j));
                }
            }
        }
    }

    /// The index of the node with this path.
    fn find(&self, path: &CanonicalPathBuf) -> (r: Option<usize>)
        requires
            self.wf(),
        ensures
            match r {
                Some(i) => i < self@.nodes.len() && self@.find(path@) == Some(i as int)
                    && self@.nodes[i as int].path == path@,
                None => self@.find(path@) is None,
            },
    {
        match self.path_table.lookup(&PathKey::Stored(path), &self.nodes) {
            Some(id) => {
                proof {
                    lemmas::lemma_find(self@, id as int, path@);
                }
                Some(id as usize)
            },
            None => {
                proof {
                    assert forall|i: int| !self@.is_at(i, path@) by {
                        if self@.is_at(i, path@) {
                            assert(table_ids(self.path_table).contains(i as u32));
                            assert(self.nodes.entry_path(i as u32) == path@);
                        }
                    }
                }
                None
            },
        }
    }

    /// The index of the node of the directory that this path is in.
    fn find_parent(&self, path: &CanonicalPathBuf) -> (r: Option<usize>)
        requires
            self.wf(),
        ensures
            self@.is_parent(
                match r {
                    Some(i) => Some(i as int),
                    None => None,
                },
                path@,
            ),
    {
        match path.deref().parent() {
            Some(text) => match self.path_table.lookup(&PathKey::Text(text), &self.nodes) {
                Some(id) => Some(id as usize),
                None => {
                    proof {
                        assert forall|i: int| 0 <= i < self@.nodes.len() implies parent_text(path@)
                            != Some(path_text(#[trigger] self@.nodes[i].path)) by {
                            assert(table_ids(self.path_table).contains(i as u32));
                            assert(self.nodes.entry_path(i as u32) == self@.nodes[i].path);
                        }
                    }
                    None
                },
            },
            None => None,
        }
    }

    /// The node with this path.
    pub fn lookup(&self, path: &CanonicalPathBuf) -> (r: NodeId)
        requires
            self.wf(),
        ensures
            r@ == self@.find(path@),
            r@ matches Some(i) ==> 0 <= i < self@.nodes.len(),
    {
        match self.find(path) {
            Some(i) => NodeId::from(i),
            None => NodeId::none(),
        }
    }

    /// Records what is known of the file or directory of a node.
    fn set_meta(&mut self, i: usize, meta: NodeMeta)
        requires
            old(self).wf(),
            i < old(self)@.nodes.len(),
        ensures
            final(self).wf(),
            final(self)@ == old(self)@.with_meta(i as int, meta),
    {
        self.nodes[i].meta = meta;
        proof {
            self.lemma_node_updated(*old(self), i as int);
        }
    }

    /// Records the inode of a node.
    fn set_inode(&mut self, i: usize, inode: u64)
        requires
            old(self).wf(),
            i < old(self)@.nodes.len(),
        ensures
            final(self).wf(),
            final(self)@ == old(self)@.with_node(
                i as int,
                NodeView { inode, ..old(self)@.nodes[i as int] },
            ),
    {
        self.nodes[i].inode = inode;
        proof {
            self.lemma_node_updated(*old(self), i as int);
        }
    }

    /// Sets the flags of a node.
    fn set_flags(&mut self, i: usize, flags: Flags)
        requires
            old(self).wf(),
            i < old(self)@.nodes.len(),
        ensures
            final(self).wf(),
            final(self)@ == old(self)@.with_flags(i as int, flags),
    {
        self.nodes[i].flags = flags;
        proof {
            self.lemma_node_updated(*old(self), i as int);
        }
    }

    /// A change to a node other than to its path or to its list of children keeps a tree well
    /// formed.
    proof fn lemma_node_updated(&self, before: FileTree, i: int)
        requires
            before.wf(),
            0 <= i < before.nodes@.len(),
            self.path_table == before.path_table,
            self.dirs == before.dirs,
            self.nodes@ == before.nodes@.update(i, self.nodes@[i]),
            self.nodes@[i]@.path == before.nodes@[i]@.path,
            self.nodes@[i]@.children == before.nodes@[i]@.children,
        ensures
            self.wf(),
            self@ == before@.with_node(i, self.nodes@[i]@),
    {
        assert(self@.nodes =~= before@.nodes.update(i, self.nodes@[i]@));
        lemmas::lemma_same_shape(before@, self@);
        assert forall|j: u32| #[trigger] table_ids(self.path_table).contains(j) implies
            self.nodes.has_entry(j) && table_reach(self.path_table).contains(
            (path_text(self.nodes.entry_path(j)), j),
        ) by {
            assert(before.nodes.has_entry(j));
            assert(self.nodes.entry_path(j) == before.nodes.entry_path(j));
        }
    }

    /// How many children a node has.
    fn child_count(&self, i: usize) -> (r: usize)
        requires
            self.wf(),
            i < self@.nodes.len(),
        ensures
            r == self@.children_of(i as int).len(),
    {
        assert(self@.nodes[i as int] == self.nodes@[i as int]@);
        if self.nodes[i].children.is_none() {
            return 0;
        }
        let d = self.nodes[i].children.idx();
        assert(self@.dirs[d as int] == eco_ids(self.dirs@[d as int]));
        ids_slice(&self.dirs[d]).len()
    }

    /// The child of a node at a position.
    fn child_at(&self, i: usize, k: usize) -> (r: usize)
        requires
            self.wf(),
            i < self@.nodes.len(),
            k < self@.children_of(i as int).len(),
        ensures
            r == self@.children_of(i as int)[k as int],
            i < r < self@.nodes.len(),
    {
        assert(self@.nodes[i as int] == self.nodes@[i as int]@);
        let d = self.nodes[i].children.idx();
        assert(self@.dirs[d as int] == eco_ids(self.dirs@[d as int]));
        assert(self@.dirs[d as int][k as int] < self@.nodes.len());
        assert(i < self@.children_of(i as int)[k as int]);
        ids_slice(&self.dirs[d])[k] as usize
    }
}

/// The paths of a tree, one after the other.
#[derive(Debug, Clone, Copy)]
pub struct TreeIter<'a> {
    nodes: &'a [FsNode],
    next: usize,
}

impl<'a> View for TreeIter<'a> {
    type V = Seq<Seq<u8>>;

    /// The stored paths that are left.
    closed spec fn view(&self) -> Seq<Seq<u8>> {
        self.nodes@.map_values(|n: FsNode| n@.path).skip(self.next as int)
    }
}

impl<'a> TreeIter<'a> {
    /// The position is within the nodes.
    pub closed spec fn wf(&self) -> bool {
        self.next <= self.nodes@.len()
    }

    /// The path that comes next.
    pub fn next(&mut self) -> (r: Option<&'a CanonicalPathBuf>)
        requires
            old(self).wf(),
        ensures
            final(self).wf(),
            match r {
                Some(path) => old(self)@.len() > 0 && path@ == old(self)@[0] && final(self)@
                    == old(self)@.skip(1),
                None => old(self)@.len() == 0 && final(self)@ == old(self)@,
            },
    {
        if self.next >= self.nodes.len() {
            return None;
        }
        let node = &self.nodes[self.next];
        self.next = self.next + 1;
        assert(self@ =~= old(self)@.skip(1));
        Some(&node.path)
    }
}

impl FileTree {
    /// The paths of the nodes, in the order in which they were added.
    pub fn iter(&self) -> (r: TreeIter<'_>)
        ensures
            r.wf(),
            r@ == self@.nodes.map_values(|n: NodeView| n.path),
    {
        let r = TreeIter { nodes: self.nodes.as_slice(), next: 0 };
        assert(r@ =~= self@.nodes.map_values(|n: NodeView| n.path));
        r
    }
}

} // verus!
