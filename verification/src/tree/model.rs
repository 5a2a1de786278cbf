//! The tree as a mathematical value, and what its operations do to it.

use super::{meta_change, node_meta, Flags, NodeMeta, NodeView};
use crate::config::Filter;
use crate::events::{EventType, EventView};
use crate::metadata::Metadata;
use crate::path::{is_stored, parent_text, path_text};
use crate::pending;
use crate::pending::{without_beneath, ChangeView};
use crate::table::id_limit;
use vstd::prelude::*;

verus! {

/// The nodes, by their numbers, and the lists of children, by theirs.
#[verifier::ext_equal]
pub struct TreeView {
    pub nodes: Seq<NodeView>,
    pub dirs: Seq<Seq<u32>>,
}

/// The result of an operation that changes the tree and emits events.
#[verifier::ext_equal]
pub struct Change {
    pub tree: TreeView,
    pub events: Seq<EventView>,
}

/// The result of applying a change: what it does, the node that it concerns, and whether what is
/// beneath the node is to be looked into.
#[verifier::ext_equal]
pub struct Outcome {
    pub tree: TreeView,
    pub events: Seq<EventView>,
    pub node: Option<int>,
    pub recurse: bool,
}

impl TreeView {
    /// No two nodes have the same path.
    pub open spec fn paths_distinct(self) -> bool {
        forall|i: int, j: int|
            0 <= i < self.nodes.len() && 0 <= j < self.nodes.len() && #[trigger] self.nodes[i].path
                == #[trigger] self.nodes[j].path ==> i == j
    }

    /// The paths are those of files and directories, as they are stored.
    pub open spec fn paths_stored(self) -> bool {
        forall|i: int| 0 <= i < self.nodes.len() ==> is_stored(#[trigger] self.nodes[i].path)
    }

    /// The list of the children of a node exists and belongs to no other node.
    pub open spec fn lists_owned(self) -> bool {
        &&& forall|i: int|
            0 <= i < self.nodes.len() && (#[trigger] self.nodes[i]).children is Some ==> 0
                <= self.nodes[i].children->0 < self.dirs.len()
        &&& forall|i: int, j: int|
            0 <= i < self.nodes.len() && 0 <= j < self.nodes.len() && (
            #[trigger] self.nodes[i]).children is Some && (#[trigger] self.nodes[j]).children
                == self.nodes[i].children ==> i == j
    }

    /// The lists hold numbers of nodes, and no number twice.
    pub open spec fn lists_valid(self) -> bool {
        &&& forall|d: int, k: int|
            0 <= d < self.dirs.len() && 0 <= k < self.dirs[d].len() ==> #[trigger] self.dirs[d][k]
                < self.nodes.len()
        &&& forall|d: int|
            0 <= d < self.dirs.len() ==> (#[trigger] self.dirs[d]).len() <= self.nodes.len()
        &&& forall|d: int, k: int, e: int, l: int|
            0 <= d < self.dirs.len() && 0 <= k < self.dirs[d].len() && 0 <= e < self.dirs.len()
                && 0 <= l < self.dirs[e].len() && #[trigger] self.dirs[d][k]
                == #[trigger] self.dirs[e][l] ==> d == e && k == l
    }

    /// A child was added after its parent, and its path is that of the parent and a name.
    pub open spec fn lists_mirror_paths(self) -> bool {
        forall|i: int, k: int|
            0 <= i < self.nodes.len() && 0 <= k < self.children_of(i).len() ==> {
                &&& i < #[trigger] self.children_of(i)[k]
                &&& parent_text(self.nodes[self.children_of(i)[k] as int].path) == Some(
                    path_text(self.nodes[i].path),
                )
            }
    }

    /// The tree is well formed.
    pub open spec fn wf(self) -> bool {
        &&& self.nodes.len() <= id_limit()
        &&& self.dirs.len() <= id_limit()
        &&& self.paths_stored()
        &&& self.paths_distinct()
        &&& self.lists_owned()
        &&& self.lists_valid()
        &&& self.lists_mirror_paths()
    }

    /// There is room for one more node, and for the lists of children that it takes.
    pub open spec fn has_room(self) -> bool {
        &&& self.nodes.len() < id_limit()
        &&& self.dirs.len() + 2 <= id_limit()
    }

    /// The children of a node, in the order in which they were added.
    pub open spec fn children_of(self, i: int) -> Seq<u32> {
        match self.nodes[i].children {
            Some(d) => self.dirs[d],
            None => Seq::empty(),
        }
    }

    /// A node with this stored path, if there is one.
    pub open spec fn find(self, raw: Seq<u8>) -> Option<int> {
        if exists|i: int| self.is_at(i, raw) {
            Some(choose|i: int| self.is_at(i, raw))
        } else {
            None
        }
    }

    /// The node has this stored path.
    pub open spec fn is_at(self, i: int, raw: Seq<u8>) -> bool {
        0 <= i < self.nodes.len() && self.nodes[i].path == raw
    }

    /// `parent` is a node whose path is what precedes the last separator of the stored path, or
    /// none where there is no such node.
    pub open spec fn is_parent(self, parent: Option<int>, raw: Seq<u8>) -> bool {
        match parent {
            Some(p) => 0 <= p < self.nodes.len() && parent_text(raw) == Some(
                path_text(self.nodes[p].path),
            ),
            None => forall|i: int|
                0 <= i < self.nodes.len() ==> parent_text(raw) != Some(
                    path_text(#[trigger] self.nodes[i].path),
                ),
        }
    }

    /// The tree with another node in place of one.
    pub open spec fn with_node(self, i: int, node: NodeView) -> TreeView {
        TreeView { nodes: self.nodes.update(i, node), dirs: self.dirs }
    }

    /// The tree with one more node.
    pub open spec fn with_new_node(self, node: NodeView) -> TreeView {
        TreeView { nodes: self.nodes.push(node), dirs: self.dirs }
    }

    /// The tree with a new, empty list of children for a node.
    pub open spec fn with_list(self, i: int) -> TreeView {
        TreeView {
            nodes: self.nodes.update(
                i,
                NodeView { children: Some(self.dirs.len() as int), ..self.nodes[i] },
            ),
            dirs: self.dirs.push(Seq::empty()),
        }
    }

    /// The tree with a child added to a node, which gets a list of children if it has none.
    pub open spec fn with_child(self, i: int, child: u32) -> TreeView {
        let tree = if self.nodes[i].children is None {
            self.with_list(i)
        } else {
            self
        };
        let d = tree.nodes[i].children->0;
        TreeView { nodes: tree.nodes, dirs: tree.dirs.update(d, tree.dirs[d].push(child)) }
    }

    /// The tree with other knowledge of the file or directory of a node.
    pub open spec fn with_meta(self, i: int, meta: NodeMeta) -> TreeView {
        self.with_node(i, NodeView { meta, ..self.nodes[i] })
    }

    /// The tree with other flags on a node.
    pub open spec fn with_flags(self, i: int, flags: Flags) -> TreeView {
        self.with_node(i, NodeView { flags, ..self.nodes[i] })
    }

    /// What is known of the files and directories of all nodes.
    pub open spec fn metas(self) -> Seq<NodeMeta> {
        Seq::new(self.nodes.len(), |i: int| self.nodes[i].meta)
    }

    /// The tree with other knowledge of the files and directories of all nodes.
    pub open spec fn with_metas(self, metas: Seq<NodeMeta>) -> TreeView {
        TreeView {
            nodes: Seq::new(
                self.nodes.len(),
                |i: int| NodeView { meta: metas[i], ..self.nodes[i] },
            ),
            dirs: self.dirs,
        }
    }

    /// The event that the file of a node was deleted.
    pub open spec fn delete_event(self, i: int) -> EventView {
        EventView { path: self.nodes[i].path, ty: EventType::Delete }
    }
}

/// Marks the children of node `p`, from position `k` on, as deleted, and what is beneath each child
/// that was a directory right after the child. Each file that is deleted this way is an event.
/// Returns what is then known of all nodes, and the events.
pub open spec fn delete_children(tree: TreeView, metas: Seq<NodeMeta>, p: int, k: int) -> (
    Seq<NodeMeta>,
    Seq<EventView>,
)
    decreases tree.nodes.len() - p, tree.children_of(p).len() - k,
{
    let list = tree.children_of(p);
    if 0 <= p && 0 <= k < list.len() && p < list[k] < tree.nodes.len() {
        let c = list[k] as int;
        let marked = metas.update(c, NodeMeta::Deleted);
        let (below, events) = if metas[c] is File {
            (marked, seq![tree.delete_event(c)])
        } else if metas[c] == NodeMeta::Dir {
            delete_children(tree, marked, c, 0)
        } else {
            (marked, Seq::empty())
        };
        let (rest, more) = delete_children(tree, below, p, k + 1);
        (rest, events + more)
    } else {
        (metas, Seq::empty())
    }
}

/// Marks everything beneath a node as deleted, and the node itself if it has a list of children.
pub open spec fn delete_beneath(tree: TreeView, i: int) -> Change {
    if tree.nodes[i].children is None {
        Change { tree, events: Seq::empty() }
    } else {
        let (metas, events) = delete_children(
            tree,
            tree.metas().update(i, NodeMeta::Deleted),
            i,
            0,
        );
        Change { tree: tree.with_metas(metas), events }
    }
}

/// Applies a change to a node that is in the tree. `meta` is what is on disk now.
pub open spec fn change_known(
    tree: TreeView,
    i: int,
    change: ChangeView,
    meta: Option<Metadata>,
) -> Outcome {
    let node = tree.nodes[i];
    let flags = if change.flags.mark_recursive {
        node.flags.marked_recursive()
    } else {
        node.flags
    };
    match meta {
        Some(meta) => {
            let replaced = meta.inode != node.inode;
            let event = meta_change(
                node.meta,
                node_meta(meta),
                replaced || change.flags.origin_watcher,
            );
            let updated = tree.with_node(
                i,
                NodeView { flags, inode: meta.inode, meta: node_meta(meta), ..node },
            );
            Outcome {
                tree: if meta.is_dir && node.children is None && meta.size != 0
                    && flags.watch_children {
                    updated.with_list(i)
                } else {
                    updated
                },
                events: match event {
                    Some(ty) => seq![EventView { path: change.path, ty }],
                    None => Seq::empty(),
                },
                node: Some(i),
                recurse: flags.watch_children && (change.flags.needs_recursive_crawl
                    || change.flags.needs_non_recursive_crawl || replaced || event == Some(
                    EventType::Create,
                )),
            }
        },
        None => {
            let gone = tree.with_node(i, NodeView { flags, meta: NodeMeta::Deleted, ..node });
            let change = if node.meta == NodeMeta::Dir {
                delete_beneath(gone, i)
            } else if node.meta is File {
                Change { tree: gone, events: seq![tree.delete_event(i)] }
            } else {
                Change { tree: gone, events: Seq::empty() }
            };
            Outcome { tree: change.tree, events: change.events, node: Some(i), recurse: true }
        },
    }
}

/// Applies a change for a path that is not in the tree. `meta` is what is on disk now, and
/// `parent` the node of the directory that it is in. What is not on disk, or in no directory of
/// the tree, is left out.
pub open spec fn change_unknown(
    tree: TreeView,
    change: ChangeView,
    meta: Option<Metadata>,
    parent: Option<int>,
) -> Outcome {
    if meta is None || parent is None {
        Outcome { tree, events: Seq::empty(), node: None, recurse: true }
    } else {
        let meta = meta->0;
        let p = parent->0;
        let id = tree.nodes.len() as int;
        let recursive = change.flags.mark_recursive || tree.nodes[p].flags.recursive();
        let added = tree.with_new_node(
            NodeView {
                path: change.path,
                meta: node_meta(meta),
                inode: meta.inode,
                flags: if recursive {
                    Flags::none().marked_recursive()
                } else {
                    Flags::none()
                },
                children: None,
            },
        ).with_child(p, id as u32);
        Outcome {
            tree: if meta.is_dir && recursive && meta.size != 0 {
                added.with_list(id)
            } else {
                added
            },
            events: if meta.is_dir {
                Seq::empty()
            } else {
                seq![EventView { path: change.path, ty: EventType::Create }]
            },
            node: Some(id),
            recurse: recursive,
        }
    }
}

/// `outcome` is what applying a change gives, `meta` being what is on disk now.
pub open spec fn is_applied(
    tree: TreeView,
    change: ChangeView,
    meta: Option<Metadata>,
    outcome: Outcome,
) -> bool {
    match tree.find(change.path) {
        Some(i) => outcome == change_known(tree, i, change, meta),
        None => exists|parent: Option<int>| #[trigger]
            tree.is_parent(parent, change.path) && outcome == change_unknown(
                tree,
                change,
                meta,
                parent,
            ),
    }
}

/// The tree and the number of the node after a path was added to be watched, or none where it was
/// not added. `meta` is what is on disk; it matters only for a path that is not in the tree yet.
pub open spec fn added(
    tree: TreeView,
    path: Seq<u8>,
    recursive: bool,
    root: bool,
    meta: Option<Metadata>,
    parent: Option<int>,
) -> (TreeView, Option<int>) {
    match tree.find(path) {
        Some(i) => {
            let node = tree.nodes[i];
            if !recursive || node.flags.recursive() || (root && node.meta != NodeMeta::Dir) {
                (tree, None)
            } else {
                (tree.with_flags(i, node.flags.marked_recursive()), Some(i))
            }
        },
        None => if meta is None || (parent is None && !root) || (root && !meta->0.is_dir) {
            (tree, None)
        } else {
            let meta = meta->0;
            let id = tree.nodes.len() as int;
            let grown = tree.with_new_node(
                NodeView {
                    path,
                    meta: node_meta(meta),
                    inode: meta.inode,
                    flags: if recursive {
                        Flags::none().marked_recursive()
                    } else if root {
                        Flags { watch_children: true, ..Flags::none() }
                    } else {
                        Flags::none()
                    },
                    children: None,
                },
            );
            let linked = match parent {
                Some(p) => grown.with_child(p, id as u32),
                None => grown,
            };
            (
                if meta.is_dir && (recursive || root) && meta.size != 0 {
                    linked.with_list(id)
                } else {
                    linked
                },
                Some(id),
            )
        },
    }
}

/// `after` and `node` are what adding a path to be watched gives, `meta` being what is on disk.
pub open spec fn is_added(
    tree: TreeView,
    path: Seq<u8>,
    recursive: bool,
    root: bool,
    meta: Option<Metadata>,
    after: TreeView,
    node: Option<int>,
) -> bool {
    match tree.find(path) {
        Some(_) => (after, node) == added(tree, path, recursive, root, meta, None),
        None => exists|parent: Option<int>| #[trigger]
            tree.is_parent(parent, path) && (after, node) == added(
                tree,
                path,
                recursive,
                root,
                meta,
                parent,
            ),
    }
}

/// Marks the nodes of a list as not visited by the crawl yet.
pub open spec fn mark_unvisited(tree: TreeView, list: Seq<u32>) -> TreeView {
    TreeView {
        nodes: Seq::new(
            tree.nodes.len(),
            |i: int|
                if list.contains(i as u32) {
                    NodeView {
                        flags: Flags { maybe_deleted: true, ..tree.nodes[i].flags },
                        ..tree.nodes[i]
                    }
                } else {
                    tree.nodes[i]
                },
        ),
        dirs: tree.dirs,
    }
}

/// The event of deleting a node itself, if what is known of it is a file.
pub open spec fn deletion(tree: TreeView, i: int) -> Seq<EventView> {
    if tree.nodes[i].meta is File {
        seq![tree.delete_event(i)]
    } else {
        Seq::empty()
    }
}

/// Marks the nodes of a list, from position `k` on, that the crawl did not visit, as deleted, with
/// everything beneath them. Each file that is deleted this way is an event.
pub open spec fn sweep(tree: TreeView, list: Seq<u32>, k: int) -> Change
    decreases list.len() - k,
{
    if 0 <= k < list.len() {
        let c = list[k] as int;
        if tree.nodes[c].flags.maybe_deleted {
            let beneath = delete_beneath(tree.with_meta(c, NodeMeta::Deleted), c);
            let rest = sweep(beneath.tree, list, k + 1);
            Change {
                tree: rest.tree,
                events: deletion(tree, c) + beneath.events + rest.events,
            }
        } else {
            sweep(tree, list, k + 1)
        }
    } else {
        Change { tree, events: Seq::empty() }
    }
}

/// Enters a directory: its children are not visited yet.
pub open spec fn entered(tree: TreeView, i: int) -> TreeView {
    mark_unvisited(tree, tree.children_of(i))
}

/// The directories that a crawl is in, the innermost last, each with the depth at which it is.
pub type CrawlStack = Seq<(int, int)>;

/// How many directories stay on the stack when those at the given depth and below are left.
pub open spec fn kept(stack: CrawlStack, depth: int) -> int
    decreases stack.len(),
{
    if stack.len() > 0 && stack.last().1 >= depth {
        kept(stack.drop_last(), depth)
    } else {
        stack.len() as int
    }
}

/// Leaves the directories at the given depth and below, the innermost first, and sweeps each.
pub open spec fn leave(tree: TreeView, stack: CrawlStack, depth: int) -> Change
    decreases stack.len(),
{
    if stack.len() > 0 && stack.last().1 >= depth {
        let swept = sweep(tree, tree.children_of(stack.last().0), 0);
        let rest = leave(swept.tree, stack.drop_last(), depth);
        Change { tree: rest.tree, events: swept.events + rest.events }
    } else {
        Change { tree, events: Seq::empty() }
    }
}

/// The stack of a crawl after it entered a directory. One without a list of children has nothing
/// that could turn out to be deleted, and is not put on it.
pub open spec fn stacked(tree: TreeView, stack: CrawlStack, i: int, depth: int) -> CrawlStack {
    if tree.nodes[i].children is Some {
        stack.push((i, depth))
    } else {
        stack
    }
}

/// The change that a crawl applies for each path that it comes by.
pub open spec fn crawl_change(path: Seq<u8>, recursive: bool) -> ChangeView {
    ChangeView {
        path,
        flags: pending::Flags { mark_recursive: recursive, ..pending::Flags::recursive_crawl() },
    }
}

/// The state of a crawl after a step, and what the step found out.
#[verifier::ext_equal]
pub struct Crawled {
    pub tree: TreeView,
    pub stack: CrawlStack,
    pub events: Seq<EventView>,
    /// Whether the path is a directory to be watched.
    pub watch: bool,
}

/// What a crawl does about a path once `outcome` is known of it: a node that is there counts as
/// visited, directories that the crawl is out of by now are left, and the path is entered if it is
/// a directory of a recursive crawl.
pub open spec fn crawl_visit(
    outcome: Outcome,
    stack: CrawlStack,
    recursive: bool,
    depth: int,
) -> Crawled {
    match outcome.node {
        None => Crawled { tree: outcome.tree, stack, events: outcome.events, watch: false },
        Some(i) => {
            let visited = outcome.tree.with_flags(
                i,
                Flags { maybe_deleted: false, ..outcome.tree.nodes[i].flags },
            );
            let left = leave(visited, stack, depth);
            let open = stack.take(kept(stack, depth));
            let watch = recursive && left.tree.nodes[i].meta == NodeMeta::Dir;
            Crawled {
                tree: if watch {
                    entered(left.tree, i)
                } else {
                    left.tree
                },
                stack: if watch {
                    stacked(left.tree, open, i, depth)
                } else {
                    open
                },
                events: outcome.events + left.events,
                watch,
            }
        },
    }
}

/// `crawled` is what a crawl makes of a path, `meta` being what is on disk there now.
pub open spec fn is_crawled(
    tree: TreeView,
    stack: CrawlStack,
    recursive: bool,
    depth: int,
    path: Seq<u8>,
    meta: Option<Metadata>,
    crawled: Crawled,
) -> bool {
    exists|outcome: Outcome| #[trigger]
        is_applied(tree, crawl_change(path, recursive), meta, outcome) && crawled == crawl_visit(
            outcome,
            stack,
            recursive,
            depth,
        )
}

/// The node to crawl after a change was applied: a directory of which what is beneath it is to be
/// looked into, and that is not ignored.
pub open spec fn crawl_target<F: Filter + ?Sized>(
    filter: &F,
    change: ChangeView,
    outcome: Outcome,
) -> Option<int> {
    match outcome.node {
        Some(i) => if outcome.recurse && outcome.tree.nodes[i].meta == NodeMeta::Dir
            && !filter.ignores(path_text(change.path), Some(true)) {
            Some(i)
        } else {
            None
        },
        None => None,
    }
}

/// The changes that are left once the first was applied. A look at what is beneath its path makes
/// the changes beneath it superfluous.
pub open spec fn changes_left(changes: Seq<ChangeView>, recurse: bool) -> Seq<ChangeView> {
    if recurse {
        without_beneath(changes.skip(1), changes[0].path)
    } else {
        changes.skip(1)
    }
}

} // verus!
