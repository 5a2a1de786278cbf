//! Which paths are left out of the watch.

use crate::components::{
    ancestors, ends_with_name, last_component, lemma_parent_is_shorter, parent_of,
};
use vstd::prelude::*;

verus! {

/// The hint that goes with the path at position `i` of a list of a path and its ancestors: what the
/// caller knows of the path itself, and that an ancestor is a directory.
pub open spec fn ancestor_hint(i: int, is_dir: Option<bool>) -> Option<bool> {
    if i == 0 {
        is_dir
    } else {
        Some(true)
    }
}

/// Decides which paths are ignored.
pub trait Filter: 'static + Send + Sync {
    /// The path is ignored, going by the path alone. `is_dir` says whether it is a directory, where
    /// that is known. Nothing is known of it for a filter without a definition of its own.
    open spec fn ignores(&self, path: Seq<u8>, is_dir: Option<bool>) -> bool {
        arbitrary::<spec_fn(Seq<u8>, Option<bool>) -> bool>()(path, is_dir)
    }

    /// Whether the path is ignored, going by the path alone.
    fn ignore_path(&self, path: &[u8], is_dir: Option<bool>) -> (r: bool)
        ensures
            r == self.ignores(path@, is_dir),
    ;

    /// Whether the path or one of its ancestors is ignored. Every ancestor of a path is a
    /// directory, and is asked for as one.
    fn ignore_path_rec(&self, path: &[u8], is_dir: Option<bool>) -> (r: bool)
        ensures
            r == exists|i: int|
                0 <= i < ancestors(path@).len() && self.ignores(
                    #[trigger] ancestors(path@)[i],
                    ancestor_hint(i, is_dir),
                ),
    {
        let mut rest = path;
        let mut hint = is_dir;
        let ghost mut depth: int = 0;
        loop
            invariant
                0 <= depth < ancestors(path@).len(),
                ancestors(path@).skip(depth) == ancestors(rest@),
                hint == ancestor_hint(depth, is_dir),
                forall|i: int|
                    0 <= i < depth ==> !self.ignores(
                        #[trigger] ancestors(path@)[i],
                        ancestor_hint(i, is_dir),
                    ),
            decreases rest@.len(),
        {
            proof {
                assert(ancestors(path@)[depth] == ancestors(rest@)[0]);
                assert(ancestors(rest@)[0] == rest@);
            }
            if self.ignore_path(rest, hint) {
                return true;
            }
            proof {
                lemma_parent_is_shorter(rest@);
            }
            match parent_of(rest) {
                Some(parent) => {
                    proof {
                        assert(ancestors(rest@).skip(1) =~= ancestors(parent@));
                        assert(ancestors(path@).skip(depth).skip(1) =~= ancestors(path@).skip(
                            depth + 1,
                        ));
                        assert(ancestors(parent@).len() > 0);
                        depth = depth + 1;
                    }
                    rest = parent;
                    hint = Some(true);
                },
                None => {
                    proof {
                        assert(ancestors(rest@).len() == 1);
                        assert(ancestors(path@).len() == depth + 1);
                    }
                    return false;
                },
            }
        }
    }
}

/// The filter ignores the path or one of its ancestors.
pub open spec fn ignores_with_ancestors<F: Filter + ?Sized>(
    filter: &F,
    path: Seq<u8>,
    is_dir: Option<bool>,
) -> bool {
    exists|i: int|
        0 <= i < ancestors(path).len() && filter.ignores(
            #[trigger] ancestors(path)[i],
            ancestor_hint(i, is_dir),
        )
}

/// The name of the directory in which git keeps its data.
pub open spec fn git_dir() -> Seq<u8> {
    seq![46u8, 103, 105, 116]
}

impl Filter for () {
    open spec fn ignores(&self, path: Seq<u8>, is_dir: Option<bool>) -> bool {
        last_component(path) == Some(git_dir())
    }

    fn ignore_path(&self, path: &[u8], _is_dir: Option<bool>) -> (r: bool) {
        let name: [u8; 4] = [46, 103, 105, 116];
        proof {
            assert(name@ =~= git_dir());
        }
        ends_with_name(path, name.as_slice())
    }
}

} // verus!
