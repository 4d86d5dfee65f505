//! The commit a clone's workspace creation leaves behind, and how to tell it from
//! work.
//!
//! Workspace creation checks a new workspace name out at an empty commit on the
//! root commit before anything else happens. A clone that dies there leaves that
//! commit as the whole of what the name says it is, and every defence against
//! losing a workspace to an interrupted clone comes down to recognising it. Both
//! the client (deciding what to attach to) and the server (deciding what a merge
//! may settle on) have to recognise the same commit, so the rule lives in one
//! place and each side brings its own commit shape to it.
use vstd::prelude::*;

use crate::order::same_bytes;
use crate::text::is_blank;

verus! {

/// Whether a commit is the placeholder jj's workspace creation makes.
///
/// Three facts, and all three are needed. Nothing a workspace goes on to publish
/// looks like this: the first snapshot rewrites the commit and gives it a tree, a
/// change somebody describes gives it a description, and anything later has a
/// different parent. A merge, with its two parents, is not one either.
///
/// The commit is identified by shape and not by id because there is no id to
/// identify it by: checking out mints a new commit, with a new change id, every
/// time a workspace is created.
pub fn is_fresh_workspace_placeholder(
    description: &str,
    parents: &[&[u8]],
    root_tree: &[&[u8]],
    root_commit_id: &[u8],
    empty_tree_id: &[u8],
) -> (r: bool)
    ensures
        r == (description@.len() == 0 && parents@.len() == 1 && parents@[0]@ == root_commit_id@
            && root_tree@.len() == 1 && root_tree@[0]@ == empty_tree_id@),
{
    is_blank(description) && parents.len() == 1 && same_bytes(parents[0], root_commit_id)
        && root_tree.len() == 1 && same_bytes(root_tree[0], empty_tree_id)
}

} // verus!
