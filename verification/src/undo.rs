//! How to reverse an operation that was applied.

use crate::path::{PathView, TreePath};
use vstd::prelude::*;

verus! {

/// How to reverse one applied operation, recorded against the state which that operation found.
/// Paths are complete: the root has been joined on.
#[derive(Debug, Clone, PartialEq, Eq)]
pub enum Undo<P = TreePath, B = Vec<u8>> {
    /// Put these bytes back.
    Restore {
        /// The file that held them.
        path: P,
        /// What it held.
        bytes: B,
        /// What its execute bit was, if that is to be put back too.
        bit: Option<bool>,
    },
    /// Delete what was put where nothing had been. Nothing to delete is nothing to undo.
    Delete {
        /// The path that held nothing.
        path: P,
    },
    /// Move `from` back to `to`.
    Rename {
        /// Where it was moved.
        from: P,
        /// Where it was before.
        to: P,
    },
    /// Put the execute bit back.
    SetExecutable {
        /// The file.
        path: P,
        /// What the bit was.
        executable: bool,
    },
    /// Put back the link that the path held.
    Relink {
        /// Where the link was.
        path: P,
        /// Where it pointed.
        target: P,
    },
    /// Put a file back where a link now stands. The link goes first: a write would go through it.
    RestoreOverLink {
        /// The file that gave way to the link.
        path: P,
        /// What it held.
        bytes: B,
        /// What its execute bit was, if the storage has one.
        bit: Option<bool>,
    },
}

/// The view of an [`Undo`].
pub type UndoView = Undo<PathView, Seq<u8>>;

impl View for Undo<TreePath, Vec<u8>> {
    type V = UndoView;

    open spec fn view(&self) -> UndoView {
        match self {
            Undo::Restore { path, bytes, bit } => Undo::Restore {
                path: path@,
                bytes: bytes@,
                bit: *bit,
            },
            Undo::Delete { path } => Undo::Delete { path: path@ },
            Undo::Rename { from, to } => Undo::Rename { from: from@, to: to@ },
            Undo::SetExecutable { path, executable } => Undo::SetExecutable {
                path: path@,
                executable: *executable,
            },
            Undo::Relink { path, target } => Undo::Relink { path: path@, target: target@ },
            Undo::RestoreOverLink { path, bytes, bit } => Undo::RestoreOverLink {
                path: path@,
                bytes: bytes@,
                bit: *bit,
            },
        }
    }
}

} // verus!
