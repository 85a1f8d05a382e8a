//! The write-ahead journal: where it lives.

use crate::path::{self, PathView, TreePath};
use crate::port;
use vstd::prelude::*;
use vstd::string::StringSliceAdditionalSpecFns;

verus! {

/// A write-ahead journal: the file that holds the intent of a change set while it is applied. What
/// recovers an interrupted set must name the same journal as what applied it.
#[derive(Debug, Clone, PartialEq, Eq)]
pub struct Journal<P = TreePath> {
    /// The name of the file.
    pub name: P,
    /// The directory that holds it, if that is not the root of the tree.
    pub home: Option<P>,
}

/// The view of a [`Journal`].
pub type JournalView = Journal<PathView>;

impl View for Journal<TreePath> {
    type V = JournalView;

    open spec fn view(&self) -> JournalView {
        Journal { name: self.name@, home: port::view_of(self.home) }
    }
}

impl Journal<PathView> {
    /// The journal that was given no other name or home.
    pub open spec fn standard() -> JournalView {
        Journal { name: ".fstx-journal".spec_bytes(), home: None }
    }

    /// Where the journal of the tree at `root` is.
    pub open spec fn place(self, root: PathView) -> PathView {
        match self.home {
            Some(home) => path::joined(home, self.name),
            None => path::joined(root, self.name),
        }
    }
}

/// A journal that has a home is there under its name, whatever the root; any other is in the root.
/// Unless it is given another name it is called `.fstx-journal`, and has no home.
pub proof fn law_journal_is_at_home(journal: JournalView, root: PathView)
    ensures
        journal.home matches Some(home) ==> journal.place(root) == path::joined(home, journal.name),
        journal.home is None ==> journal.place(root) == path::joined(root, journal.name),
        JournalView::standard().place(root) == path::joined(root, ".fstx-journal".spec_bytes()),
{
}

impl Default for Journal<TreePath> {
    fn default() -> (journal: Journal)
        ensures
            journal@ == JournalView::standard(),
    {
        Journal { name: TreePath::new(".fstx-journal".as_bytes()), home: None }
    }
}

impl Journal<TreePath> {
    /// Where the journal of the tree at `root` is.
    pub fn path_in(&self, root: &TreePath) -> (path: TreePath)
        ensures
            path@ == self@.place(root@),
    {
        match &self.home {
            Some(home) => home.join(&self.name),
            None => root.join(&self.name),
        }
    }
}

} // verus!
