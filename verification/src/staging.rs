//! What can be handed over as a path or as the contents of a file.

use crate::path::{self, PathView, TreePath};
use vstd::prelude::*;
use vstd::string::StringSliceAdditionalSpecFns;

verus! {

/// A value that can be staged as a path.
pub trait IntoPath: Sized {
    /// The path it stands for.
    spec fn as_path(&self) -> PathView;

    /// That path.
    fn into_path(self) -> (path: TreePath)
        ensures
            path@ == self.as_path(),
    ;
}

/// A value that can be staged as the contents of a file.
pub trait IntoContents: Sized {
    /// The bytes it stands for.
    spec fn as_contents(&self) -> Seq<u8>;

    /// Those bytes.
    fn into_contents(self) -> (contents: Vec<u8>)
        ensures
            contents@ == self.as_contents(),
    ;
}

impl IntoPath for TreePath {
    open spec fn as_path(&self) -> PathView {
        self@
    }

    fn into_path(self) -> (path: TreePath) {
        self
    }
}

impl IntoPath for &TreePath {
    open spec fn as_path(&self) -> PathView {
        self@
    }

    fn into_path(self) -> (path: TreePath) {
        self.copy()
    }
}

impl IntoPath for &str {
    open spec fn as_path(&self) -> PathView {
        self.spec_bytes()
    }

    fn into_path(self) -> (path: TreePath) {
        TreePath::new(self.as_bytes())
    }
}

impl IntoPath for String {
    open spec fn as_path(&self) -> PathView {
        vstd::utf8::encode_utf8(self@)
    }

    fn into_path(self) -> (path: TreePath) {
        TreePath::new(self.as_str().as_bytes())
    }
}

impl IntoContents for Vec<u8> {
    open spec fn as_contents(&self) -> Seq<u8> {
        self@
    }

    fn into_contents(self) -> (contents: Vec<u8>) {
        self
    }
}

impl IntoContents for &[u8] {
    open spec fn as_contents(&self) -> Seq<u8> {
        self@
    }

    fn into_contents(self) -> (contents: Vec<u8>) {
        path::copied(self)
    }
}

impl IntoContents for &str {
    open spec fn as_contents(&self) -> Seq<u8> {
        self.spec_bytes()
    }

    fn into_contents(self) -> (contents: Vec<u8>) {
        path::copied(self.as_bytes())
    }
}

impl IntoContents for String {
    open spec fn as_contents(&self) -> Seq<u8> {
        vstd::utf8::encode_utf8(self@)
    }

    fn into_contents(self) -> (contents: Vec<u8>) {
        path::copied(self.as_str().as_bytes())
    }
}

/// What is handed over as a path or as contents stands for its own text or bytes, and for nothing
/// else.
pub proof fn law_texts_stand_for_themselves(
    path: TreePath,
    slice: &str,
    text: String,
    bytes: Vec<u8>,
    part: &[u8],
)
    ensures
        path.as_path() == path@,
        (&path).as_path() == path@,
        slice.as_path() == slice.spec_bytes(),
        text.as_path() == vstd::utf8::encode_utf8(text@),
        bytes.as_contents() == bytes@,
        part.as_contents() == part@,
        slice.as_contents() == slice.spec_bytes(),
        text.as_contents() == vstd::utf8::encode_utf8(text@),
{
}

} // verus!
