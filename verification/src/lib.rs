//! Text-storage core of an editor: an immutable, structurally shared rope of
//! reference-counted string slices, with indexed access by character offset
//! and by line number, and streaming traversal.
//!
//! The pieces, leaf first: [`newlines`] counts newline characters;
//! [`rcstring`] is a cheap, shareable view over an owned character buffer;
//! [`rope`] is a persistent binary tree of such views with cached subtree
//! counts, plus the iterators that flatten it lazily. [`Buffer`] is the thin
//! editor-facing holder of rope snapshots; reading files is its caller's
//! business, it only stores what it is handed.

use vstd::prelude::*;

pub mod newlines;
pub mod rcstring;
pub mod rope;

use crate::rope::Rope;

verus! {

/// The view of an optional file name.
pub open spec fn name_view(n: Option<String>) -> Option<Seq<char>> {
    match n {
        Some(s) => Some(s@),
        None => None,
    }
}

/// An editor buffer: an optional associated file name, an undo stack of rope
/// snapshots, a cursor position, and the undo cursor. Snapshots are whole
/// tree values; unedited subtrees are shared between them, not copied.
pub struct Buffer {
    filename: Option<String>,
    undo_stack: Vec<Rope>,
    line: usize,
    offset: usize,
    undooff: usize,
}

impl Buffer {
    /// The file name this buffer is associated with, if any.
    pub closed spec fn spec_filename(&self) -> Option<Seq<char>> {
        name_view(self.filename)
    }

    /// The contents of the undo snapshots, oldest first.
    pub closed spec fn spec_snapshots(&self) -> Seq<Seq<char>> {
        self.undo_stack@.map(|i: int, r: Rope| r@)
    }

    /// A fresh buffer with no snapshots, remembering the given file name.
    /// The caller reads the named file, if any, and installs its contents
    /// with [`Buffer::load_text`].
    pub fn new(filename: Option<String>) -> (b: Buffer)
        ensures
            b.spec_filename() == name_view(filename),
            b.spec_snapshots().len() == 0,
    {
        let b = Buffer { filename, undo_stack: Vec::new(), line: 0, offset: 0, undooff: 0 };
        proof {
            assert(b.spec_snapshots() =~= Seq::<Seq<char>>::empty());
        }
        b
    }

    /// Install freshly read file contents: one snapshot holding the whole
    /// text replaces the stack, the undo cursor rewinds, and the file name
    /// is remembered.
    pub fn load_text(&mut self, name: String, text: String)
        ensures
            final(self).spec_filename() == Some(name@),
            final(self).spec_snapshots() == seq![text@],
    {
        let mut stack: Vec<Rope> = Vec::new();
        stack.push(Rope::new(text));
        self.undo_stack = stack;
        self.undooff = 0;
        self.filename = Some(name);
        proof {
            assert(self.spec_snapshots() =~= seq![text@]);
        }
    }

    /// The file a reload would read: the associated name, or nothing to
    /// report that the buffer has no file. The caller performs the read and
    /// hands the text back to [`Buffer::load_text`].
    pub fn reload_target(&self) -> (r: Option<String>)
        ensures
            match r {
                Some(n) => self.spec_filename() == Some(n@),
                None => self.spec_filename() is None,
            },
    {
        match &self.filename {
            Some(n) => Some(n.clone()),
            None => None,
        }
    }
}

} // verus!
