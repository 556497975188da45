//! Source files and positions, for attributing decoded instructions to the
//! text they came from.

use vstd::prelude::*;

verus! {

/// A position in some source file: byte offset, one-based line and column,
/// and the file it lies in.
#[derive(Clone, Copy, Debug, PartialEq, Eq, Hash, Structural)]
pub struct Position {
    pub offset: u32,
    pub line: u32,
    pub col: u16,
    pub file: FileId,
}

/// The index of a file in a `FileSet`.
#[derive(Clone, Copy, Debug, PartialEq, Eq, Hash, Structural)]
pub struct FileId(pub u16);

/// One source file: its path and its raw text.
#[derive(Debug, PartialEq, Eq)]
pub struct File {
    path: String,
    src: Vec<u8>,
}

impl File {
    pub closed spec fn path_spec(&self) -> Seq<char> {
        self.path@
    }

    pub closed spec fn src_view(&self) -> Seq<u8> {
        self.src@
    }

    pub fn new(path: String, src: Vec<u8>) -> (r: Self)
        ensures
            r.path_spec() == path@,
            r.src_view() == src@,
    {
        File { path, src }
    }

    /// The raw text.
    pub fn src(&self) -> (r: &[u8])
        ensures
            r@ == self.src_view(),
    {
        self.src.as_slice()
    }

    /// The path the file was read from.
    pub fn path(&self) -> (r: &String)
        ensures
            r@ == self.path_spec(),
    {
        &self.path
    }
}

/// The files of one run, indexed by `FileId`.
#[derive(Debug)]
pub struct FileSet {
    files: Vec<File>,
}

/// A position paired with the file it lies in.
#[derive(Debug)]
pub struct FilePosition<'a> {
    pub file: &'a File,
    pub pos: Position,
}

impl FileSet {
    pub closed spec fn view(&self) -> Seq<File> {
        self.files@
    }

    /// An empty set.
    pub fn new() -> (r: Self)
        ensures
            r@ == Seq::<File>::empty(),
    {
        FileSet { files: Vec::new() }
    }

    /// Adds `file`, returning its identifier: the next sequential index.
    pub fn add(&mut self, file: File) -> (r: FileId)
        requires
            old(self)@.len() < u16::MAX,
        ensures
            final(self)@ == old(self)@.push(file),
            r.0 == old(self)@.len(),
    {
        let id = FileId(self.files.len() as u16);
        self.files.push(file);
        id
    }

    /// The file a position lies in, paired with the position.
    pub fn position(&self, pos: Position) -> (r: FilePosition<'_>)
        requires
            pos.file.0 < self@.len(),
        ensures
            *r.file == self@[pos.file.0 as int],
            r.pos == pos,
    {
        FilePosition { file: &self.files[pos.file.0 as usize], pos }
    }
}

} // verus!
