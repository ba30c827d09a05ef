//! The node tree: one entry per filesystem object, directories owning an
//! ordered list of children. The tree is fully materialized before any
//! traversal starts and is never mutated by the engine.

use vstd::prelude::*;

verus! {

/// The kind of one tree entry: a regular file, a symlink, or a directory
/// owning an ordered sequence of child entries. Child order is fixed at
/// construction time and is the ordering basis for every traversal.
#[derive(Debug, PartialEq, Eq)]
pub enum FileType {
    Regular,
    Symlink,
    Directory(Vec<File>),
}

/// One entry of the tree. `path` is the full path from the traversal anchor
/// to this entry, precomputed at construction time; the engine only ever
/// reads it back.
#[derive(Debug, PartialEq, Eq)]
pub struct File {
    pub name: String,
    pub path: String,
    pub file_type: FileType,
}

/// Number of entries in the tree rooted at `f`, the root included.
pub open spec fn size(f: File) -> nat
    decreases f,
{
    match f.file_type {
        FileType::Directory(cs) => 1 + size_all(cs@),
        _ => 1,
    }
}

/// Sum of the sizes of the trees rooted at the entries of `s`.
pub open spec fn size_all(s: Seq<File>) -> nat
    decreases s,
{
    if s.len() == 0 {
        0
    } else {
        size(s.first()) + size_all(s.drop_first())
    }
}

/// Height of the tree rooted at `f`: the largest edge-distance from `f` to
/// any of its descendants. A leaf has height 0.
pub open spec fn height(f: File) -> nat
    decreases f,
{
    match f.file_type {
        FileType::Directory(cs) => 1 + height_all(cs@),
        _ => 0,
    }
}

/// Largest height among the entries of `s`, or 0 if `s` is empty.
pub open spec fn height_all(s: Seq<File>) -> nat
    decreases s,
{
    if s.len() == 0 {
        0
    } else if height(s.first()) >= height_all(s.drop_first()) {
        height(s.first())
    } else {
        height_all(s.drop_first())
    }
}

/// Every child of a directory is strictly lower than the directory itself.
pub proof fn lemma_child_height(s: Seq<File>, i: int)
    requires
        0 <= i < s.len(),
    ensures
        height(s[i]) <= height_all(s),
    decreases s.len(),
{
    if i > 0 {
        lemma_child_height(s.drop_first(), i - 1);
        assert(s.drop_first()[i - 1] == s[i]);
    }
}

impl FileType {
    /// Whether this kind is `Directory`.
    pub fn is_dir(&self) -> (r: bool)
        ensures
            r == (self is Directory),
    {
        matches!(self, FileType::Directory(_))
    }

    /// Whether this kind is `Regular`.
    pub fn is_regular(&self) -> (r: bool)
        ensures
            r == (self is Regular),
    {
        matches!(self, FileType::Regular)
    }

    /// Whether this kind is `Symlink`.
    pub fn is_symlink(&self) -> (r: bool)
        ensures
            r == (self is Symlink),
    {
        matches!(self, FileType::Symlink)
    }

    /// The ordered children of a directory, or `None` for the other kinds.
    pub fn children(&self) -> (r: Option<&Vec<File>>)
        ensures
            match r {
                Some(v) => self is Directory && v@ == self->0@,
                None => !(self is Directory),
            },
    {
        match self {
            FileType::Directory(cs) => Some(cs),
            _ => None,
        }
    }
}

impl File {
    /// Builds one entry; its `path` starts out as its own name, as befits a
    /// tree anchored at this entry.
    pub fn new(name: &str, file_type: FileType) -> (r: File)
        ensures
            r.name@ == name@,
            r.path@ == name@,
            r.file_type == file_type,
    {
        File { name: name.to_owned(), path: name.to_owned(), file_type }
    }
}

} // verus!
