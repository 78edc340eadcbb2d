//! One child of a directory, as the traversal sees it.

use crate::text::bytes_of;
use vstd::prelude::*;

verus! {

/// A directory entry: what a listing reports of one child.
#[derive(Debug)]
pub struct Entry {
    /// The file name as text; bytes that are no text are replaced.
    pub name: String,
    /// Whether the file name was text as it stood, with nothing replaced.
    pub name_is_text: bool,
    /// The full path as text, under which the child is listed in its turn;
    /// bytes that are no text are replaced.
    pub path: String,
    /// The bytes of the full path as the file system holds them, where they
    /// are no text; `None` for a path that is text.
    pub raw_path: Option<Vec<u8>>,
    /// Whether the path leads to a directory.
    pub is_dir: bool,
    /// Whether the entry itself is a symbolic link.
    pub is_symlink: bool,
    /// The size in bytes, where it could be read.
    pub size: Option<u64>,
}

/// The mathematical value of an [`Entry`].
pub struct EntryView {
    pub name: Seq<char>,
    pub name_is_text: bool,
    pub path: Seq<char>,
    pub raw_path: Option<Seq<u8>>,
    pub is_dir: bool,
    pub is_symlink: bool,
    pub size: Option<u64>,
}

impl View for Entry {
    type V = EntryView;

    open spec fn view(&self) -> EntryView {
        EntryView {
            name: self.name@,
            name_is_text: self.name_is_text,
            path: self.path@,
            raw_path: match self.raw_path {
                Some(raw) => Some(raw@),
                None => None,
            },
            is_dir: self.is_dir,
            is_symlink: self.is_symlink,
            size: self.size,
        }
    }
}

/// The bytes by which siblings are ordered: those of the full path as the
/// file system holds them, which for a path that is text are its encoding.
pub open spec fn sort_key(e: EntryView) -> Seq<u8> {
    match e.raw_path {
        Some(raw) => raw,
        None => bytes_of(e.path),
    }
}

/// The values of a sequence of entries, in order.
pub open spec fn views(entries: Seq<Entry>) -> Seq<EntryView> {
    entries.map_values(|e: Entry| e@)
}

/// A copy of the bytes.
fn copy_bytes(bytes: &Vec<u8>) -> (out: Vec<u8>)
    ensures
        out@ == bytes@,
{
    let mut out: Vec<u8> = Vec::new();
    let mut i: usize = 0;
    while i < bytes.len()
        invariant
            i <= bytes.len(),
            out@ == bytes@.take(i as int),
        decreases bytes.len() - i,
    {
        out.push(bytes[i]);
        assert(bytes@.take(i + 1) =~= bytes@.take(i as int).push(bytes@[i as int]));
        i += 1;
    }
    assert(bytes@.take(i as int) =~= bytes@);
    out
}

impl Entry {
    /// An entry with the given fields, whose path is text.
    pub fn new(
        name: String,
        name_is_text: bool,
        path: String,
        is_dir: bool,
        is_symlink: bool,
        size: Option<u64>,
    ) -> (e: Entry)
        ensures
            e@ == (EntryView {
                name: name@,
                name_is_text,
                path: path@,
                raw_path: None,
                is_dir,
                is_symlink,
                size,
            }),
    {
        Entry { name, name_is_text, path, raw_path: None, is_dir, is_symlink, size }
    }

    /// The same entry with `raw` as the bytes of its path, for a path that is
    /// no text.
    pub fn with_raw_path(self, raw: Vec<u8>) -> (e: Entry)
        ensures
            e@ == (EntryView { raw_path: Some(raw@), ..self@ }),
    {
        Entry {
            name: self.name,
            name_is_text: self.name_is_text,
            path: self.path,
            raw_path: Some(raw),
            is_dir: self.is_dir,
            is_symlink: self.is_symlink,
            size: self.size,
        }
    }

    /// The bytes by which the entry is ordered among its siblings.
    pub fn key(&self) -> (k: &[u8])
        ensures
            k@ == sort_key(self@),
    {
        match &self.raw_path {
            Some(raw) => raw.as_slice(),
            None => self.path.as_str().as_bytes(),
        }
    }

    /// A copy with the same value.
    pub fn duplicate(&self) -> (e: Entry)
        ensures
            e@ == self@,
    {
        Entry {
            name: self.name.clone(),
            name_is_text: self.name_is_text,
            path: self.path.clone(),
            raw_path: match &self.raw_path {
                Some(raw) => Some(copy_bytes(raw)),
                None => None,
            },
            is_dir: self.is_dir,
            is_symlink: self.is_symlink,
            size: self.size,
        }
    }
}

} // verus!
