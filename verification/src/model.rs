//! The shared binary layout: the metadata table and data blob that the
//! generator emits and the runtime consumes.
//!
//! One snapshot is an [`ErfsRoot`]: a table of [`Entry`] records ordered by
//! handle (the root directory is always handle 0), plus one contiguous blob
//! holding every file payload back-to-back. The table is flat and
//! pointer-free: directories refer to their children by handle, files refer
//! to their payload by an (offset, stored length) pair into the blob.

use vstd::prelude::*;

use crate::bytes::lex_lt;
use crate::zlib::decode_of;

verus! {

/// Flag bit marking a directory entry.
pub const FLAG_DIR: u32 = 1;

/// Flag bit marking a file entry whose stored payload is compressed.
pub const FLAG_COMPRESSED: u32 = 2;

/// Generation option: try to compress each file.
pub const OPT_COMPRESS: u32 = 2;

/// Generation option: emit auxiliary bindings for the target artifact.
/// It affects only how an artifact is emitted, never its table or blob.
pub const OPT_AUX_BINDINGS: u32 = 4;

/// The byte value of `/`, the path separator; it may not occur in names.
pub const SEP: u8 = 47;

/// Handle of one entry within one snapshot: its index in the metadata table.
/// Handles are assigned in one generation pass and are meaningless across
/// different snapshots.
#[derive(Clone, Copy, PartialEq, Eq, Structural, Debug)]
pub struct ErfsHandle {
    pub idx: u32,
}

/// Handle of the root directory of every snapshot.
pub const ROOT_HANDLE: u32 = 0;

/// The error kinds that runtime operations report. Every error is local to
/// the call that raised it; the table and blob are never altered.
#[derive(Clone, Copy, PartialEq, Eq, Structural, Debug)]
pub enum FsError {
    /// No entry with the given name exists in the directory walked through.
    NotFound,
    /// A non-final path segment, or the entry handed to `read_dir`, is a file.
    NotADirectory,
    /// The entry to be read as a file is a directory.
    IsADirectory,
    /// The child index is not below the directory's child count.
    OutOfRange,
    /// The handle does not name an entry of this snapshot's table.
    InvalidHandle,
    /// A stored payload does not decode to the recorded logical size.
    CorruptData,
}

/// One row of the metadata table.
#[derive(PartialEq, Eq, Debug)]
pub struct Entry {
    /// `FLAG_DIR` for a directory, `FLAG_COMPRESSED` for a compressed file,
    /// `0` for a file stored raw.
    pub flags: u32,
    /// The entry's name: unique among its siblings, never holding `/`.
    /// The root directory's name is empty.
    pub name: Vec<u8>,
    /// A file's decompressed (logical) byte length; a directory's child count.
    pub size: u32,
    /// A file's payload start within the blob; `0` for directories.
    pub offset: u32,
    /// A file's stored payload length within the blob; `0` for directories.
    pub stored_len: u32,
    /// A directory's children, sorted by name; empty for files.
    pub children: Vec<u32>,
}

/// One generated snapshot: identifier, metadata table, data blob.
#[derive(PartialEq, Eq, Debug)]
pub struct ErfsRoot {
    /// The identifier the snapshot was generated under, scoping its artifact
    /// so several snapshots can be linked into one program.
    pub id: Vec<u8>,
    /// The metadata table, indexed by handle in pre-order.
    pub entries: Vec<Entry>,
    /// All file payloads, back-to-back.
    pub blob: Vec<u8>,
}

/// Mathematical model of one table row.
pub struct SpecEntry {
    pub is_dir: bool,
    pub compressed: bool,
    pub name: Seq<u8>,
    pub size: int,
    pub offset: int,
    pub stored_len: int,
    pub children: Seq<int>,
}

/// Mathematical model of one snapshot.
pub struct SpecFs {
    pub id: Seq<u8>,
    pub entries: Seq<SpecEntry>,
    pub blob: Seq<u8>,
}

impl View for Entry {
    type V = SpecEntry;

    open spec fn view(&self) -> SpecEntry {
        SpecEntry {
            is_dir: self.flags == FLAG_DIR,
            compressed: self.flags == FLAG_COMPRESSED,
            name: self.name@,
            size: self.size as int,
            offset: self.offset as int,
            stored_len: self.stored_len as int,
            children: Seq::new(self.children@.len(), |j: int| self.children@[j] as int),
        }
    }
}

/// The models of a sequence of table rows, in order.
pub open spec fn entries_view(s: Seq<Entry>) -> Seq<SpecEntry> {
    Seq::new(s.len(), |i: int| s[i]@)
}

impl View for ErfsRoot {
    type V = SpecFs;

    open spec fn view(&self) -> SpecFs {
        SpecFs { id: self.id@, entries: entries_view(self.entries@), blob: self.blob@ }
    }
}

/// A usable entry name: non-empty and free of the path separator.
pub open spec fn valid_name(name: Seq<u8>) -> bool {
    &&& name.len() > 0
    &&& forall|i: int| 0 <= i < name.len() ==> name[i] != SEP
}

impl SpecFs {
    /// The stored (possibly compressed) payload bytes of the file at `i`.
    pub open spec fn stored_bytes(self, i: int) -> Seq<u8> {
        let e = self.entries[i];
        self.blob.subrange(e.offset, e.offset + e.stored_len)
    }

    /// The logical content of the file at `i`: the stored bytes themselves,
    /// or their decoding when the entry is compressed; `None` when the stored
    /// form does not yield exactly `size` bytes.
    pub open spec fn entry_content(self, i: int) -> Option<Seq<u8>> {
        let e = self.entries[i];
        if e.compressed {
            match decode_of(self.stored_bytes(i)) {
                Some(d) => if d.len() == e.size {
                    Some(d)
                } else {
                    None
                },
                None => None,
            }
        } else {
            if e.stored_len == e.size {
                Some(self.stored_bytes(i))
            } else {
                None
            }
        }
    }

    /// Local validity of the entry at `i`: indices, sizes and payload windows
    /// in range; a directory's children above it in the table and strictly
    /// sorted by name.
    pub open spec fn entry_ok(self, i: int) -> bool {
        let e = self.entries[i];
        &&& 0 <= e.size <= u32::MAX
        &&& if e.is_dir {
            &&& !e.compressed
            &&& e.offset == 0
            &&& e.stored_len == 0
            &&& e.size == e.children.len()
            &&& forall|j: int| 0 <= j < e.children.len() ==> i < #[trigger] e.children[j]
                < self.entries.len()
            &&& forall|j1: int, j2: int|
                0 <= j1 < j2 < e.children.len() ==> lex_lt(
                    self.entries[#[trigger] e.children[j1]].name,
                    self.entries[#[trigger] e.children[j2]].name,
                )
        } else {
            &&& e.children.len() == 0
            &&& 0 <= e.offset
            &&& 0 <= e.stored_len
            &&& e.offset + e.stored_len <= self.blob.len()
        }
    }

    /// Well-formedness of a whole snapshot, as generation establishes it and
    /// every runtime operation relies on it.
    pub open spec fn wf(self) -> bool {
        &&& 1 <= self.entries.len() <= u32::MAX
        &&& self.blob.len() <= u32::MAX
        &&& self.entries[0].is_dir
        &&& self.entries[0].name == Seq::<u8>::empty()
        &&& forall|i: int| 0 <= i < self.entries.len() ==> self.entry_ok(i)
        &&& forall|i: int| 1 <= i < self.entries.len() ==> valid_name(
            #[trigger] self.entries[i].name,
        )
    }
}

} // verus!
