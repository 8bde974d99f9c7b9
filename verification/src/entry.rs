//! The logical model of one archive entry: its stored name (forward-slash
//! separators, directories ending in `/`), its container entry-type code,
//! its permission bits, its link target and its body.

use vstd::prelude::*;

verus! {

/// Container code of a regular file (`0`).
pub const KIND_REGULAR: u8 = 48;

/// Container code of a hard link (`1`).
pub const KIND_HARD_LINK: u8 = 49;

/// Container code of a symbolic link (`2`).
pub const KIND_SYMLINK: u8 = 50;

/// Container code of a character device (`3`).
pub const KIND_CHAR: u8 = 51;

/// Container code of a block device (`4`).
pub const KIND_BLOCK: u8 = 52;

/// Container code of a directory (`5`).
pub const KIND_DIRECTORY: u8 = 53;

/// Container code of a named pipe (`6`).
pub const KIND_FIFO: u8 = 54;

/// The mathematical value of one entry:
/// (name bytes, kind code, permission bits, link-target bytes, body bytes).
pub type EntryV = (Seq<u8>, u8, u32, Seq<u8>, Seq<u8>);

/// One archive entry held in memory. The link target is empty unless the
/// entry is a symbolic link; the body is empty unless it is a regular file.
#[derive(Debug)]
pub struct ArchiveEntry {
    /// The stored name: forward-slash separators, directories end in `/`.
    pub name: Vec<u8>,
    /// The container entry-type code (`KIND_REGULAR`, `KIND_DIRECTORY`, ...).
    pub kind: u8,
    /// POSIX permission bits.
    pub mode: u32,
    /// The link target, verbatim as stored in the header.
    pub link: Vec<u8>,
    /// The file body.
    pub body: Vec<u8>,
}

impl View for ArchiveEntry {
    type V = EntryV;

    open spec fn view(&self) -> EntryV {
        (self.name@, self.kind, self.mode, self.link@, self.body@)
    }
}

/// The kinds this engine supports on both the write and the read side.
pub open spec fn is_supported_kind(kind: u8) -> bool {
    kind == KIND_REGULAR || kind == KIND_DIRECTORY || kind == KIND_SYMLINK
}

/// The mathematical values of a sequence of entries.
pub open spec fn entries_view(s: Seq<ArchiveEntry>) -> Seq<EntryV> {
    s.map_values(|e: ArchiveEntry| e@)
}

} // verus!
