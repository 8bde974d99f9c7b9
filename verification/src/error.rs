//! The error kinds of the archive engine, with stable message strings.

use vstd::prelude::*;
use vstd::string::StringExecFns;
use crate::entry::{KIND_REGULAR, KIND_HARD_LINK, KIND_SYMLINK, KIND_CHAR, KIND_BLOCK,
    KIND_DIRECTORY, KIND_FIFO};

verus! {

/// Everything that can go wrong while packing or restoring an archive.
#[derive(Debug, Clone)]
pub enum CacheError {
    /// An underlying stream or filesystem error, by its message.
    Io(String),
    /// An entry name failed well-formedness validation.
    MalformedName(Vec<u8>),
    /// An entry name holds a backslash and the host treats it as a separator.
    WindowsUnsafeName(Vec<u8>),
    /// An entry kind outside regular file, directory and symbolic link.
    UnsupportedFileType(u8),
    /// A symbolic link (source, target) whose target is currently absent;
    /// recovered by deferral inside the restore loop, never shown to callers.
    LinkTargetDoesNotExist(Vec<u8>, Vec<u8>),
    /// A symbolic link whose target escapes the anchor subtree.
    LinkOutsideOfDirectory(Vec<u8>),
    /// The deferred symbolic links form a cycle.
    CycleDetected,
    /// A path that must be encoded as text holds invalid UTF-8.
    InvalidUnicode(Vec<u8>),
    /// A path that must be relative is absolute.
    NotRelative(Vec<u8>),
    /// A path that must be absolute is relative.
    NotAbsolute(Vec<u8>),
    /// A path (second) that does not lie under a root (first).
    NotParent(Vec<u8>, Vec<u8>),
}

/// What the lossy UTF-8 decoding of a byte sequence reads as; the result
/// depends on the bytes alone.
pub uninterp spec fn utf8_lossy_of(bytes: Seq<u8>) -> Seq<char>;

/// Relies on `String::from_utf8_lossy`: decodes UTF-8, substituting the
/// replacement character for invalid sequences; a pure function of the bytes.
#[verifier::external_body]
fn lossy_string(bytes: &Vec<u8>) -> (r: String)
    ensures
        r@ == utf8_lossy_of(bytes@),
{
    String::from_utf8_lossy(bytes.as_slice()).into_owned()
}

/// The display name of a container entry-type code.
pub open spec fn kind_name_spec(kind: u8) -> Seq<char> {
    if kind == KIND_REGULAR {
        "Regular"@
    } else if kind == KIND_HARD_LINK {
        "Link"@
    } else if kind == KIND_SYMLINK {
        "Symlink"@
    } else if kind == KIND_CHAR {
        "Char"@
    } else if kind == KIND_BLOCK {
        "Block"@
    } else if kind == KIND_DIRECTORY {
        "Directory"@
    } else if kind == KIND_FIFO {
        "Fifo"@
    } else {
        "unknown"@
    }
}

/// The display name of a container entry-type code.
pub fn kind_name(kind: u8) -> (r: &'static str)
    ensures
        r@ == kind_name_spec(kind),
{
    if kind == KIND_REGULAR {
        "Regular"
    } else if kind == KIND_HARD_LINK {
        "Link"
    } else if kind == KIND_SYMLINK {
        "Symlink"
    } else if kind == KIND_CHAR {
        "Char"
    } else if kind == KIND_BLOCK {
        "Block"
    } else if kind == KIND_DIRECTORY {
        "Directory"
    } else if kind == KIND_FIFO {
        "Fifo"
    } else {
        "unknown"
    }
}

/// The stable message of each error kind.
pub open spec fn message_spec(e: CacheError) -> Seq<char> {
    match e {
        CacheError::Io(m) => "IO error: "@ + m@,
        CacheError::MalformedName(n) => "file name is malformed: "@ + utf8_lossy_of(n@),
        CacheError::WindowsUnsafeName(_) => "file name is not Windows-safe"@,
        CacheError::UnsupportedFileType(k) => "attempted to restore unsupported file type: "@
            + kind_name_spec(k),
        CacheError::LinkTargetDoesNotExist(_, t) => "link target does not exist: "@
            + utf8_lossy_of(t@),
        CacheError::LinkOutsideOfDirectory(t) => "tar attempts to write outside of directory: "@
            + utf8_lossy_of(t@),
        CacheError::CycleDetected => "links in the cache are cyclic"@,
        CacheError::InvalidUnicode(p) => "path is not valid UTF-8: "@ + utf8_lossy_of(p@),
        CacheError::NotRelative(p) => "path is not relative: "@ + utf8_lossy_of(p@),
        CacheError::NotAbsolute(p) => "path is not absolute: "@ + utf8_lossy_of(p@),
        CacheError::NotParent(r, p) => "path "@ + utf8_lossy_of(p@) + " is not under "@
            + utf8_lossy_of(r@),
    }
}

impl CacheError {
    /// The stable, user-visible message of this error.
    pub fn message(&self) -> (r: String)
        ensures
            r@ == message_spec(*self),
    {
        match self {
            CacheError::Io(m) => String::from_str("IO error: ").concat(m.as_str()),
            CacheError::MalformedName(n) => String::from_str("file name is malformed: ").concat(
                lossy_string(n).as_str(),
            ),
            CacheError::WindowsUnsafeName(_) => String::from_str("file name is not Windows-safe"),
            CacheError::UnsupportedFileType(k) => String::from_str(
                "attempted to restore unsupported file type: ",
            ).concat(kind_name(*k)),
            CacheError::LinkTargetDoesNotExist(_, t) => String::from_str(
                "link target does not exist: ",
            ).concat(lossy_string(t).as_str()),
            CacheError::LinkOutsideOfDirectory(t) => String::from_str(
                "tar attempts to write outside of directory: ",
            ).concat(lossy_string(t).as_str()),
            CacheError::CycleDetected => String::from_str("links in the cache are cyclic"),
            CacheError::InvalidUnicode(p) => String::from_str("path is not valid UTF-8: ").concat(
                lossy_string(p).as_str(),
            ),
            CacheError::NotRelative(p) => String::from_str("path is not relative: ").concat(
                lossy_string(p).as_str(),
            ),
            CacheError::NotAbsolute(p) => String::from_str("path is not absolute: ").concat(
                lossy_string(p).as_str(),
            ),
            CacheError::NotParent(r, p) => String::from_str("path ").concat(
                lossy_string(p).as_str(),
            ).concat(" is not under ").concat(lossy_string(r).as_str()),
        }
    }
}

} // verus!
