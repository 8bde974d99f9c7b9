//! The archive writer: streams entries into the tape container with fixed,
//! reproducible metadata, and compresses the result. The bytes it emits
//! are a function of the appended entries alone.

use vstd::prelude::*;
use crate::entry::{EntryV, is_supported_kind, KIND_REGULAR, KIND_DIRECTORY, KIND_SYMLINK};
use crate::error::CacheError;
use vstd::string::StringExecFns;
use crate::paths::{AnchoredSystemPathBuf, canonical_for_tar_spec, is_absolute_path, utf8_of};
use crate::tario::{TarBuilder, tar_builder_entries, tar_builder_new, tar_append_entry,
    tar_append_symlink, tar_finish, tar_bytes_of, tar_parse_of, all_round_trip,
    has_dotdot_component, no_nul};
use crate::zstdio::{zstd_compress, zstd_encode_of, zstd_decode_of};

verus! {

/// The permission bits written for an entry: the host's bits where the
/// filesystem provides them, else a fixed synthetic value.
pub open spec fn header_mode_spec(kind: u8, host_mode: Option<u32>) -> u32 {
    match host_mode {
        Some(m) => m,
        None => if kind == KIND_DIRECTORY {
            0o755u32
        } else {
            0o644u32
        },
    }
}

/// The permission bits written for an entry.
pub fn header_mode(kind: u8, host_mode: Option<u32>) -> (r: u32)
    ensures
        r == header_mode_spec(kind, host_mode),
{
    match host_mode {
        Some(m) => m,
        None => if kind == KIND_DIRECTORY {
            0o755
        } else {
            0o644
        },
    }
}

/// The logical entry that `add_entry` appends for the given inputs: the
/// name gains the trailing separator when the entry is a directory, the
/// link target is kept only on symbolic links and the body only on
/// regular files.
pub open spec fn written_entry_spec(
    name: Seq<u8>,
    kind: u8,
    mode: u32,
    link: Seq<u8>,
    body: Seq<u8>,
) -> EntryV {
    (
        canonical_for_tar_spec(name, kind == KIND_DIRECTORY),
        kind,
        mode,
        if kind == KIND_SYMLINK {
            link
        } else {
            Seq::empty()
        },
        if kind == KIND_REGULAR {
            body
        } else {
            Seq::empty()
        },
    )
}

/// An entry the container is sure to accept: relative, with a non-empty
/// stored name in valid UTF-8 that holds no zero byte and no `..`
/// component, of a supported kind, and — for a symbolic link — a
/// non-empty UTF-8 target without zero bytes.
pub open spec fn appendable_entry(name: Seq<u8>, kind: u8, link: Seq<u8>) -> bool {
    let stored = canonical_for_tar_spec(name, kind == KIND_DIRECTORY);
    &&& !is_absolute_path(name)
    &&& is_supported_kind(kind)
    &&& stored.len() > 0
    &&& !is_absolute_path(stored)
    &&& utf8_of(stored) is Some
    &&& no_nul(stored)
    &&& !has_dotdot_component(stored)
    &&& (kind == KIND_SYMLINK ==> utf8_of(link) is Some && no_nul(link) && link.len() > 0)
}

/// Whether the bytes hold a zero byte.
fn contains_nul(v: &Vec<u8>) -> (r: bool)
    ensures
        r == !no_nul(v@),
{
    let mut i: usize = 0;
    while i < v.len()
        invariant
            0 <= i <= v.len(),
            forall|k: int| 0 <= k < i ==> v@[k] != 0u8,
        decreases v.len() - i,
    {
        if v[i] == 0 {
            return true;
        }
        i = i + 1;
    }
    false
}

/// Streams entries into a compressed, byte-stable archive held in memory.
pub struct CacheWriter {
    builder: TarBuilder,
}

impl CacheWriter {
    /// The entries appended so far.
    pub closed spec fn entries(&self) -> Seq<EntryV> {
        tar_builder_entries(self.builder)
    }

    /// A writer with no entries.
    pub fn create() -> (r: Self)
        ensures
            r.entries() == Seq::<EntryV>::empty(),
    {
        CacheWriter { builder: tar_builder_new() }
    }

    /// Appends one entry. `file_path` is the anchored name under which the
    /// entry is stored; `kind` its container code; `link` the target read
    /// from the link for symbolic links; `body` the contents for regular
    /// files. Entries of any other kind are rejected, and nothing is
    /// appended on failure of any step.
    pub fn add_entry(
        &mut self,
        file_path: &AnchoredSystemPathBuf,
        kind: u8,
        mode: u32,
        link: &Vec<u8>,
        body: &Vec<u8>,
    ) -> (r: Result<(), CacheError>)
        ensures
            r is Ok ==> final(self).entries() == old(self).entries().push(
                written_entry_spec(file_path@, kind, mode, link@, body@),
            ),
            r is Ok ==> is_supported_kind(kind) && !is_absolute_path(file_path@),
            is_absolute_path(file_path@) ==> (r matches Err(e) && (e matches
                CacheError::NotRelative(p) && p@ == file_path@)),
            !is_absolute_path(file_path@) && !is_supported_kind(kind) ==> (r matches Err(e) && (e
                matches CacheError::UnsupportedFileType(k) && k == kind)),
            // Failure comes only of an entry the container may refuse, and
            // leaves the archive as it was.
            r is Err ==> !appendable_entry(file_path@, kind, link@),
            r is Err ==> final(self).entries() == old(self).entries(),
            // Inputs the container is certain to refuse are refused here too.
            kind == KIND_SYMLINK && link@.len() == 0 ==> r is Err,
            utf8_of(canonical_for_tar_spec(file_path@, kind == KIND_DIRECTORY)) is None ==> r
                is Err,
            !no_nul(canonical_for_tar_spec(file_path@, kind == KIND_DIRECTORY)) ==> r is Err,
            // A stored name that is not valid UTF-8 is the one failure left
            // once the path is relative and free of zero bytes, the kind
            // supported and a link's target non-empty and zero-free; it
            // reports the offending bytes.
            r is Err && !is_absolute_path(file_path@) && is_supported_kind(kind) && no_nul(
                canonical_for_tar_spec(file_path@, kind == KIND_DIRECTORY),
            ) && (kind != KIND_SYMLINK || (link@.len() > 0 && no_nul(link@))) && utf8_of(
                canonical_for_tar_spec(file_path@, kind == KIND_DIRECTORY),
            ) is None ==> (r matches Err(e) && (e matches CacheError::InvalidUnicode(n) && n@
                == canonical_for_tar_spec(file_path@, kind == KIND_DIRECTORY))),
    {
        let unix = match file_path.to_unix() {
            Ok(u) => u,
            Err(e) => {
                return Err(e);
            },
        };
        let mut stored = crate::paths::AnchoredUnixPathBuf::from_relative(unix);
        stored.make_canonical_for_tar(kind == KIND_DIRECTORY);
        if !(kind == KIND_REGULAR || kind == KIND_DIRECTORY || kind == KIND_SYMLINK) {
            return Err(CacheError::UnsupportedFileType(kind));
        }
        let name = stored.into_inner();
        if contains_nul(&name) {
            // The container refuses zero bytes, and would strand a long
            // name's extension record; its wording is kept.
            return Err(
                CacheError::Io(String::from_str("provided value contains a nul byte")),
            );
        }
        if kind == KIND_SYMLINK {
            if link.len() == 0 {
                // The container would reject an empty target, possibly after
                // a long name's extension record is already out; refuse it
                // up front. (No filesystem can hand the writer one: a link's
                // target on disk is never empty.)
                return Err(CacheError::Io(String::from_str("symbolic link entry without a target")));
            }
            if contains_nul(link) {
                return Err(
                    CacheError::Io(String::from_str("provided value contains a nul byte")),
                );
            }
            tar_append_symlink(&mut self.builder, &name, mode, link)
        } else {
            let empty: Vec<u8> = Vec::new();
            let data: &Vec<u8> = if kind == KIND_REGULAR {
                body
            } else {
                &empty
            };
            let r = tar_append_entry(&mut self.builder, &name, kind, mode, data);
            proof {
                if r is Ok && kind != KIND_REGULAR {
                    assert(empty@ =~= Seq::<u8>::empty());
                }
            }
            r
        }
    }

    /// Closes the container, writing its end marker, and compresses the
    /// stream. The bytes returned are a function of the appended entries
    /// alone — two writers fed equal entries emit equal bytes — and
    /// decompressing and parsing them yields the entries back.
    pub fn finish(self) -> (r: Result<Vec<u8>, CacheError>)
        ensures
            r is Ok,
            r matches Ok(out) ==> out@ == zstd_encode_of(tar_bytes_of(self.entries())),
            r matches Ok(out) ==> zstd_decode_of(out@) == Some(tar_bytes_of(self.entries())),
            r is Ok && all_round_trip(self.entries()) ==> tar_parse_of(
                tar_bytes_of(self.entries()),
            ) == Some(self.entries()),
    {
        let tar_bytes = match tar_finish(self.builder) {
            Ok(v) => v,
            Err(e) => {
                return Err(e);
            },
        };
        zstd_compress(&tar_bytes)
    }
}

} // verus!
