//! Trusted wrappers around the tape-archive container. The builder is
//! modelled by the sequence of entries appended to it; serialization and
//! parsing get names, since both are functions of their input alone.

use std::io::Read;
use vstd::prelude::*;
use crate::byteops::{SLASH, DOT, contains_seq};
use crate::entry::{ArchiveEntry, EntryV, entries_view, is_supported_kind, KIND_REGULAR,
    KIND_SYMLINK};
use crate::error::CacheError;
use crate::paths::{is_absolute_path, utf8_of};

verus! {

/// A tape-archive builder writing into memory. The container type cannot
/// be declared to the verifier (its type parameter is bound by an I/O
/// trait), so it lives in a hidden field and is reasoned about only
/// through `tar_builder_entries`.
#[verifier::external_body]
pub struct TarBuilder {
    inner: tar::Builder<Vec<u8>>,
}

/// The entries appended so far to a builder writing into memory.
pub uninterp spec fn tar_builder_entries(b: TarBuilder) -> Seq<EntryV>;

/// The container bytes that serializing a sequence of entries yields,
/// header fields beyond name, kind, size, mode and link target neutralized
/// to zero; a function of the entries alone.
pub uninterp spec fn tar_bytes_of(entries: Seq<EntryV>) -> Seq<u8>;

/// The entries that parsing a byte stream yields, when it is a valid
/// container; a function of the bytes alone.
pub uninterp spec fn tar_parse_of(bytes: Seq<u8>) -> Option<Seq<EntryV>>;

/// No zero byte anywhere: a zero would truncate the header field.
pub open spec fn no_nul(s: Seq<u8>) -> bool {
    forall|i: int| 0 <= i < s.len() ==> s[i] != 0u8
}

/// Every slash-separated component is non-empty and none is `.`: the
/// container's path normalization (which strips `.` components and
/// collapses doubled separators) then stores such text verbatim. A single
/// trailing separator — the directory marker — is allowed and kept.
pub open spec fn clean_components(s: Seq<u8>) -> bool {
    &&& !(s.len() == 1 && s[0] == DOT)
    &&& !(s.len() >= 2 && s[0] == DOT && s[1] == SLASH)
    &&& !(s.len() >= 2 && s[s.len() - 2] == SLASH && s[s.len() - 1] == DOT)
    &&& !contains_seq(s, seq![SLASH, SLASH])
    &&& !contains_seq(s, seq![SLASH, DOT, SLASH])
}

/// Some slash-separated component is `..`; the container refuses to store
/// such a name.
pub open spec fn has_dotdot_component(s: Seq<u8>) -> bool {
    ||| s.len() == 2 && s[0] == DOT && s[1] == DOT
    ||| s.len() >= 3 && s[0] == DOT && s[1] == DOT && s[2] == SLASH
    ||| s.len() >= 3 && s[s.len() - 3] == SLASH && s[s.len() - 2] == DOT && s[s.len() - 1] == DOT
    ||| contains_seq(s, seq![SLASH, DOT, DOT, SLASH])
}

/// An entry whose serialized form parses back unchanged: a non-empty
/// relative name free of zero bytes, of `.` and `..` components and of
/// doubled separators (the container normalizes or refuses those), a
/// supported kind, permission bits that fit the header's octal field, a
/// link target — equally clean — only on symbolic links and a body only
/// on regular files.
pub open spec fn entry_round_trips(e: EntryV) -> bool {
    &&& e.0.len() > 0
    &&& !is_absolute_path(e.0)
    &&& no_nul(e.0)
    &&& clean_components(e.0)
    &&& !has_dotdot_component(e.0)
    &&& is_supported_kind(e.1)
    &&& e.2 <= 0o7777777u32
    &&& (e.1 != KIND_SYMLINK ==> e.3.len() == 0)
    &&& (e.1 == KIND_SYMLINK ==> e.3.len() > 0 && no_nul(e.3) && clean_components(e.3))
    &&& (e.1 != KIND_REGULAR ==> e.4.len() == 0)
}

/// Every entry of the sequence parses back unchanged.
pub open spec fn all_round_trip(es: Seq<EntryV>) -> bool {
    forall|i: int| 0 <= i < es.len() ==> entry_round_trips(#[trigger] es[i])
}

/// Relies on `tar::Builder::new`: a fresh builder holds no entries.
#[verifier::external_body]
pub(crate) fn tar_builder_new() -> (r: TarBuilder)
    ensures
        tar_builder_entries(r) == Seq::<EntryV>::empty(),
{
    TarBuilder { inner: tar::Builder::new(Vec::new()) }
}

/// Relies on `tar::Builder::append_data`: appends one regular-file or
/// directory entry with the given name, kind, permission bits and body,
/// all other header fields (uid, gid, the three timestamps) set to zero.
/// The container refuses any zero byte, and would store a long name's
/// zero-bearing tail blind, so callers screen zero bytes out first (the
/// `requires`). Writing into memory cannot fail, and the library
/// validates the name before it writes, so failure (a name that is
/// empty, absolute or holds a `..` component) leaves the builder
/// untouched, and a clean name is always accepted.
#[verifier::external_body]
pub(crate) fn tar_append_entry(
    b: &mut TarBuilder,
    name: &Vec<u8>,
    kind: u8,
    mode: u32,
    body: &Vec<u8>,
) -> (r: Result<(), CacheError>)
    requires
        no_nul(name@),
    ensures
        r is Ok ==> tar_builder_entries(*final(b)) == tar_builder_entries(*old(b)).push(
            (name@, kind, mode, Seq::<u8>::empty(), body@),
        ),
        r is Err ==> !(utf8_of(name@) is Some && name@.len() > 0 && !is_absolute_path(name@)
            && !has_dotdot_component(name@)),
        r is Ok ==> utf8_of(name@) is Some,
        r is Err && utf8_of(name@) is None ==> (r matches Err(e) && (e matches
            CacheError::InvalidUnicode(n) && n@ == name@)),
        r is Err ==> tar_builder_entries(*final(b)) == tar_builder_entries(*old(b)),
{
    let Ok(s) = std::str::from_utf8(name.as_slice()) else {
        return Err(CacheError::InvalidUnicode(name.clone()));
    };
    let mut h = tar::Header::new_gnu();
    h.set_entry_type(tar::EntryType::new(kind));
    h.set_mode(mode);
    h.set_size(body.len() as u64);
    h.set_uid(0);
    h.set_gid(0);
    h.set_mtime(0);
    h.as_gnu_mut().map(|g| { g.set_atime(0); g.set_ctime(0); });
    b.inner.append_data(&mut h, s, &body[..]).map_err(|e| CacheError::Io(e.to_string()))
}

/// Relies on `tar::Builder::append_link`: appends one symbolic-link entry
/// with the given name, permission bits and verbatim link target, all
/// other header fields set to zero. The container refuses any zero byte
/// and any empty target, and either could strand a long name's extension
/// record mid-stream, so callers screen both out first (the `requires`).
/// Writing into memory cannot fail, and what remains of the name is
/// validated before anything is written, so failure leaves the builder
/// untouched and a clean name is always accepted.
#[verifier::external_body]
pub(crate) fn tar_append_symlink(
    b: &mut TarBuilder,
    name: &Vec<u8>,
    mode: u32,
    link: &Vec<u8>,
) -> (r: Result<(), CacheError>)
    requires
        no_nul(name@),
        no_nul(link@),
        link@.len() > 0,
    ensures
        r is Ok ==> tar_builder_entries(*final(b)) == tar_builder_entries(*old(b)).push(
            (name@, KIND_SYMLINK, mode, link@, Seq::<u8>::empty()),
        ),
        r is Err ==> !(utf8_of(name@) is Some && utf8_of(link@) is Some && name@.len() > 0
            && !is_absolute_path(name@) && !has_dotdot_component(name@)),
        r is Ok ==> utf8_of(name@) is Some && utf8_of(link@) is Some,
        r is Err && utf8_of(name@) is None ==> (r matches Err(e) && (e matches
            CacheError::InvalidUnicode(n) && n@ == name@)),
        r is Err && utf8_of(name@) is Some && utf8_of(link@) is None ==> (r matches Err(e) && (e
            matches CacheError::InvalidUnicode(n) && n@ == link@)),
        r is Err ==> tar_builder_entries(*final(b)) == tar_builder_entries(*old(b)),
{
    let Ok(s) = std::str::from_utf8(name.as_slice()) else {
        return Err(CacheError::InvalidUnicode(name.clone()));
    };
    let Ok(t) = std::str::from_utf8(link.as_slice()) else {
        return Err(CacheError::InvalidUnicode(link.clone()));
    };
    let mut h = tar::Header::new_gnu();
    h.set_entry_type(tar::EntryType::Symlink);
    h.set_mode(mode);
    h.set_size(0);
    h.set_uid(0);
    h.set_gid(0);
    h.set_mtime(0);
    h.as_gnu_mut().map(|g| { g.set_atime(0); g.set_ctime(0); });
    b.inner.append_link(&mut h, s, t).map_err(|e| CacheError::Io(e.to_string()))
}

/// Relies on `tar::Builder::into_inner`: writes the end-of-archive marker
/// and hands back the bytes, which serialize exactly the appended entries;
/// parsing those bytes yields the entries back whenever each of them
/// round-trips through its header. The sink is memory, so finishing
/// always succeeds.
#[verifier::external_body]
pub(crate) fn tar_finish(b: TarBuilder) -> (r: Result<Vec<u8>, CacheError>)
    ensures
        r is Ok,
        r matches Ok(out) ==> out@ == tar_bytes_of(tar_builder_entries(b)) && (all_round_trip(
            tar_builder_entries(b),
        ) ==> tar_parse_of(out@) == Some(tar_builder_entries(b))),
{
    match b.inner.into_inner() {
        Ok(v) => Ok(v),
        Err(e) => Err(CacheError::Io(e.to_string())),
    }
}

/// Relies on `tar::Archive::entries` and `tar::Entry`: reads every entry
/// of the stream in stored order, with its name (long names resolved),
/// kind code, permission bits (zero when the octal field is not numeric,
/// as in link headers some producers leave blank), link target and body.
#[verifier::external_body]
pub(crate) fn tar_parse_all(bytes: &Vec<u8>) -> (r: Result<Vec<ArchiveEntry>, CacheError>)
    ensures
        r matches Ok(es) ==> tar_parse_of(bytes@) == Some(entries_view(es@)),
        r is Err ==> tar_parse_of(bytes@) is None,
{
    let io = |e: std::io::Error| CacheError::Io(e.to_string());
    let mut ar = tar::Archive::new(&bytes[..]);
    let mut out = Vec::new();
    for entry in ar.entries().map_err(io)? {
        let mut entry = entry.map_err(io)?;
        let name = entry.path_bytes().into_owned();
        let kind = entry.header().entry_type().as_byte();
        let mode = entry.header().mode().unwrap_or(0);
        let link = entry.link_name_bytes().map(|b| b.into_owned()).unwrap_or_default();
        let mut body = Vec::new();
        entry.read_to_end(&mut body).map_err(io)?;
        out.push(ArchiveEntry { name, kind, mode, link, body });
    }
    Ok(out)
}

} // verus!
