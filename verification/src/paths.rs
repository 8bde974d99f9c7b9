//! The distinct path kinds of the engine. All of them carry raw bytes; on
//! this host the native separator is the forward slash.
//!
//! - `AbsoluteSystemPathBuf`: an absolute host path (the anchor, link
//!   targets after canonicalization).
//! - `AnchoredSystemPathBuf`: a relative host path, interpreted only
//!   against an anchor.
//! - `RelativeUnixPathBuf`: a relative forward-slash path, the on-wire
//!   form of entry names.
//! - `AnchoredUnixPathBuf`: a relative forward-slash path whose directory
//!   form ends in `/`, as stored in archive headers.

use vstd::prelude::*;
use crate::byteops::{SLASH, bytes_clone, bytes_extend, bytes_eq};
use crate::error::CacheError;

verus! {

/// A byte path is absolute when it begins with the separator.
pub open spec fn is_absolute_path(s: Seq<u8>) -> bool {
    s.len() > 0 && s[0] == SLASH
}

/// What pushing `p` onto `base` yields: an absolute `p` replaces `base`;
/// otherwise `p` is appended behind a separator (which is all that happens
/// when `p` is empty, and nothing happens then if one is already there).
pub open spec fn push_spec(base: Seq<u8>, p: Seq<u8>) -> Seq<u8> {
    if is_absolute_path(p) {
        p
    } else if base.len() == 0 {
        p
    } else if base[base.len() - 1] == SLASH {
        base + p
    } else {
        base + seq![SLASH] + p
    }
}

/// Appends `p` to `base` as `push_spec` says.
fn push_bytes(base: &mut Vec<u8>, p: &Vec<u8>)
    ensures
        final(base)@ == push_spec(old(base)@, p@),
{
    if p.len() > 0 && p[0] == SLASH {
        let mut replaced = bytes_clone(p);
        base.clear();
        bytes_extend(base, &replaced);
        assert(base@ =~= p@);
    } else if base.len() == 0 {
        bytes_extend(base, p);
        assert(base@ =~= p@);
    } else {
        if base[base.len() - 1] != SLASH {
            base.push(SLASH);
            assert(base@ =~= old(base)@ + seq![SLASH]);
        }
        bytes_extend(base, p);
    }
}

/// An absolute path in the host's separator convention.
#[derive(Debug)]
pub struct AbsoluteSystemPathBuf {
    bytes: Vec<u8>,
}

impl View for AbsoluteSystemPathBuf {
    type V = Seq<u8>;

    closed spec fn view(&self) -> Seq<u8> {
        self.bytes@
    }
}

impl AbsoluteSystemPathBuf {
    /// Wraps `path`, rejecting anything that is not absolute.
    pub fn new(path: Vec<u8>) -> (r: Result<Self, CacheError>)
        ensures
            r is Ok <==> is_absolute_path(path@),
            r matches Ok(p) ==> p@ == path@,
            r matches Err(e) ==> (e matches CacheError::NotAbsolute(p) && p@ == path@),
    {
        if path.len() > 0 && path[0] == SLASH {
            Ok(AbsoluteSystemPathBuf { bytes: path })
        } else {
            Err(CacheError::NotAbsolute(path))
        }
    }

    /// Wraps bytes already known to be absolute.
    pub(crate) fn from_raw(bytes: Vec<u8>) -> (r: Self)
        requires
            is_absolute_path(bytes@),
        ensures
            r@ == bytes@,
    {
        AbsoluteSystemPathBuf { bytes }
    }

    /// The raw bytes of this path.
    pub fn as_path(&self) -> (r: &Vec<u8>)
        ensures
            r@ == self@,
    {
        &self.bytes
    }

    /// A copy of this path.
    pub fn to_owned(&self) -> (r: AbsoluteSystemPathBuf)
        ensures
            r@ == self@,
    {
        AbsoluteSystemPathBuf { bytes: bytes_clone(&self.bytes) }
    }

    /// This path as text. Fails when the bytes are not valid UTF-8.
    pub fn to_str(&self) -> (r: Result<String, CacheError>)
        ensures
            r matches Ok(s) ==> utf8_of(self@) == Some(s@),
            r is Err <==> utf8_of(self@) is None,
            r matches Err(e) ==> (e matches CacheError::InvalidUnicode(p) && p@ == self@),
    {
        match utf8_string(&self.bytes) {
            Some(s) => Ok(s),
            None => Err(CacheError::InvalidUnicode(bytes_clone(&self.bytes))),
        }
    }

    /// The absolute path of `path` interpreted against this path.
    pub fn resolve(&self, path: &AnchoredSystemPathBuf) -> (r: AbsoluteSystemPathBuf)
        ensures
            r@ == push_spec(self@, path@),
    {
        let mut bytes = bytes_clone(&self.bytes);
        push_bytes(&mut bytes, path.as_path());
        AbsoluteSystemPathBuf { bytes }
    }
}

/// A relative path in the host's separator convention, interpreted only
/// against an absolute anchor.
#[derive(Debug)]
pub struct AnchoredSystemPathBuf {
    bytes: Vec<u8>,
}

impl View for AnchoredSystemPathBuf {
    type V = Seq<u8>;

    closed spec fn view(&self) -> Seq<u8> {
        self.bytes@
    }
}

impl AnchoredSystemPathBuf {
    /// Wraps `path`, rejecting anything absolute.
    pub fn from_path_buf(path: Vec<u8>) -> (r: Result<Self, CacheError>)
        ensures
            r is Ok <==> !is_absolute_path(path@),
            r matches Ok(p) ==> p@ == path@,
            r matches Err(e) ==> (e matches CacheError::NotRelative(p) && p@ == path@),
    {
        if path.len() > 0 && path[0] == SLASH {
            Err(CacheError::NotRelative(path))
        } else {
            Ok(AnchoredSystemPathBuf { bytes: path })
        }
    }

    /// The path of `path` relative to `root`: the remainder behind the
    /// prefix `root` followed by a separator, or empty when the two are
    /// equal. Fails when `path` does not lie under `root`.
    pub fn new(root: &AbsoluteSystemPathBuf, path: &AbsoluteSystemPathBuf) -> (r: Result<
        Self,
        CacheError,
    >)
        ensures
            r matches Ok(p) ==> p@ == strip_prefix_spec(root@, path@).unwrap(),
            r is Ok <==> strip_prefix_spec(root@, path@) is Some,
            r matches Err(e) ==> (e matches CacheError::NotParent(a, b) && a@ == root@ && b@
                == path@),
    {
        let rb = root.as_path();
        let pb = path.as_path();
        if bytes_eq(rb, pb) {
            let empty: Vec<u8> = Vec::new();
            return Ok(AnchoredSystemPathBuf { bytes: empty });
        }
        // The prefix to strip: root, with exactly one separator behind it.
        let mut prefix = bytes_clone(rb);
        if prefix.len() == 0 || prefix[prefix.len() - 1] != SLASH {
            prefix.push(SLASH);
        }
        if pb.len() >= prefix.len() {
            let mut i: usize = 0;
            let mut matches: bool = true;
            while i < prefix.len()
                invariant
                    prefix.len() <= pb.len(),
                    0 <= i <= prefix.len(),
                    matches == (forall|k: int| 0 <= k < i ==> pb@[k] == prefix@[k]),
                decreases prefix.len() - i,
            {
                if pb[i] != prefix[i] {
                    matches = false;
                    i = prefix.len();
                } else {
                    i = i + 1;
                }
            }
            if matches {
                let mut rest: Vec<u8> = Vec::new();
                let mut j: usize = prefix.len();
                while j < pb.len()
                    invariant
                        prefix.len() <= j <= pb.len(),
                        rest@ == pb@.subrange(prefix.len() as int, j as int),
                    decreases pb.len() - j,
                {
                    rest.push(pb[j]);
                    assert(rest@ =~= pb@.subrange(prefix.len() as int, j + 1));
                    j = j + 1;
                }
                assert(pb@.subrange(prefix.len() as int, pb@.len() as int) =~= rest@);
                return Ok(AnchoredSystemPathBuf { bytes: rest });
            }
        }
        Err(CacheError::NotParent(bytes_clone(rb), bytes_clone(pb)))
    }

    /// The raw bytes of this path.
    pub fn as_path(&self) -> (r: &Vec<u8>)
        ensures
            r@ == self@,
    {
        &self.bytes
    }

    /// A copy of this path.
    pub fn to_owned(&self) -> (r: AnchoredSystemPathBuf)
        ensures
            r@ == self@,
    {
        AnchoredSystemPathBuf { bytes: bytes_clone(&self.bytes) }
    }

    /// Appends `path`, with the host's pushing semantics: a separator is
    /// added when one is missing, and an absolute `path` replaces this one.
    pub fn push(&mut self, path: &Vec<u8>)
        ensures
            final(self)@ == push_spec(old(self)@, path@),
    {
        push_bytes(&mut self.bytes, path);
    }

    /// This path as text. Fails when the bytes are not valid UTF-8.
    pub fn to_str(&self) -> (r: Result<String, CacheError>)
        ensures
            r matches Ok(s) ==> utf8_of(self@) == Some(s@),
            r is Err <==> utf8_of(self@) is None,
            r matches Err(e) ==> (e matches CacheError::InvalidUnicode(p) && p@ == self@),
    {
        match utf8_string(&self.bytes) {
            Some(s) => Ok(s),
            None => Err(CacheError::InvalidUnicode(bytes_clone(&self.bytes))),
        }
    }

    /// This path in the on-wire forward-slash form. On this host the bytes
    /// are identical; the conversion only fails if this path has been
    /// pushed into an absolute one.
    pub fn to_unix(&self) -> (r: Result<RelativeUnixPathBuf, CacheError>)
        ensures
            r is Ok <==> !is_absolute_path(self@),
            r matches Ok(p) ==> p@ == self@,
            r matches Err(e) ==> (e matches CacheError::NotRelative(p) && p@ == self@),
    {
        RelativeUnixPathBuf::new(bytes_clone(&self.bytes))
    }
}

/// What the strict UTF-8 decoding of a byte sequence reads as, when the
/// bytes are valid UTF-8; the result depends on the bytes alone.
pub uninterp spec fn utf8_of(bytes: Seq<u8>) -> Option<Seq<char>>;

/// Relies on `str::from_utf8`: decodes UTF-8 exactly, failing on invalid
/// sequences; a pure function of the bytes.
#[verifier::external_body]
fn utf8_string(bytes: &Vec<u8>) -> (r: Option<String>)
    ensures
        (match r {
            Some(s) => utf8_of(bytes@) == Some(s@),
            None => utf8_of(bytes@) is None,
        }),
{
    match std::str::from_utf8(bytes.as_slice()) {
        Ok(s) => Some(s.to_string()),
        Err(_) => None,
    }
}

/// A relative path encoded with forward-slash separators, the on-wire form
/// of entry names.
#[derive(Debug)]
pub struct RelativeUnixPathBuf {
    bytes: Vec<u8>,
}

impl View for RelativeUnixPathBuf {
    type V = Seq<u8>;

    closed spec fn view(&self) -> Seq<u8> {
        self.bytes@
    }
}

impl RelativeUnixPathBuf {
    /// Wraps `path`, rejecting anything absolute.
    pub fn new(path: Vec<u8>) -> (r: Result<Self, CacheError>)
        ensures
            r is Ok <==> !is_absolute_path(path@),
            r matches Ok(p) ==> p@ == path@,
            r matches Err(e) ==> (e matches CacheError::NotRelative(p) && p@ == path@),
    {
        if path.len() > 0 && path[0] == SLASH {
            Err(CacheError::NotRelative(path))
        } else {
            Ok(RelativeUnixPathBuf { bytes: path })
        }
    }

    /// The raw bytes of this path.
    pub fn into_inner(self) -> (r: Vec<u8>)
        ensures
            r@ == self@,
    {
        self.bytes
    }
}

/// What appending the directory marker yields: a trailing `/` is added for
/// directories when one is missing.
pub open spec fn canonical_for_tar_spec(s: Seq<u8>, is_dir: bool) -> Seq<u8> {
    if is_dir && !(s.len() > 0 && s[s.len() - 1] == SLASH) {
        s + seq![SLASH]
    } else {
        s
    }
}

/// An anchored forward-slash path as stored in archive headers, where
/// directory entries end in `/`.
#[derive(Debug)]
pub struct AnchoredUnixPathBuf {
    bytes: Vec<u8>,
}

impl View for AnchoredUnixPathBuf {
    type V = Seq<u8>;

    closed spec fn view(&self) -> Seq<u8> {
        self.bytes@
    }
}

impl AnchoredUnixPathBuf {
    /// Wraps an already-relative forward-slash path.
    pub fn from_relative(path: RelativeUnixPathBuf) -> (r: Self)
        ensures
            r@ == path@,
    {
        AnchoredUnixPathBuf { bytes: path.into_inner() }
    }

    /// The raw bytes of this path.
    pub fn into_inner(self) -> (r: Vec<u8>)
        ensures
            r@ == self@,
    {
        self.bytes
    }

    /// Adds the trailing `/` that marks a directory entry in the container.
    /// A second application changes nothing.
    pub fn make_canonical_for_tar(&mut self, is_dir: bool)
        ensures
            final(self)@ == canonical_for_tar_spec(old(self)@, is_dir),
    {
        if is_dir {
            let n = self.bytes.len();
            if n == 0 || self.bytes[n - 1] != SLASH {
                self.bytes.push(SLASH);
                assert(self.bytes@ =~= old(self)@ + seq![SLASH]);
            }
        }
    }

    /// This path as text. Fails when the bytes are not valid UTF-8.
    pub fn as_str(&self) -> (r: Result<String, CacheError>)
        ensures
            r matches Ok(s) ==> utf8_of(self@) == Some(s@),
            r is Err <==> utf8_of(self@) is None,
            r matches Err(e) ==> (e matches CacheError::InvalidUnicode(p) && p@ == self@),
    {
        match utf8_string(&self.bytes) {
            Some(s) => Ok(s),
            None => Err(CacheError::InvalidUnicode(bytes_clone(&self.bytes))),
        }
    }
}

/// What stripping `root` (plus one separator) off `path` leaves.
pub open spec fn strip_prefix_spec(root: Seq<u8>, path: Seq<u8>) -> Option<Seq<u8>> {
    if path == root {
        Some(Seq::empty())
    } else {
        let prefix = if root.len() > 0 && root[root.len() - 1] == SLASH {
            root
        } else {
            root + seq![SLASH]
        };
        if path.len() >= prefix.len() && (forall|k: int|
            0 <= k < prefix.len() ==> path[k] == prefix[k]) {
            Some(path.subrange(prefix.len() as int, path.len() as int))
        } else {
            None
        }
    }
}

} // verus!
