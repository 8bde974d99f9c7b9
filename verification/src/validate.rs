//! Entry-name validation: classifies a stored archive entry name as
//! well-formed (free of the standard traversal tokens) and as safe on
//! hosts that treat the backslash as a separator.

use vstd::prelude::*;
use crate::byteops::{SLASH, DOT, BACKSLASH, match_at, contains_seq, find_sub, seq1, seq2, seq3, seq4};
use crate::error::CacheError;
use crate::paths::AnchoredSystemPathBuf;

verus! {

/// The verdict of `check_name` on one entry name.
pub struct PathValidation {
    /// The name is free of the standard traversal tokens.
    pub well_formed: bool,
    /// The name holds no backslash, so it is safe on hosts where the
    /// backslash is a separator.
    pub windows_safe: bool,
}

/// A name is well-formed when it is non-empty, is not `.` or `..`, does not
/// begin with `/`, `./` or `../`, does not end with `/.` or `/..`, and
/// contains none of `//`, `/./`, `/../`. Dot-runs such as `...` are allowed:
/// only the standard traversal tokens are rejected.
pub open spec fn is_well_formed(name: Seq<u8>) -> bool {
    &&& name.len() > 0
    &&& !(name.len() == 1 && name[0] == DOT)
    &&& !(name.len() == 2 && name[0] == DOT && name[1] == DOT)
    &&& name[0] != SLASH
    &&& !(name.len() >= 2 && name[0] == DOT && name[1] == SLASH)
    &&& !(name.len() >= 3 && name[0] == DOT && name[1] == DOT && name[2] == SLASH)
    &&& !(name.len() >= 2 && name[name.len() - 2] == SLASH && name[name.len() - 1] == DOT)
    &&& !(name.len() >= 3 && name[name.len() - 3] == SLASH && name[name.len() - 2] == DOT
        && name[name.len() - 1] == DOT)
    &&& !contains_seq(name, seq![SLASH, SLASH])
    &&& !contains_seq(name, seq![SLASH, DOT, SLASH])
    &&& !contains_seq(name, seq![SLASH, DOT, DOT, SLASH])
}

/// A name is windows-safe when it is non-empty and holds no backslash.
/// (The empty name is already malformed; it is reported unsafe as well.)
pub open spec fn is_windows_safe(name: Seq<u8>) -> bool {
    name.len() > 0 && !contains_seq(name, seq![BACKSLASH])
}

/// Classifies `name`. The two flags are independent: combining them with
/// knowledge of the host's separator convention is the caller's task.
pub fn check_name(name: &Vec<u8>) -> (r: PathValidation)
    ensures
        r.well_formed == is_well_formed(name@),
        r.windows_safe == is_windows_safe(name@),
{
    let n: usize = name.len();
    if n == 0 {
        return PathValidation { well_formed: false, windows_safe: false };
    }
    let mut well_formed: bool = true;

    // Name is `.` or `..`.
    if n == 1 && name[0] == DOT {
        well_formed = false;
    }
    if n == 2 && name[0] == DOT && name[1] == DOT {
        well_formed = false;
    }

    // Name starts with `/`, `./` or `../`.
    if name[0] == SLASH {
        well_formed = false;
    }
    if n >= 2 && name[0] == DOT && name[1] == SLASH {
        well_formed = false;
    }
    if n >= 3 && name[0] == DOT && name[1] == DOT && name[2] == SLASH {
        well_formed = false;
    }

    // Name ends with `/.` or `/..`.
    if n >= 2 && name[n - 2] == SLASH && name[n - 1] == DOT {
        well_formed = false;
    }
    if n >= 3 && name[n - 3] == SLASH && name[n - 2] == DOT && name[n - 1] == DOT {
        well_formed = false;
    }

    // Name contains `//`, `/./` or `/../`.
    let double_slash = seq2(SLASH, SLASH);
    if find_sub(name, &double_slash) {
        well_formed = false;
    }
    let dot_component = seq3(SLASH, DOT, SLASH);
    if find_sub(name, &dot_component) {
        well_formed = false;
    }
    let dotdot_component = seq4(SLASH, DOT, DOT, SLASH);
    if find_sub(name, &dotdot_component) {
        well_formed = false;
    }

    // Name contains a backslash.
    let backslash = seq1(BACKSLASH);
    let windows_safe = !find_sub(name, &backslash);

    PathValidation { well_formed, windows_safe }
}

/// The canonical form of a well-formed name: the trailing separator, which
/// marks a directory entry in the container, is stripped. (A well-formed
/// name holds no other separator run, so nothing else needs normalizing.)
pub open spec fn canonical_of(name: Seq<u8>) -> Seq<u8> {
    if name.len() > 0 && name[name.len() - 1] == SLASH {
        name.drop_last()
    } else {
        name
    }
}

/// A name in the form canonicalization yields: well-formed, with no
/// trailing separator left.
pub open spec fn is_canonical_name(n: Seq<u8>) -> bool {
    is_well_formed(n) && n[n.len() - 1] != SLASH
}

/// Validates a stored entry name and normalizes it into an anchored system
/// path: rejected names fail with `MalformedName`, accepted ones lose a
/// trailing separator. (On hosts where the backslash is a separator the
/// caller additionally gates on the windows-safe flag of `check_name`;
/// this host does not.)
pub fn canonicalize_name(name: &Vec<u8>) -> (r: Result<AnchoredSystemPathBuf, CacheError>)
    ensures
        r is Ok <==> is_well_formed(name@),
        r matches Ok(p) ==> p@ == canonical_of(name@) && is_canonical_name(p@),
        r matches Err(e) ==> (e matches CacheError::MalformedName(n) && n@ == name@),
{
    let v = check_name(name);
    if !v.well_formed {
        let mut copy: Vec<u8> = Vec::new();
        let mut i: usize = 0;
        while i < name.len()
            invariant
                0 <= i <= name.len(),
                copy@ == name@.subrange(0, i as int),
            decreases name.len() - i,
        {
            copy.push(name[i]);
            assert(copy@ =~= name@.subrange(0, i + 1));
            i = i + 1;
        }
        assert(copy@ =~= name@);
        return Err(CacheError::MalformedName(copy));
    }
    let n: usize = name.len();
    let take: usize = if name[n - 1] == SLASH {
        n - 1
    } else {
        n
    };
    let mut out: Vec<u8> = Vec::new();
    let mut i: usize = 0;
    while i < take
        invariant
            take <= name.len(),
            0 <= i <= take,
            out@ == name@.subrange(0, i as int),
        decreases take - i,
    {
        out.push(name[i]);
        assert(out@ =~= name@.subrange(0, i + 1));
        i = i + 1;
    }
    assert(out@ =~= canonical_of(name@));
    proof {
        lemma_canonicalize_idempotent(name@);
        // The canonical form keeps no trailing separator: stripping one
        // again would change its length.
        let c = canonical_of(name@);
        if c.len() > 0 && c[c.len() - 1] == SLASH {
            assert(canonical_of(c).len() != c.len());
        }
    }
    // A well-formed name does not begin with the separator, and stripping
    // the trailing one cannot create a leading one.
    match AnchoredSystemPathBuf::from_path_buf(out) {
        Ok(p) => Ok(p),
        Err(_) => {
            // Unreachable: the canonical form of a well-formed name is
            // never absolute.
            proof {
                assert(canonical_of(name@).len() > 0 ==> canonical_of(name@)[0] == name@[0]);
            }
            assert(false);
            Err(CacheError::MalformedName(Vec::new()))
        },
    }
}

/// Canonicalization is idempotent: the canonical form of a well-formed
/// name is itself well-formed, and canonicalizing it again changes
/// nothing. Rejected names are rejected unchanged on both passes, so
/// `canonicalize_name(canonicalize_name(x)) == canonicalize_name(x)`
/// wherever the first pass succeeds.
pub proof fn lemma_canonicalize_idempotent(name: Seq<u8>)
    requires
        is_well_formed(name),
    ensures
        is_well_formed(canonical_of(name)),
        canonical_of(canonical_of(name)) == canonical_of(name),
{
    let c = canonical_of(name);
    if name.len() > 0 && name[name.len() - 1] == SLASH {
        // The name ends in a separator that canonicalization strips.
        assert(c =~= name.subrange(0, name.len() - 1));
        assert(c.len() > 0) by {
            // A one-byte name ending in the separator would begin with it.
        }
        // No leading traversal token: `c` is a prefix of `name`.
        assert(c[0] == name[0]);
        // Not `.` or `..`: otherwise `name` would be `./` or `../`.
        // No trailing `/.` or `/..`: otherwise `name` would hold `/./` or
        // `/../`.
        if c.len() >= 2 && c[c.len() - 2] == SLASH && c[c.len() - 1] == DOT {
            assert(match_at(name, seq![SLASH, DOT, SLASH], name.len() - 3));
            assert(contains_seq(name, seq![SLASH, DOT, SLASH]));
        }
        if c.len() >= 3 && c[c.len() - 3] == SLASH && c[c.len() - 2] == DOT && c[c.len() - 1]
            == DOT {
            assert(match_at(name, seq![SLASH, DOT, DOT, SLASH], name.len() - 4));
            assert(contains_seq(name, seq![SLASH, DOT, DOT, SLASH]));
        }
        // No embedded token: every window of `c` is a window of `name`.
        assert(!contains_seq(c, seq![SLASH, SLASH])) by {
            if contains_seq(c, seq![SLASH, SLASH]) {
                let i = choose|i: int| match_at(c, seq![SLASH, SLASH], i);
                assert(match_at(name, seq![SLASH, SLASH], i));
            }
        }
        assert(!contains_seq(c, seq![SLASH, DOT, SLASH])) by {
            if contains_seq(c, seq![SLASH, DOT, SLASH]) {
                let i = choose|i: int| match_at(c, seq![SLASH, DOT, SLASH], i);
                assert(match_at(name, seq![SLASH, DOT, SLASH], i));
            }
        }
        assert(!contains_seq(c, seq![SLASH, DOT, DOT, SLASH])) by {
            if contains_seq(c, seq![SLASH, DOT, DOT, SLASH]) {
                let i = choose|i: int| match_at(c, seq![SLASH, DOT, DOT, SLASH], i);
                assert(match_at(name, seq![SLASH, DOT, DOT, SLASH], i));
            }
        }
        // A well-formed name never ends in `//`, so `c` has no trailing
        // separator and a second canonicalization changes nothing.
        assert(c[c.len() - 1] != SLASH) by {
            if c[c.len() - 1] == SLASH {
                assert(match_at(name, seq![SLASH, SLASH], name.len() - 2));
            }
        }
    } else {
        assert(c == name);
    }
}

} // verus!
