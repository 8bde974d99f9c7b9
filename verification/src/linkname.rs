//! Lexical resolution of a symbolic link's target against its source
//! position under an anchor. No filesystem is consulted: the result is the
//! path the link would reach if created naively, which the restore logic
//! then holds against the anchor subtree.

use vstd::prelude::*;
use crate::byteops::{SLASH, DOT, bytes_clone, bytes_extend, match_at, contains_seq};
use crate::paths::{AbsoluteSystemPathBuf, AnchoredSystemPathBuf, is_absolute_path};
use crate::validate::is_well_formed;

verus! {

/// The components of a byte path, split on the separator. Splitting keeps
/// empty components (a leading one for absolute paths, a trailing one for
/// paths ending in the separator); the collapse step drops them.
pub open spec fn split_spec(s: Seq<u8>) -> Seq<Seq<u8>>
    decreases s.len(),
{
    if s.len() == 0 {
        seq![Seq::<u8>::empty()]
    } else if s[0] == SLASH {
        seq![Seq::<u8>::empty()] + split_spec(s.skip(1))
    } else {
        let rest = split_spec(s.skip(1));
        seq![seq![s[0]] + rest[0]] + rest.skip(1)
    }
}

/// Splitting never yields an empty component list.
pub proof fn lemma_split_nonempty(s: Seq<u8>)
    ensures
        split_spec(s).len() > 0,
    decreases s.len(),
{
    if s.len() != 0 {
        lemma_split_nonempty(s.skip(1));
    }
}

/// Lexical cleaning of a component list under root semantics: empty and
/// `.` components vanish, and `..` pops the component before it (or
/// vanishes at the root).
pub open spec fn collapse_spec(parts: Seq<Seq<u8>>) -> Seq<Seq<u8>>
    decreases parts.len(),
{
    if parts.len() == 0 {
        Seq::empty()
    } else {
        let rest = collapse_spec(parts.drop_last());
        let c = parts.last();
        if c.len() == 0 || c == seq![DOT] {
            rest
        } else if c == seq![DOT, DOT] {
            if rest.len() > 0 {
                rest.drop_last()
            } else {
                rest
            }
        } else {
            rest.push(c)
        }
    }
}

/// The absolute path that a cleaned component list denotes.
pub open spec fn join_abs_spec(parts: Seq<Seq<u8>>) -> Seq<u8>
    decreases parts.len(),
{
    if parts.len() == 0 {
        seq![SLASH]
    } else if parts.len() == 1 {
        seq![SLASH] + parts[0]
    } else {
        join_abs_spec(parts.drop_last()) + seq![SLASH] + parts.last()
    }
}

/// A joined path always begins with the separator.
pub proof fn lemma_join_abs_absolute(parts: Seq<Seq<u8>>)
    ensures
        is_absolute_path(join_abs_spec(parts)),
    decreases parts.len(),
{
    if parts.len() >= 2 {
        lemma_join_abs_absolute(parts.drop_last());
    }
}

/// The absolute on-disk path that a symbolic link stored under `name` and
/// pointing at `link` would resolve to if created naively under `anchor`:
/// an absolute `link` stands as it is, a relative one is joined lexically
/// onto the parent directory of `anchor/name` and cleaned.
pub open spec fn linkname_canon_spec(anchor: Seq<u8>, name: Seq<u8>, link: Seq<u8>) -> Seq<u8> {
    if is_absolute_path(link) {
        link
    } else {
        join_abs_spec(
            collapse_spec(split_spec(anchor) + split_spec(name).drop_last() + split_spec(link)),
        )
    }
}

/// The views of a component list.
pub open spec fn vv_view(v: Seq<Vec<u8>>) -> Seq<Seq<u8>> {
    v.map_values(|x: Vec<u8>| x@)
}

/// Merging a pending partial component onto the head of a split.
spec fn merge_head(c: Seq<u8>, parts: Seq<Seq<u8>>) -> Seq<Seq<u8>> {
    seq![c + parts[0]] + parts.skip(1)
}

/// Splits a byte path on the separator.
pub fn split_path(s: &Vec<u8>) -> (r: Vec<Vec<u8>>)
    ensures
        vv_view(r@) == split_spec(s@),
{
    let mut done: Vec<Vec<u8>> = Vec::new();
    let mut cur: Vec<u8> = Vec::new();
    let mut i: usize = 0;
    proof {
        assert(s@.skip(0) =~= s@);
        lemma_split_nonempty(s@);
    }
    while i < s.len()
        invariant
            0 <= i <= s.len(),
            split_spec(s@.skip(i as int)).len() > 0,
            split_spec(s@) =~= vv_view(done@) + merge_head(cur@, split_spec(s@.skip(i as int))),
        decreases s.len() - i,
    {
        proof {
            assert(s@.skip(i as int).skip(1) =~= s@.skip(i + 1));
            lemma_split_nonempty(s@.skip(i + 1));
        }
        let ghost pre_done = done@;
        let ghost pre_cur = cur@;
        let ghost rest = split_spec(s@.skip(i as int));
        let ghost rest1 = split_spec(s@.skip(i + 1));
        if s[i] == SLASH {
            // The split of the remainder opens with an empty component:
            // the pending component is complete.
            proof {
                assert(rest =~= seq![Seq::<u8>::empty()] + rest1);
                assert(merge_head(pre_cur, rest) =~= seq![pre_cur] + rest1);
            }
            done.push(cur);
            cur = Vec::new();
            proof {
                assert(vv_view(done@) =~= vv_view(pre_done).push(pre_cur));
                assert(vv_view(pre_done) + (seq![pre_cur] + rest1) =~= vv_view(done@)
                    + merge_head(cur@, rest1));
            }
        } else {
            // The byte extends the pending component.
            proof {
                assert(rest =~= seq![seq![s@[i as int]] + rest1[0]] + rest1.skip(1));
                let b = s@[i as int];
                assert((pre_cur + seq![b]) + rest1[0] =~= pre_cur + (seq![b] + rest1[0]));
                assert(rest.skip(1) =~= rest1.skip(1));
                assert(merge_head(pre_cur, rest) =~= merge_head(
                    pre_cur + seq![s@[i as int]],
                    rest1,
                ));
            }
            cur.push(s[i]);
            proof {
                assert(cur@ =~= pre_cur + seq![s@[i as int]]);
            }
        }
        i = i + 1;
    }
    proof {
        assert(s@.skip(s@.len() as int) =~= Seq::<u8>::empty());
        assert(split_spec(s@.skip(s@.len() as int)) =~= seq![Seq::<u8>::empty()]);
        assert(merge_head(cur@, seq![Seq::<u8>::empty()]) =~= seq![cur@]);
    }
    let ghost pre_done = done@;
    let ghost pre_cur = cur@;
    done.push(cur);
    proof {
        assert(vv_view(done@) =~= vv_view(pre_done).push(pre_cur));
        assert(vv_view(done@) =~= split_spec(s@));
    }
    done
}

/// Cleans a component list under root semantics.
pub fn collapse_parts(parts: &Vec<Vec<u8>>) -> (r: Vec<Vec<u8>>)
    ensures
        vv_view(r@) == collapse_spec(vv_view(parts@)),
{
    let mut stack: Vec<Vec<u8>> = Vec::new();
    let mut i: usize = 0;
    proof {
        assert(vv_view(parts@).take(0) =~= Seq::<Seq<u8>>::empty());
    }
    while i < parts.len()
        invariant
            0 <= i <= parts.len(),
            vv_view(stack@) =~= collapse_spec(vv_view(parts@).take(i as int)),
        decreases parts.len() - i,
    {
        let ghost pre = vv_view(stack@);
        let ghost taken = vv_view(parts@).take(i as int);
        proof {
            assert(vv_view(parts@).take(i + 1).drop_last() =~= taken);
            assert(vv_view(parts@).take(i + 1).last() == parts@[i as int]@);
        }
        let c = &parts[i];
        if c.len() == 0 || (c.len() == 1 && c[0] == DOT) {
            proof {
                if c@.len() == 1 && c@[0] == DOT {
                    assert(c@ =~= seq![DOT]);
                }
            }
        } else if c.len() == 2 && c[0] == DOT && c[1] == DOT {
            proof {
                assert(c@ =~= seq![DOT, DOT]);
            }
            if stack.len() > 0 {
                let _ = stack.pop();
                proof {
                    assert(vv_view(stack@) =~= pre.drop_last());
                }
            }
        } else {
            proof {
                assert(c@ != seq![DOT] && c@ != seq![DOT, DOT] && c@.len() > 0) by {
                    assert(seq![DOT].len() == 1 && seq![DOT, DOT].len() == 2);
                    assert(seq![DOT][0] == DOT && seq![DOT, DOT][0] == DOT && seq![DOT, DOT][1]
                        == DOT);
                }
            }
            stack.push(bytes_clone(c));
            proof {
                assert(vv_view(stack@) =~= pre.push(c@));
            }
        }
        i = i + 1;
    }
    proof {
        assert(vv_view(parts@).take(parts@.len() as int) =~= vv_view(parts@));
    }
    stack
}

/// Joins a cleaned component list into an absolute byte path.
pub fn join_abs(parts: &Vec<Vec<u8>>) -> (r: Vec<u8>)
    ensures
        r@ == join_abs_spec(vv_view(parts@)),
{
    let mut out: Vec<u8> = Vec::new();
    out.push(SLASH);
    if parts.len() == 0 {
        assert(out@ =~= seq![SLASH]);
        return out;
    }
    bytes_extend(&mut out, &parts[0]);
    proof {
        assert(vv_view(parts@).take(1).len() == 1);
        assert(out@ =~= seq![SLASH] + parts@[0]@);
        assert(out@ =~= join_abs_spec(vv_view(parts@).take(1)));
    }
    let mut i: usize = 1;
    while i < parts.len()
        invariant
            1 <= i <= parts.len(),
            out@ =~= join_abs_spec(vv_view(parts@).take(i as int)),
        decreases parts.len() - i,
    {
        let ghost pre = out@;
        out.push(SLASH);
        bytes_extend(&mut out, &parts[i]);
        proof {
            let taken1 = vv_view(parts@).take(i + 1);
            assert(taken1.drop_last() =~= vv_view(parts@).take(i as int));
            assert(taken1.last() == parts@[i as int]@);
            assert(out@ =~= pre + seq![SLASH] + parts@[i as int]@);
        }
        i = i + 1;
    }
    proof {
        assert(vv_view(parts@).take(parts@.len() as int) =~= vv_view(parts@));
    }
    out
}

/// Computes the absolute path that a symbolic link stored under
/// `processed_name` and pointing at `linkname` would reach under `anchor`,
/// by purely lexical joining and cleaning.
pub fn canonicalize_linkname(
    anchor: &AbsoluteSystemPathBuf,
    processed_name: &AnchoredSystemPathBuf,
    linkname: &Vec<u8>,
) -> (r: AbsoluteSystemPathBuf)
    ensures
        r@ == linkname_canon_spec(anchor@, processed_name@, linkname@),
{
    if linkname.len() > 0 && linkname[0] == SLASH {
        let bytes = bytes_clone(linkname);
        AbsoluteSystemPathBuf::from_raw(bytes)
    } else {
        let anchor_parts = split_path(anchor.as_path());
        let mut name_parts = split_path(processed_name.as_path());
        let link_parts = split_path(linkname);
        proof {
            lemma_split_nonempty(processed_name@);
        }
        // The parent directory of the source: the name's last component
        // falls away.
        let _ = name_parts.pop();
        let mut all: Vec<Vec<u8>> = anchor_parts;
        let ghost before_name = vv_view(all@);
        let mut j: usize = 0;
        while j < name_parts.len()
            invariant
                0 <= j <= name_parts.len(),
                vv_view(all@) =~= before_name + vv_view(name_parts@).take(j as int),
            decreases name_parts.len() - j,
        {
            let ghost pre = vv_view(all@);
            all.push(bytes_clone(&name_parts[j]));
            proof {
                assert(vv_view(all@) =~= pre.push(name_parts@[j as int]@));
                assert(vv_view(name_parts@).take(j + 1) =~= vv_view(name_parts@).take(
                    j as int,
                ).push(name_parts@[j as int]@));
            }
            j = j + 1;
        }
        proof {
            assert(vv_view(name_parts@).take(name_parts@.len() as int) =~= vv_view(name_parts@));
        }
        let ghost before_link = vv_view(all@);
        let mut k: usize = 0;
        while k < link_parts.len()
            invariant
                0 <= k <= link_parts.len(),
                vv_view(all@) =~= before_link + vv_view(link_parts@).take(k as int),
            decreases link_parts.len() - k,
        {
            let ghost pre = vv_view(all@);
            all.push(bytes_clone(&link_parts[k]));
            proof {
                assert(vv_view(all@) =~= pre.push(link_parts@[k as int]@));
                assert(vv_view(link_parts@).take(k + 1) =~= vv_view(link_parts@).take(
                    k as int,
                ).push(link_parts@[k as int]@));
            }
            k = k + 1;
        }
        proof {
            assert(vv_view(link_parts@).take(link_parts@.len() as int) =~= vv_view(link_parts@));
            assert(vv_view(all@) =~= split_spec(anchor@) + split_spec(processed_name@).drop_last()
                + split_spec(linkname@));
        }
        let cleaned = collapse_parts(&all);
        let joined = join_abs(&cleaned);
        proof {
            lemma_join_abs_absolute(vv_view(cleaned@));
        }
        AbsoluteSystemPathBuf::from_raw(joined)
    }
}

/// No separator byte stands inside any component of the list.
pub open spec fn no_slash_in(parts: Seq<Seq<u8>>) -> bool {
    forall|i: int, j: int|
        0 <= i < parts.len() && 0 <= j < parts[i].len() ==> #[trigger] parts[i][j] != SLASH
}

/// No separator byte stands inside any component of a split.
proof fn lemma_split_no_slash(s: Seq<u8>)
    ensures
        no_slash_in(split_spec(s)),
    decreases s.len(),
{
    if s.len() == 0 {
    } else if s[0] == SLASH {
        lemma_split_no_slash(s.skip(1));
        assert(split_spec(s) =~= seq![Seq::<u8>::empty()] + split_spec(s.skip(1)));
    } else {
        lemma_split_no_slash(s.skip(1));
        lemma_split_nonempty(s.skip(1));
        let rest = split_spec(s.skip(1));
        assert(split_spec(s) =~= seq![seq![s[0]] + rest[0]] + rest.skip(1));
    }
}

/// A path without separators splits into itself alone.
proof fn lemma_split_whole(s: Seq<u8>)
    requires
        forall|i: int| 0 <= i < s.len() ==> s[i] != SLASH,
    ensures
        split_spec(s) == seq![s],
    decreases s.len(),
{
    if s.len() == 0 {
        assert(s =~= Seq::<u8>::empty());
        assert(split_spec(s) =~= seq![s]);
    } else {
        assert(forall|i: int| 0 <= i < s.skip(1).len() ==> s.skip(1)[i] != SLASH);
        lemma_split_whole(s.skip(1));
        lemma_split_nonempty(s.skip(1));
        let rest = split_spec(s.skip(1));
        assert(rest == seq![s.skip(1)]);
        assert(seq![s[0]] + rest[0] =~= s);
        assert(split_spec(s) =~= seq![s]);
    }
}

/// Appending a separator and a separator-free component appends one
/// component to the split.
proof fn lemma_split_append(s: Seq<u8>, c: Seq<u8>)
    requires
        forall|i: int| 0 <= i < c.len() ==> c[i] != SLASH,
    ensures
        split_spec(s + seq![SLASH] + c) == split_spec(s).push(c),
    decreases s.len(),
{
    let whole = s + seq![SLASH] + c;
    if s.len() == 0 {
        assert(whole =~= seq![SLASH] + c);
        assert(whole[0] == SLASH);
        assert(whole.skip(1) =~= c);
        lemma_split_whole(c);
        assert(split_spec(whole) =~= seq![Seq::<u8>::empty()] + seq![c]);
        assert(split_spec(s) == seq![Seq::<u8>::empty()]);
        assert(split_spec(whole) =~= split_spec(s).push(c));
    } else {
        let tail = s.skip(1) + seq![SLASH] + c;
        assert(whole.skip(1) =~= tail);
        lemma_split_append(s.skip(1), c);
        lemma_split_nonempty(s.skip(1));
        let rest_s = split_spec(s.skip(1));
        if s[0] == SLASH {
            assert(whole[0] == SLASH);
            assert(split_spec(whole) =~= seq![Seq::<u8>::empty()] + rest_s.push(c));
            assert(split_spec(s) =~= seq![Seq::<u8>::empty()] + rest_s);
            assert(split_spec(whole) =~= split_spec(s).push(c));
        } else {
            assert(whole[0] == s[0]);
            let rest_w = split_spec(tail);
            assert(rest_w == rest_s.push(c));
            assert(rest_w[0] == rest_s[0]);
            assert(rest_w.skip(1) =~= rest_s.skip(1).push(c));
            assert(split_spec(whole) =~= seq![seq![s[0]] + rest_s[0]] + rest_s.skip(1).push(c));
            assert(split_spec(s) =~= seq![seq![s[0]] + rest_s[0]] + rest_s.skip(1));
            assert(split_spec(whole) =~= split_spec(s).push(c));
        }
    }
}

/// Splitting is injective: equal splits come from equal paths.
proof fn lemma_split_injective(a: Seq<u8>, b: Seq<u8>)
    requires
        split_spec(a) == split_spec(b),
    ensures
        a == b,
    decreases a.len(),
{
    lemma_split_nonempty(a);
    lemma_split_nonempty(b);
    if a.len() == 0 {
        assert(split_spec(a) == seq![Seq::<u8>::empty()]);
        if b.len() != 0 {
            if b[0] == SLASH {
                lemma_split_nonempty(b.skip(1));
                assert(split_spec(b).len() >= 2);
                assert(split_spec(a).len() == 1);
            } else {
                lemma_split_nonempty(b.skip(1));
                assert(split_spec(b)[0].len() >= 1);
                assert(split_spec(a)[0].len() == 0);
            }
        }
    } else if b.len() == 0 {
        lemma_split_injective(b, a);
    } else if a[0] == SLASH {
        if b[0] != SLASH {
            lemma_split_nonempty(b.skip(1));
            assert(split_spec(b)[0].len() >= 1);
            assert(split_spec(a)[0].len() == 0);
        }
        assert(b[0] == SLASH);
        assert(split_spec(a.skip(1)) =~= split_spec(a).skip(1));
        assert(split_spec(b.skip(1)) =~= split_spec(b).skip(1));
        lemma_split_injective(a.skip(1), b.skip(1));
        assert(a =~= seq![SLASH] + a.skip(1));
        assert(b =~= seq![SLASH] + b.skip(1));
    } else {
        if b[0] == SLASH {
            lemma_split_nonempty(a.skip(1));
            assert(split_spec(a)[0].len() >= 1);
            assert(split_spec(b)[0].len() == 0);
        }
        assert(b[0] != SLASH);
        let ra = split_spec(a.skip(1));
        let rb = split_spec(b.skip(1));
        lemma_split_nonempty(a.skip(1));
        lemma_split_nonempty(b.skip(1));
        assert(split_spec(a)[0] == seq![a[0]] + ra[0]);
        assert(split_spec(b)[0] == seq![b[0]] + rb[0]);
        assert(a[0] == b[0] && ra[0] == rb[0]) by {
            assert((seq![a[0]] + ra[0])[0] == a[0]);
            assert((seq![b[0]] + rb[0])[0] == b[0]);
            assert(ra[0] =~= (seq![a[0]] + ra[0]).skip(1));
            assert(rb[0] =~= (seq![b[0]] + rb[0]).skip(1));
        }
        assert(ra.skip(1) =~= split_spec(a).skip(1));
        assert(rb.skip(1) =~= split_spec(b).skip(1));
        assert(ra =~= seq![ra[0]] + ra.skip(1));
        assert(rb =~= seq![rb[0]] + rb.skip(1));
        lemma_split_injective(a.skip(1), b.skip(1));
        assert(a =~= seq![a[0]] + a.skip(1));
        assert(b =~= seq![b[0]] + b.skip(1));
    }
}

/// Splitting a joined list recovers the list, behind the leading empty
/// component of the root.
proof fn lemma_split_of_join(parts: Seq<Seq<u8>>)
    requires
        parts.len() >= 1,
        no_slash_in(parts),
    ensures
        split_spec(join_abs_spec(parts)) == seq![Seq::<u8>::empty()] + parts,
    decreases parts.len(),
{
    if parts.len() == 1 {
        assert(forall|j: int| 0 <= j < parts[0].len() ==> parts[0][j] != SLASH);
        assert(join_abs_spec(parts) == seq![SLASH] + parts[0]);
        assert(join_abs_spec(parts) =~= Seq::<u8>::empty() + seq![SLASH] + parts[0]);
        lemma_split_append(Seq::<u8>::empty(), parts[0]);
        assert(split_spec(join_abs_spec(parts)) =~= seq![Seq::<u8>::empty()].push(parts[0]));
        assert(split_spec(join_abs_spec(parts)) =~= seq![Seq::<u8>::empty()] + parts);
    } else {
        let front = parts.drop_last();
        assert(no_slash_in(front));
        lemma_split_of_join(front);
        assert(forall|j: int|
            0 <= j < parts.last().len() ==> #[trigger] parts.last()[j] != SLASH) by {
            assert(forall|j: int|
                0 <= j < parts.last().len() ==> parts.last()[j] == parts[parts.len() - 1][j]);
        }
        lemma_split_append(join_abs_spec(front), parts.last());
        assert(join_abs_spec(parts) == join_abs_spec(front) + seq![SLASH] + parts.last());
        assert(split_spec(join_abs_spec(parts)) == split_spec(join_abs_spec(front)).push(
            parts.last(),
        ));
        assert(split_spec(join_abs_spec(parts)) =~= seq![Seq::<u8>::empty()] + parts);
    }
}

/// Collapsing leaves a trailing run of kept components untouched.
proof fn lemma_collapse_clean_suffix(front: Seq<Seq<u8>>, tail: Seq<Seq<u8>>)
    requires
        forall|i: int|
            0 <= i < tail.len() ==> (#[trigger] tail[i]).len() > 0 && tail[i] != seq![DOT]
                && tail[i] != seq![DOT, DOT],
    ensures
        collapse_spec(front + tail) == collapse_spec(front) + tail,
    decreases tail.len(),
{
    if tail.len() == 0 {
        assert(front + tail =~= front);
        assert(collapse_spec(front) + tail =~= collapse_spec(front));
    } else {
        let tail0 = tail.drop_last();
        assert(forall|i: int|
            0 <= i < tail0.len() ==> (#[trigger] tail0[i]).len() > 0 && tail0[i] != seq![DOT]
                && tail0[i] != seq![DOT, DOT]);
        lemma_collapse_clean_suffix(front, tail0);
        let c = tail.last();
        assert((front + tail).drop_last() =~= front + tail0);
        assert((front + tail).last() == c);
        assert(collapse_spec(front + tail) == collapse_spec(front + tail0).push(c));
        assert(collapse_spec(front) + tail =~= (collapse_spec(front) + tail0).push(c));
    }
}

/// Collapsing never introduces a separator into a component.
proof fn lemma_collapse_no_slash(parts: Seq<Seq<u8>>)
    requires
        no_slash_in(parts),
    ensures
        no_slash_in(collapse_spec(parts)),
    decreases parts.len(),
{
    if parts.len() > 0 {
        let front = parts.drop_last();
        assert(no_slash_in(front));
        lemma_collapse_no_slash(front);
        let rest = collapse_spec(front);
        let c = parts.last();
        if c.len() == 0 || c == seq![DOT] {
        } else if c == seq![DOT, DOT] {
            if rest.len() > 0 {
                assert(no_slash_in(rest.drop_last()));
            }
        } else {
            assert(no_slash_in(rest.push(c))) by {
                assert(forall|j: int|
                    0 <= j < c.len() ==> #[trigger] c[j] != SLASH) by {
                    assert(forall|j: int| 0 <= j < c.len() ==> c[j] == parts[parts.len() - 1][j]);
                }
            }
        }
    }
}

/// A path holding a separator holds a last one.
proof fn lemma_last_slash(s: Seq<u8>)
    requires
        exists|k: int| 0 <= k < s.len() && s[k] == SLASH,
    ensures
        exists|k: int|
            0 <= k < s.len() && s[k] == SLASH && (forall|l: int|
                k < l < s.len() ==> s[l] != SLASH),
    decreases s.len(),
{
    let k0 = choose|k: int| 0 <= k < s.len() && s[k] == SLASH;
    if s[s.len() - 1] == SLASH {
        let k = s.len() - 1;
        assert(0 <= k < s.len() && s[k] == SLASH && (forall|l: int|
            k < l < s.len() ==> s[l] != SLASH));
    } else {
        assert(k0 < s.len() - 1);
        assert(s.drop_last()[k0] == s[k0]);
        lemma_last_slash(s.drop_last());
        let k = choose|k: int|
            0 <= k < s.drop_last().len() && s.drop_last()[k] == SLASH && (forall|l: int|
                k < l < s.drop_last().len() ==> s.drop_last()[l] != SLASH);
        assert(s[k] == SLASH);
        assert(forall|l: int| k < l < s.len() - 1 ==> s[l] == s.drop_last()[l]);
        assert(0 <= k < s.len() && s[k] == SLASH && (forall|l: int|
            k < l < s.len() ==> s[l] != SLASH));
    }
}

/// Every component of a well-formed name without a trailing separator is
/// non-empty and is neither `.` nor `..`.
#[verifier::rlimit(100)]
#[verifier::spinoff_prover]
proof fn lemma_wf_components(s: Seq<u8>)
    requires
        is_well_formed(s),
        s[s.len() - 1] != SLASH,
    ensures
        forall|i: int|
            0 <= i < split_spec(s).len() ==> (#[trigger] split_spec(s)[i]).len() > 0
                && split_spec(s)[i] != seq![DOT] && split_spec(s)[i] != seq![DOT, DOT],
    decreases s.len(),
{
    lemma_split_nonempty(s);
    if !(exists|k: int| 0 <= k < s.len() && s[k] == SLASH) {
        assert(forall|k: int| 0 <= k < s.len() ==> s[k] != SLASH);
        lemma_split_whole(s);
        assert(s != seq![DOT]) by {
            if s == seq![DOT] {
                assert(s.len() == 1 && s[0] == DOT);
            }
        }
        assert(s != seq![DOT, DOT]) by {
            if s == seq![DOT, DOT] {
                assert(s.len() == 2 && s[0] == DOT && s[1] == DOT);
            }
        }
    } else {
        lemma_last_slash(s);
        let k = choose|k: int|
            0 <= k < s.len() && s[k] == SLASH && (forall|l: int|
                k < l < s.len() ==> s[l] != SLASH);
        let s1 = s.take(k);
        let c = s.skip(k + 1);
        assert(s =~= s1 + seq![SLASH] + c);
        assert(forall|j: int| 0 <= j < c.len() ==> c[j] != SLASH) by {
            assert(forall|j: int| 0 <= j < c.len() ==> c[j] == s[k + 1 + j]);
        }
        lemma_split_append(s1, c);
        assert(split_spec(s) == split_spec(s1).push(c));
        // The final component is non-empty (no trailing separator) and no
        // traversal token (no trailing `/.` or `/..`).
        assert(k < s.len() - 1);
        assert(c.len() > 0);
        assert(c != seq![DOT]) by {
            if c == seq![DOT] {
                assert(s[s.len() - 2] == SLASH && s[s.len() - 1] == DOT);
            }
        }
        assert(c != seq![DOT, DOT]) by {
            if c == seq![DOT, DOT] {
                assert(s[s.len() - 3] == SLASH && s[s.len() - 2] == DOT && s[s.len() - 1] == DOT);
            }
        }
        // The front is itself a well-formed name without a trailing
        // separator: every banned pattern in it would stand in `s` too.
        assert(k >= 1);
        assert(s1.len() == k);
        assert(s1[s1.len() - 1] != SLASH) by {
            if s1[k - 1] == SLASH {
                assert(match_at(s, seq![SLASH, SLASH], k - 1));
                assert(contains_seq(s, seq![SLASH, SLASH]));
            }
        }
        assert(is_well_formed(s1)) by {
            assert(!(s1.len() == 1 && s1[0] == DOT)) by {
                if s1.len() == 1 && s1[0] == DOT {
                    assert(s[0] == DOT && s[1] == SLASH);
                }
            }
            assert(!(s1.len() == 2 && s1[0] == DOT && s1[1] == DOT)) by {
                if s1.len() == 2 && s1[0] == DOT && s1[1] == DOT {
                    assert(s[0] == DOT && s[1] == DOT && s[2] == SLASH);
                }
            }
            assert(!(s1.len() >= 2 && s1[s1.len() - 2] == SLASH && s1[s1.len() - 1] == DOT)) by {
                if s1.len() >= 2 && s1[k - 2] == SLASH && s1[k - 1] == DOT {
                    assert(match_at(s, seq![SLASH, DOT, SLASH], k - 2));
                    assert(contains_seq(s, seq![SLASH, DOT, SLASH]));
                }
            }
            assert(!(s1.len() >= 3 && s1[s1.len() - 3] == SLASH && s1[s1.len() - 2] == DOT
                && s1[s1.len() - 1] == DOT)) by {
                if s1.len() >= 3 && s1[k - 3] == SLASH && s1[k - 2] == DOT && s1[k - 1] == DOT {
                    assert(match_at(s, seq![SLASH, DOT, DOT, SLASH], k - 3));
                    assert(contains_seq(s, seq![SLASH, DOT, DOT, SLASH]));
                }
            }
            assert(!contains_seq(s1, seq![SLASH, SLASH])) by {
                if contains_seq(s1, seq![SLASH, SLASH]) {
                    let i = choose|i: int| match_at(s1, seq![SLASH, SLASH], i);
                    assert(match_at(s, seq![SLASH, SLASH], i));
                }
            }
            assert(!contains_seq(s1, seq![SLASH, DOT, SLASH])) by {
                if contains_seq(s1, seq![SLASH, DOT, SLASH]) {
                    let i = choose|i: int| match_at(s1, seq![SLASH, DOT, SLASH], i);
                    assert(match_at(s, seq![SLASH, DOT, SLASH], i));
                }
            }
            assert(!contains_seq(s1, seq![SLASH, DOT, DOT, SLASH])) by {
                if contains_seq(s1, seq![SLASH, DOT, DOT, SLASH]) {
                    let i = choose|i: int| match_at(s1, seq![SLASH, DOT, DOT, SLASH], i);
                    assert(match_at(s, seq![SLASH, DOT, DOT, SLASH], i));
                }
            }
        }
        lemma_wf_components(s1);
    }
}

/// Resolving a canonical name against its own parent directory under an
/// anchor is injective in the name: distinct well-formed names without
/// trailing separators never share a source path.
#[verifier::rlimit(100)]
#[verifier::spinoff_prover]
pub proof fn lemma_linkname_canon_injective(anchor: Seq<u8>, n1: Seq<u8>, n2: Seq<u8>)
    requires
        is_well_formed(n1),
        n1[n1.len() - 1] != SLASH,
        is_well_formed(n2),
        n2[n2.len() - 1] != SLASH,
        linkname_canon_spec(anchor, n1, n1) == linkname_canon_spec(anchor, n2, n2),
    ensures
        n1 == n2,
{
    assert(!is_absolute_path(n1) && !is_absolute_path(n2));
    let sa = split_spec(anchor);
    let s1 = split_spec(n1);
    let s2 = split_spec(n2);
    lemma_split_nonempty(n1);
    lemma_split_nonempty(n2);
    let x1 = s1.drop_last() + s1;
    let x2 = s2.drop_last() + s2;
    lemma_wf_components(n1);
    lemma_wf_components(n2);
    assert(forall|i: int|
        0 <= i < x1.len() ==> (#[trigger] x1[i]).len() > 0 && x1[i] != seq![DOT] && x1[i]
            != seq![DOT, DOT]) by {
        assert(forall|i: int|
            0 <= i < x1.len() ==> x1[i] == (if i < s1.len() - 1 {
                s1[i]
            } else {
                s1[i - (s1.len() - 1)]
            }));
    }
    assert(forall|i: int|
        0 <= i < x2.len() ==> (#[trigger] x2[i]).len() > 0 && x2[i] != seq![DOT] && x2[i]
            != seq![DOT, DOT]) by {
        assert(forall|i: int|
            0 <= i < x2.len() ==> x2[i] == (if i < s2.len() - 1 {
                s2[i]
            } else {
                s2[i - (s2.len() - 1)]
            }));
    }
    assert(sa + s1.drop_last() + s1 =~= sa + x1);
    assert(sa + s2.drop_last() + s2 =~= sa + x2);
    lemma_collapse_clean_suffix(sa, x1);
    lemma_collapse_clean_suffix(sa, x2);
    let ca = collapse_spec(sa);
    let l1 = ca + x1;
    let l2 = ca + x2;
    assert(join_abs_spec(l1) == join_abs_spec(l2));
    lemma_split_no_slash(anchor);
    lemma_collapse_no_slash(sa);
    lemma_split_no_slash(n1);
    lemma_split_no_slash(n2);
    assert(no_slash_in(l1)) by {
        assert(forall|i: int|
            0 <= i < l1.len() ==> l1[i] == (if i < ca.len() {
                ca[i]
            } else {
                x1[i - ca.len()]
            }));
        assert(forall|i: int|
            0 <= i < x1.len() ==> x1[i] == (if i < s1.len() - 1 {
                s1[i]
            } else {
                s1[i - (s1.len() - 1)]
            }));
    }
    assert(no_slash_in(l2)) by {
        assert(forall|i: int|
            0 <= i < l2.len() ==> l2[i] == (if i < ca.len() {
                ca[i]
            } else {
                x2[i - ca.len()]
            }));
        assert(forall|i: int|
            0 <= i < x2.len() ==> x2[i] == (if i < s2.len() - 1 {
                s2[i]
            } else {
                s2[i - (s2.len() - 1)]
            }));
    }
    lemma_split_of_join(l1);
    lemma_split_of_join(l2);
    assert(seq![Seq::<u8>::empty()] + l1 == seq![Seq::<u8>::empty()] + l2);
    assert(l1 =~= l2) by {
        assert(forall|i: int|
            0 <= i < l1.len() ==> l1[i] == (seq![Seq::<u8>::empty()] + l1)[i + 1]);
        assert(forall|i: int|
            0 <= i < l2.len() ==> l2[i] == (seq![Seq::<u8>::empty()] + l2)[i + 1]);
    }
    assert(x1.len() == x2.len());
    assert(s1.len() == s2.len());
    assert(s1 =~= s2) by {
        assert(forall|i: int| 0 <= i < s1.len() ==> s1[i] == x1[i + s1.len() - 1]);
        assert(forall|i: int| 0 <= i < s2.len() ==> s2[i] == x2[i + s2.len() - 1]);
        assert(forall|i: int| 0 <= i < x1.len() ==> x1[i] == l1[i + ca.len()]);
        assert(forall|i: int| 0 <= i < x2.len() ==> x2[i] == l2[i + ca.len()]);
    }
    lemma_split_injective(n1, n2);
}

} // verus!
