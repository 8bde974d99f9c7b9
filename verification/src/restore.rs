//! The restore engine. It consumes the parsed entries of an archive and
//! decides, entry by entry, what may be written under the anchor: names
//! are validated and canonicalized, unsupported kinds are rejected, and a
//! symbolic link is created only when its lexically resolved target stays
//! inside the anchor subtree. Links whose targets are still absent are
//! deferred and ordered topologically at the end.
//!
//! The session decides; the caller performs the filesystem work each step
//! asks for and reports back what only the filesystem knows (whether a
//! link target exists). On any error the session is left unchanged, so
//! nothing is written for a rejected entry.

use vstd::prelude::*;
use crate::byteops::bytes_clone;
use crate::entry::{ArchiveEntry, EntryV, entries_view, is_supported_kind, KIND_REGULAR,
    KIND_DIRECTORY, KIND_SYMLINK};
use crate::error::CacheError;
use crate::graph::{DepGraph, graph_new, graph_add_node, graph_add_edge, graph_toposort,
    graph_node_count, graph_edge_count, graph_edges, respects_edges, has_cycle};
use crate::linkname::{canonicalize_linkname, linkname_canon_spec};
use crate::paths::{AbsoluteSystemPathBuf, AnchoredSystemPathBuf, strip_prefix_spec};
use crate::tario::tar_parse_of;
use crate::validate::{canonicalize_name, canonical_of, is_well_formed, is_canonical_name};
use crate::zstdio::{zstd_decompress, zstd_decode_of};

verus! {

/// A one-shot forward reader over an archive's entries, decompressed and
/// parsed up front.
pub struct CacheReader {
    entries: Vec<ArchiveEntry>,
}

impl CacheReader {
    /// The mathematical values of the entries, in stored order.
    pub closed spec fn entry_views(&self) -> Seq<EntryV> {
        entries_view(self.entries@)
    }

    /// Reads an archive from raw bytes, decompressing first when
    /// `is_compressed` says so. Succeeds exactly when the bytes
    /// decompress (where demanded) and parse as a container stream.
    pub fn from_bytes(bytes: &Vec<u8>, is_compressed: bool) -> (r: Result<CacheReader, CacheError>)
        ensures
            !is_compressed ==> (r is Ok <==> tar_parse_of(bytes@) is Some),
            !is_compressed ==> (r matches Ok(c) ==> tar_parse_of(bytes@) == Some(c.entry_views())),
            is_compressed ==> (r matches Ok(c) ==> (zstd_decode_of(bytes@) matches Some(t)
                && tar_parse_of(t) == Some(c.entry_views()))),
            is_compressed && zstd_decode_of(bytes@) is None ==> r is Err,
            is_compressed && (zstd_decode_of(bytes@) matches Some(t) && tar_parse_of(t) is Some)
                ==> r is Ok,
            is_compressed && (zstd_decode_of(bytes@) matches Some(t) && tar_parse_of(t) is None)
                ==> r is Err,
    {
        let tar_bytes: Vec<u8> = if is_compressed {
            match zstd_decompress(bytes) {
                Ok(t) => t,
                Err(e) => {
                    return Err(e);
                },
            }
        } else {
            bytes_clone(bytes)
        };
        match crate::tario::tar_parse_all(&tar_bytes) {
            Ok(es) => Ok(CacheReader { entries: es }),
            Err(e) => Err(e),
        }
    }

    /// The parsed entries, in stored order.
    pub fn entries(&self) -> (r: &Vec<ArchiveEntry>)
        ensures
            entries_view(r@) == self.entry_views(),
    {
        &self.entries
    }

    /// Hands the parsed entries out, in stored order.
    pub fn into_entries(self) -> (r: Vec<ArchiveEntry>)
        ensures
            entries_view(r@) == self.entry_views(),
    {
        self.entries
    }
}

/// The path with its trailing separators removed, as the host does when
/// taking a path's final component.
pub open spec fn trim_trailing_slashes(s: Seq<u8>) -> Seq<u8>
    decreases s.len(),
{
    if s.len() > 0 && s[s.len() - 1] == 47u8 {
        trim_trailing_slashes(s.drop_last())
    } else {
        s
    }
}

/// A path names a compressed archive when its final component — trailing
/// separators ignored — has the `.zst` extension (an extension needs a
/// non-empty stem before the dot).
pub open spec fn is_zst_name(s: Seq<u8>) -> bool {
    let t = trim_trailing_slashes(s);
    &&& t.len() >= 5
    &&& t[t.len() - 4] == 46u8
    &&& t[t.len() - 3] == 122u8
    &&& t[t.len() - 2] == 115u8
    &&& t[t.len() - 1] == 116u8
    &&& t[t.len() - 5] != 47u8
}

/// Whether a path names a compressed archive, by its `.zst` extension.
/// Used when an archive is opened by path rather than from a stream.
pub fn has_zst_extension(path: &Vec<u8>) -> (r: bool)
    ensures
        r == is_zst_name(path@),
{
    let mut end: usize = path.len();
    proof {
        assert(path@.take(end as int) =~= path@);
    }
    while end > 0 && path[end - 1] == 47
        invariant
            0 <= end <= path@.len(),
            trim_trailing_slashes(path@) == trim_trailing_slashes(path@.take(end as int)),
        decreases end,
    {
        proof {
            assert(path@.take(end as int).drop_last() =~= path@.take(end - 1));
        }
        end = end - 1;
    }
    proof {
        assert(trim_trailing_slashes(path@.take(end as int)) == path@.take(end as int));
    }
    end >= 5 && path[end - 4] == 46 && path[end - 3] == 122 && path[end - 2] == 115 && path[end
        - 1] == 116 && path[end - 5] != 47
}

/// Resolves a symbolic link's stored target against its source position
/// and holds the result inside the anchor subtree. The restore uses this
/// for each link entry, and again for every symbolic link met while
/// walking down to a file's parent directory: a write that would pass
/// through a link whose resolution escapes the anchor is rejected with
/// `LinkOutsideOfDirectory`, even when the escape is staged through
/// several links.
pub fn resolve_link_within(
    anchor: &AbsoluteSystemPathBuf,
    source: &AnchoredSystemPathBuf,
    linkname: &Vec<u8>,
) -> (r: Result<AbsoluteSystemPathBuf, CacheError>)
    ensures
        r matches Ok(t) ==> t@ == linkname_canon_spec(anchor@, source@, linkname@)
            && strip_prefix_spec(anchor@, t@) is Some,
        r is Ok <==> strip_prefix_spec(
            anchor@,
            linkname_canon_spec(anchor@, source@, linkname@),
        ) is Some,
        r matches Err(e) ==> (e matches CacheError::LinkOutsideOfDirectory(t) && t@ == linkname@),
{
    let target = canonicalize_linkname(anchor, source, linkname);
    match AnchoredSystemPathBuf::new(anchor, &target) {
        Ok(_) => Ok(target),
        Err(_) => Err(CacheError::LinkOutsideOfDirectory(bytes_clone(linkname))),
    }
}

/// What the caller is asked to do on disk for one accepted entry.
#[derive(Debug)]
pub enum RestoreStep {
    /// Create the directory (idempotently) at the anchored path and set
    /// the given permission bits.
    MakeDir(AnchoredSystemPathBuf, u32),
    /// Write the entry's body to the anchored path and set the given
    /// permission bits.
    WriteFile(AnchoredSystemPathBuf, u32),
    /// Report whether a filesystem object exists at the absolute path
    /// (following symbolic links), through `on_target_exists`.
    StatTarget(AbsoluteSystemPathBuf),
}

/// A symbolic link to create on disk: the anchored path of the link, the
/// verbatim target text to store in it, and the target's lexical
/// resolution. An existing object at the path is replaced.
#[derive(Debug)]
pub struct SymlinkOp {
    /// Where the link itself is created, relative to the anchor.
    pub path: AnchoredSystemPathBuf,
    /// The target text, exactly as stored in the archive.
    pub linkname: Vec<u8>,
    /// The target resolved lexically against the link's position.
    pub target: AbsoluteSystemPathBuf,
}

/// A symbolic link buffered for the second pass.
struct DeferredSymlink {
    /// The canonicalized name of the link itself.
    name: AnchoredSystemPathBuf,
    /// The lexically resolved absolute target.
    target: AbsoluteSystemPathBuf,
    /// The verbatim target text.
    linkname: Vec<u8>,
}

impl View for DeferredSymlink {
    type V = (Seq<u8>, Seq<u8>, Seq<u8>);

    closed spec fn view(&self) -> (Seq<u8>, Seq<u8>, Seq<u8>) {
        (self.name@, self.target@, self.linkname@)
    }
}

impl DeferredSymlink {
    fn clone_parts(&self) -> (r: DeferredSymlink)
        ensures
            r@ == self@,
    {
        DeferredSymlink {
            name: self.name.to_owned(),
            target: self.target.to_owned(),
            linkname: bytes_clone(&self.linkname),
        }
    }
}

/// The node that a deferred link's own position is keyed by in the
/// dependency graph: its name resolved against the anchor exactly as a
/// link target would be.
pub open spec fn defer_key(anchor: Seq<u8>, name: Seq<u8>) -> Seq<u8> {
    linkname_canon_spec(anchor, name, name)
}

/// One restore pass over a single archive: validates and dispatches each
/// entry, buffers symbolic links whose targets are absent, and finally
/// orders the buffered links topologically.
pub struct RestoreSession {
    anchor: AbsoluteSystemPathBuf,
    restored: Vec<AnchoredSystemPathBuf>,
    deferred: Vec<DeferredSymlink>,
    pending: Option<DeferredSymlink>,
    seen: Ghost<Set<Seq<u8>>>,
}

impl RestoreSession {
    /// The anchor all paths are interpreted against.
    pub closed spec fn anchor_view(&self) -> Seq<u8> {
        self.anchor@
    }

    /// The canonicalized names restored so far, in restore order.
    pub closed spec fn restored_names(&self) -> Seq<Seq<u8>> {
        self.restored@.map_values(|p: AnchoredSystemPathBuf| p@)
    }

    /// The buffered symbolic links: (name, resolved target, verbatim
    /// target), in arrival order.
    pub closed spec fn deferred_view(&self) -> Seq<(Seq<u8>, Seq<u8>, Seq<u8>)> {
        dviews(self.deferred@)
    }

    /// The symbolic link awaiting the caller's existence answer, if any.
    pub closed spec fn pending_view(&self) -> Option<(Seq<u8>, Seq<u8>, Seq<u8>)> {
        match self.pending {
            Some(d) => Some(d@),
            None => None,
        }
    }

    /// The canonicalized names of every entry accepted so far.
    pub closed spec fn seen_names(&self) -> Set<Seq<u8>> {
        self.seen@
    }

    /// The names of the buffered symbolic links.
    pub open spec fn deferred_names(&self) -> Set<Seq<u8>> {
        defer_names_of(self.deferred_view()).to_set()
    }

    /// Every buffered or pending link carries a canonicalized name, as
    /// `canonicalize_name` hands them out. Canonical names resolve to
    /// distinct source paths, so the clobber map loses no name.
    pub open spec fn names_canonical(&self) -> bool {
        &&& (forall|i: int|
            0 <= i < self.deferred_view().len() ==> is_canonical_name(
                (#[trigger] self.deferred_view()[i]).0,
            ))
        &&& (match self.pending_view() {
            Some(t) => is_canonical_name(t.0),
            None => true,
        })
    }

    /// Every accepted name is accounted for: it was restored, buffered,
    /// or awaits the existence answer — and nothing else was.
    pub open spec fn wf(&self) -> bool {
        self.seen_names() == self.restored_names().to_set().union(self.deferred_names()).union(
            match self.pending_view() {
                Some(t) => set![t.0],
                None => Set::<Seq<u8>>::empty(),
            },
        )
    }

    /// A fresh session under `anchor`. The caller has ensured the anchor
    /// directory itself exists (creating it recursively if missing).
    pub fn new(anchor: AbsoluteSystemPathBuf) -> (r: RestoreSession)
        ensures
            r.anchor_view() == anchor@,
            r.restored_names() == Seq::<Seq<u8>>::empty(),
            r.deferred_view() == Seq::<(Seq<u8>, Seq<u8>, Seq<u8>)>::empty(),
            r.pending_view() is None,
            r.seen_names() == Set::<Seq<u8>>::empty(),
            r.wf(),
            r.names_canonical(),
    {
        let r = RestoreSession {
            anchor,
            restored: Vec::new(),
            deferred: Vec::new(),
            pending: None,
            seen: Ghost(Set::empty()),
        };
        proof {
            assert(r.restored_names() =~= Seq::<Seq<u8>>::empty());
            assert(r.deferred_view() =~= Seq::<(Seq<u8>, Seq<u8>, Seq<u8>)>::empty());
            assert(r.seen_names() =~= r.restored_names().to_set().union(
                r.deferred_names(),
            ).union(Set::<Seq<u8>>::empty()));
        }
        r
    }

    /// Validates and dispatches one entry of the stream, in stored order.
    /// Directories and regular files yield the step that writes them and
    /// are recorded at once; a symbolic link is resolved lexically, held
    /// against the anchor, and then handed back as an existence question.
    /// A rejected entry changes nothing.
    pub fn on_entry(&mut self, entry: &ArchiveEntry) -> (r: Result<RestoreStep, CacheError>)
        requires
            old(self).pending_view() is None,
        ensures
            final(self).anchor_view() == old(self).anchor_view(),
            old(self).wf() ==> final(self).wf(),
            old(self).names_canonical() ==> final(self).names_canonical(),
            // Rejections, in dispatch order, each leaving the session as it
            // was: the name is validated before anything else is looked at.
            !is_well_formed(entry@.0) ==> (r matches Err(e) && (e matches
                CacheError::MalformedName(n) && n@ == entry@.0)),
            is_well_formed(entry@.0) && !is_supported_kind(entry@.1) ==> (r matches Err(e) && (e
                matches CacheError::UnsupportedFileType(k) && k == entry@.1)),
            entry@.1 == KIND_SYMLINK && is_well_formed(entry@.0) && strip_prefix_spec(
                old(self).anchor_view(),
                linkname_canon_spec(old(self).anchor_view(), canonical_of(entry@.0), entry@.3),
            ) is None ==> (r matches Err(e) && (e matches CacheError::LinkOutsideOfDirectory(t)
                && t@ == entry@.3)),
            r is Err ==> final(self).restored_names() == old(self).restored_names() && final(self).deferred_view() == old(self).deferred_view() && final(self).pending_view() is None
                && final(self).seen_names() == old(self).seen_names(),
            // Acceptance: the step matches the entry's kind and the
            // canonicalized name is recorded.
            r is Ok ==> is_supported_kind(entry@.1) && is_well_formed(entry@.0) && final(self).seen_names() == old(self).seen_names().insert(canonical_of(entry@.0)),
            entry@.1 == KIND_DIRECTORY && is_well_formed(entry@.0) ==> (r matches Ok(s) && (s
                matches RestoreStep::MakeDir(p, m) && p@ == canonical_of(entry@.0) && m
                == entry@.2)) && final(self).restored_names() == old(self).restored_names().push(
                canonical_of(entry@.0),
            ) && final(self).deferred_view() == old(self).deferred_view() && final(self).pending_view() is None,
            entry@.1 == KIND_REGULAR && is_well_formed(entry@.0) ==> (r matches Ok(s) && (s
                matches RestoreStep::WriteFile(p, m) && p@ == canonical_of(entry@.0) && m
                == entry@.2)) && final(self).restored_names() == old(self).restored_names().push(
                canonical_of(entry@.0),
            ) && final(self).deferred_view() == old(self).deferred_view() && final(self).pending_view() is None,
            entry@.1 == KIND_SYMLINK && is_well_formed(entry@.0) && strip_prefix_spec(
                old(self).anchor_view(),
                linkname_canon_spec(old(self).anchor_view(), canonical_of(entry@.0), entry@.3),
            ) is Some ==> (r matches Ok(s) && (s matches RestoreStep::StatTarget(t) && t@
                == linkname_canon_spec(
                old(self).anchor_view(),
                canonical_of(entry@.0),
                entry@.3,
            ))) && final(self).restored_names() == old(self).restored_names() && final(self).deferred_view() == old(self).deferred_view() && final(self).pending_view() == Some(
                (
                    canonical_of(entry@.0),
                    linkname_canon_spec(
                        old(self).anchor_view(),
                        canonical_of(entry@.0),
                        entry@.3,
                    ),
                    entry@.3,
                ),
            ),
    {
        let name = match canonicalize_name(&entry.name) {
            Ok(p) => p,
            Err(e) => {
                return Err(e);
            },
        };
        let kind = entry.kind;
        if !(kind == KIND_REGULAR || kind == KIND_DIRECTORY || kind == KIND_SYMLINK) {
            return Err(CacheError::UnsupportedFileType(kind));
        }
        let ghost canon = canonical_of(entry@.0);
        if kind == KIND_DIRECTORY {
            let step = RestoreStep::MakeDir(name.to_owned(), entry.mode);
            self.record_restored(name);
            Ok(step)
        } else if kind == KIND_REGULAR {
            let step = RestoreStep::WriteFile(name.to_owned(), entry.mode);
            self.record_restored(name);
            Ok(step)
        } else {
            let target = canonicalize_linkname(&self.anchor, &name, &entry.link);
            match AnchoredSystemPathBuf::new(&self.anchor, &target) {
                Ok(_) => {},
                Err(_) => {
                    return Err(CacheError::LinkOutsideOfDirectory(bytes_clone(&entry.link)));
                },
            }
            let step = RestoreStep::StatTarget(target.to_owned());
            let ghost pre = *self;
            self.pending = Some(
                DeferredSymlink { name, target, linkname: bytes_clone(&entry.link) },
            );
            proof {
                self.seen@ = self.seen@.insert(canon);
                assert(self.restored_names() =~= pre.restored_names());
                assert(self.deferred_view() =~= pre.deferred_view());
                if pre.wf() {
                    assert(self.seen_names() =~= self.restored_names().to_set().union(
                        self.deferred_names(),
                    ).union(set![canon]));
                }
            }
            Ok(step)
        }
    }

    /// Records an immediately-restored name.
    fn record_restored(&mut self, name: AnchoredSystemPathBuf)
        ensures
            final(self).anchor_view() == old(self).anchor_view(),
            final(self).restored_names() == old(self).restored_names().push(name@),
            final(self).deferred_view() == old(self).deferred_view(),
            final(self).pending_view() == old(self).pending_view(),
            final(self).seen_names() == old(self).seen_names().insert(name@),
            old(self).wf() && old(self).pending_view() is None ==> final(self).wf(),
            old(self).names_canonical() ==> final(self).names_canonical(),
    {
        let ghost pre = *self;
        let ghost n = name@;
        self.restored.push(name);
        proof {
            self.seen@ = self.seen@.insert(n);
            assert(self.restored_names() =~= pre.restored_names().push(n));
            assert(self.deferred_view() =~= pre.deferred_view());
            if pre.wf() && pre.pending_view() is None {
                pre.restored_names().lemma_push_to_set_commute(n);
                assert(self.seen_names() =~= self.restored_names().to_set().union(
                    self.deferred_names(),
                ).union(Set::<Seq<u8>>::empty()));
            }
        }
    }

    /// Takes the caller's answer to the pending existence question. When
    /// the target exists the link is created now (replacing anything at
    /// its path) and its name is recorded; when it does not, the link is
    /// buffered for the ordered second pass and nothing surfaces — this
    /// is the one error kind the loop recovers from.
    pub fn on_target_exists(&mut self, exists_on_disk: bool) -> (r: Option<SymlinkOp>)
        requires
            old(self).pending_view() is Some,
        ensures
            final(self).anchor_view() == old(self).anchor_view(),
            final(self).pending_view() is None,
            final(self).seen_names() == old(self).seen_names(),
            old(self).wf() ==> final(self).wf(),
            old(self).names_canonical() ==> final(self).names_canonical(),
            exists_on_disk ==> (r matches Some(op) && op.path@ == old(self).pending_view().unwrap().0
                && op.linkname@ == old(self).pending_view().unwrap().2 && op.target@ == old(
                self,
            ).pending_view().unwrap().1) && final(self).restored_names() == old(
                self,
            ).restored_names().push(
                old(self).pending_view().unwrap().0,
            ) && final(self).deferred_view() == old(self).deferred_view(),
            !exists_on_disk ==> r is None && final(self).restored_names() == old(
                self,
            ).restored_names() && final(self).deferred_view() == old(self).deferred_view().push(
                old(self).pending_view().unwrap(),
            ),
    {
        let d = match &self.pending {
            Some(d) => d.clone_parts(),
            None => {
                // Unreachable under the precondition.
                assert(false);
                return None;
            },
        };
        self.pending = None;
        let ghost pre = *self;
        let ghost t = d@;
        if exists_on_disk {
            let op = SymlinkOp {
                path: d.name.to_owned(),
                linkname: bytes_clone(&d.linkname),
                target: d.target.to_owned(),
            };
            self.restored.push(d.name);
            proof {
                assert(self.restored_names() =~= pre.restored_names().push(t.0));
                assert(self.deferred_view() =~= pre.deferred_view());
                if old(self).wf() {
                    pre.restored_names().lemma_push_to_set_commute(t.0);
                    assert(self.seen_names() =~= self.restored_names().to_set().union(
                        self.deferred_names(),
                    ).union(Set::<Seq<u8>>::empty()));
                }
            }
            Some(op)
        } else {
            self.deferred.push(d);
            proof {
                assert(self.restored_names() =~= pre.restored_names());
                assert(self.deferred_view() =~= pre.deferred_view().push(t));
                if old(self).wf() {
                    assert(defer_names_of(self.deferred_view()) =~= defer_names_of(
                        pre.deferred_view(),
                    ).push(t.0));
                    defer_names_of(pre.deferred_view()).lemma_push_to_set_commute(t.0);
                    assert(self.deferred_names() =~= pre.deferred_names().insert(t.0));
                    assert(self.seen_names() =~= self.restored_names().to_set().union(
                        self.deferred_names(),
                    ).union(Set::<Seq<u8>>::empty()));
                }
            }
            None
        }
    }

    /// Orders the buffered symbolic links and hands back, in an order that
    /// respects source-to-target dependencies, the links to create now
    /// (step four of the first pass — the existence check — is skipped, as
    /// ordering has made it unnecessary). When several buffered links
    /// share a source path the last one wins, emitted exactly once; the
    /// call fails with `CycleDetected` exactly when the links' dependencies
    /// close a cycle, and the session then stands unchanged. On success the
    /// names of the created links are appended to the restored list, which
    /// is then complete: the restored names as a set equal every accepted
    /// name.
    #[verifier::spinoff_prover]
    pub fn finish_symlinks(&mut self) -> (r: Result<Vec<SymlinkOp>, CacheError>)
        requires
            old(self).pending_view() is None,
            old(self).deferred_view().len() < 0x3FFF_FFFF,
        ensures
            final(self).anchor_view() == old(self).anchor_view(),
            final(self).seen_names() == old(self).seen_names(),
            final(self).pending_view() is None,
            final(self).deferred_view() == old(self).deferred_view(),
            r is Err <==> links_have_cycle(old(self).anchor_view(), old(self).deferred_view()),
            r matches Err(e) ==> e == CacheError::CycleDetected && final(self).restored_names()
                == old(self).restored_names(),
            r matches Ok(ops) ==> final(self).restored_names() == old(self).restored_names()
                + ops_names_of(ops@),
            r matches Ok(ops) ==> ops_sound(
                old(self).anchor_view(),
                old(self).deferred_view(),
                ops@,
            ),
            r matches Ok(ops) ==> ops_complete(
                old(self).anchor_view(),
                old(self).deferred_view(),
                ops@,
            ),
            r matches Ok(ops) ==> ops_ordered(old(self).anchor_view(), ops@),
            r matches Ok(ops) ==> ops_distinct_keys(old(self).anchor_view(), ops@),
            r is Ok && old(self).wf() && old(self).names_canonical()
                ==> final(self).restored_names().to_set() == old(self).seen_names(),
    {
        let ghost anchor_v = self.anchor@;
        let ghost ds = self.deferred_view();
        let ghost restored0 = self.restored_names();
        let table = match build_symlink_order(&self.anchor, &self.deferred) {
            Ok(t) => t,
            Err(e) => {
                return Err(e);
            },
        };
        let (nodes, slots, order, g) = table;
        let node_count = nodes.len();
        proof {
            assert(nodes@.len() <= usize::MAX as int) by {
                assert(nodes@.len() == node_count as int);
            }
            lemma_acyclic_when_ordered(anchor_v, ds, nodes@, slot_views(slots@), order@, g);
        }
        let ops = self.emit_ops(&nodes, &slots, &order, &g);
        proof {
            if old(self).wf() && old(self).names_canonical() {
                lemma_canonical_keys_injective(anchor_v, ds);
                let ops_names = ops_names_of(ops@);
                vstd::seq_lib::seq_to_set_distributes_over_add(restored0, ops_names);
                lemma_ops_cover_names(anchor_v, ds, ops@);
                assert(self.restored_names().to_set() =~= old(self).seen_names());
            }
        }
        Ok(ops)
    }

    /// Walks the topological order and emits, for every node that carries
    /// a clobber-map slot, the winning link, recording its name.
    #[verifier::spinoff_prover]
    fn emit_ops(
        &mut self,
        nodes: &Vec<Vec<u8>>,
        slots: &Vec<HeaderSlot>,
        order: &Vec<usize>,
        g: &DepGraph,
    ) -> (ops: Vec<SymlinkOp>)
        requires
            old(self).pending_view() is None,
            order_table_ok(
                old(self).anchor_view(),
                old(self).deferred_view(),
                nodes@,
                slot_views(slots@),
                order@,
                *g,
            ),
        ensures
            final(self).anchor_view() == old(self).anchor_view(),
            final(self).seen_names() == old(self).seen_names(),
            final(self).pending_view() is None,
            final(self).deferred_view() == old(self).deferred_view(),
            final(self).restored_names() == old(self).restored_names() + ops_names_of(ops@),
            ops_sound(old(self).anchor_view(), old(self).deferred_view(), ops@),
            ops_complete(old(self).anchor_view(), old(self).deferred_view(), ops@),
            ops_ordered(old(self).anchor_view(), ops@),
            ops_distinct_keys(old(self).anchor_view(), ops@),
    {
        let ghost anchor_v = old(self).anchor_view();
        let ghost ds = old(self).deferred_view();
        let ghost restored0 = old(self).restored_names();
        let ghost sv = slot_views(slots@);
        let ghost nv = nodes@;
        let mut ops: Vec<SymlinkOp> = Vec::new();
        let mut k: usize = 0;
        let ghost mut poss: Seq<int> = Seq::empty();
        proof {
            assert(ops_names_of(ops@) =~= Seq::<Seq<u8>>::empty());
            assert(self.restored_names() =~= restored0 + ops_names_of(ops@));
            assert(ops_sound(anchor_v, ds, ops@)) by {
                reveal(ops_sound);
            }
            assert(emitted_up_to(anchor_v, ds, nv, sv, order@, 0, ops@)) by {
                reveal(emitted_up_to);
            }
            assert(emit_positions_ok(anchor_v, nv, order@, 0, ops@, poss)) by {
                reveal(emit_positions_ok);
            }
        }
        while k < order.len()
            invariant
                order_table_ok(anchor_v, ds, nv, sv, order@, *g),
                nv == nodes@,
                sv == slot_views(slots@),
                anchor_v == self.anchor@,
                ds == self.deferred_view(),
                self.pending_view() is None,
                self.seen_names() == old(self).seen_names(),
                restored0 == old(self).restored_names(),
                anchor_v == old(self).anchor_view(),
                ds == old(self).deferred_view(),
                0 <= k <= order@.len(),
                self.restored_names() == restored0 + ops_names_of(ops@),
                ops_sound(anchor_v, ds, ops@),
                emitted_up_to(anchor_v, ds, nv, sv, order@, k as int, ops@),
                emit_positions_ok(anchor_v, nv, order@, k as int, ops@, poss),
            decreases order@.len() - k,
        {
            let id = order[k];
            proof {
                assert((id as int) < nv.len()) by {
                    reveal(order_table_ok);
                }
            }
            let ghost pre_ops = ops@;
            let ghost pre_poss = poss;
            let ghost pre_restored = self.restored_names();
            match map_get(slots, &nodes[id]) {
                Some(idx) => {
                    proof {
                        assert(sv.contains((nv[id as int]@, idx as int)));
                        assert(0 <= idx < ds.len() && defer_key(anchor_v, ds[idx as int].0)
                            == nv[id as int]@) by {
                            reveal(order_table_ok);
                            let p = choose|p: int|
                                0 <= p < sv.len() && sv[p] == (nv[id as int]@, idx as int);
                        }
                    }
                    let name_copy = self.deferred[idx].name.to_owned();
                    let link_copy = crate::byteops::bytes_clone(&self.deferred[idx].linkname);
                    let target_copy = self.deferred[idx].target.to_owned();
                    let ghost nmv = name_copy@;
                    let ghost lkv = link_copy@;
                    self.restored.push(name_copy.to_owned());
                    ops.push(
                        SymlinkOp { path: name_copy, linkname: link_copy, target: target_copy },
                    );
                    proof {
                        poss = poss.push(k as int);
                        assert(self.restored_names() =~= pre_restored.push(nmv));
                        assert(ops_names_of(ops@) =~= ops_names_of(pre_ops).push(nmv));
                        assert(self.restored_names() =~= restored0 + ops_names_of(ops@));
                        assert(nmv == ds[idx as int].0 && lkv == ds[idx as int].2);
                        assert(ops@[ops@.len() - 1].target@ == ds[idx as int].1);
                        lemma_emit_step(
                            anchor_v,
                            ds,
                            nv,
                            sv,
                            order@,
                            *g,
                            k as int,
                            pre_ops,
                            ops@,
                            (nv[id as int]@, idx as int),
                        );
                        assert(emit_positions_ok(
                            anchor_v,
                            nv,
                            order@,
                            k + 1,
                            ops@,
                            poss,
                        )) by {
                            reveal(emit_positions_ok);
                            assert(forall|q: int|
                                0 <= q < pre_ops.len() ==> ops@[q] == pre_ops[q]);
                            assert(poss[poss.len() - 1] == k as int);
                            assert(nv[order@[k as int] as int]@ == defer_key(anchor_v, nmv));
                        }
                    }
                },
                None => {
                    proof {
                        lemma_skip_step(anchor_v, ds, nv, sv, order@, *g, k as int, ops@);
                        assert(emit_positions_ok(
                            anchor_v,
                            nv,
                            order@,
                            k + 1,
                            ops@,
                            poss,
                        )) by {
                            reveal(emit_positions_ok);
                        }
                    }
                },
            }
            k = k + 1;
        }
        let node_count = nodes.len();
        proof {
            assert(nv.len() <= usize::MAX as int) by {
                assert(nv.len() == node_count as int);
            }
            lemma_emission_complete(anchor_v, ds, nv, sv, order@, *g, ops@);
            lemma_emitted_ordered(anchor_v, ds, nv, sv, order@, *g, ops@, poss);
        }
        ops
    }


    /// The names restored so far, in restore order.
    pub fn into_restored(self) -> (r: Vec<AnchoredSystemPathBuf>)
        ensures
            r@.map_values(|p: AnchoredSystemPathBuf| p@) == self.restored_names(),
    {
        self.restored
    }
}

/// Whether `j` is the last buffered link whose source resolves to its key:
/// the one that wins when several entries clobber the same source path.
pub open spec fn is_last_defer(anchor: Seq<u8>, ds: Seq<(Seq<u8>, Seq<u8>, Seq<u8>)>, j: int) -> bool {
    &&& 0 <= j < ds.len()
    &&& forall|l: int|
        j < l < ds.len() ==> defer_key(anchor, #[trigger] ds[l].0) != defer_key(anchor, ds[j].0)
}

/// Distinct buffered names resolve to distinct source keys. The session's
/// names are canonical, for which this holds (`lemma_canonical_keys_injective`).
pub open spec fn defer_keys_injective(anchor: Seq<u8>, ds: Seq<(Seq<u8>, Seq<u8>, Seq<u8>)>) -> bool {
    forall|i: int, j: int|
        0 <= i < ds.len() && 0 <= j < ds.len() && defer_key(anchor, #[trigger] ds[i].0)
            == defer_key(anchor, #[trigger] ds[j].0) ==> ds[i].0 == ds[j].0
}

/// Canonical names resolve to pairwise-distinct source keys: the key is
/// the name joined lexically behind its own parent directory, and that
/// resolution is injective for canonical names.
proof fn lemma_canonical_keys_injective(anchor: Seq<u8>, ds: Seq<(Seq<u8>, Seq<u8>, Seq<u8>)>)
    requires
        forall|i: int| 0 <= i < ds.len() ==> is_canonical_name((#[trigger] ds[i]).0),
    ensures
        defer_keys_injective(anchor, ds),
{
    assert forall|i: int, j: int|
        0 <= i < ds.len() && 0 <= j < ds.len() && defer_key(anchor, (#[trigger] ds[i]).0)
            == defer_key(anchor, (#[trigger] ds[j]).0) implies ds[i].0 == ds[j].0 by {
        crate::linkname::lemma_linkname_canon_injective(anchor, ds[i].0, ds[j].0);
    }
}

/// Every buffered link is superseded by a last one with the same key.
#[verifier::spinoff_prover]
proof fn lemma_last_occurrence(anchor: Seq<u8>, ds: Seq<(Seq<u8>, Seq<u8>, Seq<u8>)>, j: int)
    requires
        0 <= j < ds.len(),
    ensures
        exists|i: int|
            j <= i < ds.len() && is_last_defer(anchor, ds, i) && defer_key(
                anchor,
                #[trigger] ds[i].0,
            ) == defer_key(anchor, ds[j].0),
    decreases ds.len() - j,
{
    if is_last_defer(anchor, ds, j) {
        assert(j <= j < ds.len() && is_last_defer(anchor, ds, j) && defer_key(anchor, ds[j].0)
            == defer_key(anchor, ds[j].0));
    } else {
        let l = choose|l: int|
            j < l < ds.len() && defer_key(anchor, #[trigger] ds[l].0) == defer_key(anchor, ds[j].0);
        lemma_last_occurrence(anchor, ds, l);
        let i = choose|i: int|
            l <= i < ds.len() && is_last_defer(anchor, ds, i) && defer_key(
                anchor,
                #[trigger] ds[i].0,
            ) == defer_key(anchor, ds[l].0);
        assert(j <= i < ds.len() && is_last_defer(anchor, ds, i) && defer_key(anchor, ds[i].0)
            == defer_key(anchor, ds[j].0));
    }
}

/// The interned node keys mirror the graph's nodes, one to one.
spec fn nodes_wf(nodes: Seq<Vec<u8>>, g: DepGraph) -> bool {
    &&& nodes.len() == graph_node_count(g)
    &&& forall|i: int, j: int| 0 <= i < j < nodes.len() ==> nodes[i]@ != nodes[j]@
}

/// Looks a key up among the interned nodes.
fn find_node(nodes: &Vec<Vec<u8>>, key: &Vec<u8>) -> (r: Option<usize>)
    ensures
        r matches Some(i) ==> (i as int) < nodes@.len() && nodes@[i as int]@ == key@,
        r is None ==> forall|i: int| 0 <= i < nodes@.len() ==> nodes@[i]@ != key@,
{
    let mut i: usize = 0;
    while i < nodes.len()
        invariant
            0 <= i <= nodes.len(),
            forall|k: int| 0 <= k < i ==> nodes@[k]@ != key@,
        decreases nodes.len() - i,
    {
        if crate::byteops::bytes_eq(&nodes[i], key) {
            return Some(i);
        }
        i = i + 1;
    }
    None
}

/// Interns a key: the node that already carries it, or a fresh one.
fn intern_node(nodes: &mut Vec<Vec<u8>>, g: &mut DepGraph, key: &Vec<u8>) -> (r: usize)
    requires
        nodes_wf(old(nodes)@, *old(g)),
        graph_node_count(*old(g)) + 1 < 0xFFFF_FFFF,
    ensures
        nodes_wf(final(nodes)@, *final(g)),
        graph_edges(*final(g)) == graph_edges(*old(g)),
        graph_edge_count(*final(g)) == graph_edge_count(*old(g)),
        graph_node_count(*old(g)) <= graph_node_count(*final(g)) <= graph_node_count(*old(g)) + 1,
        (r as int) < final(nodes)@.len(),
        final(nodes)@[r as int]@ == key@,
        old(nodes)@.len() <= final(nodes)@.len(),
        forall|i: int| 0 <= i < old(nodes)@.len() ==> final(nodes)@[i]@ == old(nodes)@[i]@,
{
    match find_node(nodes, key) {
        Some(i) => i,
        None => {
            let i = graph_add_node(g);
            nodes.push(crate::byteops::bytes_clone(key));
            i
        },
    }
}

/// One slot of the clobber map: a source key and the index of the last
/// buffered link whose source resolves to it.
struct HeaderSlot {
    key: Vec<u8>,
    idx: usize,
}

impl View for HeaderSlot {
    type V = (Seq<u8>, int);

    closed spec fn view(&self) -> (Seq<u8>, int) {
        (self.key@, self.idx as int)
    }
}

/// The mathematical values of the clobber map's slots.
spec fn slot_views(hs: Seq<HeaderSlot>) -> Seq<(Seq<u8>, int)> {
    hs.map_values(|s: HeaderSlot| s@)
}

/// No two slots carry the same key.
spec fn slots_distinct(sv: Seq<(Seq<u8>, int)>) -> bool {
    forall|p: int, q: int| 0 <= p < q < sv.len() ==> sv[p].0 != sv[q].0
}

/// Replaces the slot keyed `key` (or adds one): the later entry wins.
fn map_put(hs: &mut Vec<HeaderSlot>, key: Vec<u8>, idx: usize)
    requires
        slots_distinct(slot_views(old(hs)@)),
    ensures
        slots_distinct(slot_views(final(hs)@)),
        slot_views(final(hs)@).contains((key@, idx as int)),
        forall|p: int|
            0 <= p < slot_views(final(hs)@).len() && slot_views(final(hs)@)[p].0 != key@
                ==> slot_views(old(hs)@).contains(#[trigger] slot_views(final(hs)@)[p]),
        forall|p: int|
            0 <= p < slot_views(old(hs)@).len() && slot_views(old(hs)@)[p].0 != key@ ==> slot_views(
                final(hs)@,
            ).contains(#[trigger] slot_views(old(hs)@)[p]),
        forall|p: int|
            0 <= p < slot_views(final(hs)@).len() && (#[trigger] slot_views(final(hs)@)[p]).0
                == key@ ==> slot_views(final(hs)@)[p] == (key@, idx as int),
{
    let ghost pre = slot_views(hs@);
    let mut i: usize = 0;
    let mut found: Option<usize> = None;
    while i < hs.len()
        invariant
            0 <= i <= hs.len(),
            found is None ==> forall|k: int| 0 <= k < i ==> slot_views(hs@)[k].0 != key@,
            found matches Some(p) ==> (p as int) < hs@.len() && slot_views(hs@)[p as int].0 == key@
                && (p as int) < i,
            slot_views(hs@) == pre,
        decreases hs.len() - i,
    {
        if crate::byteops::bytes_eq(&hs[i].key, &key) {
            found = Some(i);
            i = hs.len();
        } else {
            i = i + 1;
        }
    }
    if let Some(p) = found {
        let _ = hs.remove(p);
        proof {
            assert(slot_views(hs@) =~= pre.remove(p as int));
        }
    }
    let ghost mid = slot_views(hs@);
    proof {
        // Every remaining slot stood in the old map, and none carries `key`.
        assert(forall|q: int| 0 <= q < mid.len() ==> pre.contains(#[trigger] mid[q])) by {
            if found is Some {
                let p = found.unwrap() as int;
                assert(forall|q: int| 0 <= q < mid.len() ==> mid[q] == (if q < p {
                    pre[q]
                } else {
                    pre[q + 1]
                }));
            }
        }
        assert(forall|q: int| 0 <= q < mid.len() ==> (#[trigger] mid[q]).0 != key@) by {
            if found is Some {
                let p = found.unwrap() as int;
                assert(slots_distinct(pre));
                assert(forall|q: int| 0 <= q < mid.len() ==> mid[q] == (if q < p {
                    pre[q]
                } else {
                    pre[q + 1]
                }));
            }
        }
        assert(forall|q: int| 0 <= q < pre.len() && (#[trigger] pre[q]).0 != key@ ==> mid.contains(
            pre[q],
        )) by {
            if found is Some {
                let p = found.unwrap() as int;
                assert(forall|q: int| 0 <= q < pre.len() && q != p ==> mid.contains(
                    #[trigger] pre[q],
                )) by {
                    assert(forall|q: int| 0 <= q < p ==> mid[q] == pre[q]);
                    assert(forall|q: int| p < q < pre.len() ==> mid[q - 1] == pre[q]);
                }
                assert(pre[p].0 == key@);
            } else {
                assert(forall|q: int| 0 <= q < pre.len() ==> mid.contains(#[trigger] pre[q]));
            }
        }
    }
    let ghost kv = key@;
    hs.push(HeaderSlot { key, idx });
    proof {
        assert(slot_views(hs@) =~= mid.push((kv, idx as int)));
        assert(slot_views(hs@).contains((kv, idx as int))) by {
            assert(slot_views(hs@)[slot_views(hs@).len() - 1] == (kv, idx as int));
        }
        assert(forall|q: int| 0 <= q < mid.len() ==> slot_views(hs@).contains(#[trigger] mid[q]))
            by {
            assert(forall|q: int| 0 <= q < mid.len() ==> slot_views(hs@)[q] == mid[q]);
        }
    }
}

/// Finds the slot keyed `key`, if any.
fn map_get(hs: &Vec<HeaderSlot>, key: &Vec<u8>) -> (r: Option<usize>)
    ensures
        r matches Some(idx) ==> slot_views(hs@).contains((key@, idx as int)),
        r is None ==> forall|p: int| 0 <= p < slot_views(hs@).len() ==> slot_views(hs@)[p].0
            != key@,
{
    let mut i: usize = 0;
    while i < hs.len()
        invariant
            0 <= i <= hs.len(),
            forall|k: int| 0 <= k < i ==> slot_views(hs@)[k].0 != key@,
        decreases hs.len() - i,
    {
        if crate::byteops::bytes_eq(&hs[i].key, key) {
            let idx = hs[i].idx;
            proof {
                assert(slot_views(hs@)[i as int] == (key@, idx as int));
            }
            return Some(idx);
        }
        i = i + 1;
    }
    None
}


/// The mathematical values of a buffered-link list.
spec fn dviews(ds: Seq<DeferredSymlink>) -> Seq<(Seq<u8>, Seq<u8>, Seq<u8>)> {
    ds.map_values(|d: DeferredSymlink| d@)
}

/// The names of the buffered links, in arrival order.
pub open spec fn defer_names_of(ds: Seq<(Seq<u8>, Seq<u8>, Seq<u8>)>) -> Seq<Seq<u8>> {
    ds.map_values(|t: (Seq<u8>, Seq<u8>, Seq<u8>)| t.0)
}

/// The names of the emitted links, in emission order.
pub open spec fn ops_names_of(ops: Seq<SymlinkOp>) -> Seq<Seq<u8>> {
    ops.map_values(|o: SymlinkOp| o.path@)
}

/// The link `op` is the clobber winner of some buffered position.
pub open spec fn op_is_winner(
    anchor: Seq<u8>,
    ds: Seq<(Seq<u8>, Seq<u8>, Seq<u8>)>,
    op: SymlinkOp,
) -> bool {
    exists|j: int|
        #[trigger] is_last_defer(anchor, ds, j) && op.path@ == ds[j].0 && op.linkname@ == ds[j].2
            && op.target@ == ds[j].1
}

/// The winner at buffered position `j` stands among the emitted links.
pub open spec fn slot_emitted(
    ds: Seq<(Seq<u8>, Seq<u8>, Seq<u8>)>,
    ops: Seq<SymlinkOp>,
    j: int,
) -> bool {
    exists|q: int|
        0 <= q < ops.len() && (#[trigger] ops[q]).path@ == ds[j].0 && ops[q].linkname@ == ds[j].2
}

/// Every emitted link is a clobber winner, emitted verbatim.
#[verifier::opaque]
pub open spec fn ops_sound(
    anchor: Seq<u8>,
    ds: Seq<(Seq<u8>, Seq<u8>, Seq<u8>)>,
    ops: Seq<SymlinkOp>,
) -> bool {
    forall|q: int| 0 <= q < ops.len() ==> op_is_winner(anchor, ds, #[trigger] ops[q])
}

/// Every clobber winner is emitted.
#[verifier::opaque]
pub open spec fn ops_complete(
    anchor: Seq<u8>,
    ds: Seq<(Seq<u8>, Seq<u8>, Seq<u8>)>,
    ops: Seq<SymlinkOp>,
) -> bool {
    forall|j: int| #[trigger] is_last_defer(anchor, ds, j) ==> slot_emitted(ds, ops, j)
}

/// The emitted links respect their dependencies: a link whose resolved
/// target is another emitted link's source key comes first.
#[verifier::opaque]
pub open spec fn ops_ordered(anchor: Seq<u8>, ops: Seq<SymlinkOp>) -> bool {
    forall|q1: int, q2: int|
        0 <= q1 < ops.len() && 0 <= q2 < ops.len() && q1 != q2 && (#[trigger] ops[q1]).target@
            == defer_key(anchor, (#[trigger] ops[q2]).path@) ==> q1 < q2
}

/// No two emitted links share a source key: each clobber winner is
/// emitted exactly once.
#[verifier::opaque]
pub open spec fn ops_distinct_keys(anchor: Seq<u8>, ops: Seq<SymlinkOp>) -> bool {
    forall|q1: int, q2: int|
        0 <= q1 < q2 < ops.len() ==> defer_key(anchor, (#[trigger] ops[q1]).path@) != defer_key(
            anchor,
            (#[trigger] ops[q2]).path@,
        )
}

/// Some buffered link's source key is `a` and its resolved target is `b`.
pub open spec fn link_edge(
    anchor: Seq<u8>,
    ds: Seq<(Seq<u8>, Seq<u8>, Seq<u8>)>,
    a: Seq<u8>,
    b: Seq<u8>,
) -> bool {
    exists|j: int|
        0 <= j < ds.len() && defer_key(anchor, (#[trigger] ds[j]).0) == a && ds[j].1 == b
}

/// The buffered links' source-to-target dependencies close a cycle: some
/// walk along them returns to its start.
pub open spec fn links_have_cycle(anchor: Seq<u8>, ds: Seq<(Seq<u8>, Seq<u8>, Seq<u8>)>) -> bool {
    exists|p: Seq<Seq<u8>>|
        p.len() >= 2 && p.first() == p.last() && (forall|i: int|
            0 <= i < p.len() - 1 ==> #[trigger] link_edge(anchor, ds, p[i], p[i + 1]))
}

/// The graph holds an edge for the buffered link at position `j`, from
/// the node carrying its source key to the node carrying its target.
spec fn edge_present(
    anchor: Seq<u8>,
    ds: Seq<(Seq<u8>, Seq<u8>, Seq<u8>)>,
    nodes: Seq<Vec<u8>>,
    g: DepGraph,
    j: int,
) -> bool {
    exists|e: (int, int)|
        #[trigger] graph_edges(g).contains(e) && 0 <= e.0 < nodes.len() && 0 <= e.1 < nodes.len()
            && nodes[e.0]@ == defer_key(anchor, ds[j].0) && nodes[e.1]@ == ds[j].1
}

/// The graph's edges are exactly the dependencies of the first `i`
/// buffered links, read through the interned nodes.
#[verifier::opaque]
spec fn edges_ok(
    anchor: Seq<u8>,
    ds: Seq<(Seq<u8>, Seq<u8>, Seq<u8>)>,
    i: int,
    nodes: Seq<Vec<u8>>,
    g: DepGraph,
) -> bool {
    &&& (forall|e: (int, int)|
        #[trigger] graph_edges(g).contains(e) ==> 0 <= e.0 < nodes.len() && 0 <= e.1
            < nodes.len() && (exists|j: int|
            0 <= j < i && defer_key(anchor, (#[trigger] ds[j]).0) == nodes[e.0]@ && ds[j].1
                == nodes[e.1]@))
    &&& (forall|j: int| 0 <= j < i ==> #[trigger] edge_present(anchor, ds, nodes, g, j))
}

/// Which position of the order each link was emitted at: positions rise
/// with the emission index, stay below `k`, and name the emitted link's
/// source key.
#[verifier::opaque]
spec fn emit_positions_ok(
    anchor: Seq<u8>,
    nodes: Seq<Vec<u8>>,
    order: Seq<usize>,
    k: int,
    ops: Seq<SymlinkOp>,
    poss: Seq<int>,
) -> bool {
    &&& poss.len() == ops.len()
    &&& (forall|q: int| 0 <= q < poss.len() ==> 0 <= #[trigger] poss[q] < k && poss[q] < order.len())
    &&& (forall|q1: int, q2: int| 0 <= q1 < q2 < poss.len() ==> poss[q1] < poss[q2])
    &&& (forall|q: int|
        0 <= q < poss.len() ==> nodes[#[trigger] order[poss[q]] as int]@ == defer_key(
            anchor,
            ops[q].path@,
        ))
}

/// The key of the buffered link at position `j` stands in some slot.
spec fn key_slotted(
    anchor: Seq<u8>,
    ds: Seq<(Seq<u8>, Seq<u8>, Seq<u8>)>,
    sv: Seq<(Seq<u8>, int)>,
    j: int,
) -> bool {
    exists|p: int|
        0 <= p < sv.len() && (#[trigger] sv[p]).0 == defer_key(anchor, ds[j].0)
}

/// The key stands in the interning table.
spec fn key_interned(nodes: Seq<Vec<u8>>, key: Seq<u8>) -> bool {
    exists|a: int| 0 <= a < nodes.len() && #[trigger] nodes[a]@ == key
}

/// One of the first `k` positions of the order names a node with this key.
spec fn key_walked(nodes: Seq<Vec<u8>>, order: Seq<usize>, k: int, key: Seq<u8>) -> bool {
    exists|kk: int| 0 <= kk < k && nodes[#[trigger] order[kk] as int]@ == key
}

/// The interning table, clobber map and topological order fit together:
/// every slot points at the last buffered link for its key, every key has
/// a slot, every slot's key is an interned node, the nodes are distinct,
/// and the order walks exactly the nodes.
#[verifier::opaque]
spec fn order_table_ok(
    anchor: Seq<u8>,
    ds: Seq<(Seq<u8>, Seq<u8>, Seq<u8>)>,
    nodes: Seq<Vec<u8>>,
    sv: Seq<(Seq<u8>, int)>,
    order: Seq<usize>,
    g: DepGraph,
) -> bool {
    &&& slots_distinct(sv)
    &&& (forall|p: int|
        0 <= p < sv.len() ==> {
            let s = #[trigger] sv[p];
            &&& 0 <= s.1 < ds.len()
            &&& defer_key(anchor, ds[s.1].0) == s.0
            &&& (forall|l: int|
                s.1 < l < ds.len() ==> defer_key(anchor, #[trigger] ds[l].0) != s.0)
        })
    &&& (forall|j: int| 0 <= j < ds.len() ==> #[trigger] key_slotted(anchor, ds, sv, j))
    &&& (forall|p: int|
        0 <= p < sv.len() ==> key_interned(nodes, (#[trigger] sv[p]).0))
    &&& (forall|i: int, j: int| 0 <= i < j < nodes.len() ==> nodes[i]@ != nodes[j]@)
    &&& (forall|t: int| 0 <= t < order.len() ==> (#[trigger] order[t] as int) < nodes.len())
    &&& (forall|i: int, j: int| 0 <= i < j < order.len() ==> order[i] != order[j])
    &&& (forall|a: usize| (a as int) < nodes.len() ==> #[trigger] order.contains(a))
    &&& edges_ok(anchor, ds, ds.len() as int, nodes, g)
    &&& respects_edges(order, graph_edges(g))
}

/// After the first `k` positions of the order, every slot whose key was
/// walked has its winner emitted.
#[verifier::opaque]
spec fn emitted_up_to(
    anchor: Seq<u8>,
    ds: Seq<(Seq<u8>, Seq<u8>, Seq<u8>)>,
    nodes: Seq<Vec<u8>>,
    sv: Seq<(Seq<u8>, int)>,
    order: Seq<usize>,
    k: int,
    ops: Seq<SymlinkOp>,
) -> bool {
    forall|p: int|
        0 <= p < sv.len() && key_walked(nodes, order, k, (#[trigger] sv[p]).0) ==> slot_emitted(
            ds,
            ops,
            sv[p].1,
        )
}

/// Emitting the winner of the slot keyed by the node at position `k`
/// keeps soundness and extends coverage to `k + 1`.
#[verifier::rlimit(100)]
#[verifier::spinoff_prover]
proof fn lemma_emit_step(
    anchor: Seq<u8>,
    ds: Seq<(Seq<u8>, Seq<u8>, Seq<u8>)>,
    nodes: Seq<Vec<u8>>,
    sv: Seq<(Seq<u8>, int)>,
    order: Seq<usize>,
    g: DepGraph,
    k: int,
    pre_ops: Seq<SymlinkOp>,
    ops: Seq<SymlinkOp>,
    slot: (Seq<u8>, int),
)
    requires
        order_table_ok(anchor, ds, nodes, sv, order, g),
        0 <= k < order.len(),
        sv.contains(slot),
        slot.0 == nodes[order[k] as int]@,
        ops.len() == pre_ops.len() + 1,
        forall|q: int| 0 <= q < pre_ops.len() ==> ops[q] == pre_ops[q],
        ops[ops.len() - 1].path@ == ds[slot.1].0,
        ops[ops.len() - 1].linkname@ == ds[slot.1].2,
        ops[ops.len() - 1].target@ == ds[slot.1].1,
        ops_sound(anchor, ds, pre_ops),
        emitted_up_to(anchor, ds, nodes, sv, order, k, pre_ops),
    ensures
        ops_sound(anchor, ds, ops),
        emitted_up_to(anchor, ds, nodes, sv, order, k + 1, ops),
{
    reveal(order_table_ok);
    reveal(ops_sound);
    reveal(emitted_up_to);
    let p = choose|p: int| 0 <= p < sv.len() && sv[p] == slot;
    assert(is_last_defer(anchor, ds, slot.1));
    assert forall|q: int| 0 <= q < ops.len() implies op_is_winner(
        anchor,
        ds,
        #[trigger] ops[q],
    ) by {
        if q < pre_ops.len() {
            assert(ops[q] == pre_ops[q]);
            assert(op_is_winner(anchor, ds, pre_ops[q]));
        } else {
            let j = slot.1;
            assert(is_last_defer(anchor, ds, j) && ops[q].path@ == ds[j].0 && ops[q].linkname@
                == ds[j].2 && ops[q].target@ == ds[j].1);
        }
    }
    assert forall|p2: int|
        0 <= p2 < sv.len() && key_walked(nodes, order, k + 1, (#[trigger] sv[p2]).0)
            implies slot_emitted(ds, ops, sv[p2].1) by {
        let kk = choose|kk: int|
            0 <= kk < k + 1 && nodes[#[trigger] order[kk] as int]@ == sv[p2].0;
        if kk < k {
            assert(key_walked(nodes, order, k, sv[p2].0));
            assert(slot_emitted(ds, pre_ops, sv[p2].1));
            let q = choose|q: int|
                0 <= q < pre_ops.len() && (#[trigger] pre_ops[q]).path@ == ds[sv[p2].1].0
                    && pre_ops[q].linkname@ == ds[sv[p2].1].2;
            assert(0 <= q < ops.len() && ops[q].path@ == ds[sv[p2].1].0 && ops[q].linkname@
                == ds[sv[p2].1].2);
        } else {
            assert(sv[p2].0 == slot.0);
            if p2 != p {
                assert(sv[p2].0 != sv[p].0);
                assert(false);
            }
            assert(sv[p2] == slot);
            let q = ops.len() - 1;
            assert(0 <= q < ops.len() && ops[q].path@ == ds[sv[p2].1].0 && ops[q].linkname@
                == ds[sv[p2].1].2);
        }
    }
}

/// When no slot is keyed by the node at position `k`, coverage extends to
/// `k + 1` unchanged.
#[verifier::rlimit(100)]
#[verifier::spinoff_prover]
proof fn lemma_skip_step(
    anchor: Seq<u8>,
    ds: Seq<(Seq<u8>, Seq<u8>, Seq<u8>)>,
    nodes: Seq<Vec<u8>>,
    sv: Seq<(Seq<u8>, int)>,
    order: Seq<usize>,
    g: DepGraph,
    k: int,
    ops: Seq<SymlinkOp>,
)
    requires
        order_table_ok(anchor, ds, nodes, sv, order, g),
        0 <= k < order.len(),
        forall|p: int| 0 <= p < sv.len() ==> (#[trigger] sv[p]).0 != nodes[order[k] as int]@,
        emitted_up_to(anchor, ds, nodes, sv, order, k, ops),
    ensures
        emitted_up_to(anchor, ds, nodes, sv, order, k + 1, ops),
{
    reveal(emitted_up_to);
    assert forall|p2: int|
        0 <= p2 < sv.len() && key_walked(nodes, order, k + 1, (#[trigger] sv[p2]).0)
            implies slot_emitted(ds, ops, sv[p2].1) by {
        let kk = choose|kk: int|
            0 <= kk < k + 1 && nodes[#[trigger] order[kk] as int]@ == sv[p2].0;
        assert(kk < k);
        assert(key_walked(nodes, order, k, sv[p2].0));
    }
}

/// Once the whole order has been walked, every clobber winner is emitted.
#[verifier::rlimit(100)]
#[verifier::spinoff_prover]
proof fn lemma_emission_complete(
    anchor: Seq<u8>,
    ds: Seq<(Seq<u8>, Seq<u8>, Seq<u8>)>,
    nodes: Seq<Vec<u8>>,
    sv: Seq<(Seq<u8>, int)>,
    order: Seq<usize>,
    g: DepGraph,
    ops: Seq<SymlinkOp>,
)
    requires
        nodes.len() <= usize::MAX as int,
        order_table_ok(anchor, ds, nodes, sv, order, g),
        emitted_up_to(anchor, ds, nodes, sv, order, order.len() as int, ops),
    ensures
        ops_complete(anchor, ds, ops),
{
    reveal(order_table_ok);
    reveal(emitted_up_to);
    reveal(ops_complete);
    assert forall|j: int| #[trigger] is_last_defer(anchor, ds, j) implies slot_emitted(
        ds,
        ops,
        j,
    ) by {
        assert(key_slotted(anchor, ds, sv, j));
        let p = choose|p: int|
            0 <= p < sv.len() && (#[trigger] sv[p]).0 == defer_key(anchor, ds[j].0);
        // Last occurrences for one key are unique, so the slot points at `j`.
        assert(sv[p].1 == j) by {
            if sv[p].1 < j {
                assert(defer_key(anchor, ds[j].0) != defer_key(anchor, ds[sv[p].1].0));
            } else if j < sv[p].1 {
                assert(defer_key(anchor, ds[sv[p].1].0) != defer_key(anchor, ds[j].0));
            }
        }
        assert(key_interned(nodes, sv[p].0));
        let a = choose|a: int| 0 <= a < nodes.len() && #[trigger] nodes[a]@ == sv[p].0;
        assert(order.contains(a as usize));
        let kk = choose|kk: int| 0 <= kk < order.len() && order[kk] == a as usize;
        assert(nodes[order[kk] as int]@ == sv[p].0);
        assert(key_walked(nodes, order, order.len() as int, sv[p].0));
    }
}

/// With injective source keys the emitted names cover every buffered name.
#[verifier::rlimit(100)]
#[verifier::spinoff_prover]
proof fn lemma_ops_cover_names(
    anchor: Seq<u8>,
    ds: Seq<(Seq<u8>, Seq<u8>, Seq<u8>)>,
    ops: Seq<SymlinkOp>,
)
    requires
        ops_sound(anchor, ds, ops),
        ops_complete(anchor, ds, ops),
        defer_keys_injective(anchor, ds),
    ensures
        ops_names_of(ops).to_set() == defer_names_of(ds).to_set(),
{
    reveal(ops_sound);
    reveal(ops_complete);
    let on = ops_names_of(ops);
    let dn = defer_names_of(ds);
    assert forall|x: Seq<u8>| #[trigger] on.to_set().contains(x) implies dn.to_set().contains(
        x,
    ) by {
        let q = choose|q: int| 0 <= q < on.len() && on[q] == x;
        assert(op_is_winner(anchor, ds, ops[q]));
        let j = choose|j: int|
            #[trigger] is_last_defer(anchor, ds, j) && ops[q].path@ == ds[j].0
                && ops[q].linkname@ == ds[j].2;
        assert(dn[j] == x);
        assert(dn.contains(x));
    }
    assert forall|x: Seq<u8>| #[trigger] dn.to_set().contains(x) implies on.to_set().contains(
        x,
    ) by {
        let j = choose|j: int| 0 <= j < dn.len() && dn[j] == x;
        lemma_last_occurrence(anchor, ds, j);
        let w = choose|w: int|
            j <= w < ds.len() && is_last_defer(anchor, ds, w) && defer_key(
                anchor,
                #[trigger] ds[w].0,
            ) == defer_key(anchor, ds[j].0);
        assert(ds[w].0 == ds[j].0);
        assert(slot_emitted(ds, ops, w));
        let q = choose|q: int|
            0 <= q < ops.len() && (#[trigger] ops[q]).path@ == ds[w].0 && ops[q].linkname@
                == ds[w].2;
        assert(on[q] == x);
        assert(on.contains(x));
    }
    assert(on.to_set() =~= dn.to_set());
}

/// The clobber map is exact for the first `i` buffered links: distinct
/// keys, each slot the last occurrence of its key so far, every key
/// slotted, and every key interned.
#[verifier::opaque]
spec fn slots_ok(
    anchor: Seq<u8>,
    ds: Seq<(Seq<u8>, Seq<u8>, Seq<u8>)>,
    i: int,
    sv: Seq<(Seq<u8>, int)>,
    nodes: Seq<Vec<u8>>,
) -> bool {
    &&& slots_distinct(sv)
    &&& (forall|p: int|
        0 <= p < sv.len() ==> {
            let s = #[trigger] sv[p];
            &&& 0 <= s.1 < i
            &&& defer_key(anchor, ds[s.1].0) == s.0
            &&& (forall|l: int| s.1 < l < i ==> defer_key(anchor, #[trigger] ds[l].0) != s.0)
        })
    &&& (forall|j: int| 0 <= j < i ==> #[trigger] key_slotted(anchor, ds, sv, j))
    &&& (forall|p: int|
        0 <= p < sv.len() ==> key_interned(nodes, (#[trigger] sv[p]).0))
}

/// The second table only appends to the first.
spec fn nodes_extend(pre: Seq<Vec<u8>>, post: Seq<Vec<u8>>) -> bool {
    &&& pre.len() <= post.len()
    &&& (forall|i: int| 0 <= i < pre.len() ==> post[i]@ == pre[i]@)
}

/// Extending the clobber map with the link at position `i` keeps it exact.
#[verifier::rlimit(100)]
#[verifier::spinoff_prover]
proof fn lemma_slot_update(
    anchor: Seq<u8>,
    ds: Seq<(Seq<u8>, Seq<u8>, Seq<u8>)>,
    i: int,
    pre_sv: Seq<(Seq<u8>, int)>,
    sv: Seq<(Seq<u8>, int)>,
    kv: Seq<u8>,
    nodes_pre: Seq<Vec<u8>>,
    nodes_post: Seq<Vec<u8>>,
)
    requires
        0 <= i < ds.len(),
        kv == defer_key(anchor, ds[i].0),
        slots_distinct(sv),
        sv.contains((kv, i)),
        forall|p: int| 0 <= p < sv.len() && (#[trigger] sv[p]).0 != kv ==> pre_sv.contains(sv[p]),
        forall|p: int|
            0 <= p < pre_sv.len() && (#[trigger] pre_sv[p]).0 != kv ==> sv.contains(pre_sv[p]),
        forall|p: int| 0 <= p < sv.len() && (#[trigger] sv[p]).0 == kv ==> sv[p] == (kv, i),
        slots_ok(anchor, ds, i, pre_sv, nodes_pre),
        nodes_extend(nodes_pre, nodes_post),
        key_interned(nodes_post, kv),
    ensures
        slots_ok(anchor, ds, i + 1, sv, nodes_post),
{
    reveal(slots_ok);
    assert forall|p: int| #![trigger sv[p]] 0 <= p < sv.len() implies {
        let s = sv[p];
        &&& 0 <= s.1 < i + 1
        &&& defer_key(anchor, ds[s.1].0) == s.0
        &&& (forall|l: int| s.1 < l < i + 1 ==> defer_key(anchor, #[trigger] ds[l].0) != s.0)
    } by {
        let s = sv[p];
        if s.0 == kv {
            assert(s == (kv, i));
        } else {
            assert(pre_sv.contains(s));
            let q = choose|q: int| 0 <= q < pre_sv.len() && pre_sv[q] == s;
        }
    }
    assert forall|j: int| 0 <= j < i + 1 implies #[trigger] key_slotted(anchor, ds, sv, j) by {
        if defer_key(anchor, ds[j].0) == kv {
            let p = choose|p: int| 0 <= p < sv.len() && sv[p] == (kv, i);
            assert(0 <= p < sv.len() && sv[p].0 == defer_key(anchor, ds[j].0));
        } else {
            assert(j < i);
            assert(key_slotted(anchor, ds, pre_sv, j));
            let q = choose|q: int|
                0 <= q < pre_sv.len() && (#[trigger] pre_sv[q]).0 == defer_key(anchor, ds[j].0);
            assert(sv.contains(pre_sv[q]));
            let p = choose|p: int| 0 <= p < sv.len() && sv[p] == pre_sv[q];
            assert(sv[p].0 == defer_key(anchor, ds[j].0));
        }
    }
    assert forall|p: int| #![trigger sv[p]] 0 <= p < sv.len() implies key_interned(
        nodes_post,
        sv[p].0,
    ) by {
        if sv[p].0 == kv {
        } else {
            assert(pre_sv.contains(sv[p]));
            let q = choose|q: int| 0 <= q < pre_sv.len() && pre_sv[q] == sv[p];
            assert(key_interned(nodes_pre, pre_sv[q].0));
            let a = choose|a: int|
                0 <= a < nodes_pre.len() && #[trigger] nodes_pre[a]@ == pre_sv[q].0;
            assert(nodes_post[a]@ == nodes_pre[a]@);
        }
    }
}

/// The exact clobber map, the distinct node table and a complete
/// topological order together form a valid emission table.
#[verifier::rlimit(100)]
#[verifier::spinoff_prover]
proof fn lemma_assemble_table(
    anchor: Seq<u8>,
    ds: Seq<(Seq<u8>, Seq<u8>, Seq<u8>)>,
    nodes: Seq<Vec<u8>>,
    sv: Seq<(Seq<u8>, int)>,
    order: Seq<usize>,
    g: DepGraph,
)
    requires
        slots_ok(anchor, ds, ds.len() as int, sv, nodes),
        nodes_wf(nodes, g),
        edges_ok(anchor, ds, ds.len() as int, nodes, g),
        forall|t: int| 0 <= t < order.len() ==> (#[trigger] order[t] as nat) < graph_node_count(g),
        forall|i: int, j: int| 0 <= i < j < order.len() ==> order[i] != order[j],
        forall|v: usize| (v as nat) < graph_node_count(g) ==> #[trigger] order.contains(v),
        respects_edges(order, graph_edges(g)),
    ensures
        order_table_ok(anchor, ds, nodes, sv, order, g),
{
    reveal(slots_ok);
    reveal(order_table_ok);
    assert(forall|t: int| 0 <= t < order.len() ==> (#[trigger] order[t] as int) < nodes.len()) by {
        assert forall|t: int| 0 <= t < order.len() implies (#[trigger] order[t] as int)
            < nodes.len() by {
            assert((order[t] as nat) < graph_node_count(g));
        }
    }
    assert(forall|a: usize| (a as int) < nodes.len() ==> #[trigger] order.contains(a)) by {
        assert forall|a: usize| (a as int) < nodes.len() implies #[trigger] order.contains(a) by {
            assert((a as nat) < graph_node_count(g));
        }
    }
}

/// Adding the edge for the link at position `i` keeps the graph's edges
/// exactly the dependencies of the links seen so far.
#[verifier::rlimit(100)]
#[verifier::spinoff_prover]
proof fn lemma_edges_update(
    anchor: Seq<u8>,
    ds: Seq<(Seq<u8>, Seq<u8>, Seq<u8>)>,
    i: int,
    nodes_pre: Seq<Vec<u8>>,
    nodes_post: Seq<Vec<u8>>,
    g_pre: DepGraph,
    g_post: DepGraph,
    a: int,
    b: int,
)
    requires
        0 <= i < ds.len(),
        edges_ok(anchor, ds, i, nodes_pre, g_pre),
        nodes_extend(nodes_pre, nodes_post),
        graph_edges(g_post) == graph_edges(g_pre).insert((a, b)),
        0 <= a < nodes_post.len(),
        0 <= b < nodes_post.len(),
        nodes_post[a]@ == defer_key(anchor, ds[i].0),
        nodes_post[b]@ == ds[i].1,
    ensures
        edges_ok(anchor, ds, i + 1, nodes_post, g_post),
{
    reveal(edges_ok);
    assert forall|e: (int, int)| #[trigger] graph_edges(g_post).contains(e) implies 0 <= e.0
        < nodes_post.len() && 0 <= e.1 < nodes_post.len() && (exists|j: int|
        0 <= j < i + 1 && defer_key(anchor, (#[trigger] ds[j]).0) == nodes_post[e.0]@ && ds[j].1
            == nodes_post[e.1]@) by {
        if e == (a, b) {
            assert(0 <= i < i + 1 && defer_key(anchor, ds[i].0) == nodes_post[e.0]@ && ds[i].1
                == nodes_post[e.1]@);
        } else {
            assert(graph_edges(g_pre).contains(e));
            let j = choose|j: int|
                0 <= j < i && defer_key(anchor, (#[trigger] ds[j]).0) == nodes_pre[e.0]@
                    && ds[j].1 == nodes_pre[e.1]@;
            assert(nodes_post[e.0]@ == nodes_pre[e.0]@ && nodes_post[e.1]@ == nodes_pre[e.1]@);
            assert(0 <= j < i + 1 && defer_key(anchor, ds[j].0) == nodes_post[e.0]@ && ds[j].1
                == nodes_post[e.1]@);
        }
    }
    assert forall|j: int| 0 <= j < i + 1 implies #[trigger] edge_present(
        anchor,
        ds,
        nodes_post,
        g_post,
        j,
    ) by {
        if j < i {
            assert(edge_present(anchor, ds, nodes_pre, g_pre, j));
            let e = choose|e: (int, int)|
                #[trigger] graph_edges(g_pre).contains(e) && 0 <= e.0 < nodes_pre.len() && 0
                    <= e.1 < nodes_pre.len() && nodes_pre[e.0]@ == defer_key(anchor, ds[j].0)
                    && nodes_pre[e.1]@ == ds[j].1;
            assert(graph_edges(g_post).contains(e));
            assert(nodes_post[e.0]@ == nodes_pre[e.0]@ && nodes_post[e.1]@ == nodes_pre[e.1]@);
        } else {
            assert(graph_edges(g_post).contains((a, b)));
        }
    }
}

/// A cycle among the graph's node indices reads back as a cycle among the
/// buffered links' source keys and targets.
#[verifier::rlimit(100)]
#[verifier::spinoff_prover]
proof fn lemma_int_cycle_to_links(
    anchor: Seq<u8>,
    ds: Seq<(Seq<u8>, Seq<u8>, Seq<u8>)>,
    nodes: Seq<Vec<u8>>,
    g: DepGraph,
)
    requires
        edges_ok(anchor, ds, ds.len() as int, nodes, g),
        has_cycle(graph_edges(g)),
    ensures
        links_have_cycle(anchor, ds),
{
    reveal(edges_ok);
    let p = choose|p: Seq<int>|
        p.len() >= 2 && p.first() == p.last() && (forall|i: int|
            0 <= i < p.len() - 1 ==> #[trigger] graph_edges(g).contains((p[i], p[i + 1])));
    let q = Seq::new(p.len(), |i: int| nodes[p[i]]@);
    assert(q.first() == q.last());
    assert forall|i: int| 0 <= i < q.len() - 1 implies #[trigger] link_edge(
        anchor,
        ds,
        q[i],
        q[i + 1],
    ) by {
        assert(graph_edges(g).contains((p[i], p[i + 1])));
        let j = choose|j: int|
            0 <= j < ds.len() && defer_key(anchor, (#[trigger] ds[j]).0) == nodes[p[i]]@
                && ds[j].1 == nodes[p[i + 1]]@;
        assert(defer_key(anchor, ds[j].0) == q[i] && ds[j].1 == q[i + 1]);
    }
    assert(links_have_cycle(anchor, ds));
}

/// Under a complete topological order the buffered links' dependencies
/// cannot close a cycle.
#[verifier::rlimit(100)]
#[verifier::spinoff_prover]
proof fn lemma_acyclic_when_ordered(
    anchor: Seq<u8>,
    ds: Seq<(Seq<u8>, Seq<u8>, Seq<u8>)>,
    nodes: Seq<Vec<u8>>,
    sv: Seq<(Seq<u8>, int)>,
    order: Seq<usize>,
    g: DepGraph,
)
    requires
        order_table_ok(anchor, ds, nodes, sv, order, g),
        nodes.len() <= usize::MAX as int,
    ensures
        !links_have_cycle(anchor, ds),
{
    reveal(order_table_ok);
    reveal(edges_ok);
    if links_have_cycle(anchor, ds) {
        let q = choose|q: Seq<Seq<u8>>|
            q.len() >= 2 && q.first() == q.last() && (forall|i: int|
                0 <= i < q.len() - 1 ==> #[trigger] link_edge(anchor, ds, q[i], q[i + 1]));
        let p = Seq::new(
            q.len(),
            |i: int| choose|a: int| 0 <= a < nodes.len() && nodes[a]@ == q[i],
        );
        // Every stop of the walk is an interned node, and consecutive
        // stops are joined by a graph edge.
        assert forall|i: int| #![trigger p[i]] 0 <= i < q.len() - 1 implies 0 <= p[i]
            < nodes.len() && nodes[p[i]]@ == q[i] && 0 <= p[i + 1] < nodes.len() && nodes[p[i
            + 1]]@ == q[i + 1] && graph_edges(g).contains((p[i], p[i + 1])) by {
            assert(link_edge(anchor, ds, q[i], q[i + 1]));
            let j = choose|j: int|
                0 <= j < ds.len() && defer_key(anchor, (#[trigger] ds[j]).0) == q[i] && ds[j].1
                    == q[i + 1];
            assert(edge_present(anchor, ds, nodes, g, j));
            let e = choose|e: (int, int)|
                #[trigger] graph_edges(g).contains(e) && 0 <= e.0 < nodes.len() && 0 <= e.1
                    < nodes.len() && nodes[e.0]@ == defer_key(anchor, ds[j].0) && nodes[e.1]@
                    == ds[j].1;
            assert(exists|a: int| 0 <= a < nodes.len() && nodes[a]@ == q[i]) by {
                assert(nodes[e.0]@ == q[i]);
            }
            assert(0 <= p[i] < nodes.len() && nodes[p[i]]@ == q[i]);
            assert(exists|a: int| 0 <= a < nodes.len() && nodes[a]@ == q[i + 1]) by {
                assert(nodes[e.1]@ == q[i + 1]);
            }
            assert(0 <= p[i + 1] < nodes.len() && nodes[p[i + 1]]@ == q[i + 1]);
            assert(p[i] == e.0 && p[i + 1] == e.1);
        }
        assert(p.first() == p.last());
        assert(forall|i: int|
            0 <= i < p.len() - 1 ==> #[trigger] graph_edges(g).contains((p[i], p[i + 1]))) by {
            assert forall|i: int| 0 <= i < p.len() - 1 implies #[trigger] graph_edges(g).contains(
                (p[i], p[i + 1]),
            ) by {
                assert(0 <= p[i] < nodes.len());
            }
        }
        assert forall|i: int| 0 <= i < p.len() implies #[trigger] crate::graph::value_in_order(
            order,
            p[i],
        ) by {
            let v: usize = p[i] as usize;
            if i < p.len() - 1 {
                assert(0 <= p[i] < nodes.len());
            } else {
                assert(p[i] == p[0] && 0 <= p[0] < nodes.len());
            }
            assert(order.contains(v));
            let k = choose|k: int| 0 <= k < order.len() && order[k] == v;
            assert((order[k] as int) == p[i]);
        }
        crate::graph::lemma_walk_positions(order, graph_edges(g), p, p.len() - 1);
        assert(crate::graph::value_in_order(order, p[0]));
        let k0 = choose|k: int| 0 <= k < order.len() && (#[trigger] order[k] as int) == p[0];
        assert(order[k0] as int == p[p.len() - 1]);
        assert(false);
    }
}

/// The emission walk's rising positions turn the order's guarantees into
/// guarantees on the emitted links: dependency order and one link per key.
#[verifier::rlimit(100)]
#[verifier::spinoff_prover]
proof fn lemma_emitted_ordered(
    anchor: Seq<u8>,
    ds: Seq<(Seq<u8>, Seq<u8>, Seq<u8>)>,
    nodes: Seq<Vec<u8>>,
    sv: Seq<(Seq<u8>, int)>,
    order: Seq<usize>,
    g: DepGraph,
    ops: Seq<SymlinkOp>,
    poss: Seq<int>,
)
    requires
        order_table_ok(anchor, ds, nodes, sv, order, g),
        ops_sound(anchor, ds, ops),
        emit_positions_ok(anchor, nodes, order, order.len() as int, ops, poss),
    ensures
        ops_ordered(anchor, ops),
        ops_distinct_keys(anchor, ops),
{
    reveal(order_table_ok);
    reveal(edges_ok);
    reveal(ops_sound);
    reveal(emit_positions_ok);
    reveal(ops_ordered);
    reveal(ops_distinct_keys);
    assert forall|q1: int, q2: int| 0 <= q1 < q2 < ops.len() implies defer_key(
        anchor,
        (#[trigger] ops[q1]).path@,
    ) != defer_key(anchor, (#[trigger] ops[q2]).path@) by {
        assert(0 <= poss[q1] < poss[q2] < order.len());
        let i1 = poss[q1];
        let i2 = poss[q2];
        assert(order[i1] != order[i2]);
        assert(nodes[order[i1] as int]@ != nodes[order[i2] as int]@);
    }
    assert forall|q1: int, q2: int|
        0 <= q1 < ops.len() && 0 <= q2 < ops.len() && q1 != q2 && (#[trigger] ops[q1]).target@
            == defer_key(anchor, (#[trigger] ops[q2]).path@) implies q1 < q2 by {
        assert(op_is_winner(anchor, ds, ops[q1]));
        let j1 = choose|j: int|
            #[trigger] is_last_defer(anchor, ds, j) && ops[q1].path@ == ds[j].0
                && ops[q1].linkname@ == ds[j].2 && ops[q1].target@ == ds[j].1;
        assert(edge_present(anchor, ds, nodes, g, j1));
        let e = choose|e: (int, int)|
            #[trigger] graph_edges(g).contains(e) && 0 <= e.0 < nodes.len() && 0 <= e.1
                < nodes.len() && nodes[e.0]@ == defer_key(anchor, ds[j1].0) && nodes[e.1]@
                == ds[j1].1;
        // The node at this link's own position carries its key, so it is
        // the edge's source; the other link's position carries the target.
        assert(nodes[order[poss[q1]] as int]@ == defer_key(anchor, ops[q1].path@));
        assert(defer_key(anchor, ops[q1].path@) == defer_key(anchor, ds[j1].0));
        assert(order[poss[q1]] as int == e.0);
        assert(nodes[order[poss[q2]] as int]@ == defer_key(anchor, ops[q2].path@));
        assert(order[poss[q2]] as int == e.1);
        assert(graph_edges(g).contains(
            (order[poss[q1]] as int, order[poss[q2]] as int),
        ));
        assert(poss[q1] < poss[q2]);
        if q2 < q1 {
            assert(poss[q2] < poss[q1]);
            assert(false);
        }
    }
}

/// Interns every buffered link's source key and target as graph nodes,
/// adds one edge per link from source to target, and keeps the last link
/// per source key in the clobber map.
#[verifier::rlimit(100)]
#[verifier::spinoff_prover]
fn build_clobber(
    anchor: &AbsoluteSystemPathBuf,
    deferred: &Vec<DeferredSymlink>,
) -> (r: (Vec<Vec<u8>>, DepGraph, Vec<HeaderSlot>))
    requires
        deferred@.len() < 0x3FFF_FFFF,
    ensures
        nodes_wf(r.0@, r.1),
        slots_ok(
            anchor@,
            dviews(deferred@),
            dviews(deferred@).len() as int,
            slot_views(r.2@),
            r.0@,
        ),
        edges_ok(anchor@, dviews(deferred@), dviews(deferred@).len() as int, r.0@, r.1),
{
    let ghost anchor_v = anchor@;
    let ghost ds = dviews(deferred@);
    let mut nodes: Vec<Vec<u8>> = Vec::new();
    let mut g = graph_new();
    let mut slots: Vec<HeaderSlot> = Vec::new();
    proof {
        assert(slots_ok(anchor_v, ds, 0, slot_views(slots@), nodes@)) by {
            reveal(slots_ok);
            assert(slot_views(slots@) =~= Seq::<(Seq<u8>, int)>::empty());
        }
        assert(edges_ok(anchor_v, ds, 0, nodes@, g)) by {
            reveal(edges_ok);
        }
    }
    let n_def: usize = deferred.len();
    let mut i: usize = 0;
    while i < n_def
        invariant
            deferred@.len() < 0x3FFF_FFFF,
            anchor_v == anchor@,
            ds == dviews(deferred@),
            n_def == ds.len(),
            0 <= i <= n_def,
            nodes_wf(nodes@, g),
            nodes@.len() <= 2 * i,
            graph_edge_count(g) == i as nat,
            slots_ok(anchor_v, ds, i as int, slot_views(slots@), nodes@),
            edges_ok(anchor_v, ds, i as int, nodes@, g),
        decreases n_def - i,
    {
        let ghost pre_sv = slot_views(slots@);
        let ghost nodes0 = nodes@;
        let ghost g0 = g;
        let d = &deferred[i];
        let key_path = canonicalize_linkname(anchor, &d.name, d.name.as_path());
        let key = key_path.as_path();
        proof {
            assert(key@ == defer_key(anchor_v, ds[i as int].0));
        }
        let a = intern_node(&mut nodes, &mut g, key);
        let ghost nodes1 = nodes@;
        let b = intern_node(&mut nodes, &mut g, d.target.as_path());
        let ghost g2 = g;
        graph_add_edge(&mut g, a, b);
        proof {
            assert(slots_distinct(slot_views(slots@))) by {
                reveal(slots_ok);
            }
            assert(edges_ok(anchor_v, ds, i as int, nodes@, g2)) by {
                reveal(edges_ok);
                assert(graph_edges(g2) == graph_edges(g0));
                assert(nodes_extend(nodes0, nodes@)) by {
                    assert(nodes_extend(nodes0, nodes1));
                    assert(nodes_extend(nodes1, nodes@));
                }
                assert forall|j: int| 0 <= j < i implies #[trigger] edge_present(
                    anchor_v,
                    ds,
                    nodes@,
                    g2,
                    j,
                ) by {
                    assert(edge_present(anchor_v, ds, nodes0, g0, j));
                    let e = choose|e: (int, int)|
                        #[trigger] graph_edges(g0).contains(e) && 0 <= e.0 < nodes0.len() && 0
                            <= e.1 < nodes0.len() && nodes0[e.0]@ == defer_key(
                            anchor_v,
                            ds[j].0,
                        ) && nodes0[e.1]@ == ds[j].1;
                    assert(graph_edges(g2).contains(e));
                    assert(nodes@[e.0]@ == nodes0[e.0]@ && nodes@[e.1]@ == nodes0[e.1]@);
                }
                assert forall|e: (int, int)| #[trigger] graph_edges(g2).contains(e) implies 0
                    <= e.0 < nodes@.len() && 0 <= e.1 < nodes@.len() && (exists|j: int|
                    0 <= j < i && defer_key(anchor_v, (#[trigger] ds[j]).0) == nodes@[e.0]@
                        && ds[j].1 == nodes@[e.1]@) by {
                    assert(graph_edges(g0).contains(e));
                    let j = choose|j: int|
                        0 <= j < i && defer_key(anchor_v, (#[trigger] ds[j]).0) == nodes0[e.0]@
                            && ds[j].1 == nodes0[e.1]@;
                    assert(nodes@[e.0]@ == nodes0[e.0]@ && nodes@[e.1]@ == nodes0[e.1]@);
                }
            }
            assert(nodes@[b as int]@ == ds[i as int].1);
            assert(nodes@[a as int]@ == defer_key(anchor_v, ds[i as int].0)) by {
                assert(nodes1[a as int]@ == key@);
                assert(nodes@[a as int]@ == key@);
            }
            lemma_edges_update(
                anchor_v,
                ds,
                i as int,
                nodes@,
                nodes@,
                g2,
                g,
                a as int,
                b as int,
            );
        }
        map_put(&mut slots, crate::byteops::bytes_clone(key), i);
        proof {
            assert(nodes_extend(nodes0, nodes@)) by {
                assert(nodes_extend(nodes0, nodes1));
                assert(nodes_extend(nodes1, nodes@));
            }
            assert(key_interned(nodes@, key@)) by {
                assert(nodes1[a as int]@ == key@);
                assert(nodes@[a as int]@ == key@);
            }
            lemma_slot_update(
                anchor_v,
                ds,
                i as int,
                pre_sv,
                slot_views(slots@),
                key@,
                nodes0,
                nodes@,
            );
        }
        i = i + 1;
    }
    (nodes, g, slots)
}

/// Builds the interning table, the clobber map and the topological order
/// for the buffered links. Fails with `CycleDetected` exactly when the
/// links' dependencies close a cycle.
#[verifier::rlimit(100)]
#[verifier::spinoff_prover]
fn build_symlink_order(
    anchor: &AbsoluteSystemPathBuf,
    deferred: &Vec<DeferredSymlink>,
) -> (r: Result<(Vec<Vec<u8>>, Vec<HeaderSlot>, Vec<usize>, DepGraph), CacheError>)
    requires
        deferred@.len() < 0x3FFF_FFFF,
    ensures
        r matches Err(e) ==> e == CacheError::CycleDetected && links_have_cycle(
            anchor@,
            dviews(deferred@),
        ),
        r matches Ok(t) ==> order_table_ok(
            anchor@,
            dviews(deferred@),
            t.0@,
            slot_views(t.1@),
            t.2@,
            t.3,
        ),
{
    let table = build_clobber(anchor, deferred);
    let (nodes, g, slots) = table;
    let order = match graph_toposort(&g) {
        Ok(o) => o,
        Err(e) => {
            proof {
                lemma_int_cycle_to_links(anchor@, dviews(deferred@), nodes@, g);
            }
            return Err(e);
        },
    };
    proof {
        lemma_assemble_table(anchor@, dviews(deferred@), nodes@, slot_views(slots@), order@, g);
    }
    Ok((nodes, slots, order, g))
}

} // verus!
