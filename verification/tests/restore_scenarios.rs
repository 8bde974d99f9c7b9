use cache_archive::error::CacheError;
use cache_archive::paths::{AbsoluteSystemPathBuf, AnchoredSystemPathBuf};
use cache_archive::restore::{has_zst_extension, resolve_link_within, CacheReader, RestoreSession,
    RestoreStep};

enum TarFile {
    File { path: &'static str, body: &'static [u8] },
    Directory { path: &'static str },
    Symlink { link_path: &'static str, link_target: &'static str },
    Fifo { path: &'static str },
}

struct TestCase {
    #[allow(dead_code)]
    name: &'static str,
    input_files: Vec<TarFile>,
    expected_output: Result<Vec<&'static str>, String>,
}

/// Writes a header verbatim, bypassing the container library's own path
/// hygiene, to model archives built by hostile or foreign producers.
fn append_raw(
    b: &mut tar::Builder<Vec<u8>>,
    name: &str,
    etype: tar::EntryType,
    mode: u32,
    body: &[u8],
) {
    let mut h = tar::Header::new_gnu();
    {
        let bytes = h.as_mut_bytes();
        bytes[..name.len()].copy_from_slice(name.as_bytes());
    }
    h.set_entry_type(etype);
    h.set_size(body.len() as u64);
    h.set_mode(mode);
    h.set_cksum();
    b.append(&h, body).unwrap();
}

fn generate_tar(files: &[TarFile]) -> Vec<u8> {
    let mut tar_writer = tar::Builder::new(Vec::new());
    for file in files {
        match file {
            TarFile::File { path, body } => {
                if path.contains("..") {
                    append_raw(&mut tar_writer, path, tar::EntryType::Regular, 0o644, body);
                } else {
                    let mut header = tar::Header::new_gnu();
                    header.set_size(body.len() as u64);
                    header.set_entry_type(tar::EntryType::Regular);
                    header.set_mode(0o644);
                    tar_writer.append_data(&mut header, path, &body[..]).unwrap();
                }
            }
            TarFile::Directory { path } => {
                let mut header = tar::Header::new_gnu();
                header.set_entry_type(tar::EntryType::Directory);
                header.set_size(0);
                header.set_mode(0o755);
                tar_writer.append_data(&mut header, path, std::io::empty()).unwrap();
            }
            TarFile::Symlink { link_path, link_target } => {
                let mut header = tar::Header::new_gnu();
                header.set_username("foo").unwrap();
                header.set_entry_type(tar::EntryType::Symlink);
                header.set_size(0);
                tar_writer.append_link(&mut header, link_path, link_target).unwrap();
            }
            TarFile::Fifo { path } => {
                let mut header = tar::Header::new_gnu();
                header.set_entry_type(tar::EntryType::Fifo);
                header.set_size(0);
                tar_writer.append_data(&mut header, path, std::io::empty()).unwrap();
            }
        }
    }
    tar_writer.into_inner().unwrap()
}

const ANCHOR: &[u8] = b"/anchor";

struct DiskModel {
    existing: Vec<Vec<u8>>,
    dirs: Vec<Vec<u8>>,
    links: Vec<(Vec<u8>, Vec<u8>)>,
}

fn join_anchor(rel: &[u8]) -> Vec<u8> {
    let mut out = ANCHOR.to_vec();
    out.push(b'/');
    out.extend_from_slice(rel);
    out
}

/// Walks the parent components of a path about to be written, resolving
/// any symbolic link met on the way and holding it inside the anchor, as
/// the on-disk executor does.
fn check_parents(
    anchor: &AbsoluteSystemPathBuf,
    disk: &DiskModel,
    rel: &[u8],
) -> Result<(), String> {
    for (i, b) in rel.iter().enumerate() {
        if *b == b'/' {
            let prefix = &rel[..i];
            let abs = join_anchor(prefix);
            if let Some((_, target)) = disk.links.iter().find(|(k, _)| k == &abs) {
                let source = AnchoredSystemPathBuf::from_path_buf(prefix.to_vec()).unwrap();
                resolve_link_within(anchor, &source, target).map_err(|e| e.message())?;
            }
        }
    }
    Ok(())
}

/// Drives one restore over an in-memory picture of the anchor: the
/// session decides, this loop plays the filesystem.
fn run_restore(archive: &[u8], is_compressed: bool) -> Result<Vec<String>, String> {
    let anchor = AbsoluteSystemPathBuf::new(ANCHOR.to_vec()).unwrap();
    let reader =
        CacheReader::from_bytes(&archive.to_vec(), is_compressed).map_err(|e| e.message())?;
    let entries = reader.into_entries();
    let mut session = RestoreSession::new(anchor.to_owned());
    let mut disk = DiskModel {
        existing: vec![ANCHOR.to_vec()],
        dirs: vec![ANCHOR.to_vec()],
        links: Vec::new(),
    };
    for entry in &entries {
        match session.on_entry(entry) {
            Err(e) => return Err(e.message()),
            Ok(RestoreStep::MakeDir(path, _mode)) => {
                check_parents(&anchor, &disk, path.as_path())?;
                let abs = join_anchor(path.as_path());
                if !disk.existing.contains(&abs) {
                    disk.existing.push(abs.clone());
                }
                if !disk.dirs.contains(&abs) {
                    disk.dirs.push(abs);
                }
            }
            Ok(RestoreStep::WriteFile(path, _mode)) => {
                check_parents(&anchor, &disk, path.as_path())?;
                let abs = join_anchor(path.as_path());
                if disk.dirs.contains(&abs) {
                    return Err(
                        CacheError::Io("Is a directory (os error 21)".to_string()).message(),
                    );
                }
                if !disk.existing.contains(&abs) {
                    disk.existing.push(abs);
                }
            }
            Ok(RestoreStep::StatTarget(target)) => {
                let exists = disk.existing.contains(target.as_path());
                if let Some(op) = session.on_target_exists(exists) {
                    let abs = join_anchor(op.path.as_path());
                    disk.links.retain(|(k, _)| k != &abs);
                    disk.links.push((abs.clone(), op.linkname.clone()));
                    if !disk.existing.contains(&abs) {
                        disk.existing.push(abs);
                    }
                }
            }
        }
    }
    let ops = session.finish_symlinks().map_err(|e| e.message())?;
    for op in &ops {
        let abs = join_anchor(op.path.as_path());
        disk.links.retain(|(k, _)| k != &abs);
        disk.links.push((abs.clone(), op.linkname.clone()));
        if !disk.existing.contains(&abs) {
            disk.existing.push(abs);
        }
    }
    let mut out = Vec::new();
    for p in session.into_restored() {
        out.push(p.to_str().map_err(|e| e.message())?);
    }
    Ok(out)
}

#[test]
fn test_name_traversal() {
    let tar_bytes = generate_tar(&[TarFile::File { path: "../escape", body: b"file" }]);
    let result = run_restore(&tar_bytes, false);
    assert!(result.is_err());
    assert_eq!(result.unwrap_err(), "file name is malformed: ../escape");

    let compressed = zstd::stream::encode_all(&tar_bytes[..], 0).unwrap();
    let result = run_restore(&compressed, true);
    assert!(result.is_err());
    assert_eq!(result.unwrap_err(), "file name is malformed: ../escape");
}

#[test]
fn test_restore() {
    let tests = vec![
        TestCase {
            name: "cache optimized",
            input_files: vec![
                TarFile::Directory { path: "one/" },
                TarFile::Directory { path: "one/two/" },
                TarFile::Directory { path: "one/two/three/" },
                TarFile::Directory { path: "one/two/a/" },
                TarFile::File { path: "one/two/three/file-one", body: b"" },
                TarFile::File { path: "one/two/three/file-two", body: b"" },
                TarFile::File { path: "one/two/a/file", body: b"" },
                TarFile::Directory { path: "one/two/b/" },
                TarFile::File { path: "one/two/b/file", body: b"" },
            ],
            expected_output: Ok(vec![
                "one",
                "one/two",
                "one/two/three",
                "one/two/a",
                "one/two/three/file-one",
                "one/two/three/file-two",
                "one/two/a/file",
                "one/two/b",
                "one/two/b/file",
            ]),
        },
        TestCase {
            name: "pathological cache works",
            input_files: vec![
                TarFile::Directory { path: "one/" },
                TarFile::Directory { path: "one/two/" },
                TarFile::Directory { path: "one/two/a/" },
                TarFile::Directory { path: "one/two/b/" },
                TarFile::Directory { path: "one/two/three/" },
                TarFile::File { path: "one/two/a/file", body: b"" },
                TarFile::File { path: "one/two/b/file", body: b"" },
                TarFile::File { path: "one/two/three/file-one", body: b"" },
                TarFile::File { path: "one/two/three/file-two", body: b"" },
            ],
            expected_output: Ok(vec![
                "one",
                "one/two",
                "one/two/a",
                "one/two/b",
                "one/two/three",
                "one/two/a/file",
                "one/two/b/file",
                "one/two/three/file-one",
                "one/two/three/file-two",
            ]),
        },
        TestCase {
            name: "symlink hello world",
            input_files: vec![
                TarFile::Directory { path: "target" },
                TarFile::Symlink { link_path: "source", link_target: "target" },
            ],
            expected_output: Ok(vec!["target", "source"]),
        },
        TestCase {
            name: "nested file",
            input_files: vec![
                TarFile::Directory { path: "folder/" },
                TarFile::File { path: "folder/file", body: b"file" },
            ],
            expected_output: Ok(vec!["folder", "folder/file"]),
        },
        TestCase {
            name: "nested symlink",
            input_files: vec![
                TarFile::Directory { path: "folder/" },
                TarFile::Symlink { link_path: "folder/symlink", link_target: "../" },
                TarFile::File { path: "folder/symlink/folder-sibling", body: b"folder-sibling" },
            ],
            expected_output: Ok(vec![
                "folder",
                "folder/symlink",
                "folder/symlink/folder-sibling",
            ]),
        },
        TestCase {
            name: "pathological symlinks",
            input_files: vec![
                TarFile::Symlink { link_path: "one", link_target: "two" },
                TarFile::Symlink { link_path: "two", link_target: "three" },
                TarFile::Symlink { link_path: "three", link_target: "real" },
                TarFile::File { path: "real", body: b"real" },
            ],
            expected_output: Ok(vec!["real", "one", "two", "three"]),
        },
        TestCase {
            name: "place file at dir location",
            input_files: vec![
                TarFile::Directory { path: "folder-not-file/" },
                TarFile::File { path: "folder-not-file/subfile", body: b"subfile" },
                TarFile::File { path: "folder-not-file", body: b"this shouldn't work" },
            ],
            expected_output: Err("IO error: Is a directory (os error 21)".to_string()),
        },
        TestCase {
            name: "symlink cycle",
            input_files: vec![
                TarFile::Symlink { link_path: "one", link_target: "two" },
                TarFile::Symlink { link_path: "two", link_target: "three" },
                TarFile::Symlink { link_path: "three", link_target: "one" },
            ],
            expected_output: Err("links in the cache are cyclic".to_string()),
        },
        TestCase {
            name: "symlink clobber",
            input_files: vec![
                TarFile::Symlink { link_path: "one", link_target: "two" },
                TarFile::Symlink { link_path: "one", link_target: "three" },
                TarFile::Symlink { link_path: "one", link_target: "real" },
                TarFile::File { path: "real", body: b"real" },
            ],
            expected_output: Ok(vec!["real", "one"]),
        },
        TestCase {
            name: "symlink traversal",
            input_files: vec![
                TarFile::Symlink { link_path: "escape", link_target: "../" },
                TarFile::File { path: "escape/file", body: b"file" },
            ],
            expected_output: Err("tar attempts to write outside of directory: ../".to_string()),
        },
        TestCase {
            name: "Double indirection: file",
            input_files: vec![
                TarFile::Symlink { link_path: "up", link_target: "../" },
                TarFile::Symlink { link_path: "link", link_target: "up" },
                TarFile::File { path: "link/outside-file", body: b"file" },
            ],
            expected_output: Err("tar attempts to write outside of directory: ../".to_string()),
        },
        TestCase {
            name: "Double indirection: folder",
            input_files: vec![
                TarFile::Symlink { link_path: "up", link_target: "../" },
                TarFile::Symlink { link_path: "link", link_target: "up" },
                TarFile::Directory { path: "link/level-one/level-two" },
            ],
            expected_output: Err("tar attempts to write outside of directory: ../".to_string()),
        },
        TestCase {
            name: "windows unsafe",
            input_files: vec![TarFile::File { path: "back\\slash\\file", body: b"file" }],
            expected_output: Ok(vec!["back\\slash\\file"]),
        },
        TestCase {
            name: "fifo (and others) unsupported",
            input_files: vec![TarFile::Fifo { path: "fifo" }],
            expected_output: Err(
                "attempted to restore unsupported file type: Fifo".to_string(),
            ),
        },
        TestCase {
            name: "duplicate restores",
            input_files: vec![
                TarFile::File { path: "target", body: b"target" },
                TarFile::Symlink { link_path: "source", link_target: "target" },
                TarFile::Directory { path: "one/" },
                TarFile::Directory { path: "one/two/" },
            ],
            expected_output: Ok(vec!["target", "source", "one", "one/two"]),
        },
    ];

    for is_compressed in [true, false] {
        for test in &tests {
            let raw = generate_tar(&test.input_files);
            let archive = if is_compressed {
                zstd::stream::encode_all(&raw[..], 0).unwrap()
            } else {
                raw
            };
            match (run_restore(&archive, is_compressed), &test.expected_output) {
                (Ok(restored), Err(expected)) => {
                    panic!("{}: expected error {:?}, got {:?}", test.name, expected, restored);
                }
                (Ok(restored), Ok(expected)) => {
                    assert_eq!(&restored, expected, "case: {}", test.name);
                }
                (Err(err), Err(expected)) => {
                    assert_eq!(&err, expected, "case: {}", test.name);
                }
                (Err(err), Ok(_)) => {
                    panic!("{}: unexpected error: {:?}", test.name, err);
                }
            }
        }
    }
}

#[test]
fn test_symlink_clobber_wins_last_target() {
    // Three links named the same: the link created points at the last
    // target, and the target text is stored verbatim.
    let archive = generate_tar(&[
        TarFile::Symlink { link_path: "one", link_target: "two" },
        TarFile::Symlink { link_path: "one", link_target: "three" },
        TarFile::Symlink { link_path: "one", link_target: "real" },
        TarFile::File { path: "real", body: b"real" },
    ]);
    let anchor = AbsoluteSystemPathBuf::new(ANCHOR.to_vec()).unwrap();
    let reader = CacheReader::from_bytes(&archive, false).unwrap();
    let entries = reader.into_entries();
    let mut session = RestoreSession::new(anchor);
    for entry in &entries {
        match session.on_entry(entry).unwrap() {
            RestoreStep::StatTarget(_) => {
                // None of the targets exist yet: every link defers.
                assert!(session.on_target_exists(false).is_none());
            }
            _ => {}
        }
    }
    let ops = session.finish_symlinks().unwrap();
    assert_eq!(ops.len(), 1);
    assert_eq!(ops[0].path.to_str().unwrap(), "one");
    assert_eq!(ops[0].linkname, b"real".to_vec());
    assert_eq!(ops[0].target.to_str().unwrap(), "/anchor/real");
}

#[test]
fn test_malformed_name_wins_over_unsupported_kind() {
    // The name is validated before the kind is looked at: an unsupported
    // entry with a traversal name fails as malformed.
    let archive = generate_tar(&[TarFile::Fifo { path: "fifo" }]);
    let entries = CacheReader::from_bytes(&archive, false).unwrap().into_entries();
    let mut bad = cache_archive::entry::ArchiveEntry {
        name: b"../fifo".to_vec(),
        kind: entries[0].kind,
        mode: entries[0].mode,
        link: Vec::new(),
        body: Vec::new(),
    };
    let anchor = AbsoluteSystemPathBuf::new(ANCHOR.to_vec()).unwrap();
    let mut session = RestoreSession::new(anchor);
    let err = session.on_entry(&mut bad).unwrap_err();
    assert_eq!(err.message(), "file name is malformed: ../fifo");
}

#[test]
fn test_zst_extension_rules() {
    assert!(has_zst_extension(&b"/tmp/cache.zst".to_vec()));
    assert!(has_zst_extension(&b"/tmp/cache.zst/".to_vec()));
    assert!(has_zst_extension(&b"a.b.zst".to_vec()));
    assert!(!has_zst_extension(&b"/tmp/.zst".to_vec()));
    assert!(!has_zst_extension(&b"cache-zst".to_vec()));
    assert!(!has_zst_extension(&b"cache.tar".to_vec()));
}

#[test]
fn test_rejected_entry_changes_nothing() {
    // A malformed name aborts before any step is handed out, and the
    // restored list stays as it was.
    let archive = generate_tar(&[
        TarFile::Directory { path: "good/" },
        TarFile::File { path: "../escape", body: b"file" },
    ]);
    let anchor = AbsoluteSystemPathBuf::new(ANCHOR.to_vec()).unwrap();
    let entries = CacheReader::from_bytes(&archive, false).unwrap().into_entries();
    let mut session = RestoreSession::new(anchor);
    assert!(matches!(session.on_entry(&entries[0]), Ok(RestoreStep::MakeDir(_, _))));
    let err = session.on_entry(&entries[1]).unwrap_err();
    assert_eq!(err.message(), "file name is malformed: ../escape");
    let restored = session.into_restored();
    assert_eq!(restored.len(), 1);
    assert_eq!(restored[0].to_str().unwrap(), "good");
}
