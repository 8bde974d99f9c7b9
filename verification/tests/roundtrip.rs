use cache_archive::create::{header_mode, CacheWriter};
use cache_archive::entry::{KIND_DIRECTORY, KIND_REGULAR, KIND_SYMLINK};
use cache_archive::paths::AnchoredSystemPathBuf;
use cache_archive::restore::CacheReader;

fn anchored(s: &str) -> AnchoredSystemPathBuf {
    AnchoredSystemPathBuf::from_path_buf(s.as_bytes().to_vec()).unwrap()
}

fn build_archive() -> Vec<u8> {
    let mut w = CacheWriter::create();
    let empty: Vec<u8> = Vec::new();
    w.add_entry(&anchored("one"), KIND_DIRECTORY, 0o755, &empty, &empty).unwrap();
    w.add_entry(&anchored("one/file"), KIND_REGULAR, 0o644, &empty, &b"contents".to_vec())
        .unwrap();
    w.add_entry(&anchored("link"), KIND_SYMLINK, 0o644, &b"one/file".to_vec(), &empty).unwrap();
    w.finish().unwrap()
}

#[test]
fn test_write_read_round_trip() {
    let bytes = build_archive();
    let reader = CacheReader::from_bytes(&bytes, true).unwrap();
    let entries = reader.into_entries();
    assert_eq!(entries.len(), 3);

    assert_eq!(entries[0].name, b"one/".to_vec());
    assert_eq!(entries[0].kind, KIND_DIRECTORY);
    assert_eq!(entries[0].mode, 0o755);
    assert_eq!(entries[0].body, Vec::<u8>::new());

    assert_eq!(entries[1].name, b"one/file".to_vec());
    assert_eq!(entries[1].kind, KIND_REGULAR);
    assert_eq!(entries[1].mode, 0o644);
    assert_eq!(entries[1].body, b"contents".to_vec());

    assert_eq!(entries[2].name, b"link".to_vec());
    assert_eq!(entries[2].kind, KIND_SYMLINK);
    assert_eq!(entries[2].link, b"one/file".to_vec());
    assert_eq!(entries[2].body, Vec::<u8>::new());
}

#[test]
fn test_writer_is_byte_stable() {
    let first = build_archive();
    let second = build_archive();
    assert_eq!(first, second);
    // The stream is genuinely compressed: it is not the raw container.
    let raw = CacheReader::from_bytes(&first, false);
    assert!(raw.is_err());
}

#[test]
fn test_writer_rejects_unsupported_kind() {
    let mut w = CacheWriter::create();
    let empty: Vec<u8> = Vec::new();
    let err = w.add_entry(&anchored("fifo"), cache_archive::entry::KIND_FIFO, 0o644, &empty,
        &empty).unwrap_err();
    assert_eq!(err.message(), "attempted to restore unsupported file type: Fifo");
}

#[test]
fn test_writer_rejects_empty_link_target() {
    let mut w = CacheWriter::create();
    let empty: Vec<u8> = Vec::new();
    let err = w.add_entry(&anchored("link"), KIND_SYMLINK, 0o644, &empty, &empty).unwrap_err();
    assert_eq!(err.message(), "IO error: symbolic link entry without a target");
}

#[test]
fn test_writer_rejects_invalid_unicode_name() {
    let mut w = CacheWriter::create();
    let empty: Vec<u8> = Vec::new();
    let bad = AnchoredSystemPathBuf::from_path_buf(vec![b'a', 0xFF, 0xFE]).unwrap();
    let err = w.add_entry(&bad, KIND_REGULAR, 0o644, &empty, &b"x".to_vec()).unwrap_err();
    assert!(matches!(err, cache_archive::error::CacheError::InvalidUnicode(_)));
}

#[test]
fn test_writer_rejects_nul_bytes() {
    // A zero byte is valid UTF-8, but the container refuses it; the
    // writer screens it out before anything reaches the stream.
    let mut w = CacheWriter::create();
    let empty: Vec<u8> = Vec::new();
    let bad = AnchoredSystemPathBuf::from_path_buf(vec![b'a', 0, b'b']).unwrap();
    let err = w.add_entry(&bad, KIND_REGULAR, 0o644, &empty, &b"x".to_vec()).unwrap_err();
    assert_eq!(err.message(), "IO error: provided value contains a nul byte");

    let err = w
        .add_entry(&anchored("link"), KIND_SYMLINK, 0o644, &vec![b't', 0], &empty)
        .unwrap_err();
    assert_eq!(err.message(), "IO error: provided value contains a nul byte");

    // The writer is still clean: a good entry round-trips alone.
    w.add_entry(&anchored("good"), KIND_REGULAR, 0o644, &empty, &b"ok".to_vec()).unwrap();
    let bytes = w.finish().unwrap();
    let entries = CacheReader::from_bytes(&bytes, true).unwrap().into_entries();
    assert_eq!(entries.len(), 1);
    assert_eq!(entries[0].name, b"good".to_vec());
}

#[test]
fn test_reader_rejects_garbage() {
    let garbage = b"this is not a compressed archive".to_vec();
    assert!(CacheReader::from_bytes(&garbage, true).is_err());
}

#[test]
fn test_reader_accepts_foreign_container() {
    // An archive produced directly by the container library, not by this
    // crate's writer, parses the same way.
    let mut builder = tar::Builder::new(Vec::new());
    let mut header = tar::Header::new_gnu();
    header.set_entry_type(tar::EntryType::Regular);
    header.set_size(4);
    header.set_mode(0o600);
    builder.append_data(&mut header, "plain.txt", &b"data"[..]).unwrap();
    let raw = builder.into_inner().unwrap();

    let reader = CacheReader::from_bytes(&raw, false).unwrap();
    let entries = reader.into_entries();
    assert_eq!(entries.len(), 1);
    assert_eq!(entries[0].name, b"plain.txt".to_vec());
    assert_eq!(entries[0].kind, KIND_REGULAR);
    assert_eq!(entries[0].mode, 0o600);
    assert_eq!(entries[0].body, b"data".to_vec());

    let compressed = zstd::stream::encode_all(&raw[..], 0).unwrap();
    let reader = CacheReader::from_bytes(&compressed, true).unwrap();
    assert_eq!(reader.into_entries().len(), 1);
}

#[test]
fn test_long_names_round_trip() {
    let long = "a/".repeat(80) + "leaf-with-a-rather-long-file-name";
    let mut w = CacheWriter::create();
    let empty: Vec<u8> = Vec::new();
    w.add_entry(&anchored(&long), KIND_REGULAR, 0o644, &empty, &b"x".to_vec()).unwrap();
    let bytes = w.finish().unwrap();
    let entries = CacheReader::from_bytes(&bytes, true).unwrap().into_entries();
    assert_eq!(entries[0].name, long.as_bytes().to_vec());
}

#[test]
fn test_header_mode_defaults() {
    assert_eq!(header_mode(KIND_DIRECTORY, None), 0o755);
    assert_eq!(header_mode(KIND_REGULAR, None), 0o644);
    assert_eq!(header_mode(KIND_REGULAR, Some(0o100600)), 0o100600);
}
