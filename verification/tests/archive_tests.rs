use proxynexus::archive::{build_zip, ArchiveFile};
use std::io::Read;

#[test]
fn stored_zip_holds_each_file() {
    let files = vec![
        ArchiveFile { name: "card-images/a.png".into(), data: vec![1, 2, 3] },
        ArchiveFile { name: "card-images/b.jpg".into(), data: b"hello".to_vec() },
    ];
    let bytes = build_zip(&files, 0o644, false).unwrap();
    assert_eq!(&bytes[..4], b"PK\x03\x04");
    let mut archive = zip::ZipArchive::new(std::io::Cursor::new(bytes)).unwrap();
    assert_eq!(archive.len(), 2);
    let mut first = archive.by_index(0).unwrap();
    assert_eq!(first.name().unwrap(), "card-images/a.png");
    let mut data = Vec::new();
    first.read_to_end(&mut data).unwrap();
    assert_eq!(data, vec![1, 2, 3]);
    drop(first);
    let mut second = archive.by_name("card-images/b.jpg").unwrap();
    let mut text = String::new();
    second.read_to_string(&mut text).unwrap();
    assert_eq!(text, "hello");
}

#[test]
fn zip_refuses_a_repeated_name() {
    let files = vec![
        ArchiveFile { name: "x".into(), data: vec![1] },
        ArchiveFile { name: "x".into(), data: vec![2] },
    ];
    assert!(build_zip(&files, 0o644, false).is_err());
}

#[test]
fn empty_archive() {
    let bytes = build_zip(&Vec::new(), 0o644, false).unwrap();
    let archive = zip::ZipArchive::new(std::io::Cursor::new(bytes)).unwrap();
    assert_eq!(archive.len(), 0);
}

#[test]
fn zip_records_unix_permissions() {
    let files = vec![ArchiveFile { name: "index.db".into(), data: vec![0; 10] }];
    let bytes = build_zip(&files, 0o755, true).unwrap();
    let mut archive = zip::ZipArchive::new(std::io::Cursor::new(bytes.clone())).unwrap();
    let entry = archive.by_index(0).unwrap();
    assert_eq!(entry.unix_mode().map(|m| m & 0o777), Some(0o755));
    assert_eq!(entry.compression(), zip::CompressionMethod::Deflated);
    drop(entry);
    // the same files give the same bytes
    assert_eq!(build_zip(&files, 0o755, true).unwrap(), bytes);
}

#[test]
fn deflated_files_read_back() {
    let files = vec![ArchiveFile { name: "manifest.toml".into(), data: b"name = \"x\"\n".repeat(50) }];
    let bytes = build_zip(&files, 0o755, true).unwrap();
    let stored = build_zip(&files, 0o755, false).unwrap();
    assert!(bytes.len() < stored.len());
    let mut archive = zip::ZipArchive::new(std::io::Cursor::new(bytes)).unwrap();
    let mut entry = archive.by_name("manifest.toml").unwrap();
    let mut data = Vec::new();
    entry.read_to_end(&mut data).unwrap();
    assert_eq!(data, files[0].data);
}
