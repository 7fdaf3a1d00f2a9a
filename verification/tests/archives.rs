use std::io::{Cursor, Write};

use ckan_meta_rs::archive::{archive_kind, load_archive, ArchiveError};

fn zip_bytes(files: &[(&str, &[u8])]) -> Vec<u8> {
    let mut writer = zip::ZipWriter::new(Cursor::new(Vec::new()));
    let options = zip::write::SimpleFileOptions::default()
        .compression_method(zip::CompressionMethod::Deflated);
    for (name, data) in files {
        writer.start_file(*name, options).expect("zip entry should start");
        writer.write_all(data).expect("zip entry should be written");
    }
    writer.finish().expect("zip should finish").into_inner()
}

fn tar_gz_bytes(files: &[(&str, &[u8])]) -> Vec<u8> {
    let encoder = flate2::write::GzEncoder::new(Vec::new(), flate2::Compression::default());
    let mut builder = tar::Builder::new(encoder);
    for (name, data) in files {
        let mut header = tar::Header::new_gnu();
        header.set_size(data.len() as u64);
        header.set_mode(0o644);
        header.set_cksum();
        builder.append_data(&mut header, name, *data).expect("tar entry should be written");
    }
    builder
        .into_inner()
        .expect("tar should finish")
        .finish()
        .expect("gzip should finish")
}

#[test]
fn archive_kinds_follow_the_file_name() {
    assert!(matches!(archive_kind("CKAN-meta-master.zip"), Ok("zip")));
    assert!(matches!(archive_kind("meta.tar.gz"), Ok("tar.gz")));
    assert!(matches!(archive_kind("meta.tgz"), Ok("tar.gz")));
    match archive_kind("meta.rar") {
        Err(ArchiveError::UnsupportedArchiveType { file_name }) => assert_eq!(file_name, "meta.rar"),
        _ => panic!("rar should be refused"),
    }
}

#[test]
fn zip_archives_load_their_relevant_entries() {
    let bytes = zip_bytes(&[
        ("CKAN-meta/A.ckan", b"{\"identifier\": \"A\"}"),
        ("CKAN-meta/README.md", b"\xff\xfe not text"),
        ("CKAN-meta/builds.json", b"{}"),
    ]);
    let load = match load_archive(bytes, "zip") {
        Ok(load) => load,
        Err(_) => panic!("the zip should load"),
    };
    assert_eq!(load.archive_entries, 3);
    assert_eq!(load.entries.len(), 2);
    assert_eq!(load.entries[0].path, "CKAN-meta/A.ckan");
    assert_eq!(load.entries[0].contents, "{\"identifier\": \"A\"}");
    assert_eq!(load.entries[1].path, "CKAN-meta/builds.json");
    assert_eq!(load.bytes_read, 21);
}

#[test]
fn tar_gz_archives_load_their_relevant_entries() {
    let bytes = tar_gz_bytes(&[
        ("meta/B.ckan", b"{\"identifier\": \"B\"}"),
        ("meta/logo.png", b"\x89PNG\xff"),
        ("meta/download_counts.json", b"{\"B\": 3}"),
    ]);
    let load = match load_archive(bytes, "tar.gz") {
        Ok(load) => load,
        Err(_) => panic!("the tar.gz should load"),
    };
    assert_eq!(load.archive_entries, 3);
    assert_eq!(load.entries.len(), 2);
    assert_eq!(load.entries[0].path, "meta/B.ckan");
    assert_eq!(load.entries[1].contents, "{\"B\": 3}");
    assert_eq!(load.bytes_read, 27);
}

#[test]
fn unreadable_archives_and_kinds_are_refused() {
    assert!(matches!(load_archive(b"not a zip".to_vec(), "zip"), Err(ArchiveError::Unreadable { .. })));
    match load_archive(Vec::new(), "rar") {
        Err(ArchiveError::UnsupportedKind { kind }) => assert_eq!(kind, "rar"),
        _ => panic!("rar should be refused"),
    }
    let bytes = zip_bytes(&[("X.ckan", b"\xff\xfe")]);
    match load_archive(bytes, "zip") {
        Err(ArchiveError::NotText { path }) => assert_eq!(path, "X.ckan"),
        _ => panic!("binary ckan data should be refused"),
    }
}

#[test]
fn binary_data_outside_relevant_entries_is_fine() {
    let bytes = zip_bytes(&[("logo.png", b"\xff\xfe"), ("A.ckan", b"{}")]);
    match load_archive(bytes, "zip") {
        Ok(load) => {
            assert_eq!(load.archive_entries, 2);
            assert_eq!(load.entries.len(), 1);
        }
        Err(_) => panic!("an irrelevant binary entry should not stop the load"),
    }
    let bytes = tar_gz_bytes(&[("logo.png", b"\xff\xfe"), ("A.ckan", b"{}")]);
    assert!(load_archive(bytes, "tar.gz").is_ok());
}

#[test]
fn tar_gz_reports_text_errors_before_later_damage() {
    let mut bytes = tar_gz_bytes(&[("X.ckan", b"\xff\xfe"), ("B.ckan", b"{}")]);
    let cut = bytes.len() - 12;
    bytes.truncate(cut);
    match load_archive(bytes, "tar.gz") {
        Err(ArchiveError::NotText { path }) => assert_eq!(path, "X.ckan"),
        _ => panic!("the non-text entry comes first"),
    }
    let mut damaged = tar_gz_bytes(&[("A.ckan", b"{}"), ("B.ckan", b"{}")]);
    let cut = damaged.len() - 12;
    damaged.truncate(cut);
    assert!(matches!(load_archive(damaged, "tar.gz"), Err(ArchiveError::Unreadable { .. })));
    assert!(matches!(load_archive(b"not gzip".to_vec(), "tar.gz"), Err(ArchiveError::Unreadable { .. })));
}
