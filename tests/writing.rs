use asar::error::Error;
use asar::frame::{read_frame, write_archive};
use asar::{AsarReader, AsarWriter, FileLocation, HashAlgorithm, Header};

fn contents() -> Vec<(&'static str, &'static [u8])> {
    vec![
        ("hello.txt", b"Hello, World!"),
        ("dir a/dir b/nested.txt", b"deep inside"),
        ("dir a/empty.bin", b""),
        ("dir a/x.txt", b"x contents"),
        ("z/last", b"the end"),
    ]
}

fn finish(writer: AsarWriter) -> (Header, Vec<u8>) {
    let (header, content) = writer.into_parts();
    (header, write_archive(b"{\"files\":{}}", &content))
}

#[test]
fn round_trip() {
    let mut writer_a = AsarWriter::new();
    for (path, data) in contents() {
        writer_a.write_file(path, data, false).expect("failed to add asar");
    }
    let (header_a, archive_a) = finish(writer_a);
    let reader_a = AsarReader::new(&archive_a, header_a, None, true).expect("failed to read asar");
    let mut writer = AsarWriter::new();
    writer.add_from_reader(&reader_a).expect("failed to add asar");
    let (header_b, archive_b) = finish(writer);
    let reader_b = AsarReader::new(&archive_b, header_b, None, true).expect("failed to read new asar");
    let files_a = reader_a.files();
    let files_b = reader_b.files();
    let mut missing = Vec::new();
    let mut differs = Vec::new();
    assert_eq!(files_a.len(), files_b.len());
    for (k, v) in files_a {
        match reader_b.read(k) {
            Some(v2) => {
                if v.data() != v2.data() {
                    differs.push(k.to_owned());
                }
            },
            None => missing.push(k.to_owned()),
        }
    }
    for m in &missing {
        println!("missing: {}", m);
    }
    for d in &differs {
        println!("differs: {}", d);
    }
    if !missing.is_empty() || !differs.is_empty() {
        panic!("ASAR archives differ!");
    }
}

#[test]
fn written_files_read_back_byte_for_byte() {
    let mut writer = AsarWriter::new();
    for (path, data) in contents() {
        writer.write_file(path, data, false).expect("write");
    }
    let (header, archive) = finish(writer);
    let reader = AsarReader::new(&archive, header, None, true).expect("read");
    assert_eq!(reader.files().len(), contents().len());
    for (path, data) in contents() {
        assert_eq!(reader.read(path).expect("present").data(), data);
    }
}

#[test]
fn offsets_follow_the_order_of_writing() {
    let mut writer = AsarWriter::new();
    writer.write_file("a", b"12345", false).expect("write");
    writer.write_file("b", b"678", true).expect("write");
    let (header, _) = writer.into_parts();
    let files = match header {
        Header::Directory { files } => files,
        other => panic!("root is not a directory: {:?}", other),
    };
    assert_eq!(files.len(), 2);
    match &files[0] {
        (name, Header::File(f)) => {
            assert_eq!(name, "a");
            assert_eq!(f.offset(), Some(0));
            assert_eq!(f.size(), 5);
            assert!(!f.executable());
        },
        other => panic!("unexpected entry {:?}", other),
    }
    match &files[1] {
        (name, Header::File(f)) => {
            assert_eq!(name, "b");
            assert_eq!(f.location(), FileLocation::offset(5));
            assert_eq!(f.size(), 3);
            assert!(f.executable());
            assert!(!f.unpacked());
            let integrity = f.integrity().expect("integrity");
            assert_eq!(integrity.hash(), HashAlgorithm::Sha256.hash(b"678").as_slice());
        },
        other => panic!("unexpected entry {:?}", other),
    }
}

#[test]
fn duplicate_path_is_rejected_and_first_kept() {
    let mut writer = AsarWriter::new();
    writer.write_file("same.txt", b"first", false).expect("write");
    match writer.write_file("same.txt", b"second", false) {
        Err(Error::FileAlreadyWritten(path)) => assert_eq!(path, "same.txt"),
        other => panic!("unexpected result {:?}", other),
    }
    let (header, archive) = finish(writer);
    let reader = AsarReader::new(&archive, header, None, true).expect("read");
    assert_eq!(reader.files().len(), 1);
    assert_eq!(reader.read("same.txt").expect("present").data(), b"first");
}

#[test]
fn symlink_and_file_share_one_namespace() {
    let mut writer = AsarWriter::new();
    writer.write_symlink("link", "hello.txt").expect("link");
    assert!(matches!(writer.write_file("link", b"x", false), Err(Error::FileAlreadyWritten(_))));
    writer.write_file("hello.txt", b"hi", false).expect("write");
    assert!(matches!(writer.write_symlink("hello.txt", "x"), Err(Error::FileAlreadyWritten(_))));
    let (header, archive) = finish(writer);
    let reader = AsarReader::new(&archive, header, None, false).expect("read");
    assert_eq!(reader.symlinks(), &vec![("link".to_string(), "hello.txt".to_string())]);
    assert_eq!(reader.files().len(), 1);
}

#[test]
fn unclean_paths_are_rejected() {
    let mut writer = AsarWriter::new();
    for bad in ["", "/abs", "a//b", "./a", "a/..", "a/", "..", "a/./b"] {
        match writer.write_file(bad, b"x", false) {
            Err(Error::InvalidPath(p)) => assert_eq!(p, bad),
            other => panic!("{:?} accepted: {:?}", bad, other),
        }
    }
    for good in [".hidden", "a/..b", "...", "a.b/c"] {
        writer.write_file(good, b"x", false).expect("clean path refused");
    }
    assert_eq!(writer.buffer.len(), 4);
}

#[test]
fn empty_writer_gives_empty_archive() {
    let writer = AsarWriter::new();
    let (header, content) = writer.into_parts();
    assert!(content.is_empty());
    match &header {
        Header::Directory { files } => assert!(files.is_empty()),
        other => panic!("root is not a directory: {:?}", other),
    }
    let archive = write_archive(b"{\"files\":{}}", &content);
    let (_, offset) = read_frame(&archive).expect("frame");
    assert_eq!(offset, archive.len());
    let reader = AsarReader::new(&archive, header, None, true).expect("read");
    assert!(reader.files().is_empty());
    assert!(reader.directories().is_empty());
}

#[test]
fn add_from_reader_replays_links_and_executable() {
    let mut writer = AsarWriter::new_with_algorithm(HashAlgorithm::Sha256);
    writer.write_file("bin/tool", b"#!/bin/sh", true).expect("write");
    writer.write_symlink("tool", "bin/tool").expect("link");
    let (header, archive) = finish(writer);
    let reader = AsarReader::new(&archive, header, None, true).expect("read");
    let mut copy = AsarWriter::new();
    copy.add_from_reader(&reader).expect("replay");
    let (header2, archive2) = finish(copy);
    let reader2 = AsarReader::new(&archive2, header2, None, true).expect("read");
    assert!(reader2.read("bin/tool").expect("present").executable());
    assert_eq!(reader2.symlinks(), &vec![("tool".to_string(), "bin/tool".to_string())]);
}

#[test]
fn add_from_reader_stops_at_taken_path() {
    let mut writer = AsarWriter::new();
    writer.write_file("a", b"1", false).expect("write");
    let (header, archive) = finish(writer);
    let reader = AsarReader::new(&archive, header, None, false).expect("read");
    let mut target = AsarWriter::new();
    target.write_file("a", b"other", false).expect("write");
    assert!(matches!(target.add_from_reader(&reader), Err(Error::FileAlreadyWritten(_))));
}

#[test]
fn default_writer_is_empty() {
    let writer = AsarWriter::default();
    assert!(writer.entries.is_empty());
    assert!(writer.buffer.is_empty());
    assert_eq!(writer.hasher, HashAlgorithm::Sha256);
}
