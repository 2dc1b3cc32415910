use asar::error::Error;
use asar::frame::write_archive;
use asar::reader::{unpacked_paths, FileData};
use asar::{AsarReader, AsarWriter, File, FileIntegrity, FileLocation, HashAlgorithm, Header};

fn contents() -> Vec<(&'static str, &'static [u8])> {
    vec![
        ("hello.txt", b"Hello, World!"),
        ("dir a/dir b/nested.txt", b"deep inside"),
        ("dir a/empty.bin", b""),
        ("dir a/x.txt", b"x contents"),
    ]
}

fn pack(files: &[(&str, &[u8])]) -> (Header, Vec<u8>) {
    let mut writer = AsarWriter::new();
    for (path, data) in files {
        writer.write_file(path, data, false).expect("failed to write file");
    }
    let (header, content) = writer.into_parts();
    (header, write_archive(b"{\"files\":{}}", &content))
}

fn single_file(name: &str, file: File) -> Header {
    Header::Directory { files: vec![(name.to_string(), Header::File(file))] }
}

#[test]
fn test_reading() {
    let (header, archive) = pack(&contents());
    let reader = AsarReader::new(&archive, header, None, false).expect("failed to read asar");
    assert_eq!(reader.files().len(), contents().len());
    for (path, file) in reader.files() {
        let real_contents = contents()
            .into_iter()
            .find(|(p, _)| *p == path.as_str())
            .map(|(_, d)| d)
            .unwrap_or_else(|| panic!("test.asar contains invalid file {}", path));
        let asar_contents = file.data();
        assert_eq!(real_contents, asar_contents);
    }
}

#[test]
fn reads_files_directories_in_depth_first_order() {
    let (header, archive) = pack(&contents());
    let reader = AsarReader::new(&archive, header, None, true).expect("failed to read asar");
    let paths: Vec<&str> = reader.files().iter().map(|(p, _)| p.as_str()).collect();
    assert_eq!(
        paths,
        vec!["hello.txt", "dir a/dir b/nested.txt", "dir a/empty.bin", "dir a/x.txt"]
    );
    let dirs: Vec<(&str, Vec<&str>)> = reader
        .directories()
        .iter()
        .map(|(p, c)| (p.as_str(), c.iter().map(|s| s.as_str()).collect()))
        .collect();
    assert_eq!(
        dirs,
        vec![
            ("", vec!["hello.txt", "dir a"]),
            ("dir a", vec!["dir a/dir b", "dir a/empty.bin", "dir a/x.txt"]),
            ("dir a/dir b", vec!["dir a/dir b/nested.txt"]),
        ]
    );
    assert!(reader.symlinks().is_empty());
}

#[test]
fn read_and_read_dir_look_up_paths() {
    let (header, archive) = pack(&contents());
    let reader = AsarReader::new(&archive, header, None, false).expect("failed to read asar");
    assert_eq!(reader.read("dir a/x.txt").expect("present").data(), b"x contents");
    assert_eq!(reader.read("hello.txt").expect("present").data(), b"Hello, World!");
    assert!(reader.read("dir a").is_none());
    assert!(reader.read("missing.txt").is_none());
    let children = reader.read_dir("dir a/dir b").expect("present");
    assert_eq!(children, &["dir a/dir b/nested.txt".to_string()]);
    assert!(reader.read_dir("hello.txt").is_none());
}

#[test]
fn integrity_is_recorded_for_each_file() {
    let (header, archive) = pack(&contents());
    let reader = AsarReader::new(&archive, header, None, false).expect("failed to read asar");
    let file = reader.read("hello.txt").expect("present");
    let integrity = file.integrity().expect("integrity present");
    assert_eq!(integrity.algorithm(), HashAlgorithm::Sha256);
    assert_eq!(integrity.hash(), HashAlgorithm::Sha256.hash(b"Hello, World!").as_slice());
    assert_eq!(integrity.block_size(), 4 * 1024 * 1024);
    assert_eq!(integrity.blocks().len(), 1);
    let empty = reader.read("dir a/empty.bin").expect("present");
    assert_eq!(empty.integrity().expect("integrity present").blocks().len(), 0);
}

#[test]
fn truncated_content_is_rejected() {
    let (header, mut archive) = pack(&contents());
    archive.truncate(archive.len() - 1);
    let result = AsarReader::new(&archive, header, None, false);
    assert!(matches!(result, Err(Error::Truncated)));
}

#[test]
fn file_past_the_end_is_truncated() {
    let header = single_file("f", File::new(FileLocation::offset(3), 5, false, None));
    let archive = write_archive(b"{}", b"12345678");
    let (_, offset) = asar::frame::read_frame(&archive).expect("frame");
    let header2 = single_file("f", File::new(FileLocation::offset(3), 5, false, None));
    let ok = AsarReader::new_from_header(header2, offset, &archive, None, false).expect("fits");
    assert_eq!(ok.read("f").expect("present").data(), b"45678");
    let result = AsarReader::new_from_header(header, offset + 1, &archive, None, false);
    assert!(matches!(result, Err(Error::Truncated)));
}

#[test]
fn broken_frame_is_truncated() {
    let header = Header::new();
    assert!(matches!(AsarReader::new(&[1, 2, 3], header, None, false), Err(Error::Truncated)));
}

fn small_block_file(data: &[u8], with_blocks: bool) -> Header {
    let alg = HashAlgorithm::Sha256;
    let blocks = if with_blocks { alg.hash_blocks(4, data) } else { Vec::new() };
    let integrity = FileIntegrity::new(alg, alg.hash(data), 4, blocks);
    single_file("f.bin", File::new(FileLocation::offset(0), data.len(), false, Some(integrity)))
}

#[test]
fn flipped_byte_names_file_and_block() {
    let data = b"0123456789";
    let mut flipped = data.to_vec();
    flipped[9] ^= 0xff;
    let archive = write_archive(b"{}", &flipped);
    match AsarReader::new(&archive, small_block_file(data, true), None, true) {
        Err(Error::HashMismatch { file, block, expected, actual }) => {
            assert_eq!(file, "f.bin");
            assert_eq!(block, Some(3));
            assert_eq!(expected, HashAlgorithm::Sha256.hash(b"89"));
            assert_eq!(actual, HashAlgorithm::Sha256.hash(&flipped[8..10]));
        },
        other => panic!("unexpected result {:?}", other),
    }
}

#[test]
fn flipped_byte_is_ignored_without_verification() {
    let data = b"0123456789";
    let mut flipped = data.to_vec();
    flipped[0] ^= 1;
    let archive = write_archive(b"{}", &flipped);
    let reader = AsarReader::new(&archive, small_block_file(data, true), None, false).expect("read");
    assert_eq!(reader.read("f.bin").expect("present").data(), flipped.as_slice());
}

#[test]
fn whole_digest_mismatch_has_no_block() {
    let data = b"0123456789";
    let mut flipped = data.to_vec();
    flipped[2] ^= 1;
    let archive = write_archive(b"{}", &flipped);
    match AsarReader::new(&archive, small_block_file(data, false), None, true) {
        Err(Error::HashMismatch { file, block, expected, .. }) => {
            assert_eq!(file, "f.bin");
            assert_eq!(block, None);
            assert_eq!(expected, HashAlgorithm::Sha256.hash(data));
        },
        other => panic!("unexpected result {:?}", other),
    }
}

#[test]
fn flipped_byte_in_second_written_block() {
    let data: Vec<u8> = (0..(5 * 1024 * 1024)).map(|i| (i % 251) as u8).collect();
    let mut writer = AsarWriter::new();
    writer.write_file("big.bin", &data, false).expect("write");
    let (header, content) = writer.into_parts();
    let mut archive = write_archive(b"{}", &content);
    let (_, offset) = asar::frame::read_frame(&archive).expect("frame");
    archive[offset + 4 * 1024 * 1024 + 10] ^= 0x01;
    match AsarReader::new(&archive, header, None, true) {
        Err(Error::HashMismatch { file, block, .. }) => {
            assert_eq!(file, "big.bin");
            assert_eq!(block, Some(2));
        },
        other => panic!("unexpected result {:?}", other.map(|r| r.files().len())),
    }
}

fn unpacked_header() -> Header {
    Header::Directory {
        files: vec![
            ("packed.txt".to_string(), Header::File(File::new(FileLocation::offset(0), 3, false, None))),
            (
                "lib".to_string(),
                Header::Directory {
                    files: vec![(
                        "native.node".to_string(),
                        Header::File(File::new(FileLocation::unpacked(), 4, true, None)),
                    )],
                },
            ),
        ],
    }
}

#[test]
fn unpacked_file_without_sidecar_is_empty() {
    let archive = write_archive(b"{}", b"abc");
    let reader = AsarReader::new(&archive, unpacked_header(), None, true).expect("read");
    let file = reader.read("lib/native.node").expect("present");
    assert!(file.data().is_empty());
    assert!(file.executable());
    assert_eq!(reader.read("packed.txt").expect("present").data(), b"abc");
}

#[test]
fn unpacked_file_takes_supplied_content() {
    let archive = write_archive(b"{}", b"abc");
    let table = vec![("lib/native.node".to_string(), b"\x7fELF".to_vec())];
    let reader = AsarReader::new(&archive, unpacked_header(), Some(table), false).expect("read");
    assert_eq!(reader.read("lib/native.node").expect("present").data(), b"\x7fELF");
}

#[test]
fn unpacked_file_missing_from_table_fails() {
    let archive = write_archive(b"{}", b"abc");
    let result = AsarReader::new(&archive, unpacked_header(), Some(Vec::new()), false);
    match result {
        Err(Error::UnpackedMissing(path)) => assert_eq!(path, "lib/native.node"),
        other => panic!("unexpected result {:?}", other.map(|r| r.files().len())),
    }
}

#[test]
fn lists_unpacked_paths() {
    assert_eq!(unpacked_paths(&unpacked_header()), vec!["lib/native.node".to_string()]);
    assert!(unpacked_paths(&Header::new()).is_empty());
}

#[test]
fn links_are_recorded() {
    let header = Header::Directory {
        files: vec![
            ("a".to_string(), Header::Link { link: "b/c".to_string() }),
            ("b".to_string(), Header::Directory { files: vec![] }),
        ],
    };
    let archive = write_archive(b"{}", b"");
    let reader = AsarReader::new(&archive, header, None, false).expect("read");
    assert_eq!(reader.symlinks(), &vec![("a".to_string(), "b/c".to_string())]);
    assert!(reader.files().is_empty());
    assert_eq!(reader.directories().len(), 1);
}

#[test]
fn packed_content_is_borrowed_and_unpacked_content_owned() {
    let archive = write_archive(b"{}", b"abc");
    let table = vec![("lib/native.node".to_string(), b"\x7fELF".to_vec())];
    let reader = AsarReader::new(&archive, unpacked_header(), Some(table), false).expect("read");
    assert!(matches!(reader.read("packed.txt").expect("present").data, FileData::Borrowed(_)));
    assert!(matches!(reader.read("lib/native.node").expect("present").data, FileData::Owned(_)));
}
