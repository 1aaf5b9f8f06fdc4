use std::sync::Arc;
use valve_pak::error::{FormatError, VpkError};
use valve_pak::file::SeekFrom;
use valve_pak::vpk::{ScannedFile, VPKVersion, VPK};

fn scanned(path: &str, data: &[u8]) -> ScannedFile {
    let file_name = match path.rfind('/') {
        Some(at) => &path[at + 1..],
        None => path,
    };
    ScannedFile {
        relative_path: path.to_string(),
        file_name: file_name.to_string(),
        data: data.to_vec(),
    }
}

/// The files of the sample directory.
fn create_test_directory() -> Vec<ScannedFile> {
    vec![
        scanned("readme.txt", b"This is a test readme file.\nSecond line.\n"),
        scanned("config.cfg", b"setting1=value1\nsetting2=value2\n"),
        scanned("scripts/test.lua", b"print('Hello from Lua')\n"),
        scanned("textures/test.dds", &[0u8; 256]),
        scanned("sounds/beep.wav", &[0x52, 0x49, 0x46, 0x46, 0x24, 0x00, 0x00, 0x00]),
    ]
}

/// Packs `files`, and opens what was saved as the file `name`.
fn pack_and_open(files: Vec<ScannedFile>, name: &str) -> (VPK, Option<Arc<Vec<u8>>>) {
    let vpk = VPK::from_directory(files).unwrap();
    let bytes = vpk.save().unwrap();
    (VPK::open(name.to_string(), &bytes).unwrap(), Some(Arc::new(bytes)))
}

#[test]
fn lib_test_create_and_read_vpk() {
    let vpk = valve_pak::from_directory(vec![scanned("test.txt", b"Hello, World!")]).unwrap();
    let bytes = vpk.save().unwrap();

    let vpk = valve_pak::open("test.vpk".to_string(), &bytes).unwrap();
    assert!(vpk.contains("test.txt"));
}

#[test]
fn test_create_and_read_vpk() {
    let vpk = VPK::from_directory(create_test_directory()).unwrap();
    assert_eq!(vpk.file_count(), 5);
    let bytes = vpk.save().unwrap();

    let vpk = VPK::open("test.vpk".to_string(), &bytes).unwrap();
    assert_eq!(vpk.file_count(), 5);
    assert!(vpk.contains("readme.txt"));
    assert!(vpk.contains("scripts/test.lua"));
    assert!(vpk.contains("textures/test.dds"));
}

#[test]
fn test_file_operations() {
    let (vpk, bytes) = pack_and_open(create_test_directory(), "test.vpk");
    let mut file = vpk.get_file("readme.txt", bytes).unwrap();

    let content = file.read_all_string().unwrap();
    assert_eq!(content, "This is a test readme file.\nSecond line.\n");

    file.seek(SeekFrom::Start(5)).unwrap();
    let mut buffer = [0u8; 2];
    assert_eq!(file.read(&mut buffer), 2);
    assert_eq!(&buffer, b"is");

    assert!(file.length() > 0);
}

#[test]
fn test_file_verification() {
    let (vpk, bytes) = pack_and_open(create_test_directory(), "test.vpk");
    let mut file = vpk.get_file("readme.txt", bytes).unwrap();

    assert!(file.verify());
}

#[test]
fn test_binary_file_operations() {
    let (vpk, bytes) = pack_and_open(create_test_directory(), "test.vpk");
    let mut file = vpk.get_file("textures/test.dds", bytes).unwrap();

    let data = file.read_all();
    assert_eq!(data.len(), 256);
    assert!(data.iter().all(|&b| b == 0));
}

#[test]
fn test_extract_all_files() {
    let (vpk, bytes) = pack_and_open(create_test_directory(), "test.vpk");

    let mut extracted: Vec<(String, Vec<u8>)> = Vec::new();
    for file_path in vpk.file_paths() {
        let mut vpk_file = vpk.get_file(&file_path, bytes.clone()).unwrap();
        let mut output = Vec::new();
        vpk_file.save(&mut output);
        extracted.push((file_path, output));
    }

    assert!(extracted.iter().any(|(p, _)| p == "readme.txt"));
    assert!(extracted.iter().any(|(p, _)| p == "scripts/test.lua"));

    let readme = extracted.iter().find(|(p, _)| p == "readme.txt").unwrap();
    assert_eq!(
        String::from_utf8(readme.1.clone()).unwrap(),
        "This is a test readme file.\nSecond line.\n"
    );
}

#[test]
fn test_vpk_version_info() {
    let vpk = VPK::from_directory(create_test_directory()).unwrap();
    assert_eq!(vpk.version(), valve_pak::vpk::VPKVersion::V2);
    let bytes = vpk.save().unwrap();

    let vpk = VPK::open("test.vpk".to_string(), &bytes).unwrap();
    assert_eq!(vpk.version(), valve_pak::vpk::VPKVersion::V2);
}

#[test]
fn test_empty_directory() {
    let vpk = VPK::from_directory(Vec::new()).unwrap();
    assert_eq!(vpk.file_count(), 0);
    let bytes = vpk.save().unwrap();

    let vpk = VPK::open("empty.vpk".to_string(), &bytes).unwrap();
    assert_eq!(vpk.file_count(), 0);
    assert!(vpk.list_files().is_empty());
}

#[test]
fn test_large_file() {
    let large_data: Vec<u8> = (0..10240).map(|i| (i % 256) as u8).collect();
    let (vpk, bytes) = pack_and_open(vec![scanned("large.bin", &large_data)], "large.vpk");
    let mut file = vpk.get_file("large.bin", bytes).unwrap();

    assert_eq!(file.length(), 10240);

    let read_data = file.read_all();
    assert_eq!(read_data.len(), large_data.len());
    assert_eq!(read_data, large_data);
}

#[test]
fn test_file_with_no_extension_fails() {
    let result = VPK::from_directory(vec![scanned("no_extension", b"This file has no extension")]);
    assert!(result.is_err());
}

#[test]
fn test_special_characters_in_filenames() {
    let (vpk, _) = pack_and_open(
        vec![
            scanned("test-file.txt", b"test content"),
            scanned("test_file.txt", b"test content"),
            scanned("test dir/nested.txt", b"nested content"),
        ],
        "special.vpk",
    );
    assert!(vpk.contains("test-file.txt"));
    assert!(vpk.contains("test_file.txt"));
    assert!(vpk.contains("test dir/nested.txt"));
}

#[test]
fn test_pack_and_unpack() {
    let (vpk, bytes) = pack_and_open(
        vec![
            scanned("test.txt", b"Hello, World!"),
            scanned("subdir/nested.dat", b"Nested file content"),
        ],
        "test.vpk",
    );
    assert!(bytes.as_ref().is_some_and(|b| !b.is_empty()));

    let mut file = vpk.get_file("test.txt", bytes.clone()).unwrap();
    assert_eq!(file.read_all_string().unwrap(), "Hello, World!");
    let mut file = vpk.get_file("subdir/nested.dat", bytes).unwrap();
    assert_eq!(file.read_all_string().unwrap(), "Nested file content");
}

#[test]
fn round_trip_keeps_every_file_and_its_bytes() {
    let files = create_test_directory();
    let originals: Vec<(String, Vec<u8>)> =
        files.iter().map(|f| (f.relative_path.clone(), f.data.clone())).collect();
    let (vpk, bytes) = pack_and_open(files, "test.vpk");
    assert_eq!(vpk.file_count(), originals.len());
    for (path, data) in originals {
        assert!(vpk.contains(&path));
        let mut file = vpk.get_file(&path, bytes.clone()).unwrap();
        assert_eq!(file.length() as usize, data.len());
        assert_eq!(file.read_all(), data);
        assert!(file.verify());
    }
}

#[test]
fn readme_and_pattern_scenario() {
    let pattern: Vec<u8> = (0..10240).map(|i| (i % 256) as u8).collect();
    let (vpk, bytes) = pack_and_open(
        vec![scanned("readme.txt", b"Hello, World!"), scanned("data/x.bin", &pattern)],
        "pak.vpk",
    );
    assert_eq!(vpk.file_count(), 2);
    let mut readme = vpk.get_file("readme.txt", bytes.clone()).unwrap();
    assert_eq!(readme.length(), 13);
    assert_eq!(readme.read_all_string().unwrap(), "Hello, World!");
    let mut x = vpk.get_file("data/x.bin", bytes).unwrap();
    assert_eq!(x.length(), 10240);
    assert_eq!(x.read_all(), pattern);
}

#[test]
fn bad_signature_fails_before_anything_else_is_read() {
    let mut bytes = vec![0x35, 0x12, 0xaa, 0x55];
    bytes.extend_from_slice(&[9, 0, 0, 0]);
    bytes.extend_from_slice(&[0, 0, 0, 0]);
    assert_eq!(
        VPK::open("x.vpk".to_string(), &bytes).err(),
        Some(VpkError::Format(FormatError::BadSignature(0x55aa1235)))
    );
    assert_eq!(
        VPK::open("x.vpk".to_string(), b"not an archive at all").err(),
        Some(VpkError::Format(FormatError::BadSignature(0x20746f6e)))
    );
}

#[test]
fn short_header_is_a_truncated_read() {
    assert_eq!(
        VPK::open("x.vpk".to_string(), &[0x34, 0x12, 0xaa, 0x55]).err(),
        Some(VpkError::Format(FormatError::TruncatedRead))
    );
    assert_eq!(
        VPK::open("x.vpk".to_string(), &[]).err(),
        Some(VpkError::Format(FormatError::TruncatedRead))
    );
    // Version 2 needs sixteen bytes more.
    let mut bytes = vec![0x34, 0x12, 0xaa, 0x55, 2, 0, 0, 0, 1, 0, 0, 0];
    bytes.extend_from_slice(&[0; 15]);
    assert_eq!(
        VPK::open("x.vpk".to_string(), &bytes).err(),
        Some(VpkError::Format(FormatError::TruncatedRead))
    );
}

#[test]
fn unknown_version_is_unsupported() {
    let bytes = vec![0x34, 0x12, 0xaa, 0x55, 3, 0, 0, 0, 1, 0, 0, 0, 0];
    assert_eq!(
        VPK::open("x.vpk".to_string(), &bytes).err(),
        Some(VpkError::Format(FormatError::UnsupportedVersion(3)))
    );
    let bytes = vec![0x34, 0x12, 0xaa, 0x55, 0, 0, 0, 0, 1, 0, 0, 0, 0];
    assert_eq!(
        VPK::open("x.vpk".to_string(), &bytes).err(),
        Some(VpkError::Format(FormatError::UnsupportedVersion(0)))
    );
}

/// A version 1 archive with one entry `dir/name.ext`, whose record holds what is given.
fn v1_archive(record: &[u8], after: &[u8]) -> Vec<u8> {
    let mut tree = Vec::new();
    tree.extend_from_slice(b"ext\0dir\0name\0");
    tree.extend_from_slice(record);
    tree.extend_from_slice(after);
    let mut bytes = vec![0x34, 0x12, 0xaa, 0x55, 1, 0, 0, 0];
    bytes.extend_from_slice(&(tree.len() as u32).to_le_bytes());
    bytes.extend_from_slice(&tree);
    bytes
}

fn record(crc: u32, preload: u16, index: u16, offset: u32, length: u32, suffix: u16) -> Vec<u8> {
    let mut r = Vec::new();
    r.extend_from_slice(&crc.to_le_bytes());
    r.extend_from_slice(&preload.to_le_bytes());
    r.extend_from_slice(&index.to_le_bytes());
    r.extend_from_slice(&offset.to_le_bytes());
    r.extend_from_slice(&length.to_le_bytes());
    r.extend_from_slice(&suffix.to_le_bytes());
    r
}

#[test]
fn version_1_archive_with_preload_and_embedded_data() {
    let mut after = vec![1, 2, 3];
    after.extend_from_slice(&[0, 0, 0]);
    let mut bytes = v1_archive(&record(0xabcd, 3, 0x7fff, 2, 4, 0xffff), &after);
    let data_start = bytes.len() as u32;
    // Two bytes that belong to nothing, three that the preload length skips, then the data.
    bytes.extend_from_slice(&[0xaa, 0xaa, 0xee, 0xee, 0xee, 10, 11, 12, 13]);

    let vpk = VPK::open("one.vpk".to_string(), &bytes).unwrap();
    assert_eq!(vpk.version(), VPKVersion::V1);
    assert_eq!(vpk.file_count(), 1);
    assert!(vpk.contains("dir/name.ext"));
    assert!(!vpk.contains("name.ext"));
    assert_eq!(vpk.archive_path_of("dir/name.ext").unwrap(), Some("one.vpk".to_string()));

    let mut file = vpk.get_file("dir/name.ext", Some(Arc::new(bytes))).unwrap();
    assert_eq!(file.filepath(), "dir/name.ext");
    assert_eq!(file.metadata().crc32, 0xabcd);
    assert_eq!(file.metadata().preload, vec![1, 2, 3]);
    assert_eq!(file.metadata().archive_offset, data_start + 2);
    assert_eq!(file.length(), 7);
    let mut buf = [0u8; 7];
    assert_eq!(file.read(&mut buf), 7);
    assert_eq!(buf, [1, 2, 3, 10, 11, 12, 13]);
}

#[test]
fn version_1_archive_cannot_be_verified() {
    let bytes = v1_archive(&record(0, 0, 0x7fff, 0, 0, 0xffff), &[0, 0, 0]);
    let vpk = VPK::open("one.vpk".to_string(), &bytes).unwrap();
    assert_eq!(vpk.verify(), Err(VpkError::Format(FormatError::UnsupportedVersion(1))));
}

#[test]
fn entry_in_another_archive_keeps_its_offset_and_names_the_numbered_file() {
    let bytes = v1_archive(&record(0, 0, 2, 77, 5, 0xffff), &[0, 0, 0]);
    let vpk = VPK::open("pak01_dir.vpk".to_string(), &bytes).unwrap();
    assert_eq!(
        vpk.archive_path_of("dir/name.ext").unwrap(),
        Some("pak01_002.vpk".to_string())
    );
    let mut sibling = vec![0u8; 77];
    sibling.extend_from_slice(&[1, 2, 3, 4, 5, 6]);
    let mut file = vpk.get_file("dir/name.ext", Some(Arc::new(sibling))).unwrap();
    assert_eq!(file.metadata().archive_offset, 77);
    assert_eq!(file.read_all(), vec![1, 2, 3, 4, 5]);
}

#[test]
fn entry_without_archive_data_names_no_file() {
    let bytes = v1_archive(&record(0, 2, 0x7fff, 0, 0, 0xffff), &[8, 9, 0, 0, 0]);
    let vpk = VPK::open("one.vpk".to_string(), &bytes).unwrap();
    assert_eq!(vpk.archive_path_of("dir/name.ext").unwrap(), None);
    let mut file = vpk.get_file("dir/name.ext", None).unwrap();
    assert_eq!(file.read_all(), vec![8, 9]);
}

#[test]
fn root_directory_is_written_as_a_space() {
    let mut tree = Vec::new();
    tree.extend_from_slice(b"txt\0 \0readme\0");
    tree.extend_from_slice(&record(1, 0, 0x7fff, 0, 0, 0xffff));
    tree.extend_from_slice(&[0, 0, 0]);
    let mut bytes = vec![0x34, 0x12, 0xaa, 0x55, 1, 0, 0, 0];
    bytes.extend_from_slice(&(tree.len() as u32).to_le_bytes());
    bytes.extend_from_slice(&tree);
    let vpk = VPK::open("one.vpk".to_string(), &bytes).unwrap();
    assert_eq!(vpk.file_paths(), vec!["readme.txt".to_string()]);
}

#[test]
fn wrong_record_suffix_is_rejected() {
    let bytes = v1_archive(&record(0, 0, 0x7fff, 0, 0, 0xfffe), &[0, 0, 0]);
    assert_eq!(
        VPK::open("one.vpk".to_string(), &bytes).err(),
        Some(VpkError::Format(FormatError::BadMetadataSuffix(0xfffe)))
    );
}

#[test]
fn tree_that_ends_early_is_a_truncated_read() {
    // No terminators after the record.
    let bytes = v1_archive(&record(0, 0, 0x7fff, 0, 0, 0xffff), &[]);
    assert_eq!(
        VPK::open("one.vpk".to_string(), &bytes).err(),
        Some(VpkError::Format(FormatError::TruncatedRead))
    );
    // A record cut short.
    let bytes = v1_archive(&record(0, 0, 0x7fff, 0, 0, 0xffff)[..17], &[]);
    assert_eq!(
        VPK::open("one.vpk".to_string(), &bytes).err(),
        Some(VpkError::Format(FormatError::TruncatedRead))
    );
    // A preload cut short.
    let bytes = v1_archive(&record(0, 4, 0x7fff, 0, 0, 0xffff), &[1, 2]);
    assert_eq!(
        VPK::open("one.vpk".to_string(), &bytes).err(),
        Some(VpkError::Format(FormatError::TruncatedRead))
    );
}

#[test]
fn name_that_is_not_utf8_is_an_encoding_error() {
    let mut tree = Vec::new();
    tree.extend_from_slice(&[0xff, 0xfe, 0x00]);
    let mut bytes = vec![0x34, 0x12, 0xaa, 0x55, 1, 0, 0, 0];
    bytes.extend_from_slice(&(tree.len() as u32).to_le_bytes());
    bytes.extend_from_slice(&tree);
    assert_eq!(VPK::open("one.vpk".to_string(), &bytes).err(), Some(VpkError::Encoding));
}

#[test]
fn embedded_offset_beyond_32_bits_exceeds_the_limit() {
    let bytes = v1_archive(&record(0, 0, 0x7fff, 0xffff_fff0, 1, 0xffff), &[0, 0, 0]);
    assert_eq!(
        VPK::open("one.vpk".to_string(), &bytes).err(),
        Some(VpkError::LimitExceeded)
    );
}

#[test]
fn version_2_archive_without_trailer_is_a_truncated_read() {
    let mut bytes = vec![0x34, 0x12, 0xaa, 0x55, 2, 0, 0, 0, 1, 0, 0, 0];
    bytes.extend_from_slice(&[0; 16]);
    bytes.push(0);
    bytes.extend_from_slice(&[0; 47]);
    assert_eq!(
        VPK::open("two.vpk".to_string(), &bytes).err(),
        Some(VpkError::Format(FormatError::TruncatedRead))
    );
    bytes.push(0);
    assert!(VPK::open("two.vpk".to_string(), &bytes).is_ok());
}

#[test]
fn later_entry_with_the_same_path_takes_the_place_of_the_earlier() {
    let mut tree = Vec::new();
    tree.extend_from_slice(b"txt\0 \0a\0");
    tree.extend_from_slice(&record(1, 0, 0x7fff, 0, 0, 0xffff));
    tree.extend_from_slice(b"b\0");
    tree.extend_from_slice(&record(2, 0, 0x7fff, 0, 0, 0xffff));
    tree.extend_from_slice(b"a\0");
    tree.extend_from_slice(&record(3, 0, 0x7fff, 0, 0, 0xffff));
    tree.extend_from_slice(&[0, 0, 0]);
    let mut bytes = vec![0x34, 0x12, 0xaa, 0x55, 1, 0, 0, 0];
    bytes.extend_from_slice(&(tree.len() as u32).to_le_bytes());
    bytes.extend_from_slice(&tree);
    let vpk = VPK::open("one.vpk".to_string(), &bytes).unwrap();
    assert_eq!(vpk.file_count(), 2);
    assert_eq!(vpk.file_paths(), vec!["a.txt".to_string(), "b.txt".to_string()]);
    let file = vpk.get_file("a.txt", None).unwrap();
    assert_eq!(file.metadata().crc32, 3);
}

#[test]
fn saved_bytes_of_one_file_are_exact() {
    let vpk = VPK::from_directory(vec![scanned("a.txt", b"hi")]).unwrap();
    let bytes = vpk.save().unwrap();
    let mut expected: Vec<u8> = Vec::new();
    expected.extend_from_slice(&[0x34, 0x12, 0xaa, 0x55]); // signature
    expected.extend_from_slice(&[2, 0, 0, 0]); // version
    expected.extend_from_slice(&[29, 0, 0, 0]); // tree length
    expected.extend_from_slice(&[2, 0, 0, 0]); // data length
    expected.extend_from_slice(&[0, 0, 0, 0]); // chunk hashes
    expected.extend_from_slice(&[48, 0, 0, 0]); // trailer length
    expected.extend_from_slice(&[0, 0, 0, 0]); // signature length
    expected.extend_from_slice(b"txt\0 \0a\0");
    expected.extend_from_slice(&0xd893_2aacu32.to_le_bytes()); // crc32 of "hi"
    expected.extend_from_slice(&[0, 0]); // preload length
    expected.extend_from_slice(&[0xff, 0x7f]); // embedded
    expected.extend_from_slice(&[0, 0, 0, 0]); // offset
    expected.extend_from_slice(&[2, 0, 0, 0]); // length
    expected.extend_from_slice(&[0xff, 0xff]); // suffix
    expected.extend_from_slice(&[0, 0, 0]); // terminators
    expected.extend_from_slice(b"hi");
    expected.extend_from_slice(&[0; 48]);
    assert_eq!(bytes, expected);
}

#[test]
fn saved_tree_groups_by_extension_then_directory() {
    let vpk = VPK::from_directory(vec![
        scanned("a/one.txt", b"1"),
        scanned("two.bin", b"22"),
        scanned("b/three.txt", b"333"),
        scanned("a/four.txt", b"4444"),
        scanned("five.txt", b"55555"),
    ])
    .unwrap();
    let bytes = vpk.save().unwrap();
    let reopened = VPK::open("g.vpk".to_string(), &bytes).unwrap();
    assert_eq!(
        reopened.file_paths(),
        vec![
            "a/one.txt".to_string(),
            "a/four.txt".to_string(),
            "b/three.txt".to_string(),
            "five.txt".to_string(),
            "two.bin".to_string(),
        ]
    );
    // txt\0 a\0 one\0 R four\0 R \0 b\0 three\0 R \0 " "\0 five\0 R \0 \0 bin\0 " "\0 two\0 R \0 \0 \0
    let tree_length = 4 + 2 + 4 + 18 + 5 + 18 + 1 + 2 + 6 + 18 + 1 + 2 + 5 + 18 + 1 + 1 + 4 + 2
        + 4 + 18 + 1 + 1 + 1;
    assert_eq!(bytes[8..12], (tree_length as u32).to_le_bytes());
    assert_eq!(bytes[12..16], 15u32.to_le_bytes());
    assert_eq!(bytes.len(), 28 + tree_length + 15 + 48);
    assert_eq!(&bytes[28 + tree_length..28 + tree_length + 15], b"144443335555522");
    let file = reopened.get_file("five.txt", Some(Arc::new(bytes))).unwrap();
    assert_eq!(file.metadata().archive_offset as usize, 28 + tree_length + 8);
    assert_eq!(file.metadata().file_length, 5);
    assert_eq!(file.metadata().preload_length, 0);
}

#[test]
fn tree_length_is_computed_before_saving() {
    let vpk = VPK::from_directory(vec![scanned("a.txt", b"hi")]).unwrap();
    let bytes = vpk.save().unwrap();
    assert_eq!(bytes[8..12], 29u32.to_le_bytes());
    let empty = VPK::from_directory(Vec::new()).unwrap().save().unwrap();
    assert_eq!(empty[8..12], 1u32.to_le_bytes());
    assert_eq!(empty.len(), 28 + 1 + 48);
}

#[test]
fn scan_normalizes_paths_and_computes_checksums() {
    let vpk = VPK::from_directory(vec![ScannedFile {
        relative_path: "sub\\dir\\hello.txt".to_string(),
        file_name: "hello.txt".to_string(),
        data: b"Hello, World!".to_vec(),
    }])
    .unwrap();
    assert!(vpk.contains("sub/dir/hello.txt"));
    assert!(!vpk.contains("sub\\dir\\hello.txt"));
    let bytes = vpk.save().unwrap();
    let reopened = VPK::open("n.vpk".to_string(), &bytes).unwrap();
    let file = reopened.get_file("sub/dir/hello.txt", Some(Arc::new(bytes))).unwrap();
    assert_eq!(file.metadata().crc32, 0xec4ac3d0);
}

#[test]
fn scan_with_one_file_without_extension_gives_no_archive() {
    let r = VPK::from_directory(vec![
        scanned("fine.txt", b"a"),
        scanned("dir.d/Makefile", b"b"),
        scanned("also.txt", b"c"),
    ]);
    assert_eq!(r.err(), Some(VpkError::Format(FormatError::MissingExtension)));
}

#[test]
fn scan_keeps_the_last_of_two_files_with_the_same_path() {
    let vpk = VPK::from_directory(vec![
        scanned("a.txt", b"first"),
        scanned("b.txt", b"other"),
        scanned("a.txt", b"second"),
    ])
    .unwrap();
    assert_eq!(vpk.file_count(), 2);
    let bytes = vpk.save().unwrap();
    let reopened = VPK::open("d.vpk".to_string(), &bytes).unwrap();
    let mut file = reopened.get_file("a.txt", Some(Arc::new(bytes))).unwrap();
    assert_eq!(file.read_all(), b"second".to_vec());
}

#[test]
fn unsaved_archive_has_no_entries_to_read_and_cannot_be_verified() {
    let vpk = VPK::from_directory(vec![scanned("a.txt", b"hi")]).unwrap();
    assert_eq!(vpk.get_file("a.txt", None).err(), Some(VpkError::State));
    assert_eq!(vpk.archive_path_of("a.txt"), Err(VpkError::State));
    assert_eq!(vpk.get_file("b.txt", None).err(), Some(VpkError::NotFound));
    assert_eq!(vpk.archive_path_of("b.txt"), Err(VpkError::NotFound));
    assert_eq!(vpk.verify(), Err(VpkError::State));
}

#[test]
fn opened_version_2_archive_passes_its_check() {
    let (vpk, _) = pack_and_open(vec![scanned("a.txt", b"hi")], "a.vpk");
    assert_eq!(vpk.verify(), Ok(true));
}

#[test]
fn unknown_path_is_not_found() {
    let (vpk, bytes) = pack_and_open(create_test_directory(), "test.vpk");
    assert!(!vpk.contains("missing.txt"));
    assert_eq!(vpk.get_file("missing.txt", bytes).err(), Some(VpkError::NotFound));
    assert_eq!(vpk.get_file("README.TXT", None).err(), Some(VpkError::NotFound));
}

#[test]
fn list_files_and_file_paths_agree() {
    let (vpk, _) = pack_and_open(create_test_directory(), "test.vpk");
    let listed: Vec<String> = vpk.list_files().into_iter().cloned().collect();
    assert_eq!(listed, vpk.file_paths());
    assert_eq!(listed.len(), vpk.file_count());
}

#[test]
fn saving_an_opened_archive_writes_only_what_its_records_hold() {
    let (vpk, _) = pack_and_open(vec![scanned("a.txt", b"hi")], "a.vpk");
    let again = vpk.save().unwrap();
    let reopened = VPK::open("b.vpk".to_string(), &again).unwrap();
    assert!(reopened.contains("a.txt"));
    let file = reopened.get_file("a.txt", Some(Arc::new(again))).unwrap();
    assert_eq!(file.length(), 0);
}

#[test]
fn empty_files_round_trip() {
    let (vpk, bytes) = pack_and_open(
        vec![scanned("empty.txt", b""), scanned("full.txt", b"x")],
        "e.vpk",
    );
    assert_eq!(vpk.archive_path_of("empty.txt").unwrap(), None);
    let mut file = vpk.get_file("empty.txt", None).unwrap();
    assert_eq!(file.length(), 0);
    assert_eq!(file.read_all(), Vec::<u8>::new());
    assert!(file.verify());
    let mut file = vpk.get_file("full.txt", bytes).unwrap();
    assert_eq!(file.read_all(), b"x".to_vec());
}

#[test]
fn calculate_tree_length_needs_extensions() {
    let mut tree = valve_pak::tree::FileTree::new();
    tree.insert("a/b.txt".to_string(), valve_pak::file::FileMetadata::pending(vec![1], 0));
    assert_eq!(VPK::calculate_tree_length(&tree), Ok(4 + 2 + 2 + 18 + 3));
    tree.insert("Makefile".to_string(), valve_pak::file::FileMetadata::pending(vec![1], 0));
    assert_eq!(
        VPK::calculate_tree_length(&tree),
        Err(VpkError::Format(FormatError::MissingExtension))
    );
}

#[test]
fn file_with_an_empty_name_is_not_given_back() {
    // The empty name before the `.` ends the directory's group where it is read.
    let vpk = VPK::from_directory(vec![scanned(".hidden", b"x")]).unwrap();
    let bytes = vpk.save().unwrap();
    let reopened = VPK::open("h.vpk".to_string(), &bytes);
    assert!(!reopened.is_ok_and(|v| v.contains(".hidden")));
}

#[test]
fn directory_named_by_a_single_space_is_read_back_as_the_root() {
    let vpk = VPK::from_directory(vec![scanned(" /a.txt", b"x")]).unwrap();
    assert!(vpk.contains(" /a.txt"));
    let bytes = vpk.save().unwrap();
    let reopened = VPK::open("s.vpk".to_string(), &bytes).unwrap();
    assert!(reopened.contains("a.txt"));
    assert!(!reopened.contains(" /a.txt"));
}

#[test]
fn path_with_a_dot_in_a_directory_only_needs_the_dot_in_the_name() {
    let r = VPK::from_directory(vec![ScannedFile {
        relative_path: "v1.2/notes".to_string(),
        file_name: "notes".to_string(),
        data: Vec::new(),
    }]);
    assert_eq!(r.err(), Some(VpkError::Format(FormatError::MissingExtension)));
    let r = VPK::from_directory(vec![ScannedFile {
        relative_path: "notes".to_string(),
        file_name: "notes.txt".to_string(),
        data: Vec::new(),
    }]);
    assert_eq!(r.err(), Some(VpkError::Format(FormatError::MissingExtension)));
}

#[test]
fn names_with_characters_beyond_ascii_round_trip() {
    let (vpk, bytes) = pack_and_open(
        vec![scanned("größe/日本語.txt", "héllo".as_bytes()), scanned("ünï/cödé.dat", b"\x00\x01")],
        "u.vpk",
    );
    assert_eq!(vpk.file_count(), 2);
    let mut f = vpk.get_file("größe/日本語.txt", bytes.clone()).unwrap();
    assert_eq!(f.read_all_string().unwrap(), "héllo");
    let mut f = vpk.get_file("ünï/cödé.dat", bytes).unwrap();
    assert_eq!(f.read_all(), vec![0, 1]);
}
