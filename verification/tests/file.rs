use valve_pak::error::{FormatError, VpkError};
use valve_pak::file::{FileMetadata, SeekFrom, VPKFile};
use std::sync::Arc;
use valve_pak::utils::EMBEDDED_ARCHIVE_INDEX;

fn backing(bytes: Vec<u8>) -> Option<Arc<Vec<u8>>> {
    Some(Arc::new(bytes))
}

fn entry(preload: Vec<u8>, preload_length: u16, archive_offset: u32, file_length: u32) -> FileMetadata {
    FileMetadata {
        preload,
        crc32: 0,
        preload_length,
        archive_index: EMBEDDED_ARCHIVE_INDEX,
        archive_offset,
        file_length,
    }
}

#[test]
fn test_file_metadata() {
    let metadata = FileMetadata {
        preload: vec![1, 2, 3],
        crc32: 0x12345678,
        preload_length: 3,
        archive_index: 0,
        archive_offset: 100,
        file_length: 50,
    };

    assert_eq!(metadata.total_length(), 53);
}

#[test]
fn test_vpkfile_seek() {
    let metadata = FileMetadata {
        preload: vec![0, 1, 2, 3, 4],
        crc32: 0,
        preload_length: 5,
        archive_index: EMBEDDED_ARCHIVE_INDEX,
        archive_offset: 0,
        file_length: 0,
    };

    let mut vpk_file =
        VPKFile::new("archive.vpk".to_string(), "test".to_string(), metadata, None).unwrap();

    assert_eq!(vpk_file.seek(SeekFrom::Start(2)).unwrap(), 2);
    assert_eq!(vpk_file.position(), 2);

    assert_eq!(vpk_file.seek(SeekFrom::End(-1)).unwrap(), 4);
    assert_eq!(vpk_file.position(), 4);
}

#[test]
fn pending_metadata_keeps_content_and_zero_fields() {
    let m = FileMetadata::pending(vec![9, 8, 7], 0xdeadbeef);
    assert_eq!(m.preload, vec![9, 8, 7]);
    assert_eq!(m.crc32, 0xdeadbeef);
    assert_eq!(m.preload_length, 0);
    assert_eq!(m.archive_index, 0x7fff);
    assert_eq!(m.archive_offset, 0);
    assert_eq!(m.file_length, 0);
    assert_eq!(m.total_length(), 0);
}

#[test]
fn metadata_clone_is_equal_field_by_field() {
    let m = entry(vec![1, 2], 2, 7, 9);
    let c = m.clone();
    assert_eq!(c.preload, vec![1, 2]);
    assert_eq!(c.preload_length, 2);
    assert_eq!(c.archive_offset, 7);
    assert_eq!(c.file_length, 9);
    assert_eq!(c.archive_index, EMBEDDED_ARCHIVE_INDEX);
}

#[test]
fn seek_past_end_clamps_to_length() {
    let mut f = VPKFile::new("a.vpk".into(), "x.bin".into(), entry(vec![1, 2, 3], 3, 0, 0), None)
        .unwrap();
    assert_eq!(f.length(), 3);
    assert_eq!(f.seek(SeekFrom::Start(10)).unwrap(), 3);
    assert_eq!(f.position(), 3);
    assert_eq!(f.seek(SeekFrom::End(5)).unwrap(), 3);
    assert_eq!(f.seek(SeekFrom::Start(1)).unwrap(), 1);
    assert_eq!(f.seek(SeekFrom::Current(100)).unwrap(), 3);
    assert_eq!(f.seek(SeekFrom::Start(u64::MAX)).unwrap(), 3);
    assert_eq!(f.seek(SeekFrom::Start(4294967296 + 1)).unwrap(), 3);
}

#[test]
fn seek_to_end_gives_length() {
    let mut f =
        VPKFile::new("a.vpk".into(), "x.bin".into(), entry(vec![1, 2], 2, 4, 6), backing(vec![0; 20]))
            .unwrap();
    assert_eq!(f.seek(SeekFrom::End(0)).unwrap(), 8);
    assert_eq!(f.seek(SeekFrom::End(0)).unwrap(), f.length() as u64);
}

#[test]
fn seek_to_negative_position_fails_and_keeps_cursor() {
    let mut f = VPKFile::new("a.vpk".into(), "x.bin".into(), entry(vec![1, 2, 3], 3, 0, 0), None)
        .unwrap();
    assert_eq!(f.seek(SeekFrom::Start(2)).unwrap(), 2);
    assert_eq!(f.seek(SeekFrom::Current(-3)), Err(VpkError::InvalidArgument));
    assert_eq!(f.position(), 2);
    assert_eq!(f.seek(SeekFrom::End(-4)), Err(VpkError::InvalidArgument));
    assert_eq!(f.seek(SeekFrom::End(i64::MIN)), Err(VpkError::InvalidArgument));
    assert_eq!(f.position(), 2);
    assert_eq!(f.seek(SeekFrom::Current(-2)).unwrap(), 0);
}

#[test]
fn read_spans_preload_and_archive_data_in_one_call() {
    // The archive data of an entry starts `preload_length` bytes after its offset.
    let mut bytes = vec![0xaau8; 10];
    bytes.extend_from_slice(&[0xee, 0xee, 0xee]);
    bytes.extend_from_slice(&[10, 11, 12, 13]);
    bytes.extend_from_slice(&[0xbb; 5]);
    let mut f = VPKFile::new(
        "a.vpk".into(),
        "x.bin".into(),
        entry(vec![1, 2, 3], 3, 10, 4),
        backing(bytes),
    )
    .unwrap();
    assert_eq!(f.length(), 7);
    let mut buf = [0u8; 16];
    let n = f.read(&mut buf);
    assert_eq!(n, 7);
    assert_eq!(&buf[..7], &[1, 2, 3, 10, 11, 12, 13]);
    assert_eq!(&buf[7..], &[0u8; 9]);
    assert_eq!(f.position(), 7);
    assert_eq!(f.read(&mut buf), 0);
}

#[test]
fn read_in_small_steps_gives_the_same_bytes() {
    let mut bytes = vec![0u8; 5];
    bytes.extend_from_slice(&[20, 21, 22, 23, 24]);
    let mut f =
        VPKFile::new("a.vpk".into(), "x.bin".into(), entry(vec![1, 2], 2, 3, 5), backing(bytes))
            .unwrap();
    let mut all = Vec::new();
    let mut buf = [0u8; 3];
    loop {
        let n = f.read(&mut buf);
        if n == 0 {
            break;
        }
        all.extend_from_slice(&buf[..n]);
    }
    assert_eq!(all, vec![1, 2, 20, 21, 22, 23, 24]);
}

#[test]
fn read_into_empty_buffer_copies_nothing() {
    let mut f = VPKFile::new("a.vpk".into(), "x.bin".into(), entry(vec![1, 2, 3], 3, 0, 0), None)
        .unwrap();
    let mut buf = [0u8; 0];
    assert_eq!(f.read(&mut buf), 0);
    assert_eq!(f.position(), 0);
}

#[test]
fn read_stops_where_the_backing_file_ends() {
    // Four bytes of archive data are declared, the backing file holds two of them.
    let bytes = vec![0, 0, 0, 7, 8];
    let mut f =
        VPKFile::new("a.vpk".into(), "x.bin".into(), entry(vec![1], 1, 2, 4), backing(bytes))
            .unwrap();
    assert_eq!(f.length(), 5);
    assert_eq!(f.read_all(), vec![1, 7, 8]);
    assert_eq!(f.seek(SeekFrom::Start(4)).unwrap(), 4);
    let mut buf = [0u8; 4];
    assert_eq!(f.read(&mut buf), 0);
}

#[test]
fn read_all_restores_the_cursor() {
    let mut bytes = vec![0u8; 2];
    bytes.extend_from_slice(&[5, 6, 7]);
    let mut f =
        VPKFile::new("a.vpk".into(), "x.bin".into(), entry(vec![], 0, 2, 3), backing(bytes))
            .unwrap();
    f.seek(SeekFrom::Start(2)).unwrap();
    assert_eq!(f.read_all(), vec![5, 6, 7]);
    assert_eq!(f.position(), 2);
    let mut buf = [0u8; 8];
    assert_eq!(f.read(&mut buf), 1);
    assert_eq!(buf[0], 7);
}

#[test]
fn read_all_crosses_many_chunks() {
    let data: Vec<u8> = (0..20000u32).map(|i| (i % 251) as u8).collect();
    let mut f = VPKFile::new(
        "a.vpk".into(),
        "x.bin".into(),
        entry(vec![], 0, 0, data.len() as u32),
        backing(data.clone()),
    )
    .unwrap();
    assert_eq!(f.read_all(), data);
}

#[test]
fn entry_without_archive_data_lets_the_archive_go() {
    let mut f = VPKFile::new(
        "a.vpk".into(),
        "x.bin".into(),
        entry(vec![4, 5], 2, 0, 0),
        backing(vec![9, 9, 9, 9]),
    )
    .unwrap();
    assert_eq!(f.read_all(), vec![4, 5]);
}

#[test]
fn read_all_string_decodes_utf8() {
    let text = "Grüße, Welt!";
    let mut f = VPKFile::new(
        "a.vpk".into(),
        "x.txt".into(),
        entry(text.as_bytes().to_vec(), text.len() as u16, 0, 0),
        None,
    )
    .unwrap();
    assert_eq!(f.read_all_string().unwrap(), text);
}

#[test]
fn read_all_string_rejects_invalid_utf8() {
    let mut f = VPKFile::new(
        "a.vpk".into(),
        "x.txt".into(),
        entry(vec![0x66, 0xff, 0x6f], 3, 0, 0),
        None,
    )
    .unwrap();
    assert_eq!(f.read_all_string(), Err(VpkError::Encoding));
    assert_eq!(f.position(), 0);
}

#[test]
fn verify_compares_with_the_recorded_crc() {
    let data = b"Hello, World!".to_vec();
    let mut good = entry(vec![], 0, 0, data.len() as u32);
    good.crc32 = 0xec4ac3d0;
    let mut f =
        VPKFile::new("a.vpk".into(), "x.txt".into(), good, backing(data.clone())).unwrap();
    f.seek(SeekFrom::Start(4)).unwrap();
    assert!(f.verify());
    assert_eq!(f.position(), 4);

    let mut bad = entry(vec![], 0, 0, data.len() as u32);
    bad.crc32 = 0xec4ac3d1;
    let mut f = VPKFile::new("a.vpk".into(), "x.txt".into(), bad, backing(data)).unwrap();
    assert!(!f.verify());
}

#[test]
fn crc_matches_tests_the_recorded_value() {
    let mut m = entry(vec![], 0, 0, 0);
    m.crc32 = 77;
    let f = VPKFile::new("a.vpk".into(), "x.txt".into(), m, None).unwrap();
    assert!(f.crc_matches(77));
    assert!(!f.crc_matches(78));
}

#[test]
fn new_rejects_a_short_preload() {
    let r = VPKFile::new("a.vpk".into(), "x.bin".into(), entry(vec![1, 2], 3, 0, 0), None);
    assert_eq!(r.err(), Some(VpkError::Format(FormatError::TruncatedRead)));
}

#[test]
fn new_rejects_a_length_beyond_32_bits() {
    let r = VPKFile::new(
        "a.vpk".into(),
        "x.bin".into(),
        entry(vec![1], 1, 0, u32::MAX),
        None,
    );
    assert_eq!(r.err(), Some(VpkError::LimitExceeded));
}

#[test]
fn getters_give_what_the_view_was_made_of() {
    let f = VPKFile::new(
        "pak01_dir.vpk".into(),
        "scripts/a.lua".into(),
        entry(vec![1, 2, 3], 3, 5, 6),
        backing(vec![0; 32]),
    )
    .unwrap();
    assert_eq!(f.filepath(), "scripts/a.lua");
    assert_eq!(f.metadata().preload_length, 3);
    assert_eq!(f.metadata().file_length, 6);
    assert_eq!(f.position(), 0);
    assert_eq!(f.length(), 9);
}

#[test]
fn resolve_archive_path_keeps_the_path_for_embedded_data() {
    assert_eq!(VPKFile::resolve_archive_path("pak01_dir.vpk", 0x7fff), "pak01_dir.vpk");
}

#[test]
fn resolve_archive_path_puts_the_padded_number_for_the_marker() {
    assert_eq!(VPKFile::resolve_archive_path("pak01_dir.vpk", 0), "pak01_000.vpk");
    assert_eq!(VPKFile::resolve_archive_path("pak01_dir.vpk", 7), "pak01_007.vpk");
    assert_eq!(VPKFile::resolve_archive_path("pak01_dir.vpk", 42), "pak01_042.vpk");
    assert_eq!(VPKFile::resolve_archive_path("pak01_dir.vpk", 123), "pak01_123.vpk");
    assert_eq!(VPKFile::resolve_archive_path("pak01_dir.vpk", 1234), "pak01_1234.vpk");
    assert_eq!(VPKFile::resolve_archive_path("pak01_dir.vpk", 32766), "pak01_32766.vpk");
    assert_eq!(VPKFile::resolve_archive_path("/data/pak01_dir.vpk", 1), "/data/pak01_001.vpk");
}

#[test]
fn resolve_archive_path_replaces_the_first_marker_only() {
    assert_eq!(VPKFile::resolve_archive_path("dir.dir.vpk", 5), "005.dir.vpk");
    assert_eq!(VPKFile::resolve_archive_path("ddir.x_dir.vpk", 5), "d005.x_dir.vpk");
}

#[test]
fn resolve_archive_path_without_marker_is_unchanged() {
    assert_eq!(VPKFile::resolve_archive_path("archive.vpk", 3), "archive.vpk");
    assert_eq!(VPKFile::resolve_archive_path("dir", 3), "dir");
    assert_eq!(VPKFile::resolve_archive_path("", 3), "");
}

#[test]
fn entry_with_archive_data_and_no_archive_reads_its_preload_only() {
    let mut f =
        VPKFile::new("a.vpk".into(), "x.bin".into(), entry(vec![4, 5], 2, 0, 3), None).unwrap();
    assert_eq!(f.length(), 5);
    assert_eq!(f.read_all(), vec![4, 5]);
}

#[test]
fn views_of_one_archive_share_its_bytes() {
    let mut bytes = vec![0u8; 4];
    bytes.extend_from_slice(&[1, 2, 3, 4, 5, 6]);
    let shared = Arc::new(bytes);
    let mut a = VPKFile::new(
        "a.vpk".into(),
        "a.bin".into(),
        entry(vec![], 0, 4, 3),
        Some(shared.clone()),
    )
    .unwrap();
    let mut b = VPKFile::new(
        "a.vpk".into(),
        "b.bin".into(),
        entry(vec![], 0, 7, 3),
        Some(shared.clone()),
    )
    .unwrap();
    assert_eq!(a.read_all(), vec![1, 2, 3]);
    assert_eq!(b.read_all(), vec![4, 5, 6]);
    assert_eq!(Arc::strong_count(&shared), 3);
}

#[test]
fn save_appends_the_content_and_restores_the_cursor() {
    let mut bytes = vec![0u8; 3];
    bytes.extend_from_slice(&[7, 8, 9]);
    let mut f =
        VPKFile::new("a.vpk".into(), "x.bin".into(), entry(vec![5, 6], 2, 1, 3), backing(bytes))
            .unwrap();
    f.seek(SeekFrom::Start(4)).unwrap();
    let mut out = vec![0xaa];
    f.save(&mut out);
    assert_eq!(out, vec![0xaa, 5, 6, 7, 8, 9]);
    assert_eq!(f.position(), 4);
}
