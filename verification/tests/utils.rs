use valve_pak::error::{FormatError, VpkError};
use valve_pak::text::str_eq;
use valve_pak::utils::{
    copy_into, cstring_length, get_u16_le, get_u32_le, join_filename, normalize_path,
    patch_u32_le, put_bytes, put_u16_le, put_u32_le, read_cstring, read_cstring_buffered,
    read_exact_vec, split_filename, write_cstring, ByteReader, EMBEDDED_ARCHIVE_INDEX,
    METADATA_SUFFIX, VPK_SIGNATURE,
};

#[test]
fn test_cstring_operations() {
    let test_str = "hello world";
    let mut buffer = Vec::new();

    write_cstring(&mut buffer, test_str);
    assert_eq!(buffer, b"hello world\0");

    let mut cursor = ByteReader::new(&buffer);
    let read_str = read_cstring(&mut cursor).unwrap();
    assert_eq!(read_str, test_str);
}

#[test]
fn test_filename_split() {
    let (name, ext) = split_filename("test.txt").unwrap();
    assert_eq!(name, "test");
    assert_eq!(ext, "txt");

    let (name, ext) = split_filename("complex.file.name.dat").unwrap();
    assert_eq!(name, "complex.file.name");
    assert_eq!(ext, "dat");
}

#[test]
fn test_path_normalization() {
    assert_eq!(normalize_path("path\\to\\file"), "path/to/file");
    assert_eq!(normalize_path("path/to/file"), "path/to/file");
}

#[test]
fn constants_have_the_values_of_the_format() {
    assert_eq!(VPK_SIGNATURE, 0x55aa1234);
    assert_eq!(EMBEDDED_ARCHIVE_INDEX, 0x7fff);
    assert_eq!(METADATA_SUFFIX, 0xffff);
}

#[test]
fn integers_are_little_endian() {
    let mut out = vec![0xaa];
    put_u32_le(&mut out, 0x55aa1234);
    put_u16_le(&mut out, 0x7fff);
    assert_eq!(out, vec![0xaa, 0x34, 0x12, 0xaa, 0x55, 0xff, 0x7f]);
    assert_eq!(get_u32_le(&out, 1), 0x55aa1234);
    assert_eq!(get_u16_le(&out, 5), 0x7fff);
    assert_eq!(get_u32_le(&[0xff, 0xff, 0xff, 0xff], 0), u32::MAX);
    assert_eq!(get_u16_le(&[0x00, 0x01], 0), 256);
}

#[test]
fn patch_overwrites_four_bytes_in_place() {
    let mut out = vec![1, 2, 3, 4, 5, 6, 7];
    patch_u32_le(&mut out, 2, 0x0a0b0c0d);
    assert_eq!(out, vec![1, 2, 0x0d, 0x0c, 0x0b, 0x0a, 7]);
}

#[test]
fn put_bytes_and_copy_into_move_the_bytes_named() {
    let mut out = vec![1];
    put_bytes(&mut out, &[2, 3]);
    put_bytes(&mut out, &[]);
    assert_eq!(out, vec![1, 2, 3]);
    let mut buf = [0u8; 6];
    copy_into(&mut buf, 2, &[9, 8, 7, 6], 1, 3);
    assert_eq!(buf, [0, 0, 8, 7, 6, 0]);
}

#[test]
fn reader_reads_exact_counts_and_fails_at_the_end() {
    let bytes = vec![1, 2, 3, 4, 5];
    let mut r = ByteReader::new(&bytes);
    assert_eq!(r.len(), 5);
    assert_eq!(read_exact_vec(&mut r, 2).unwrap(), vec![1, 2]);
    assert_eq!(r.position(), 2);
    assert_eq!(read_exact_vec(&mut r, 0).unwrap(), Vec::<u8>::new());
    assert_eq!(
        read_exact_vec(&mut r, 4),
        Err(VpkError::Format(FormatError::TruncatedRead))
    );
    assert_eq!(r.position(), 5);
    r.seek(1);
    assert_eq!(read_exact_vec(&mut r, 4).unwrap(), vec![2, 3, 4, 5]);
    r.seek(100);
    assert_eq!(r.position(), 5);
}

#[test]
fn read_cstring_reads_one_string_after_the_other() {
    let mut r = ByteReader::new(b"txt\0 \0\0rest");
    assert_eq!(read_cstring(&mut r).unwrap(), "txt");
    assert_eq!(r.position(), 4);
    assert_eq!(read_cstring(&mut r).unwrap(), " ");
    assert_eq!(read_cstring(&mut r).unwrap(), "");
    assert_eq!(r.position(), 7);
    assert_eq!(
        read_cstring(&mut r),
        Err(VpkError::Format(FormatError::TruncatedRead))
    );
    assert_eq!(r.position(), 11);
}

#[test]
fn read_cstring_decodes_utf8_and_rejects_other_bytes() {
    let mut r = ByteReader::new("héllo\0".as_bytes());
    assert_eq!(read_cstring(&mut r).unwrap(), "héllo");
    let mut r = ByteReader::new(&[0x61, 0xff, 0x00, 0x62, 0x00]);
    assert_eq!(read_cstring(&mut r), Err(VpkError::Encoding));
    assert_eq!(r.position(), 3);
    assert_eq!(read_cstring(&mut r).unwrap(), "b");
}

#[test]
fn read_cstring_buffered_takes_the_rest_where_no_terminator_follows() {
    let mut r = ByteReader::new(b"abc\0def");
    assert_eq!(read_cstring_buffered(&mut r).unwrap(), "abc");
    assert_eq!(r.position(), 4);
    assert_eq!(read_cstring_buffered(&mut r).unwrap(), "def");
    assert_eq!(r.position(), 7);
    assert_eq!(read_cstring_buffered(&mut r).unwrap(), "");
    let mut r = ByteReader::new(&[0xc3, 0x28, 0x00]);
    assert_eq!(read_cstring_buffered(&mut r), Err(VpkError::Encoding));
}

#[test]
fn cstring_length_counts_bytes_and_terminator() {
    assert_eq!(cstring_length(""), 1);
    assert_eq!(cstring_length("abc"), 4);
    assert_eq!(cstring_length("é"), 3);
}

#[test]
fn write_cstring_writes_the_utf8_bytes() {
    let mut out = Vec::new();
    write_cstring(&mut out, "é");
    write_cstring(&mut out, "");
    assert_eq!(out, vec![0xc3, 0xa9, 0x00, 0x00]);
}

#[test]
fn normalize_path_keeps_other_characters() {
    assert_eq!(normalize_path(""), "");
    assert_eq!(normalize_path("\\"), "/");
    assert_eq!(normalize_path("a\\b/c\\d é.txt"), "a/b/c/d é.txt");
}

#[test]
fn split_filename_without_dot_is_a_missing_extension() {
    assert_eq!(
        split_filename("no_extension"),
        Err(VpkError::Format(FormatError::MissingExtension))
    );
    assert_eq!(split_filename(""), Err(VpkError::Format(FormatError::MissingExtension)));
}

#[test]
fn split_filename_splits_at_the_last_dot() {
    assert_eq!(
        split_filename(".hidden").unwrap(),
        ("".to_string(), "hidden".to_string())
    );
    assert_eq!(split_filename("name.").unwrap(), ("name".to_string(), "".to_string()));
    assert_eq!(
        split_filename("dir.d/file.tar.gz").unwrap(),
        ("dir.d/file.tar".to_string(), "gz".to_string())
    );
    assert_eq!(split_filename("ü.é").unwrap(), ("ü".to_string(), "é".to_string()));
}

#[test]
fn join_filename_undoes_split() {
    assert_eq!(join_filename("test", "txt"), "test.txt");
    assert_eq!(join_filename("test", ""), "test");
    assert_eq!(join_filename("", "txt"), ".txt");
    let (name, ext) = split_filename("complex.file.name.dat").unwrap();
    assert_eq!(join_filename(&name, &ext), "complex.file.name.dat");
}

#[test]
fn str_eq_compares_characters() {
    assert!(str_eq("", ""));
    assert!(str_eq("héllo", "héllo"));
    assert!(!str_eq("hello", "hellO"));
    assert!(!str_eq("hello", "hell"));
}
