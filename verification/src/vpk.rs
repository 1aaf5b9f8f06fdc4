//! Archives: header, tree and trailer, and the operations on a whole archive.

use crate::checksum::{crc32, crc32_checksum};
use crate::codec::{
    all_have_extension, arrange, decode_tree, dir_prefix, full_path, grouped, item_of, items_of,
    lemma_cstring_advances, lemma_prepend_push, lemma_upto_grows, opening, payload_image,
    payload_upto, prepend, record_at, record_image, record_stop, root_dir, tree_image, tree_upto,
    views, Item, Level,
};
use crate::error::{FormatError, VpkError};
use crate::file::{backing_of, entry_view, resolved_path, FileMetadata, MetadataView, VPKFile};
use crate::text::{push_char, str_eq};
use crate::tree::{distinct_paths, has_path, index_of_path, tree_of, EntryView, FileTree};
use crate::utils::{
    get_u16_le, get_u32_le, le_u32, normalize_path, normalized, patch_u32_le, put_bytes,
    put_u16_le, put_u32_le, read_cstring, read_exact_vec, split_filename, u32_le, write_cstring,
    ByteReader, EMBEDDED_ARCHIVE_INDEX, METADATA_SUFFIX, VPK_SIGNATURE,
};
use std::sync::Arc;
use vstd::prelude::*;
use vstd::utf8::*;

verus! {

/// The versions of the archive format.
#[derive(Debug, Clone, Copy, PartialEq, Eq, Structural)]
pub enum VPKVersion {
    V1,
    V2,
}

impl VPKVersion {
    /// The number that stands for the version in a header.
    pub open spec fn spec_number(self) -> u32 {
        match self {
            VPKVersion::V1 => 1,
            VPKVersion::V2 => 2,
        }
    }

    /// The number that stands for the version in a header.
    #[verifier::when_used_as_spec(spec_number)]
    pub fn number(self) -> (n: u32)
        ensures
            n == self.spec_number(),
    {
        match self {
            VPKVersion::V1 => 1,
            VPKVersion::V2 => 2,
        }
    }

    /// The number of bytes that a header of the version takes up.
    pub open spec fn spec_header_length(self) -> u32 {
        match self {
            VPKVersion::V1 => 12,
            VPKVersion::V2 => 28,
        }
    }

    /// The number of bytes that a header of the version takes up.
    #[verifier::when_used_as_spec(spec_header_length)]
    pub fn header_length(self) -> (n: u32)
        ensures
            n == self.spec_header_length(),
    {
        match self {
            VPKVersion::V1 => 12,
            VPKVersion::V2 => 28,
        }
    }
}

/// The header of an archive.
#[derive(Debug, Clone, Copy)]
pub struct VPKHeader {
    pub signature: u32,
    pub version: VPKVersion,
    /// The length of the tree section.
    pub tree_length: u32,
    /// The length of the header itself: 12 for version 1, 28 for version 2.
    pub header_length: u32,
    /// Version 2: the length of the data kept in the archive's own file.
    pub embed_chunk_length: Option<u32>,
    /// Version 2: the length of the table of chunk hashes.
    pub chunk_hashes_length: Option<u32>,
    /// Version 2: the length of the trailer of digests.
    pub self_hashes_length: Option<u32>,
    /// Version 2: the length of the signature section.
    pub signature_length: Option<u32>,
}

impl VPKHeader {
    /// Whether the header is one that decoding gives: the signature, the
    /// length and the presence of the version 2 fields all go by the version.
    pub open spec fn well_formed(self) -> bool {
        &&& self.signature == VPK_SIGNATURE
        &&& self.header_length == self.version.spec_header_length()
        &&& self.embed_chunk_length is Some <==> self.version == VPKVersion::V2
        &&& self.chunk_hashes_length is Some <==> self.version == VPKVersion::V2
        &&& self.self_hashes_length is Some <==> self.version == VPKVersion::V2
        &&& self.signature_length is Some <==> self.version == VPKVersion::V2
    }
}

/// `field`, or `default` where the header has none.
pub open spec fn field_or(field: Option<u32>, default: u32) -> u32 {
    match field {
        Some(x) => x,
        None => default,
    }
}

/// The bytes that stand for `h` in an archive. A version 2 field that the
/// header lacks is written as 0, the trailer's length as 48.
pub open spec fn header_image(h: VPKHeader) -> Seq<u8> {
    let fixed = u32_le(h.signature) + u32_le(h.version.spec_number()) + u32_le(h.tree_length);
    if h.version == VPKVersion::V2 {
        fixed + u32_le(field_or(h.embed_chunk_length, 0)) + u32_le(
            field_or(h.chunk_hashes_length, 0),
        ) + u32_le(field_or(h.self_hashes_length, 48)) + u32_le(field_or(h.signature_length, 0))
    } else {
        fixed
    }
}

/// The header that the front of `b` decodes to.
pub open spec fn header_at_front(b: Seq<u8>) -> Result<VPKHeader, VpkError> {
    if b.len() < 12 {
        Err(VpkError::Format(FormatError::TruncatedRead))
    } else if le_u32(b.subrange(0, 4)) != VPK_SIGNATURE {
        Err(VpkError::Format(FormatError::BadSignature(le_u32(b.subrange(0, 4)))))
    } else if le_u32(b.subrange(4, 8)) == 1 {
        Ok(
            VPKHeader {
                signature: VPK_SIGNATURE,
                version: VPKVersion::V1,
                tree_length: le_u32(b.subrange(8, 12)),
                header_length: 12,
                embed_chunk_length: None,
                chunk_hashes_length: None,
                self_hashes_length: None,
                signature_length: None,
            },
        )
    } else if le_u32(b.subrange(4, 8)) != 2 {
        Err(VpkError::Format(FormatError::UnsupportedVersion(le_u32(b.subrange(4, 8)))))
    } else if b.len() < 28 {
        Err(VpkError::Format(FormatError::TruncatedRead))
    } else {
        Ok(
            VPKHeader {
                signature: VPK_SIGNATURE,
                version: VPKVersion::V2,
                tree_length: le_u32(b.subrange(8, 12)),
                header_length: 28,
                embed_chunk_length: Some(le_u32(b.subrange(12, 16))),
                chunk_hashes_length: Some(le_u32(b.subrange(16, 20))),
                self_hashes_length: Some(le_u32(b.subrange(20, 24))),
                signature_length: Some(le_u32(b.subrange(24, 28))),
            },
        )
    }
}

/// Where a reader stands after it has read the header at the front of
/// `b`, or has failed to: behind the header; behind its first twelve bytes
/// where their content is at fault; at the end where `b` is too short.
pub open spec fn header_stop(b: Seq<u8>) -> int {
    match header_at_front(b) {
        Ok(h) => h.header_length as int,
        Err(VpkError::Format(FormatError::TruncatedRead)) => b.len() as int,
        Err(_) => 12,
    }
}

/// The three digests that close a version 2 archive.
#[derive(Debug, Clone, Copy)]
pub struct VPKChecksums {
    pub tree_checksum: [u8; 16],
    pub chunk_hashes_checksum: [u8; 16],
    pub file_checksum: [u8; 16],
}

/// The mathematical value of a `VPKChecksums`.
pub ghost struct ChecksumsView {
    pub tree: Seq<u8>,
    pub chunk_hashes: Seq<u8>,
    pub file: Seq<u8>,
}

impl View for VPKChecksums {
    type V = ChecksumsView;

    open spec fn view(&self) -> ChecksumsView {
        ChecksumsView {
            tree: self.tree_checksum@,
            chunk_hashes: self.chunk_hashes_checksum@,
            file: self.file_checksum@,
        }
    }
}

/// Where the trailer of digests starts in an archive with header `h`.
pub open spec fn checksums_offset(h: VPKHeader) -> int {
    h.header_length + h.tree_length + field_or(h.embed_chunk_length, 0) + field_or(
        h.chunk_hashes_length,
        0,
    )
}

/// Reads the sixteen bytes of one digest.
fn read_digest(reader: &mut ByteReader) -> (r: Result<[u8; 16], VpkError>)
    ensures
        final(reader).bytes() == old(reader).bytes(),
        match r {
            Ok(d) => {
                &&& 16 <= old(reader).remaining().len()
                &&& d@ == old(reader).remaining().subrange(0, 16)
                &&& final(reader).offset() == old(reader).offset() + 16
            },
            Err(e) => {
                &&& 16 > old(reader).remaining().len()
                &&& e == VpkError::Format(FormatError::TruncatedRead)
                &&& final(reader).offset() == old(reader).bytes().len()
            },
        },
{
    let bytes = read_exact_vec(reader, 16)?;
    let mut digest: [u8; 16] = [0u8; 16];
    let mut i: usize = 0;
    while i < 16
        invariant
            i <= 16,
            bytes@.len() == 16,
            forall|j: int| 0 <= j < i ==> digest@[j] == bytes@[j],
        decreases 16 - i,
    {
        digest[i] = bytes[i];
        i += 1;
    }
    assert(digest@ =~= bytes@);
    Ok(digest)
}

/// The three digests at the end of `b`, an archive with header `h`.
pub open spec fn checksums_at(b: Seq<u8>, h: VPKHeader) -> Result<ChecksumsView, VpkError> {
    let at = checksums_offset(h);
    if h.version != VPKVersion::V2 {
        Err(VpkError::Format(FormatError::UnsupportedVersion(h.version.spec_number())))
    } else if at + 48 > b.len() {
        Err(VpkError::Format(FormatError::TruncatedRead))
    } else {
        Ok(
            ChecksumsView {
                tree: b.subrange(at, at + 16),
                chunk_hashes: b.subrange(at + 16, at + 32),
                file: b.subrange(at + 32, at + 48),
            },
        )
    }
}

/// The mathematical value of a `VPK`.
pub ghost struct VpkView {
    /// The path of the file that the archive was opened from.
    pub path: Option<Seq<char>>,
    pub header: VPKHeader,
    /// The entries, no two under the same path.
    pub entries: Seq<EntryView>,
    pub checksums: Option<ChecksumsView>,
}

/// The archive that the bytes `b` of the file `path` decode to: the header,
/// then the tree, then for version 2 the trailer. The first fault ends the
/// decoding.
pub open spec fn opened(path: Seq<char>, b: Seq<u8>) -> Result<VpkView, VpkError> {
    match header_at_front(b) {
        Err(e) => Err(e),
        Ok(h) => match decode_tree(
            b,
            h.header_length as int,
            Level::Extension,
            Seq::<char>::empty(),
            Seq::<char>::empty(),
            h.header_length + h.tree_length,
        ).0 {
            Err(e) => Err(e),
            Ok(entries) => if h.version == VPKVersion::V2 {
                match checksums_at(b, h) {
                    Err(e) => Err(e),
                    Ok(c) => Ok(
                        VpkView {
                            path: Some(path),
                            header: h,
                            entries: tree_of(entries),
                            checksums: Some(c),
                        },
                    ),
                }
            } else {
                Ok(
                    VpkView {
                        path: Some(path),
                        header: h,
                        entries: tree_of(entries),
                        checksums: None,
                    },
                )
            },
        },
    }
}

/// One regular file that a walk of a directory found.
#[derive(Debug)]
pub struct ScannedFile {
    /// The path of the file, relative to the directory walked.
    pub relative_path: String,
    /// The last component of the path.
    pub file_name: String,
    /// The content of the file.
    pub data: Vec<u8>,
}

/// The mathematical value of a `ScannedFile`.
pub ghost struct ScannedView {
    pub relative_path: Seq<char>,
    pub file_name: Seq<char>,
    pub data: Seq<u8>,
}

impl View for ScannedFile {
    type V = ScannedView;

    open spec fn view(&self) -> ScannedView {
        ScannedView {
            relative_path: self.relative_path@,
            file_name: self.file_name@,
            data: self.data@,
        }
    }
}

/// The mathematical values of `files`, in the same order.
pub open spec fn scan_views(files: Seq<ScannedFile>) -> Seq<ScannedView> {
    files.map_values(|f: ScannedFile| f@)
}

/// The entry that a scanned file becomes: filed under its normalized path,
/// with its content as payload and the checksum of the content; lengths and
/// offset stay zero until the archive is saved.
pub open spec fn scanned_entry(f: ScannedView) -> EntryView {
    EntryView {
        path: normalized(f.relative_path),
        metadata: MetadataView {
            preload: f.data,
            crc32: crc32_checksum(f.data),
            preload_length: 0,
            archive_index: EMBEDDED_ARCHIVE_INDEX,
            archive_offset: 0,
            file_length: 0,
        },
    }
}

/// The entries of `files`, in the same order.
pub open spec fn scanned_entries(files: Seq<ScannedView>) -> Seq<EntryView> {
    files.map_values(|f: ScannedView| scanned_entry(f))
}

/// Whether every file of `files` has a `.` in its name.
pub open spec fn all_names_have_extension(files: Seq<ScannedView>) -> bool {
    forall|i: int| 0 <= i < files.len() ==> (#[trigger] files[i]).file_name.contains('.')
}

/// The header of an archive built from a scan, whose tree is
/// `tree_length` bytes long.
pub open spec fn scan_header(tree_length: u32) -> VPKHeader {
    VPKHeader {
        signature: VPK_SIGNATURE,
        version: VPKVersion::V2,
        tree_length,
        header_length: 28,
        embed_chunk_length: Some(0),
        chunk_hashes_length: Some(0),
        self_hashes_length: Some(48),
        signature_length: Some(0),
    }
}

/// The archive that a scan which found `files` gives. One file without an
/// extension fails the whole scan.
pub open spec fn scanned(files: Seq<ScannedView>) -> Result<VpkView, VpkError> {
    if !all_names_have_extension(files) {
        Err(VpkError::Format(FormatError::MissingExtension))
    } else {
        match tree_length_of(tree_of(scanned_entries(files))) {
            Err(e) => Err(e),
            Ok(n) => Ok(
                VpkView {
                    path: None,
                    header: scan_header(n),
                    entries: tree_of(scanned_entries(files)),
                    checksums: None,
                },
            ),
        }
    }
}

/// One file without an extension fails the whole scan, whatever else was found.
pub proof fn lemma_scan_needs_extensions(files: Seq<ScannedView>, i: int)
    requires
        0 <= i < files.len(),
        !files[i].file_name.contains('.'),
    ensures
        scanned(files) == Err::<VpkView, VpkError>(VpkError::Format(FormatError::MissingExtension)),
{
}

/// Bytes that hold a header's length and do not start with the signature
/// are opened as nothing but a `BadSignature`, whatever follows the first
/// four of them.
pub proof fn lemma_bad_signature(path: Seq<char>, b: Seq<u8>)
    requires
        b.len() >= 12,
        le_u32(b.subrange(0, 4)) != VPK_SIGNATURE,
    ensures
        opened(path, b) == Err::<VpkView, VpkError>(
            VpkError::Format(FormatError::BadSignature(le_u32(b.subrange(0, 4)))),
        ),
{
}

/// The header that is written for an archive with header `h`, a tree of
/// `tree_length` bytes and `data_length` bytes of payload.
pub open spec fn saved_header(h: VPKHeader, tree_length: u32, data_length: u32) -> VPKHeader {
    VPKHeader {
        tree_length,
        embed_chunk_length: if h.version == VPKVersion::V2 {
            Some(data_length)
        } else {
            h.embed_chunk_length
        },
        ..h
    }
}

/// The trailer that is written: for version 2 three digests of sixteen
/// zero bytes each, which stand in for digests that are not computed.
pub open spec fn trailer_image(version: VPKVersion) -> Seq<u8> {
    if version == VPKVersion::V2 {
        Seq::new(48, |i: int| 0u8)
    } else {
        Seq::<u8>::empty()
    }
}

/// The bytes of the file that saving `v` gives: header, tree, payload and
/// trailer. The payload of every entry is all that its record holds as
/// preload; it is written as archive data, and the preload length as 0.
pub open spec fn archive_image(v: VpkView) -> Result<Seq<u8>, VpkError> {
    let items = grouped(items_of(v.entries));
    if !all_have_extension(v.entries) {
        Err(VpkError::Format(FormatError::MissingExtension))
    } else if v.header.version.spec_header_length() + tree_image(items).len() + payload_image(
        items,
    ).len() > u32::MAX {
        Err(VpkError::LimitExceeded)
    } else {
        Ok(
            header_image(
                saved_header(
                    v.header,
                    tree_image(items).len() as u32,
                    payload_image(items).len() as u32,
                ),
            ) + tree_image(items) + payload_image(items) + trailer_image(v.header.version),
        )
    }
}

/// The number of bytes that the items of `tree` take up in a tree section,
/// or the reason why they cannot be written.
pub open spec fn tree_length_of(tree: Seq<EntryView>) -> Result<u32, VpkError> {
    if !all_have_extension(tree) {
        Err(VpkError::Format(FormatError::MissingExtension))
    } else if tree_image(grouped(items_of(tree))).len() > u32::MAX {
        Err(VpkError::LimitExceeded)
    } else {
        Ok(tree_image(grouped(items_of(tree))).len() as u32)
    }
}

/// `total` and `more` together, where that stays within 32 bits.
fn grow(total: u64, more: usize) -> (r: Option<u64>)
    requires
        total <= u32::MAX,
    ensures
        r is Some <==> total + more <= u32::MAX,
        r matches Some(t) ==> t == total + more,
{
    if more > u32::MAX as usize {
        return None;
    }
    let t: u64 = total + more as u64;
    if t > u32::MAX as u64 {
        None
    } else {
        Some(t)
    }
}

/// The items of `tree` in the order in which a tree section holds them.
fn arranged_items<'a>(tree: &'a FileTree) -> (r: Result<Vec<Item<'a>>, VpkError>)
    ensures
        all_have_extension(tree@) ==> (r matches Ok(items) && views(items@) == grouped(
            items_of(tree@),
        )),
        !all_have_extension(tree@) ==> (r matches Err(e) && e == VpkError::Format(
            FormatError::MissingExtension,
        )),
{
    let n: usize = tree.len();
    let mut items: Vec<Item<'a>> = Vec::new();
    let mut i: usize = 0;
    while i < n
        invariant
            n == tree@.len(),
            i <= n,
            forall|j: int| 0 <= j < i ==> (#[trigger] tree@[j]).path.contains('.'),
            views(items@) == items_of(tree@.subrange(0, i as int)),
        decreases n - i,
    {
        let ghost before = items@;
        let item = match Item::of(tree.entry(i)) {
            Ok(item) => item,
            Err(e) => {
                assert(!tree@[i as int].path.contains('.'));
                return Err(e);
            },
        };
        let ghost added = item@;
        items.push(item);
        i += 1;
        proof {
            assert(added == item_of(tree@[i - 1]));
            assert(views(items@) =~= views(before).push(added));
            assert(tree@.subrange(0, i as int) =~= tree@.subrange(0, i - 1).push(tree@[i - 1]));
            assert(views(items@) =~= items_of(tree@.subrange(0, i as int)));
        }
    }
    assert(tree@.subrange(0, n as int) =~= tree@);
    Ok(arrange(items))
}

/// The length of a string's bytes without the terminator.
fn text_size(s: &str) -> (n: usize)
    ensures
        n == encode_utf8(s@).len(),
{
    s.as_bytes().len()
}

/// How long the part of the tree is that stands before the name of item `k`.
fn opening_size(items: &Vec<Item>, k: usize, total: u64) -> (r: Option<u64>)
    requires
        k < items@.len(),
        total <= u32::MAX,
    ensures
        r is Some <==> total + opening(views(items@), k as int).len() <= u32::MAX,
        r matches Some(t) ==> t == total + opening(views(items@), k as int).len(),
{
    let item = &items[k];
    assert(views(items@)[k as int] == item@);
    let new_ext: bool = k == 0 || !str_eq(items[k - 1].ext.as_str(), item.ext.as_str());
    let new_dir: bool = new_ext || !str_eq(items[k - 1].dir.as_str(), item.dir.as_str());
    proof {
        if k > 0 {
            assert(views(items@)[k - 1] == items@[k - 1]@);
        }
    }
    let mut t: u64 = total;
    if new_ext {
        if k > 0 {
            t = grow(t, 2)?;
        }
        t = grow(t, text_size(item.ext.as_str()))?;
        t = grow(t, 1)?;
    } else if new_dir {
        t = grow(t, 1)?;
    }
    if new_dir {
        t = grow(t, text_size(item.dir.as_str()))?;
        t = grow(t, 1)?;
    }
    Some(t)
}

/// The length of the tree section that files `items` in their order, where
/// it stays within 32 bits.
pub fn tree_size(items: &Vec<Item>) -> (r: Option<u32>)
    ensures
        r is Some <==> tree_image(views(items@)).len() <= u32::MAX,
        r matches Some(n) ==> n == tree_image(views(items@)).len(),
{
    let ghost all = views(items@);
    let n: usize = items.len();
    let mut total: u64 = 0;
    let mut k: usize = 0;
    while k < n
        invariant
            n == items@.len(),
            all == views(items@),
            k <= n,
            total == tree_upto(all, k as int).len(),
            total <= u32::MAX,
        decreases n - k,
    {
        proof {
            lemma_upto_grows(all, k + 1, n as int);
            assert(all[k as int] == items@[k as int]@);
        }
        total = opening_size(items, k, total)?;
        total = grow(total, text_size(items[k].name.as_str()))?;
        total = grow(total, 19)?;
        k += 1;
    }
    let tail: usize = if n == 0 {
        1
    } else {
        3
    };
    let total = grow(total, tail)?;
    Some(total as u32)
}

/// The length of the data section that holds the payload of `items`,
/// where it stays within 32 bits.
pub fn data_size(items: &Vec<Item>) -> (r: Option<u32>)
    ensures
        r is Some <==> payload_image(views(items@)).len() <= u32::MAX,
        r matches Some(n) ==> n == payload_image(views(items@)).len(),
{
    let ghost all = views(items@);
    let n: usize = items.len();
    let mut total: u64 = 0;
    let mut k: usize = 0;
    while k < n
        invariant
            n == items@.len(),
            all == views(items@),
            k <= n,
            total == payload_upto(all, k as int).len(),
            total <= u32::MAX,
        decreases n - k,
    {
        proof {
            lemma_upto_grows(all, k + 1, n as int);
            assert(all[k as int] == items@[k as int]@);
        }
        total = grow(total, items[k].data.len())?;
        k += 1;
    }
    Some(total as u32)
}

/// Appends what stands before the name of item `k`.
fn write_opening(items: &Vec<Item>, k: usize, writer: &mut Vec<u8>)
    requires
        k < items@.len(),
    ensures
        final(writer)@ == old(writer)@ + opening(views(items@), k as int),
{
    let item = &items[k];
    proof {
        assert(views(items@)[k as int] == item@);
        if k > 0 {
            assert(views(items@)[k - 1] == items@[k - 1]@);
        }
    }
    let new_ext: bool = k == 0 || !str_eq(items[k - 1].ext.as_str(), item.ext.as_str());
    let new_dir: bool = new_ext || !str_eq(items[k - 1].dir.as_str(), item.dir.as_str());
    if new_ext {
        if k > 0 {
            writer.push(0u8);
            writer.push(0u8);
        }
        write_cstring(writer, item.ext.as_str());
    } else if new_dir {
        writer.push(0u8);
    }
    if new_dir {
        write_cstring(writer, item.dir.as_str());
    }
    assert(writer@ =~= old(writer)@ + opening(views(items@), k as int));
}

/// Appends the record of an entry without preload.
fn write_record(writer: &mut Vec<u8>, crc32: u32, offset: u32, length: u32)
    ensures
        final(writer)@ == old(writer)@ + record_image(crc32, offset, length),
{
    put_u32_le(writer, crc32);
    put_u16_le(writer, 0);
    put_u16_le(writer, EMBEDDED_ARCHIVE_INDEX);
    put_u32_le(writer, offset);
    put_u32_le(writer, length);
    put_u16_le(writer, METADATA_SUFFIX);
    assert(writer@ =~= old(writer)@ + record_image(crc32, offset, length));
}

/// Appends the tree section that files `items` in their order.
pub fn write_tree(items: &Vec<Item>, writer: &mut Vec<u8>)
    requires
        payload_image(views(items@)).len() <= u32::MAX,
    ensures
        final(writer)@ == old(writer)@ + tree_image(views(items@)),
{
    let ghost all = views(items@);
    let n: usize = items.len();
    let mut offset: u32 = 0;
    let mut k: usize = 0;
    assert(writer@ =~= old(writer)@ + tree_upto(all, 0));
    while k < n
        invariant
            n == items@.len(),
            all == views(items@),
            k <= n,
            payload_image(all).len() <= u32::MAX,
            offset == payload_upto(all, k as int).len(),
            writer@ == old(writer)@ + tree_upto(all, k as int),
        decreases n - k,
    {
        let ghost before = writer@;
        let item = &items[k];
        proof {
            lemma_upto_grows(all, k + 1, n as int);
            assert(all[k as int] == item@);
        }
        write_opening(items, k, writer);
        write_cstring(writer, item.name.as_str());
        let length: u32 = item.data.len() as u32;
        write_record(writer, item.crc32, offset, length);
        offset = offset + length;
        k += 1;
        assert(writer@ =~= old(writer)@ + tree_upto(all, k as int));
    }
    if n > 0 {
        writer.push(0u8);
        writer.push(0u8);
    }
    writer.push(0u8);
    assert(writer@ =~= old(writer)@ + tree_image(all));
}

/// Appends the payload of `items`, in their order.
pub fn write_data(items: &Vec<Item>, writer: &mut Vec<u8>)
    ensures
        final(writer)@ == old(writer)@ + payload_image(views(items@)),
{
    let ghost all = views(items@);
    let n: usize = items.len();
    let mut k: usize = 0;
    assert(writer@ =~= old(writer)@ + payload_upto(all, 0));
    while k < n
        invariant
            n == items@.len(),
            all == views(items@),
            k <= n,
            writer@ == old(writer)@ + payload_upto(all, k as int),
        decreases n - k,
    {
        proof {
            assert(all[k as int] == items@[k as int]@);
        }
        put_bytes(writer, items[k].data.as_slice());
        k += 1;
        assert(writer@ =~= old(writer)@ + payload_upto(all, k as int));
    }
}

/// A container archive: where it was read from, if anywhere, its header,
/// its entries, and for version 2 its trailer of digests.
#[derive(Debug)]
pub struct VPK {
    path: Option<String>,
    header: VPKHeader,
    tree: FileTree,
    checksums: Option<VPKChecksums>,
}

impl View for VPK {
    type V = VpkView;

    closed spec fn view(&self) -> VpkView {
        VpkView {
            path: match self.path {
                Some(p) => Some(p@),
                None => None,
            },
            header: self.header,
            entries: self.tree@,
            checksums: match self.checksums {
                Some(c) => Some(c@),
                None => None,
            },
        }
    }
}

impl VPK {
    /// Reads the header of an archive. A signature other than
    /// `VPK_SIGNATURE` fails with `BadSignature` before anything else is
    /// looked at, a version other than 1 or 2 with `UnsupportedVersion`.
    pub fn read_header(reader: &mut ByteReader) -> (r: Result<VPKHeader, VpkError>)
        ensures
            final(reader).bytes() == old(reader).bytes(),
            old(reader).in_bounds(),
            final(reader).in_bounds(),
            final(reader).offset() == old(reader).offset() + header_stop(old(reader).remaining()),
            match header_at_front(old(reader).remaining()) {
                Ok(h) => r == Ok::<VPKHeader, VpkError>(h) && h.well_formed(),
                Err(e) => r == Err::<VPKHeader, VpkError>(e),
            },
    {
        let ghost rem = reader.remaining();
        let fixed = read_exact_vec(reader, 12)?;
        let signature: u32 = get_u32_le(fixed.as_slice(), 0);
        let version_number: u32 = get_u32_le(fixed.as_slice(), 4);
        let tree_length: u32 = get_u32_le(fixed.as_slice(), 8);
        proof {
            assert(fixed@.subrange(0, 4) =~= rem.subrange(0, 4));
            assert(fixed@.subrange(4, 8) =~= rem.subrange(4, 8));
            assert(fixed@.subrange(8, 12) =~= rem.subrange(8, 12));
        }
        if signature != VPK_SIGNATURE {
            return Err(VpkError::Format(FormatError::BadSignature(signature)));
        }
        if version_number == 1 {
            return Ok(
                VPKHeader {
                    signature,
                    version: VPKVersion::V1,
                    tree_length,
                    header_length: 12,
                    embed_chunk_length: None,
                    chunk_hashes_length: None,
                    self_hashes_length: None,
                    signature_length: None,
                },
            );
        }
        if version_number != 2 {
            return Err(VpkError::Format(FormatError::UnsupportedVersion(version_number)));
        }
        let ghost rest = reader.remaining();
        assert(rest =~= rem.subrange(12, rem.len() as int));
        let extension = read_exact_vec(reader, 16)?;
        let embed_chunk_length: u32 = get_u32_le(extension.as_slice(), 0);
        let chunk_hashes_length: u32 = get_u32_le(extension.as_slice(), 4);
        let self_hashes_length: u32 = get_u32_le(extension.as_slice(), 8);
        let signature_length: u32 = get_u32_le(extension.as_slice(), 12);
        proof {
            assert(extension@.subrange(0, 4) =~= rem.subrange(12, 16));
            assert(extension@.subrange(4, 8) =~= rem.subrange(16, 20));
            assert(extension@.subrange(8, 12) =~= rem.subrange(20, 24));
            assert(extension@.subrange(12, 16) =~= rem.subrange(24, 28));
        }
        Ok(
            VPKHeader {
                signature,
                version: VPKVersion::V2,
                tree_length,
                header_length: 28,
                embed_chunk_length: Some(embed_chunk_length),
                chunk_hashes_length: Some(chunk_hashes_length),
                self_hashes_length: Some(self_hashes_length),
                signature_length: Some(signature_length),
            },
        )
    }

    /// Appends the bytes of `header`.
    pub fn write_header(header: &VPKHeader, writer: &mut Vec<u8>)
        ensures
            final(writer)@ == old(writer)@ + header_image(*header),
    {
        put_u32_le(writer, header.signature);
        put_u32_le(writer, header.version.number());
        put_u32_le(writer, header.tree_length);
        if header.version == VPKVersion::V2 {
            put_u32_le(writer, header.embed_chunk_length.unwrap_or(0));
            put_u32_le(writer, header.chunk_hashes_length.unwrap_or(0));
            put_u32_le(writer, header.self_hashes_length.unwrap_or(48));
            put_u32_le(writer, header.signature_length.unwrap_or(0));
        }
        assert(writer@ =~= old(writer)@ + header_image(*header));
    }

    /// Reads the trailer of digests of a version 2 archive, from the place
    /// that `header` gives. For another version there is no trailer, and the
    /// read fails with `UnsupportedVersion`.
    pub fn read_checksums(reader: &mut ByteReader, header: &VPKHeader) -> (r: Result<
        VPKChecksums,
        VpkError,
    >)
        ensures
            final(reader).bytes() == old(reader).bytes(),
            match checksums_at(old(reader).bytes(), *header) {
                Ok(v) => {
                    &&& r matches Ok(c) && c@ == v
                    &&& final(reader).offset() == checksums_offset(*header) + 48
                },
                Err(e) => {
                    &&& r matches Err(x) && x == e
                    &&& final(reader).offset() == if header.version == VPKVersion::V2 {
                        old(reader).bytes().len() as int
                    } else {
                        old(reader).offset()
                    }
                },
            },
    {
        if header.version != VPKVersion::V2 {
            return Err(VpkError::Format(FormatError::UnsupportedVersion(header.version.number())));
        }
        let at: u64 = header.header_length as u64 + header.tree_length as u64
            + header.embed_chunk_length.unwrap_or(0) as u64 + header.chunk_hashes_length.unwrap_or(
            0,
        ) as u64;
        let ghost b = reader.bytes();
        reader.seek(at);
        let tree_checksum = read_digest(reader)?;
        let chunk_hashes_checksum = read_digest(reader)?;
        let file_checksum = read_digest(reader)?;
        proof {
            assert(tree_checksum@ =~= b.subrange(at as int, at + 16));
            assert(chunk_hashes_checksum@ =~= b.subrange(at + 16, at + 32));
            assert(file_checksum@ =~= b.subrange(at + 32, at + 48));
        }
        Ok(VPKChecksums { tree_checksum, chunk_hashes_checksum, file_checksum })
    }
    /// The string that the directory string `dir` puts in front of names.
    fn prefix_of(dir: &str) -> (prefix: String)
        ensures
            prefix@ == dir_prefix(dir@),
    {
        proof {
            reveal_strlit(" ");
            assert(" "@ =~= root_dir());
        }
        if str_eq(dir, " ") {
            String::new()
        } else {
            let mut prefix = dir.to_owned();
            push_char(&mut prefix, '/');
            prefix
        }
    }

    /// Reads the record that follows a name, and its preload.
    fn read_record(reader: &mut ByteReader, header: &VPKHeader) -> (r: Result<
        FileMetadata,
        VpkError,
    >)
        ensures
            final(reader).bytes() == old(reader).bytes(),
            old(reader).in_bounds(),
            final(reader).in_bounds(),
            final(reader).offset() == record_stop(
                old(reader).bytes(),
                old(reader).offset(),
                header.header_length + header.tree_length,
            ),
            match record_at(
                old(reader).bytes(),
                old(reader).offset(),
                header.header_length + header.tree_length,
            ) {
                Ok(m) => r matches Ok(x) && x@ == m,
                Err(e) => r matches Err(x) && x == e,
            },
    {
        let ghost b = reader.bytes();
        let ghost at = reader.offset();
        let rec = read_exact_vec(reader, 18)?;
        assert(rec@ =~= b.subrange(at, at + 18));
        let crc32: u32 = get_u32_le(rec.as_slice(), 0);
        let preload_length: u16 = get_u16_le(rec.as_slice(), 4);
        let archive_index: u16 = get_u16_le(rec.as_slice(), 6);
        let offset: u32 = get_u32_le(rec.as_slice(), 8);
        let file_length: u32 = get_u32_le(rec.as_slice(), 12);
        let suffix: u16 = get_u16_le(rec.as_slice(), 16);
        if suffix != METADATA_SUFFIX {
            return Err(VpkError::Format(FormatError::BadMetadataSuffix(suffix)));
        }
        let archive_offset: u32 = if archive_index == EMBEDDED_ARCHIVE_INDEX {
            let absolute: u64 = header.header_length as u64 + header.tree_length as u64
                + offset as u64;
            if absolute > u32::MAX as u64 {
                return Err(VpkError::LimitExceeded);
            }
            absolute as u32
        } else {
            offset
        };
        let preload: Vec<u8> = if preload_length > 0 {
            read_exact_vec(reader, preload_length as usize)?
        } else {
            Vec::new()
        };
        assert(preload@ =~= b.subrange(at + 18, at + 18 + preload_length));
        Ok(
            FileMetadata {
                preload,
                crc32,
                preload_length,
                archive_index,
                archive_offset,
                file_length,
            },
        )
    }

    /// Reads the tree of an archive with header `header`, and files its
    /// entries in the order in which they stand.
    pub fn read_file_tree(reader: &mut ByteReader, header: &VPKHeader) -> (r: Result<
        FileTree,
        VpkError,
    >)
        ensures
            final(reader).bytes() == old(reader).bytes(),
            ({
                let read = decode_tree(
                    old(reader).bytes(),
                    old(reader).offset(),
                    Level::Extension,
                    Seq::<char>::empty(),
                    Seq::<char>::empty(),
                    header.header_length + header.tree_length,
                );
                &&& final(reader).offset() == read.1
                &&& match read.0 {
                    Ok(entries) => r matches Ok(t) && t@ == tree_of(entries),
                    Err(e) => r matches Err(x) && x == e,
                }
            }),
    {
        let ghost b = reader.bytes();
        let ghost start = reader.offset();
        let ghost base: int = header.header_length + header.tree_length;
        let ghost mut done: Seq<EntryView> = Seq::<EntryView>::empty();
        let ghost whole = decode_tree(
            b,
            start,
            Level::Extension,
            Seq::<char>::empty(),
            Seq::<char>::empty(),
            base,
        );
        let mut tree = FileTree::new();
        let mut level = Level::Extension;
        let mut ext = String::new();
        let mut dir = String::new();
        let mut prefix = String::new();
        // Asking for the cursor tells that it lies within the bytes.
        let _ = reader.position();
        proof {
            lemma_prepend_push(done, arbitrary(), whole);
        }
        loop
            invariant
                b == old(reader).bytes(),
                reader.bytes() == b,
                reader.in_bounds(),
                base == header.header_length + header.tree_length,
                whole == decode_tree(
                    old(reader).bytes(),
                    old(reader).offset(),
                    Level::Extension,
                    Seq::<char>::empty(),
                    Seq::<char>::empty(),
                    header.header_length + header.tree_length,
                ),
                tree@ == tree_of(done),
                whole == prepend(done, decode_tree(b, reader.offset(), level, ext@, dir@, base)),
                level == Level::Name ==> prefix@ == dir_prefix(dir@),
            decreases b.len() - reader.offset(),
        {
            proof {
                lemma_cstring_advances(reader.remaining());
            }
            let s = read_cstring(reader)?;
            let empty: bool = s.as_str().is_empty();
            match level {
                Level::Extension => {
                    if empty {
                        proof {
                            assert(done + Seq::<EntryView>::empty() =~= done);
                        }
                        return Ok(tree);
                    }
                    ext = s;
                    level = Level::Directory;
                },
                Level::Directory => {
                    if empty {
                        level = Level::Extension;
                    } else {
                        prefix = Self::prefix_of(s.as_str());
                        dir = s;
                        level = Level::Name;
                    }
                },
                Level::Name => {
                    if empty {
                        level = Level::Directory;
                    } else {
                        let metadata = Self::read_record(reader, header)?;
                        let mut path = prefix.clone();
                        path.append(s.as_str());
                        push_char(&mut path, '.');
                        path.append(ext.as_str());
                        assert(path@ =~= full_path(dir@, s@, ext@));
                        proof {
                            let e = EntryView { path: path@, metadata: metadata@ };
                            lemma_prepend_push(
                                done,
                                e,
                                decode_tree(b, reader.offset(), Level::Name, ext@, dir@, base),
                            );
                            assert(done.push(e).drop_last() =~= done);
                            done = done.push(e);
                        }
                        tree.insert(path, metadata);
                    }
                },
            }
        }
    }
    /// Decodes the archive that was read from the file `path` as the bytes
    /// `data`: the header, then the tree, then for version 2 the trailer of
    /// digests. The first fault ends the decoding; nothing is recovered.
    pub fn open(path: String, data: &[u8]) -> (r: Result<VPK, VpkError>)
        ensures
            match opened(path@, data@) {
                Ok(v) => r matches Ok(a) && a@ == v,
                Err(e) => r matches Err(x) && x == e,
            },
    {
        let mut reader = ByteReader::new(data);
        assert(reader.remaining() =~= data@);
        let header = Self::read_header(&mut reader)?;
        let tree = Self::read_file_tree(&mut reader, &header)?;
        let checksums = if header.version == VPKVersion::V2 {
            Some(Self::read_checksums(&mut reader, &header)?)
        } else {
            None
        };
        Ok(VPK { path: Some(path), header, tree, checksums })
    }

    /// Builds an archive from the files that a walk of a directory found.
    /// Every file needs a `.` in its name, and so in its path: one without
    /// fails the whole build with `MissingExtension`. Files whose normalized
    /// paths are the same replace one another, the last one staying. The
    /// header is that of version 2, with the length of the tree; the archive
    /// has no backing file until it is saved and opened.
    pub fn from_directory(files: Vec<ScannedFile>) -> (r: Result<VPK, VpkError>)
        ensures
            match scanned(scan_views(files@)) {
                Ok(v) => r matches Ok(a) && a@ == v,
                Err(e) => r matches Err(x) && x == e,
            },
    {
        let ghost all = scan_views(files@);
        let mut tree = FileTree::new();
        assert(scanned_entries(all.subrange(0, 0)) =~= Seq::<EntryView>::empty());
        for file in it: files
            invariant
                it.seq() == files@,
                all == scan_views(files@),
                forall|j: int| 0 <= j < it.index() ==> (#[trigger] all[j]).file_name.contains('.'),
                tree@ == tree_of(scanned_entries(all.subrange(0, it.index() as int))),
        {
            let ghost i = it.index() as int;
            proof {
                assert(all[i] == file@);
                assert(scanned_entries(all.subrange(0, i + 1)).drop_last() =~= scanned_entries(
                    all.subrange(0, i),
                ));
                assert(scanned_entries(all.subrange(0, i + 1)).last() == scanned_entry(file@));
            }
            let path = normalize_path(file.relative_path.as_str());
            match split_filename(file.file_name.as_str()) {
                Ok(_) => {},
                Err(e) => {
                    return Err(e);
                },
            }
            let sum: u32 = crc32(file.data.as_slice());
            tree.insert(path, FileMetadata::pending(file.data, sum));
        }
        assert(all.subrange(0, all.len() as int) =~= all);
        let tree_length: u32 = Self::calculate_tree_length(&tree)?;
        let header = VPKHeader {
            signature: VPK_SIGNATURE,
            version: VPKVersion::V2,
            tree_length,
            header_length: 28,
            embed_chunk_length: Some(0),
            chunk_hashes_length: Some(0),
            self_hashes_length: Some(48),
            signature_length: Some(0),
        };
        Ok(VPK { path: None, header, tree, checksums: None })
    }

    /// The exact length of the tree section that files the entries of `tree`.
    /// A path without a `.` fails with `MissingExtension`, a length beyond
    /// 32 bits with `LimitExceeded`.
    pub fn calculate_tree_length(tree: &FileTree) -> (r: Result<u32, VpkError>)
        ensures
            r == tree_length_of(tree@),
    {
        let items = arranged_items(tree)?;
        match tree_size(&items) {
            Some(n) => Ok(n),
            None => Err(VpkError::LimitExceeded),
        }
    }

    /// Appends the tree section and, after it, the payload of every entry
    /// in the order of the tree, and gives the length of the payload. Each
    /// record holds the place of its entry's payload, counted from the end
    /// of the tree. Nothing is written where the archive cannot be: with
    /// `MissingExtension` where a path has no `.`, with `LimitExceeded` where
    /// the end of the payload would lie beyond 32 bits.
    pub fn write_file_tree_and_data(&self, writer: &mut Vec<u8>) -> (r: Result<u32, VpkError>)
        ensures
            ({
                let items = grouped(items_of(self@.entries));
                if !all_have_extension(self@.entries) {
                    &&& r == Err::<u32, VpkError>(VpkError::Format(FormatError::MissingExtension))
                    &&& final(writer)@ == old(writer)@
                } else if old(writer)@.len() + tree_image(items).len() + payload_image(items).len()
                    > u32::MAX {
                    &&& r == Err::<u32, VpkError>(VpkError::LimitExceeded)
                    &&& final(writer)@ == old(writer)@
                } else {
                    &&& r == Ok::<u32, VpkError>(payload_image(items).len() as u32)
                    &&& final(writer)@ == old(writer)@ + tree_image(items) + payload_image(items)
                }
            }),
    {
        let items = arranged_items(&self.tree)?;
        let start: usize = writer.len();
        let tree_length: u32 = match tree_size(&items) {
            Some(n) => n,
            None => {
                return Err(VpkError::LimitExceeded);
            },
        };
        let data_length: u32 = match data_size(&items) {
            Some(n) => n,
            None => {
                return Err(VpkError::LimitExceeded);
            },
        };
        if start > u32::MAX as usize || start as u64 + tree_length as u64 + data_length as u64
            > u32::MAX as u64 {
            return Err(VpkError::LimitExceeded);
        }
        write_tree(&items, writer);
        write_data(&items, writer);
        Ok(data_length)
    }

    /// Appends the trailer of a version 2 archive: three digests of sixteen
    /// zero bytes each. The digests are not computed.
    pub fn write_checksums(writer: &mut Vec<u8>)
        ensures
            final(writer)@ == old(writer)@ + trailer_image(VPKVersion::V2),
    {
        let mut i: usize = 0;
        while i < 48
            invariant
                i <= 48,
                writer@ == old(writer)@ + Seq::new(i as nat, |j: int| 0u8),
            decreases 48 - i,
        {
            writer.push(0u8);
            i += 1;
            assert(writer@ =~= old(writer)@ + Seq::new(i as nat, |j: int| 0u8));
        }
    }

    /// The bytes of the file that holds the archive: the header, the tree,
    /// the payload of every entry, and for version 2 the length of the
    /// payload in the header and the trailer.
    pub fn save(&self) -> (r: Result<Vec<u8>, VpkError>)
        ensures
            match archive_image(self@) {
                Ok(image) => r matches Ok(bytes) && bytes@ == image,
                Err(e) => r matches Err(x) && x == e,
            },
    {
        let tree_length: u32 = Self::calculate_tree_length(&self.tree)?;
        let header = VPKHeader { tree_length, ..self.header };
        let mut out: Vec<u8> = Vec::new();
        Self::write_header(&header, &mut out);
        let ghost head = out@;
        let data_length: u32 = self.write_file_tree_and_data(&mut out)?;
        if self.header.version == VPKVersion::V2 {
            let ghost before = out@;
            patch_u32_le(&mut out, 12, data_length);
            assert(out@.subrange(0, 28) =~= header_image(
                saved_header(self.header, tree_length, data_length),
            )) by {
                assert(before.subrange(0, 28) =~= head);
            }
            assert(out@ =~= header_image(saved_header(self.header, tree_length, data_length))
                + before.subrange(28, before.len() as int));
            Self::write_checksums(&mut out);
        } else {
            assert(header_image(header) =~= header_image(
                saved_header(self.header, tree_length, data_length),
            ));
        }
        proof {
            let items = grouped(items_of(self@.entries));
            assert(out@ =~= header_image(saved_header(self.header, tree_length, data_length))
                + tree_image(items) + payload_image(items) + trailer_image(self.header.version));
        }
        Ok(out)
    }

    /// The name of the file that holds the archive data of the entry filed
    /// under `path`, which `get_file` is to be given; nothing where the
    /// entry has no archive data. An unknown path fails with `NotFound`, an
    /// archive without a backing file with `State`.
    pub fn archive_path_of(&self, path: &str) -> (r: Result<Option<String>, VpkError>)
        ensures
            !has_path(self@.entries, path@) ==> (r matches Err(e) && e == VpkError::NotFound),
            has_path(self@.entries, path@) && self@.path is None ==> (r matches Err(e) && e
                == VpkError::State),
            has_path(self@.entries, path@) && self@.path is Some ==> ({
                let m = self@.entries[index_of_path(self@.entries, path@)].metadata;
                if m.file_length == 0 {
                    r matches Ok(None)
                } else {
                    r matches Ok(Some(p)) && p@ == resolved_path(self@.path->0, m.archive_index)
                }
            }),
    {
        let metadata = match self.tree.get(path) {
            Some(m) => m,
            None => {
                return Err(VpkError::NotFound);
            },
        };
        let vpk_path = match &self.path {
            Some(p) => p,
            None => {
                return Err(VpkError::State);
            },
        };
        if metadata.file_length == 0 {
            Ok(None)
        } else {
            Ok(Some(VPKFile::resolve_archive_path(vpk_path.as_str(), metadata.archive_index)))
        }
    }

    /// A fresh view of the entry filed under `path`. `archive` holds the
    /// bytes of the file that `archive_path_of` names, where it names one.
    /// An unknown path fails with `NotFound`, an archive without a backing
    /// file with `State`.
    pub fn get_file(&self, path: &str, archive: Option<Arc<Vec<u8>>>) -> (r: Result<
        VPKFile,
        VpkError,
    >)
        ensures
            !has_path(self@.entries, path@) ==> (r matches Err(e) && e == VpkError::NotFound),
            has_path(self@.entries, path@) && self@.path is None ==> (r matches Err(e) && e
                == VpkError::State),
            has_path(self@.entries, path@) && self@.path is Some ==> match entry_view(
                self@.path->0,
                path@,
                self@.entries[index_of_path(self@.entries, path@)].metadata,
                backing_of(archive),
            ) {
                Ok(v) => r matches Ok(f) && f@ == v,
                Err(e) => r matches Err(x) && x == e,
            },
    {
        let metadata = match self.tree.get(path) {
            Some(m) => m,
            None => {
                return Err(VpkError::NotFound);
            },
        };
        let vpk_path = match &self.path {
            Some(p) => p,
            None => {
                return Err(VpkError::State);
            },
        };
        VPKFile::new(vpk_path.clone(), path.to_owned(), metadata.clone(), archive)
    }

    /// Whether an entry is filed under `path`.
    pub fn contains(&self, path: &str) -> (r: bool)
        ensures
            r == has_path(self@.entries, path@),
    {
        self.tree.find(path).is_some()
    }

    /// The paths of all entries, in the order of the tree.
    pub fn file_paths(&self) -> (paths: Vec<String>)
        ensures
            paths@.len() == self@.entries.len(),
            forall|i: int| 0 <= i < paths@.len() ==> (#[trigger] paths@[i])@ == self@.entries[i].path,
    {
        let n: usize = self.tree.len();
        let mut paths: Vec<String> = Vec::new();
        let mut i: usize = 0;
        while i < n
            invariant
                n == self.tree@.len(),
                i <= n,
                paths@.len() == i,
                forall|j: int| 0 <= j < i ==> (#[trigger] paths@[j])@ == self.tree@[j].path,
            decreases n - i,
        {
            paths.push(self.tree.entry(i).path.clone());
            i += 1;
        }
        paths
    }

    /// The number of entries, no two of which have the same path.
    pub fn file_count(&self) -> (n: usize)
        ensures
            n == self@.entries.len(),
            distinct_paths(self@.entries),
    {
        self.tree.len()
    }

    /// The version of the archive's format.
    pub fn version(&self) -> (v: VPKVersion)
        ensures
            v == self@.header.version,
    {
        self.header.version
    }

    /// Whether the archive passes its check. Only a version 2 archive with
    /// a trailer can be checked: version 1 fails with `UnsupportedVersion`, a
    /// version 2 archive without trailer with `State`. The check itself
    /// compares no digest and always passes.
    pub fn verify(&self) -> (r: Result<bool, VpkError>)
        ensures
            self@.header.version != VPKVersion::V2 ==> r == Err::<bool, VpkError>(
                VpkError::Format(
                    FormatError::UnsupportedVersion(self@.header.version.spec_number()),
                ),
            ),
            self@.header.version == VPKVersion::V2 && self@.checksums is None ==> r == Err::<
                bool,
                VpkError,
            >(VpkError::State),
            self@.header.version == VPKVersion::V2 && self@.checksums is Some ==> r == Ok::<
                bool,
                VpkError,
            >(true),
    {
        if self.header.version != VPKVersion::V2 {
            return Err(VpkError::Format(FormatError::UnsupportedVersion(self.header.version.number())));
        }
        if self.checksums.is_none() {
            return Err(VpkError::State);
        }
        Ok(true)
    }

    /// The paths of all entries, in the order of the tree.
    pub fn list_files(&self) -> (paths: Vec<&String>)
        ensures
            paths@.len() == self@.entries.len(),
            forall|i: int| 0 <= i < paths@.len() ==> (#[trigger] paths@[i])@ == self@.entries[i].path,
    {
        let n: usize = self.tree.len();
        let mut paths: Vec<&String> = Vec::new();
        let mut i: usize = 0;
        while i < n
            invariant
                n == self.tree@.len(),
                i <= n,
                paths@.len() == i,
                forall|j: int| 0 <= j < i ==> (#[trigger] paths@[j])@ == self.tree@[j].path,
            decreases n - i,
        {
            paths.push(&self.tree.entry(i).path);
            i += 1;
        }
        paths
    }
}

} // verus!
