//! Entry records, and the seekable view of one entry's content.

use crate::checksum::{crc32, crc32_checksum};
use crate::error::{FormatError, VpkError};
use crate::text::{chars_of, push_char, string_from_utf8, string_of};
use crate::utils::{copy_into, put_bytes, EMBEDDED_ARCHIVE_INDEX};
use std::sync::Arc;
use vstd::prelude::*;
use vstd::slice::slice_subrange;
use vstd::utf8::*;

verus! {

/// What the tree records of one entry.
#[derive(Debug)]
pub struct FileMetadata {
    /// Payload bytes stored inline in the tree.
    pub preload: Vec<u8>,
    /// CRC-32 of the entry's whole content.
    pub crc32: u32,
    /// How many bytes of the content are preload.
    pub preload_length: u16,
    /// Which archive file holds the data; `EMBEDDED_ARCHIVE_INDEX` for the archive's own.
    pub archive_index: u16,
    /// Where the data region of the entry starts in that file.
    pub archive_offset: u32,
    /// How many bytes of the content lie in the archive data.
    pub file_length: u32,
}

/// The mathematical value of a `FileMetadata`.
pub ghost struct MetadataView {
    pub preload: Seq<u8>,
    pub crc32: u32,
    pub preload_length: u16,
    pub archive_index: u16,
    pub archive_offset: u32,
    pub file_length: u32,
}

impl View for FileMetadata {
    type V = MetadataView;

    open spec fn view(&self) -> MetadataView {
        MetadataView {
            preload: self.preload@,
            crc32: self.crc32,
            preload_length: self.preload_length,
            archive_index: self.archive_index,
            archive_offset: self.archive_offset,
            file_length: self.file_length,
        }
    }
}

impl MetadataView {
    /// The length of the entry: preload and archive data together.
    pub open spec fn total_length(self) -> int {
        self.preload_length + self.file_length
    }

    /// Whether the preload is all there and the length fits the format's 32 bits.
    pub open spec fn well_formed(self) -> bool {
        &&& self.preload.len() >= self.preload_length
        &&& self.total_length() <= u32::MAX
    }

    /// The archive data of the entry, as far as `backing` holds it: the part
    /// of the backing file that starts `preload_length` bytes after
    /// `archive_offset` and is `file_length` bytes long.
    pub open spec fn archive_part(self, backing: Seq<u8>) -> Seq<u8> {
        let lo = self.archive_offset + self.preload_length;
        let hi = lo + self.file_length;
        let n = backing.len() as int;
        backing.subrange(if lo <= n { lo } else { n }, if hi <= n { hi } else { n })
    }

    /// The content of the entry: the preload, then the archive data.
    pub open spec fn content(self, backing: Seq<u8>) -> Seq<u8> {
        self.preload.subrange(0, self.preload_length as int) + self.archive_part(backing)
    }
}

impl MetadataView {
    /// Where each byte of the content comes from, and how long the content is.
    pub proof fn lemma_content(self, backing: Seq<u8>)
        requires
            self.well_formed(),
        ensures
            self.preload_length <= self.content(backing).len() <= self.total_length(),
            forall|c: int|
                0 <= c < self.preload_length ==> self.content(backing)[c] == self.preload[c],
            forall|c: int|
                self.preload_length <= c < self.content(backing).len() ==> self.archive_offset + c
                    < backing.len() && self.content(backing)[c] == backing[self.archive_offset
                    + c],
            self.archive_offset + self.preload_length >= backing.len() ==> self.content(
                backing,
            ).len() == self.preload_length,
            self.archive_offset + self.preload_length < backing.len() ==> self.content(
                backing,
            ).len() == if self.archive_offset + self.total_length() <= backing.len() {
                self.total_length()
            } else {
                backing.len() - self.archive_offset
            },
    {
    }
}

impl Clone for FileMetadata {
    fn clone(&self) -> (r: Self)
        ensures
            r@ == self@,
    {
        FileMetadata {
            preload: self.preload.clone(),
            crc32: self.crc32,
            preload_length: self.preload_length,
            archive_index: self.archive_index,
            archive_offset: self.archive_offset,
            file_length: self.file_length,
        }
    }
}

impl FileMetadata {
    /// Total length of the entry (preload + archive data).
    pub fn total_length(&self) -> (n: u32)
        requires
            self@.total_length() <= u32::MAX,
        ensures
            n == self@.total_length(),
    {
        self.preload_length as u32 + self.file_length
    }

    /// The record of a file whose content is known and whose place in an
    /// archive is not: all of `data` is kept as payload, `crc32` as its
    /// checksum, and the lengths and the offset are zero until the archive is saved.
    pub fn pending(data: Vec<u8>, crc32: u32) -> (m: Self)
        ensures
            m@ == (MetadataView {
                preload: data@,
                crc32,
                preload_length: 0,
                archive_index: EMBEDDED_ARCHIVE_INDEX,
                archive_offset: 0,
                file_length: 0,
            }),
    {
        FileMetadata {
            preload: data,
            crc32,
            preload_length: 0,
            archive_index: EMBEDDED_ARCHIVE_INDEX,
            archive_offset: 0,
            file_length: 0,
        }
    }
}

/// From where a seek counts.
#[derive(Debug, Clone, Copy, PartialEq, Eq, Structural)]
pub enum SeekFrom {
    /// From the start of the entry.
    Start(u64),
    /// From the end of the entry.
    End(i64),
    /// From the cursor.
    Current(i64),
}

/// A seekable, readable view of one entry of an archive. It shares the
/// bytes of the file that holds the entry's archive data with whoever
/// else reads them, and holds none where the entry has no archive data.
#[derive(Debug)]
pub struct VPKFile {
    vpk_path: String,
    filepath: String,
    metadata: FileMetadata,
    position: u32,
    archive: Option<Arc<Vec<u8>>>,
}

/// The bytes that `archive` holds; none where there is no archive.
pub open spec fn backing_of(archive: Option<Arc<Vec<u8>>>) -> Seq<u8> {
    match archive {
        Some(bytes) => (*bytes)@,
        None => Seq::<u8>::empty(),
    }
}

/// The mathematical value of a `VPKFile`.
pub ghost struct FileView {
    /// The path of the archive that the entry was taken from.
    pub vpk_path: Seq<char>,
    /// The path of the entry within the archive.
    pub filepath: Seq<char>,
    /// The entry's record.
    pub metadata: MetadataView,
    /// The cursor.
    pub position: int,
    /// The bytes of the file that holds the entry's archive data; empty where it has none.
    pub backing: Seq<u8>,
}

impl FileView {
    /// The length of the entry, as its record declares it.
    pub open spec fn length(self) -> int {
        self.metadata.total_length()
    }

    /// The bytes that can be read from the entry.
    pub open spec fn content(self) -> Seq<u8> {
        self.metadata.content(self.backing)
    }

    /// The position that a seek asks for, before it is checked and clamped.
    pub open spec fn seek_target(self, pos: SeekFrom) -> int {
        match pos {
            SeekFrom::Start(offset) => offset as int,
            SeekFrom::End(offset) => self.length() + offset,
            SeekFrom::Current(offset) => self.position + offset,
        }
    }

    /// `target` held within the entry.
    pub open spec fn clamped(self, target: int) -> int {
        if target <= self.length() {
            target
        } else {
            self.length()
        }
    }

    /// The bytes from the cursor to the end of the content; none where the
    /// cursor lies beyond what the backing file holds.
    pub open spec fn unread(self) -> Seq<u8> {
        if 0 <= self.position <= self.content().len() {
            self.content().subrange(self.position, self.content().len() as int)
        } else {
            Seq::<u8>::empty()
        }
    }

    /// How many bytes a read into a buffer of length `room` copies.
    pub open spec fn read_count(self, room: int) -> int {
        if room <= self.unread().len() {
            room
        } else {
            self.unread().len() as int
        }
    }
}

/// A seek that does not fail leaves the cursor within the entry: a target
/// past the end is held at the end, and the end itself is the length.
pub proof fn lemma_seek_clamps(f: FileView, pos: SeekFrom)
    ensures
        f.seek_target(pos) >= 0 ==> 0 <= f.clamped(f.seek_target(pos)) <= f.length(),
        0 <= f.seek_target(pos) <= f.length() ==> f.clamped(f.seek_target(pos)) == f.seek_target(
            pos,
        ),
        f.seek_target(pos) > f.length() ==> f.clamped(f.seek_target(pos)) == f.length(),
        f.clamped(f.seek_target(SeekFrom::End(0))) == f.length(),
{
}

/// One read from the start into a buffer that takes the whole entry gives
/// the preload and then the archive data, where the backing file holds all
/// of it.
pub proof fn lemma_boundary_read(f: FileView, room: int)
    requires
        f.metadata.well_formed(),
        f.position == 0,
        f.metadata.archive_offset + f.metadata.total_length() <= f.backing.len(),
        room >= f.length(),
    ensures
        f.read_count(room) == f.length(),
        f.unread().subrange(0, f.read_count(room)) == f.metadata.preload.subrange(
            0,
            f.metadata.preload_length as int,
        ) + f.backing.subrange(
            f.metadata.archive_offset + f.metadata.preload_length,
            f.metadata.archive_offset + f.metadata.total_length(),
        ),
{
    let content = f.content();
    assert(f.unread() =~= content);
    assert(f.unread().subrange(0, f.length()) =~= content);
}

/// The view of an entry that `VPKFile::new` gives for these arguments: a
/// preload shorter than the record declares is a `TruncatedRead`, a total
/// length beyond 32 bits a `LimitExceeded`; else the cursor is at the start,
/// and `archive` is the backing where the entry has archive data.
pub open spec fn entry_view(
    vpk_path: Seq<char>,
    filepath: Seq<char>,
    metadata: MetadataView,
    archive: Seq<u8>,
) -> Result<FileView, VpkError> {
    if metadata.preload.len() < metadata.preload_length {
        Err(VpkError::Format(FormatError::TruncatedRead))
    } else if metadata.total_length() > u32::MAX {
        Err(VpkError::LimitExceeded)
    } else {
        Ok(
            FileView {
                vpk_path,
                filepath,
                metadata,
                position: 0,
                backing: if metadata.file_length > 0 {
                    archive
                } else {
                    Seq::<u8>::empty()
                },
            },
        )
    }
}

impl View for VPKFile {
    type V = FileView;

    closed spec fn view(&self) -> FileView {
        FileView {
            vpk_path: self.vpk_path@,
            filepath: self.filepath@,
            metadata: self.metadata@,
            position: self.position as int,
            backing: backing_of(self.archive),
        }
    }
}

/// The three decimal digits of `n`, or all its digits where it has more.
pub open spec fn padded3(n: u16) -> Seq<char> {
    if n < 1000 {
        seq![digit_char(n as int / 100), digit_char(n as int / 10 % 10), digit_char(n as int % 10)]
    } else if n < 10000 {
        seq![
            digit_char(n as int / 1000),
            digit_char(n as int / 100 % 10),
            digit_char(n as int / 10 % 10),
            digit_char(n as int % 10),
        ]
    } else {
        seq![
            digit_char(n as int / 10000),
            digit_char(n as int / 1000 % 10),
            digit_char(n as int / 100 % 10),
            digit_char(n as int / 10 % 10),
            digit_char(n as int % 10),
        ]
    }
}

/// The character that writes the digit `d`.
pub open spec fn digit_char(d: int) -> char {
    (0x30 + d) as u8 as char
}

/// The marker in an index file's name that gives way to an archive's number.
pub open spec fn dir_marker() -> Seq<char> {
    seq!['d', 'i', 'r', '.']
}

/// Whether the marker stands at `k` in `s`.
pub open spec fn marker_at(s: Seq<char>, k: int) -> bool {
    0 <= k && k + 4 <= s.len() && s.subrange(k, k + 4) == dir_marker()
}

/// Whether `k` is the first place in `s` where the marker stands.
pub open spec fn is_first_marker(s: Seq<char>, k: int) -> bool {
    marker_at(s, k) && forall|j: int| 0 <= j < k ==> !marker_at(s, j)
}

/// The name of the file that holds the data of archive `index`, for the
/// archive opened as `vpk_path`: the path itself for the embedded index;
/// else the path with its first marker replaced by the padded number and a
/// `.`, or unchanged where it has no marker.
pub open spec fn resolved_path(vpk_path: Seq<char>, index: u16) -> Seq<char> {
    if index == EMBEDDED_ARCHIVE_INDEX || !exists|k: int| is_first_marker(vpk_path, k) {
        vpk_path
    } else {
        let k = choose|k: int| is_first_marker(vpk_path, k);
        vpk_path.subrange(0, k) + padded3(index) + seq!['.'] + vpk_path.subrange(
            k + 4,
            vpk_path.len() as int,
        )
    }
}

/// The character that writes the digit `d`.
fn digit(d: u16) -> (c: char)
    requires
        d < 10,
    ensures
        c == digit_char(d as int),
{
    (0x30u8 + d as u8) as char
}

/// Finds the first place in `cs` where the marker stands.
fn find_marker(cs: &Vec<char>) -> (r: Option<usize>)
    ensures
        r is Some <==> exists|k: int| is_first_marker(cs@, k),
        r matches Some(k) ==> is_first_marker(cs@, k as int),
{
    let n: usize = cs.len();
    let mut i: usize = 0;
    while n >= 4 && i <= n - 4
        invariant
            n == cs@.len(),
            i <= n,
            forall|j: int| 0 <= j < i ==> !marker_at(cs@, j),
        decreases n - i,
    {
        if cs[i] == 'd' && cs[i + 1] == 'i' && cs[i + 2] == 'r' && cs[i + 3] == '.' {
            assert(cs@.subrange(i as int, i + 4) =~= dir_marker());
            assert(is_first_marker(cs@, i as int));
            return Some(i);
        }
        proof {
            let w = cs@.subrange(i as int, i + 4);
            if w == dir_marker() {
                assert(w[0] == 'd' && w[1] == 'i' && w[2] == 'r' && w[3] == '.');
            }
        }
        i += 1;
    }
    assert forall|k: int| !is_first_marker(cs@, k) by {
        if marker_at(cs@, k) {
            assert(k < i);
        }
    }
    None
}

impl VPKFile {
    #[verifier::type_invariant]
    spec fn sound(&self) -> bool {
        &&& self.metadata@.well_formed()
        &&& self.position <= self.metadata@.total_length()
    }

    /// A view of the entry recorded as `metadata`, with the cursor at the
    /// start. `archive` holds the bytes of the file that `resolve_archive_path`
    /// names; it is let go where the entry has no archive data. A preload
    /// shorter than the record declares fails with `TruncatedRead`, a total
    /// length beyond 32 bits with `LimitExceeded`.
    pub fn new(
        vpk_path: String,
        filepath: String,
        metadata: FileMetadata,
        archive: Option<Arc<Vec<u8>>>,
    ) -> (r: Result<VPKFile, VpkError>)
        ensures
            match entry_view(vpk_path@, filepath@, metadata@, backing_of(archive)) {
                Ok(v) => r matches Ok(f) && f@ == v,
                Err(e) => r matches Err(x) && x == e,
            },
    {
        if metadata.preload.len() < metadata.preload_length as usize {
            return Err(VpkError::Format(FormatError::TruncatedRead));
        }
        if metadata.preload_length as u64 + metadata.file_length as u64 > u32::MAX as u64 {
            return Err(VpkError::LimitExceeded);
        }
        let archive = if metadata.file_length > 0 {
            archive
        } else {
            None
        };
        Ok(VPKFile { vpk_path, filepath, metadata, position: 0, archive })
    }

    /// The name of the file that holds the data of archive `archive_index`.
    pub fn resolve_archive_path(vpk_path: &str, archive_index: u16) -> (out: String)
        ensures
            out@ == resolved_path(vpk_path@, archive_index),
    {
        if archive_index == EMBEDDED_ARCHIVE_INDEX {
            return vpk_path.to_owned();
        }
        let cs = chars_of(vpk_path);
        let n: usize = cs.len();
        match find_marker(&cs) {
            None => vpk_path.to_owned(),
            Some(k) => {
                let ghost k0 = choose|k: int| is_first_marker(cs@, k);
                proof {
                    assert(is_first_marker(cs@, k0));
                    assert(is_first_marker(cs@, k as int));
                    if k0 < k {
                        assert(!marker_at(cs@, k0));
                    } else if k < k0 {
                        assert(!marker_at(cs@, k as int));
                    }
                }
                let mut out = string_of(&cs, 0, k);
                let idx: u16 = archive_index;
                if idx >= 10000 {
                    push_char(&mut out, digit(idx / 10000));
                }
                if idx >= 1000 {
                    push_char(&mut out, digit(idx / 1000 % 10));
                }
                push_char(&mut out, digit(idx / 100 % 10));
                push_char(&mut out, digit(idx / 10 % 10));
                push_char(&mut out, digit(idx % 10));
                push_char(&mut out, '.');
                assert(out@ =~= cs@.subrange(0, k as int) + padded3(idx) + seq!['.']);
                let rest = string_of(&cs, k + 4, n);
                out.append(rest.as_str());
                out
            },
        }
    }

    /// The path of the entry within the archive.
    pub fn filepath(&self) -> (p: &str)
        ensures
            p@ == self@.filepath,
    {
        self.filepath.as_str()
    }

    /// The entry's record.
    pub fn metadata(&self) -> (m: &FileMetadata)
        ensures
            m@ == self@.metadata,
            m@.well_formed(),
    {
        proof {
            use_type_invariant(self);
        }
        &self.metadata
    }

    /// The cursor, which lies within the entry.
    pub fn position(&self) -> (p: u32)
        ensures
            p == self@.position,
            p <= self@.length(),
    {
        proof {
            use_type_invariant(self);
        }
        self.position
    }

    /// The length of the entry, as its record declares it.
    pub fn length(&self) -> (n: u32)
        ensures
            n == self@.length(),
    {
        proof {
            use_type_invariant(self);
        }
        self.metadata.total_length()
    }

    /// Moves the cursor. A target before the start fails with
    /// `InvalidArgument` and moves nothing; a target past the end is held at
    /// the end.
    pub fn seek(&mut self, pos: SeekFrom) -> (r: Result<u64, VpkError>)
        ensures
            old(self)@.seek_target(pos) < 0 ==> r == Err::<u64, VpkError>(
                VpkError::InvalidArgument,
            ) && final(self)@ == old(self)@,
            old(self)@.seek_target(pos) >= 0 ==> r == Ok::<u64, VpkError>(
                old(self)@.clamped(old(self)@.seek_target(pos)) as u64,
            ) && final(self)@ == (FileView {
                position: old(self)@.clamped(old(self)@.seek_target(pos)),
                ..old(self)@
            }),
    {
        proof {
            use_type_invariant(&*self);
        }
        let length: u32 = self.metadata.total_length();
        let target: i128 = match pos {
            SeekFrom::Start(offset) => offset as i128,
            SeekFrom::End(offset) => length as i128 + offset as i128,
            SeekFrom::Current(offset) => self.position as i128 + offset as i128,
        };
        if target < 0 {
            return Err(VpkError::InvalidArgument);
        }
        if target <= length as i128 {
            self.position = target as u32;
        } else {
            self.position = length;
        }
        Ok(self.position as u64)
    }

    /// How many bytes a read into a buffer of length `room` takes from the
    /// preload, and how many from the archive data after them.
    fn plan_read(&self, room: usize) -> (p: (usize, usize))
        ensures
            p.0 + p.1 == self@.read_count(room as int),
            p.0 + p.1 <= self@.unread().len(),
            p.0 > 0 ==> self@.position + p.0 <= self@.metadata.preload_length,
            p.1 > 0 ==> self@.position + p.0 >= self@.metadata.preload_length,
            self@.position + p.0 + p.1 <= self@.length(),
    {
        proof {
            use_type_invariant(self);
            self.metadata@.lemma_content(backing_of(self.archive));
        }
        let length: u32 = self.metadata.total_length();
        if self.position >= length || room == 0 {
            return (0, 0);
        }
        let left: usize = (length - self.position) as usize;
        let to_read: usize = if room <= left {
            room
        } else {
            left
        };
        let preload_length: u32 = self.metadata.preload_length as u32;
        let mut first: usize = 0;
        if self.position < preload_length {
            let ahead: usize = (preload_length - self.position) as usize;
            first = if to_read <= ahead {
                to_read
            } else {
                ahead
            };
        }
        let mut second: usize = 0;
        if first < to_read && self.metadata.file_length > 0 {
            let at: u64 = self.metadata.archive_offset as u64 + self.position as u64 + first as u64;
            let size: u64 = match &self.archive {
                Some(bytes) => bytes.len() as u64,
                None => 0,
            };
            if at < size {
                let want: usize = to_read - first;
                second = if want as u64 <= size - at {
                    want
                } else {
                    (size - at) as usize
                };
            }
        }
        (first, second)
    }

    /// Copies bytes from the cursor on into `buf`, as many as `buf` takes and
    /// the content still has, and moves the cursor past them. The count is 0
    /// at the end of the content. Preload and archive data come out as one run.
    #[verifier::rlimit(30)]
    pub fn read(&mut self, buf: &mut [u8]) -> (n: usize)
        ensures
            n == old(self)@.read_count(old(buf)@.len() as int),
            final(self)@ == (FileView { position: old(self)@.position + n, ..old(self)@ }),
            final(buf)@ == old(self)@.unread().subrange(0, n as int) + old(buf)@.subrange(
                n as int,
                old(buf)@.len() as int,
            ),
    {
        proof {
            use_type_invariant(&*self);
            self.metadata@.lemma_content(backing_of(self.archive));
        }
        let ghost content = self@.content();
        let ghost unread = self@.unread();
        let ghost start = self@.position;
        let room: usize = buf.len();
        let (first, second) = self.plan_read(room);
        let from: usize = self.position as usize;
        if first > 0 {
            copy_into(buf, 0, self.metadata.preload.as_slice(), from, first);
        }
        let ghost middle = buf@;
        assert(middle.len() == room);
        assert(forall|j: int| 0 <= j < first ==> middle[j] == self.metadata.preload@[from + j]);
        assert(forall|j: int| first <= j < room ==> middle[j] == old(buf)@[j]);
        let ghost at0: int = self.metadata.archive_offset + start + first;
        let ghost backing = backing_of(self.archive);
        if second > 0 {
            let at: u64 = self.metadata.archive_offset as u64 + self.position as u64 + first as u64;
            assert(at + second <= backing.len()) by {
                assert(start + first + second - 1 < content.len());
            }
            match &self.archive {
                Some(bytes) => {
                    let size: usize = bytes.len();
                    assert(at + second <= size);
                    copy_into(buf, first, bytes.as_slice(), at as usize, second);
                },
                None => {},
            }
            assert(forall|j: int| 0 <= j < first ==> buf@[j] == middle[j]);
            assert(forall|j: int|
                first <= j < first + second ==> buf@[j] == backing[at0 + (j - first)]);
            assert(forall|j: int| first + second <= j < room ==> buf@[j] == middle[j]);
        }
        let n: usize = first + second;
        self.position = self.position + n as u32;
        assert(buf@.len() == room);
        assert forall|j: int| 0 <= j < n implies buf@[j] == unread[j] by {
            assert(unread[j] == content[start + j]);
            if j < first {
                assert(buf@[j] == middle[j]);
                assert(content[start + j] == self.metadata.preload@[start + j]);
            } else {
                assert(buf@[j] == backing[at0 + (j - first)]);
                assert(content[start + j] == backing[self.metadata.archive_offset + start + j]);
            }
        }
        assert forall|j: int| n <= j < room implies buf@[j] == old(buf)@[j] by {
            assert(buf@[j] == middle[j]);
        }
        assert(buf@ =~= unread.subrange(0, n as int) + old(buf)@.subrange(n as int, room as int));
        n
    }

    /// Appends the whole content to `writer`, read from the start in chunks
    /// of 8 KiB. The cursor ends where it was.
    pub fn save(&mut self, writer: &mut Vec<u8>)
        ensures
            final(writer)@ == old(writer)@ + old(self)@.content(),
            final(self)@ == old(self)@,
    {
        proof {
            use_type_invariant(&*self);
        }
        let saved: u32 = self.position;
        self.position = 0;
        let ghost content = self@.content();
        let mut chunk: Vec<u8> = vec![0u8; 8192];
        assert(writer@ =~= old(writer)@ + content.subrange(0, 0));
        loop
            invariant
                chunk@.len() == 8192,
                content == old(self)@.content(),
                self@ == (FileView { position: self@.position, ..old(self)@ }),
                0 <= self@.position <= content.len(),
                saved == old(self)@.position,
                writer@ == old(writer)@ + content.subrange(0, self@.position),
            ensures
                self@.position == content.len(),
            decreases content.len() - self@.position,
        {
            let n: usize = self.read(chunk.as_mut_slice());
            if n == 0 {
                break;
            }
            put_bytes(writer, slice_subrange(chunk.as_slice(), 0, n));
            assert(writer@ =~= old(writer)@ + content.subrange(0, self@.position));
        }
        assert(content.subrange(0, content.len() as int) =~= content);
        self.position = saved;
    }

    /// The whole content. The cursor ends where it was.
    pub fn read_all(&mut self) -> (out: Vec<u8>)
        ensures
            out@ == old(self)@.content(),
            final(self)@ == old(self)@,
    {
        let mut out: Vec<u8> = Vec::new();
        self.save(&mut out);
        assert(out@ =~= old(self)@.content());
        out
    }

    /// The whole content as text. Content that is not UTF-8 fails with
    /// `Encoding`. The cursor ends where it was.
    pub fn read_all_string(&mut self) -> (r: Result<String, VpkError>)
        ensures
            final(self)@ == old(self)@,
            valid_utf8(old(self)@.content()) ==> (r matches Ok(s) && s@ == decode_utf8(
                old(self)@.content(),
            )),
            !valid_utf8(old(self)@.content()) ==> r == Err::<String, VpkError>(VpkError::Encoding),
    {
        let bytes = self.read_all();
        match string_from_utf8(bytes) {
            Some(s) => Ok(s),
            None => Err(VpkError::Encoding),
        }
    }

    /// Whether `computed` is the checksum that the entry's record holds.
    pub fn crc_matches(&self, computed: u32) -> (ok: bool)
        ensures
            ok == (computed == self@.metadata.crc32),
    {
        computed == self.metadata.crc32
    }

    /// Whether the content has the checksum that the entry's record holds.
    /// The cursor ends where it was.
    pub fn verify(&mut self) -> (ok: bool)
        ensures
            ok == (crc32_checksum(old(self)@.content()) == old(self)@.metadata.crc32),
            final(self)@ == old(self)@,
    {
        let data = self.read_all();
        let sum: u32 = crc32(data.as_slice());
        self.crc_matches(sum)
    }
}

} // verus!
