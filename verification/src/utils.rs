//! Binary primitives: the constants of the format, little-endian integers,
//! null-terminated strings, a cursor over bytes, and file name helpers.

use crate::error::{FormatError, VpkError};
use crate::text::{chars_of, push_char, string_from_utf8, string_of};
use vstd::prelude::*;
use vstd::slice::{slice_subrange, slice_to_vec};
use vstd::utf8::*;

verus! {

/// The value of the first header field of every archive.
pub const VPK_SIGNATURE: u32 = 0x55aa1234;

/// The archive index that marks an entry whose data lies in the archive's own file.
pub const EMBEDDED_ARCHIVE_INDEX: u16 = 0x7fff;

/// The value that closes every metadata record.
pub const METADATA_SUFFIX: u16 = 0xffff;

/// The two bytes of `x`, least significant first.
pub open spec fn u16_le(x: u16) -> Seq<u8> {
    seq![(x % 256) as u8, (x / 256) as u8]
}

/// The four bytes of `x`, least significant first.
pub open spec fn u32_le(x: u32) -> Seq<u8> {
    seq![
        (x % 256) as u8,
        ((x / 256) % 256) as u8,
        ((x / 65536) % 256) as u8,
        (x / 16777216) as u8,
    ]
}

/// The number whose little-endian bytes are `b[0]` and `b[1]`.
pub open spec fn le_u16(b: Seq<u8>) -> u16
    recommends
        b.len() >= 2,
{
    (b[0] as int + 256 * (b[1] as int)) as u16
}

/// The number whose little-endian bytes are `b[0]` to `b[3]`.
pub open spec fn le_u32(b: Seq<u8>) -> u32
    recommends
        b.len() >= 4,
{
    (b[0] as int + 256 * (b[1] as int) + 65536 * (b[2] as int) + 16777216 * (b[3] as int)) as u32
}

/// Decoding undoes encoding, for both widths.
pub proof fn lemma_le_round_trip(x: u16, y: u32)
    ensures
        le_u16(u16_le(x)) == x,
        le_u32(u32_le(y)) == y,
        u16_le(x).len() == 2,
        u32_le(y).len() == 4,
{
}

/// Reads the little-endian `u16` at `at`.
pub fn get_u16_le(b: &[u8], at: usize) -> (x: u16)
    requires
        at + 2 <= b@.len(),
    ensures
        x == le_u16(b@.subrange(at as int, at + 2)),
{
    let lo: u16 = b[at] as u16;
    let hi: u16 = b[at + 1] as u16;
    lo + 256 * hi
}

/// Reads the little-endian `u32` at `at`.
pub fn get_u32_le(b: &[u8], at: usize) -> (x: u32)
    requires
        at + 4 <= b@.len(),
    ensures
        x == le_u32(b@.subrange(at as int, at + 4)),
{
    let b0: u32 = b[at] as u32;
    let b1: u32 = b[at + 1] as u32;
    let b2: u32 = b[at + 2] as u32;
    let b3: u32 = b[at + 3] as u32;
    b0 + 256 * b1 + 65536 * b2 + 16777216 * b3
}

/// Appends the little-endian bytes of `x`.
pub fn put_u16_le(out: &mut Vec<u8>, x: u16)
    ensures
        final(out)@ == old(out)@ + u16_le(x),
{
    out.push((x % 256) as u8);
    out.push((x / 256) as u8);
    assert(out@ =~= old(out)@ + u16_le(x));
}

/// Appends the little-endian bytes of `x`.
pub fn put_u32_le(out: &mut Vec<u8>, x: u32)
    ensures
        final(out)@ == old(out)@ + u32_le(x),
{
    out.push((x % 256) as u8);
    out.push(((x / 256) % 256) as u8);
    out.push(((x / 65536) % 256) as u8);
    out.push((x / 16777216) as u8);
    assert(out@ =~= old(out)@ + u32_le(x));
}

/// Appends every byte of `src`.
pub fn put_bytes(out: &mut Vec<u8>, src: &[u8])
    ensures
        final(out)@ == old(out)@ + src@,
{
    let n: usize = src.len();
    let mut i: usize = 0;
    while i < n
        invariant
            n == src@.len(),
            i <= n,
            out@ == old(out)@ + src@.subrange(0, i as int),
        decreases n - i,
    {
        out.push(src[i]);
        i += 1;
        assert(out@ =~= old(out)@ + src@.subrange(0, i as int));
    }
    assert(src@.subrange(0, n as int) =~= src@);
}

/// Overwrites the four bytes at `at` with the little-endian bytes of `x`.
pub fn patch_u32_le(out: &mut Vec<u8>, at: usize, x: u32)
    requires
        at + 4 <= old(out)@.len(),
    ensures
        final(out)@ == old(out)@.subrange(0, at as int) + u32_le(x) + old(out)@.subrange(
            at + 4,
            old(out)@.len() as int,
        ),
{
    let size: usize = out.len();
    assert(at + 4 <= size);
    out.set(at, (x % 256) as u8);
    out.set(at + 1, ((x / 256) % 256) as u8);
    out.set(at + 2, ((x / 65536) % 256) as u8);
    out.set(at + 3, (x / 16777216) as u8);
    assert(out@ =~= old(out)@.subrange(0, at as int) + u32_le(x) + old(out)@.subrange(
        at + 4,
        old(out)@.len() as int,
    ));
}

/// Overwrites `buf[at..at + count]` with `src[from..from + count]`.
pub fn copy_into(buf: &mut [u8], at: usize, src: &[u8], from: usize, count: usize)
    requires
        at + count <= old(buf)@.len(),
        from + count <= src@.len(),
    ensures
        final(buf)@ == old(buf)@.subrange(0, at as int) + src@.subrange(
            from as int,
            from + count,
        ) + old(buf)@.subrange(at + count, old(buf)@.len() as int),
{
    let room: usize = buf.len();
    let size: usize = src.len();
    let mut i: usize = 0;
    while i < count
        invariant
            i <= count,
            room == buf@.len(),
            size == src@.len(),
            at + count <= buf@.len(),
            from + count <= src@.len(),
            buf@.len() == old(buf)@.len(),
            buf@ == old(buf)@.subrange(0, at as int) + src@.subrange(from as int, from + i)
                + old(buf)@.subrange(at + i, old(buf)@.len() as int),
        decreases count - i,
    {
        buf[at + i] = src[from + i];
        i += 1;
        assert(buf@ =~= old(buf)@.subrange(0, at as int) + src@.subrange(from as int, from + i)
            + old(buf)@.subrange(at + i, old(buf)@.len() as int));
    }
}

/// A cursor over bytes held in memory, from which the decoders read.
pub struct ByteReader<'a> {
    data: &'a [u8],
    pos: usize,
}

impl<'a> ByteReader<'a> {
    #[verifier::type_invariant]
    spec fn within(&self) -> bool {
        self.pos <= self.data@.len()
    }

    /// All the bytes under the cursor, read or not.
    pub closed spec fn bytes(&self) -> Seq<u8> {
        self.data@
    }

    /// How many bytes lie before the cursor.
    pub closed spec fn offset(&self) -> int {
        self.pos as int
    }

    /// Whether the cursor lies within the bytes, as it does in every reader.
    pub open spec fn in_bounds(&self) -> bool {
        0 <= self.offset() <= self.bytes().len()
    }

    /// The bytes from the cursor to the end.
    pub open spec fn remaining(&self) -> Seq<u8> {
        self.bytes().subrange(self.offset(), self.bytes().len() as int)
    }

    /// A reader at the start of `data`.
    pub fn new(data: &'a [u8]) -> (r: Self)
        ensures
            r.bytes() == data@,
            r.offset() == 0,
            r.in_bounds(),
    {
        ByteReader { data, pos: 0 }
    }

    /// The cursor, which never passes the end of the bytes.
    pub fn position(&self) -> (p: usize)
        ensures
            p == self.offset(),
            self.in_bounds(),
    {
        proof {
            use_type_invariant(self);
        }
        self.pos
    }

    /// The number of bytes under the cursor, read or not.
    pub fn len(&self) -> (n: usize)
        ensures
            n == self.bytes().len(),
    {
        self.data.len()
    }

    /// Moves the cursor to `to`, or to the end where `to` lies beyond it.
    pub fn seek(&mut self, to: u64)
        ensures
            final(self).bytes() == old(self).bytes(),
            final(self).offset() == if to <= old(self).bytes().len() {
                to as int
            } else {
                old(self).bytes().len() as int
            },
            final(self).in_bounds(),
    {
        let n: usize = self.data.len();
        if to <= n as u64 {
            self.pos = to as usize;
        } else {
            self.pos = n;
        }
    }
}

/// Whether `k` is the place of the first zero byte of `b`.
pub open spec fn is_first_nul(b: Seq<u8>, k: int) -> bool {
    &&& 0 <= k < b.len()
    &&& b[k] == 0
    &&& forall|i: int| 0 <= i < k ==> b[i] != 0
}

/// Whether `b` holds a zero byte.
pub open spec fn has_nul(b: Seq<u8>) -> bool {
    exists|k: int| is_first_nul(b, k)
}

/// The place of the first zero byte of `b`, where it has one.
pub open spec fn first_nul(b: Seq<u8>) -> int {
    choose|k: int| is_first_nul(b, k)
}

/// A sequence has at most one first zero byte.
pub proof fn lemma_first_nul_is(b: Seq<u8>, k: int)
    requires
        is_first_nul(b, k),
    ensures
        has_nul(b),
        first_nul(b) == k,
{
    let j = first_nul(b);
    assert(is_first_nul(b, j));
    if j < k {
        assert(b[j] != 0);
    } else if k < j {
        assert(b[k] != 0);
    }
}

/// The bytes that stand for `s` in an archive: its UTF-8 encoding, then a zero byte.
pub open spec fn cstring_bytes(s: Seq<char>) -> Seq<u8> {
    encode_utf8(s) + seq![0u8]
}

/// The text of the null-terminated string at the front of `b`. Bytes
/// without a zero byte are a `TruncatedRead`, a string that is not UTF-8 an
/// `Encoding` error.
pub open spec fn cstring_at_front(b: Seq<u8>) -> Result<Seq<char>, VpkError> {
    if !has_nul(b) {
        Err(VpkError::Format(FormatError::TruncatedRead))
    } else if !valid_utf8(b.subrange(0, first_nul(b))) {
        Err(VpkError::Encoding)
    } else {
        Ok(decode_utf8(b.subrange(0, first_nul(b))))
    }
}

/// How many bytes a reader takes from the front of `b` when it reads a
/// string: up to the first zero byte and that byte too, or all of `b` where
/// it has none.
pub open spec fn cstring_stop(b: Seq<u8>) -> int {
    if has_nul(b) {
        first_nul(b) + 1
    } else {
        b.len() as int
    }
}

/// Reads exactly `count` bytes. Where fewer are left, the read fails with
/// `TruncatedRead` and leaves the cursor at the end.
pub fn read_exact_vec(reader: &mut ByteReader, count: usize) -> (r: Result<Vec<u8>, VpkError>)
    ensures
        final(reader).bytes() == old(reader).bytes(),
        old(reader).in_bounds(),
        final(reader).in_bounds(),
        match r {
            Ok(v) => {
                &&& count <= old(reader).remaining().len()
                &&& v@ == old(reader).remaining().subrange(0, count as int)
                &&& final(reader).offset() == old(reader).offset() + count
            },
            Err(e) => {
                &&& count > old(reader).remaining().len()
                &&& e == VpkError::Format(FormatError::TruncatedRead)
                &&& final(reader).offset() == old(reader).bytes().len()
            },
        },
{
    proof {
        use_type_invariant(&*reader);
    }
    let n: usize = reader.data.len();
    let start: usize = reader.pos;
    if count > n - start {
        reader.pos = n;
        return Err(VpkError::Format(FormatError::TruncatedRead));
    }
    let out = slice_to_vec(slice_subrange(reader.data, start, start + count));
    reader.pos = start + count;
    assert(out@ =~= old(reader).remaining().subrange(0, count as int));
    Ok(out)
}

/// Moves the cursor past the bytes up to the first zero byte, or to the end
/// where there is none, and says where it stopped and whether a zero was found.
fn scan_to_nul(reader: &mut ByteReader) -> (r: (usize, usize, bool))
    ensures
        final(reader).bytes() == old(reader).bytes(),
        old(reader).in_bounds(),
        final(reader).in_bounds(),
        r.0 == old(reader).offset(),
        r.0 <= r.1 <= old(reader).bytes().len(),
        r.2 == has_nul(old(reader).remaining()),
        r.2 ==> r.1 - r.0 == first_nul(old(reader).remaining()) && final(reader).offset() == r.1 + 1,
        !r.2 ==> r.1 == old(reader).bytes().len() && final(reader).offset() == r.1,
{
    proof {
        use_type_invariant(&*reader);
    }
    let n: usize = reader.data.len();
    let start: usize = reader.pos;
    let ghost rem = reader.remaining();
    let mut i: usize = start;
    while i < n && reader.data[i] != 0
        invariant
            start <= i <= n,
            n == reader.data@.len(),
            reader.pos == start,
            reader.data@ == old(reader).data@,
            rem == old(reader).remaining(),
            rem == reader.data@.subrange(start as int, n as int),
            forall|j: int| 0 <= j < i - start ==> rem[j] != 0,
        decreases n - i,
    {
        i += 1;
    }
    if i < n {
        proof {
            assert(rem[i - start] == 0);
            lemma_first_nul_is(rem, i - start);
        }
        reader.pos = i + 1;
        (start, i, true)
    } else {
        proof {
            if has_nul(rem) {
                let k = first_nul(rem);
                assert(is_first_nul(rem, k));
                assert(rem[k] != 0);
            }
        }
        reader.pos = n;
        (start, i, false)
    }
}

/// Reads a null-terminated string. Input that ends before the terminator
/// fails with `TruncatedRead`, bytes that are not UTF-8 with `Encoding`.
pub fn read_cstring(reader: &mut ByteReader) -> (r: Result<String, VpkError>)
    ensures
        final(reader).bytes() == old(reader).bytes(),
        old(reader).in_bounds(),
        final(reader).in_bounds(),
        final(reader).offset() == old(reader).offset() + cstring_stop(old(reader).remaining()),
        match cstring_at_front(old(reader).remaining()) {
            Ok(s) => r matches Ok(t) && t@ == s,
            Err(e) => r == Err::<String, VpkError>(e),
        },
{
    let (start, end, found) = scan_to_nul(reader);
    if !found {
        return Err(VpkError::Format(FormatError::TruncatedRead));
    }
    let raw = slice_to_vec(slice_subrange(reader.data, start, end));
    assert(raw@ =~= old(reader).remaining().subrange(0, end - start));
    match string_from_utf8(raw) {
        Some(s) => Ok(s),
        None => Err(VpkError::Encoding),
    }
}

/// Reads a string that ends at a zero byte or at the end of the input,
/// whichever comes first. Bytes that are not UTF-8 fail with `Encoding`.
pub fn read_cstring_buffered(reader: &mut ByteReader) -> (r: Result<String, VpkError>)
    ensures
        final(reader).bytes() == old(reader).bytes(),
        old(reader).in_bounds(),
        final(reader).in_bounds(),
        final(reader).offset() == old(reader).offset() + cstring_stop(old(reader).remaining()),
        ({
            let rem = old(reader).remaining();
            let raw = if has_nul(rem) {
                rem.subrange(0, first_nul(rem))
            } else {
                rem
            };
            if valid_utf8(raw) {
                r matches Ok(t) && t@ == decode_utf8(raw)
            } else {
                r == Err::<String, VpkError>(VpkError::Encoding)
            }
        }),
{
    let (start, end, found) = scan_to_nul(reader);
    let raw = slice_to_vec(slice_subrange(reader.data, start, end));
    proof {
        let rem = old(reader).remaining();
        if found {
            assert(raw@ =~= rem.subrange(0, end - start));
        } else {
            assert(raw@ =~= rem);
        }
    }
    match string_from_utf8(raw) {
        Some(s) => Ok(s),
        None => Err(VpkError::Encoding),
    }
}

/// Appends `s` as a null-terminated string.
pub fn write_cstring(writer: &mut Vec<u8>, s: &str)
    ensures
        final(writer)@ == old(writer)@ + cstring_bytes(s@),
{
    put_bytes(writer, s.as_bytes());
    writer.push(0u8);
    assert(writer@ =~= old(writer)@ + cstring_bytes(s@));
}

/// The number of bytes that `s` takes up as a null-terminated string,
/// held at `usize::MAX` where it would pass it.
pub fn cstring_length(s: &str) -> (n: usize)
    ensures
        n == if cstring_bytes(s@).len() <= usize::MAX {
            cstring_bytes(s@).len()
        } else {
            usize::MAX as nat
        },
{
    let len: usize = s.as_bytes().len();
    if len < usize::MAX {
        len + 1
    } else {
        usize::MAX
    }
}

/// `p` with every backslash turned into a forward slash.
pub open spec fn normalized(p: Seq<char>) -> Seq<char> {
    Seq::new(
        p.len(),
        |i: int|
            if p[i] == '\\' {
                '/'
            } else {
                p[i]
            },
    )
}

/// Gives `path` the form in which archives store paths: forward slashes only.
pub fn normalize_path(path: &str) -> (out: String)
    ensures
        out@ == normalized(path@),
{
    let mut out = String::new();
    for c in it: path.chars()
        invariant
            it.seq() == path@,
            out@ == normalized(path@).subrange(0, it.index() as int),
    {
        if c == '\\' {
            push_char(&mut out, '/');
        } else {
            push_char(&mut out, c);
        }
        assert(out@ =~= normalized(path@).subrange(0, it.index() + 1));
    }
    assert(normalized(path@).subrange(0, path@.len() as int) =~= normalized(path@));
    out
}

/// Whether `k` is the place of the last `c` in `s`.
pub open spec fn is_last_index(s: Seq<char>, c: char, k: int) -> bool {
    &&& 0 <= k < s.len()
    &&& s[k] == c
    &&& forall|i: int| k < i < s.len() ==> s[i] != c
}

/// The place of the last `c` in `s`, where `s` holds one.
pub open spec fn last_index(s: Seq<char>, c: char) -> int {
    choose|k: int| is_last_index(s, c, k)
}

/// A sequence that holds `c` has exactly one last place of it.
pub proof fn lemma_last_index_is(s: Seq<char>, c: char, k: int)
    requires
        is_last_index(s, c, k),
    ensures
        s.contains(c),
        last_index(s, c) == k,
{
    let j = last_index(s, c);
    assert(is_last_index(s, c, j));
    if j < k {
        assert(s[k] != c);
    } else if k < j {
        assert(s[j] != c);
    }
}

/// A sequence that holds `c` has a last place of it.
pub proof fn lemma_last_index_exists(s: Seq<char>, c: char)
    requires
        s.contains(c),
    ensures
        is_last_index(s, c, last_index(s, c)),
    decreases s.len(),
{
    let n = s.len() as int;
    if s[n - 1] == c {
        lemma_last_index_is(s, c, n - 1);
    } else {
        let front = s.drop_last();
        let i = choose|i: int| 0 <= i < s.len() && s[i] == c;
        assert(front[i] == c);
        lemma_last_index_exists(front, c);
        let k = last_index(front, c);
        assert(s[k] == front[k]);
        assert forall|j: int| k < j < s.len() implies s[j] != c by {
            if j < n - 1 {
                assert(front[j] != c);
            }
        }
        lemma_last_index_is(s, c, k);
    }
}

/// Finds the last `c` among the first `upto` characters of `cs`.
pub fn find_last(cs: &Vec<char>, upto: usize, c: char) -> (r: Option<usize>)
    requires
        upto <= cs@.len(),
    ensures
        r is Some <==> cs@.subrange(0, upto as int).contains(c),
        r matches Some(k) ==> k < upto && k == last_index(cs@.subrange(0, upto as int), c),
{
    let ghost s = cs@.subrange(0, upto as int);
    let mut i: usize = upto;
    while i > 0
        invariant
            i <= upto <= cs@.len(),
            s == cs@.subrange(0, upto as int),
            forall|j: int| i <= j < upto ==> s[j] != c,
        decreases i,
    {
        i -= 1;
        if cs[i] == c {
            proof {
                assert(s[i as int] == c);
                lemma_last_index_is(s, c, i as int);
            }
            return Some(i);
        }
    }
    None
}

/// Splits a file name at its last `.` into the part before and the part
/// after it. A name without a `.` fails with `MissingExtension`.
pub fn split_filename(filename: &str) -> (r: Result<(String, String), VpkError>)
    ensures
        filename@.contains('.') ==> (r matches Ok((name, ext)) && name@ == filename@.subrange(
            0,
            last_index(filename@, '.'),
        ) && ext@ == filename@.subrange(
            last_index(filename@, '.') + 1,
            filename@.len() as int,
        )),
        !filename@.contains('.') ==> r == Err::<(String, String), VpkError>(
            VpkError::Format(FormatError::MissingExtension),
        ),
{
    let cs = chars_of(filename);
    let n: usize = cs.len();
    assert(cs@.subrange(0, n as int) =~= filename@);
    match find_last(&cs, n, '.') {
        Some(dot) => {
            let name = string_of(&cs, 0, dot);
            let ext = string_of(&cs, dot + 1, n);
            Ok((name, ext))
        },
        None => Err(VpkError::Format(FormatError::MissingExtension)),
    }
}

/// The file name made of `name` and `ext`: joined by a `.`, or `name` alone
/// where `ext` is empty.
pub open spec fn joined(name: Seq<char>, ext: Seq<char>) -> Seq<char> {
    if ext.len() == 0 {
        name
    } else {
        name + seq!['.'] + ext
    }
}

/// Puts a name and an extension back together.
pub fn join_filename(name: &str, ext: &str) -> (out: String)
    ensures
        out@ == joined(name@, ext@),
{
    let mut out = name.to_owned();
    if !ext.is_empty() {
        push_char(&mut out, '.');
        out.append(ext);
        assert(out@ =~= name@ + seq!['.'] + ext@);
    }
    out
}

} // verus!
