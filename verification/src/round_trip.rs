//! Proof that what is saved can be opened again: a tree that was written
//! is read back entry by entry, and an archive packed from a scan gives
//! back every file with its content and its checksum.

use crate::checksum::crc32_checksum;
use crate::codec::{
    all_have_extension, closing, decode_tree, dir_prefix, full_path, grouped, item_image, item_of,
    items_of, lemma_grouped_keeps, lemma_upto_grows, opening, payload_image, payload_upto,
    prepend, record_at, record_image, record_stop, root_dir, tree_image, tree_upto, ItemView,
    Level,
};
use crate::error::VpkError;
use crate::file::{entry_view, MetadataView};
use crate::text::{lemma_encoding_has_no_zero_byte, no_nul};
use crate::tree::{
    distinct_paths, has_path, index_of_path, lemma_same_paths_same_count, lemma_tree_of,
    lemma_tree_of_distinct, tree_of, EntryView,
};
use crate::utils::{
    cstring_at_front, cstring_bytes, cstring_stop, is_first_nul, last_index, lemma_first_nul_is,
    lemma_last_index_exists, lemma_le_round_trip, normalized, u16_le, u32_le,
    EMBEDDED_ARCHIVE_INDEX, METADATA_SUFFIX,
};
use crate::vpk::{
    all_names_have_extension, archive_image, checksums_at, checksums_offset, header_at_front,
    header_image, opened, saved_header, scanned, scanned_entries, trailer_image, ScannedView,
    VPKHeader, VPKVersion, VpkView,
};
use vstd::prelude::*;
use vstd::utf8::*;

verus! {

/// Whether `chunk` stands at `at` in `b`.
pub open spec fn holds(b: Seq<u8>, at: int, chunk: Seq<u8>) -> bool {
    0 <= at && at + chunk.len() <= b.len() && b.subrange(at, at + chunk.len()) == chunk
}

/// Where two chunks stand one after the other, each of them stands in its place.
pub proof fn lemma_holds_split(b: Seq<u8>, at: int, x: Seq<u8>, y: Seq<u8>)
    requires
        holds(b, at, x + y),
    ensures
        holds(b, at, x),
        holds(b, at + x.len(), y),
{
    let whole = b.subrange(at, at + (x + y).len());
    assert(b.subrange(at, at + x.len()) =~= whole.subrange(0, x.len() as int));
    assert(whole.subrange(0, x.len() as int) =~= x);
    assert(b.subrange(at + x.len(), at + x.len() + y.len()) =~= whole.subrange(
        x.len() as int,
        whole.len() as int,
    ));
    assert(whole.subrange(x.len() as int, whole.len() as int) =~= y);
}

/// A string without the character zero is read back as it was written.
pub proof fn lemma_holds_read(b: Seq<u8>, at: int, s: Seq<char>)
    requires
        holds(b, at, cstring_bytes(s)),
        no_nul(s),
    ensures
        cstring_at_front(b.subrange(at, b.len() as int)) == Ok::<Seq<char>, VpkError>(s),
        cstring_stop(b.subrange(at, b.len() as int)) == cstring_bytes(s).len(),
{
    let rem = b.subrange(at, b.len() as int);
    let raw = encode_utf8(s);
    let k = raw.len() as int;
    lemma_encoding_has_no_zero_byte(s);
    assert forall|i: int| 0 <= i <= k implies rem[i] == cstring_bytes(s)[i] by {
        assert(b.subrange(at, at + cstring_bytes(s).len())[i] == b[at + i]);
    }
    assert(cstring_bytes(s)[k] == 0);
    assert forall|i: int| 0 <= i < k implies rem[i] != 0 by {
        assert(cstring_bytes(s)[i] == raw[i]);
    }
    assert(is_first_nul(rem, k));
    lemma_first_nul_is(rem, k);
    assert(rem.subrange(0, k) =~= raw);
    encode_utf8_valid_utf8(s);
    encode_utf8_decode_utf8(s);
}

/// A record without preload is read back as it was written, with the
/// offset of its data made absolute.
pub proof fn lemma_holds_record(b: Seq<u8>, at: int, crc32: u32, offset: u32, length: u32, base: int)
    requires
        holds(b, at, record_image(crc32, offset, length)),
        0 <= base,
        base + offset <= u32::MAX,
    ensures
        record_at(b, at, base) == Ok::<MetadataView, VpkError>(
            MetadataView {
                preload: Seq::<u8>::empty(),
                crc32,
                preload_length: 0,
                archive_index: EMBEDDED_ARCHIVE_INDEX,
                archive_offset: (base + offset) as u32,
                file_length: length,
            },
        ),
        record_stop(b, at, base) == at + 18,
{
    let rec = b.subrange(at, at + 18);
    assert(rec == record_image(crc32, offset, length));
    assert(rec.subrange(0, 4) =~= u32_le(crc32));
    assert(rec.subrange(4, 6) =~= u16_le(0));
    assert(rec.subrange(6, 8) =~= u16_le(EMBEDDED_ARCHIVE_INDEX));
    assert(rec.subrange(8, 12) =~= u32_le(offset));
    assert(rec.subrange(12, 16) =~= u32_le(length));
    assert(rec.subrange(16, 18) =~= u16_le(METADATA_SUFFIX));
    lemma_le_round_trip(0, crc32);
    lemma_le_round_trip(EMBEDDED_ARCHIVE_INDEX, offset);
    lemma_le_round_trip(METADATA_SUFFIX, length);
    assert(b.subrange(at + 18, at + 18 + 0) =~= Seq::<u8>::empty());
}

/// What the decoder does with a string `s` that it reads at `at`: one
/// step of the walk.
pub proof fn lemma_walk_step(
    b: Seq<u8>,
    at: int,
    level: Level,
    ext: Seq<char>,
    dir: Seq<char>,
    base: int,
    s: Seq<char>,
)
    requires
        holds(b, at, cstring_bytes(s)),
        no_nul(s),
    ensures
        ({
            let next = at + cstring_bytes(s).len();
            let here = decode_tree(b, at, level, ext, dir, base);
            &&& level == Level::Extension && s.len() == 0 ==> here == (
                Ok::<Seq<EntryView>, VpkError>(Seq::<EntryView>::empty()),
                next,
            )
            &&& level == Level::Extension && s.len() > 0 ==> here == decode_tree(
                b,
                next,
                Level::Directory,
                s,
                dir,
                base,
            )
            &&& level == Level::Directory && s.len() == 0 ==> here == decode_tree(
                b,
                next,
                Level::Extension,
                ext,
                dir,
                base,
            )
            &&& level == Level::Directory && s.len() > 0 ==> here == decode_tree(
                b,
                next,
                Level::Name,
                ext,
                s,
                base,
            )
            &&& level == Level::Name && s.len() == 0 ==> here == decode_tree(
                b,
                next,
                Level::Directory,
                ext,
                dir,
                base,
            )
            &&& level == Level::Name && s.len() > 0 ==> here == match record_at(b, next, base) {
                Err(e) => (Err(e), record_stop(b, next, base)),
                Ok(metadata) => prepend(
                    seq![EntryView { path: full_path(dir, s, ext), metadata }],
                    decode_tree(b, record_stop(b, next, base), Level::Name, ext, dir, base),
                ),
            }
        }),
{
    lemma_holds_read(b, at, s);
}

/// Whether the three names of `i` can be written and read back: none is
/// empty, which would end a group, and none holds the character zero, which
/// would end the name.
pub open spec fn plain_item(i: ItemView) -> bool {
    &&& i.ext.len() > 0 && no_nul(i.ext)
    &&& i.dir.len() > 0 && no_nul(i.dir)
    &&& i.name.len() > 0 && no_nul(i.name)
}

/// Whether every item of `items` is plain.
pub open spec fn plain_items(items: Seq<ItemView>) -> bool {
    forall|k: int| 0 <= k < items.len() ==> plain_item(#[trigger] items[k])
}

/// The entry that item `k` of a written tree is read back as, where
/// header and tree together are `base` bytes long: its data lies in the
/// archive's own file, after the data of the items before it.
pub open spec fn decoded_entry(items: Seq<ItemView>, k: int, base: int) -> EntryView {
    EntryView {
        path: full_path(items[k].dir, items[k].name, items[k].ext),
        metadata: MetadataView {
            preload: Seq::<u8>::empty(),
            crc32: items[k].crc32,
            preload_length: 0,
            archive_index: EMBEDDED_ARCHIVE_INDEX,
            archive_offset: (base + payload_upto(items, k).len()) as u32,
            file_length: items[k].data.len() as u32,
        },
    }
}

/// The entries that the written tree of `items` is read back as.
pub open spec fn decoded_entries(items: Seq<ItemView>, base: int) -> Seq<EntryView> {
    Seq::new(items.len(), |k: int| decoded_entry(items, k, base))
}

/// The empty string is written as one zero byte.
proof fn lemma_empty_cstring()
    ensures
        cstring_bytes(Seq::<char>::empty()) == seq![0u8],
        no_nul(Seq::<char>::empty()),
{
    assert(cstring_bytes(Seq::<char>::empty()) =~= seq![0u8]);
}

/// The part of a tree that files the first `j` items stands at the start
/// of every longer part.
proof fn lemma_holds_upto(b: Seq<u8>, start: int, items: Seq<ItemView>, j: int, n: int)
    requires
        0 <= j <= n,
        holds(b, start, tree_upto(items, n)),
    ensures
        holds(b, start, tree_upto(items, j)),
    decreases n - j,
{
    if j < n {
        lemma_holds_split(b, start, tree_upto(items, n - 1), item_image(items, n - 1));
        lemma_holds_upto(b, start, items, j, n - 1);
    }
}

/// The level at which the decoder stands before item `k`.
pub open spec fn level_before(k: int) -> Level {
    if k == 0 {
        Level::Extension
    } else {
        Level::Name
    }
}

/// The extension that the decoder has read last before item `k`.
pub open spec fn ext_before(items: Seq<ItemView>, k: int) -> Seq<char> {
    if k == 0 {
        Seq::<char>::empty()
    } else {
        items[k - 1].ext
    }
}

/// The directory that the decoder has read last before item `k`.
pub open spec fn dir_before(items: Seq<ItemView>, k: int) -> Seq<char> {
    if k == 0 {
        Seq::<char>::empty()
    } else {
        items[k - 1].dir
    }
}

/// Reading what stands before the name of item `k` brings the decoder to
/// the names of that item's directory.
proof fn lemma_open_group(b: Seq<u8>, at: int, items: Seq<ItemView>, k: int, base: int)
    requires
        0 <= k < items.len(),
        plain_item(items[k]),
        holds(b, at, opening(items, k)),
    ensures
        decode_tree(b, at, level_before(k), ext_before(items, k), dir_before(items, k), base)
            == decode_tree(
            b,
            at + opening(items, k).len(),
            Level::Name,
            items[k].ext,
            items[k].dir,
            base,
        ),
{
    lemma_empty_cstring();
    let none = Seq::<char>::empty();
    let zero = cstring_bytes(none);
    let ext = items[k].ext;
    let dir = items[k].dir;
    let e = cstring_bytes(ext);
    let d = cstring_bytes(dir);
    if k == 0 {
        lemma_holds_split(b, at, e, d);
        lemma_walk_step(b, at, Level::Extension, none, none, base, ext);
        lemma_walk_step(b, at + e.len(), Level::Directory, ext, none, base, dir);
    } else if items[k].ext != items[k - 1].ext {
        let old_ext = items[k - 1].ext;
        let old_dir = items[k - 1].dir;
        assert(opening(items, k) =~= zero + (zero + (e + d)));
        lemma_holds_split(b, at, zero, zero + (e + d));
        lemma_holds_split(b, at + 1, zero, e + d);
        lemma_holds_split(b, at + 2, e, d);
        lemma_walk_step(b, at, Level::Name, old_ext, old_dir, base, none);
        lemma_walk_step(b, at + 1, Level::Directory, old_ext, old_dir, base, none);
        lemma_walk_step(b, at + 2, Level::Extension, old_ext, old_dir, base, ext);
        lemma_walk_step(b, at + 2 + e.len(), Level::Directory, ext, old_dir, base, dir);
    } else if items[k].dir != items[k - 1].dir {
        let old_dir = items[k - 1].dir;
        assert(opening(items, k) =~= zero + d);
        lemma_holds_split(b, at, zero, d);
        lemma_walk_step(b, at, Level::Name, ext, old_dir, base, none);
        lemma_walk_step(b, at + 1, Level::Directory, ext, old_dir, base, dir);
    } else {
    }
}

/// Reading what ends the tree ends the walk.
proof fn lemma_close(b: Seq<u8>, at: int, items: Seq<ItemView>, base: int)
    requires
        holds(b, at, closing(items)),
    ensures
        decode_tree(
            b,
            at,
            level_before(items.len() as int),
            ext_before(items, items.len() as int),
            dir_before(items, items.len() as int),
            base,
        ) == (Ok::<Seq<EntryView>, VpkError>(Seq::<EntryView>::empty()), at + closing(items).len()),
{
    lemma_empty_cstring();
    let none = Seq::<char>::empty();
    let zero = cstring_bytes(none);
    let n = items.len() as int;
    if n == 0 {
        lemma_walk_step(b, at, Level::Extension, none, none, base, none);
    } else {
        let ext = items[n - 1].ext;
        let dir = items[n - 1].dir;
        assert(closing(items) =~= zero + (zero + zero));
        lemma_holds_split(b, at, zero, zero + zero);
        lemma_holds_split(b, at + 1, zero, zero);
        lemma_walk_step(b, at, Level::Name, ext, dir, base, none);
        lemma_walk_step(b, at + 1, Level::Directory, ext, dir, base, none);
        lemma_walk_step(b, at + 2, Level::Extension, ext, dir, base, none);
    }
}

/// Where the parts of item `k` stand in a written tree.
proof fn lemma_locate(b: Seq<u8>, start: int, items: Seq<ItemView>, k: int)
    requires
        holds(b, start, tree_image(items)),
        0 <= k < items.len(),
    ensures
        ({
            let at = start + tree_upto(items, k).len();
            let o = opening(items, k);
            let name = cstring_bytes(items[k].name);
            let rec = record_image(
                items[k].crc32,
                payload_upto(items, k).len() as u32,
                items[k].data.len() as u32,
            );
            &&& holds(b, at, o)
            &&& holds(b, at + o.len(), name)
            &&& holds(b, at + o.len() + name.len(), rec)
            &&& start + tree_upto(items, k + 1).len() == at + o.len() + name.len() + 18
        }),
{
    let n = items.len() as int;
    let at = start + tree_upto(items, k).len();
    let o = opening(items, k);
    let name = cstring_bytes(items[k].name);
    let rec = record_image(
        items[k].crc32,
        payload_upto(items, k).len() as u32,
        items[k].data.len() as u32,
    );
    lemma_holds_split(b, start, tree_upto(items, n), closing(items));
    lemma_holds_upto(b, start, items, k + 1, n);
    lemma_holds_split(b, start, tree_upto(items, k), item_image(items, k));
    lemma_holds_split(b, at, o + name, rec);
    lemma_holds_split(b, at, o, name);
}

/// Reading a name and its record gives one entry, and leaves the decoder
/// at the names of the same directory.
proof fn lemma_read_entry(
    b: Seq<u8>,
    at: int,
    ext: Seq<char>,
    dir: Seq<char>,
    name: Seq<char>,
    crc32: u32,
    offset: u32,
    length: u32,
    base: int,
)
    requires
        holds(b, at, cstring_bytes(name)),
        holds(b, at + cstring_bytes(name).len(), record_image(crc32, offset, length)),
        no_nul(name),
        name.len() > 0,
        0 <= base,
        base + offset <= u32::MAX,
    ensures
        decode_tree(b, at, Level::Name, ext, dir, base) == prepend(
            seq![
                EntryView {
                    path: full_path(dir, name, ext),
                    metadata: MetadataView {
                        preload: Seq::<u8>::empty(),
                        crc32,
                        preload_length: 0,
                        archive_index: EMBEDDED_ARCHIVE_INDEX,
                        archive_offset: (base + offset) as u32,
                        file_length: length,
                    },
                },
            ],
            decode_tree(b, at + cstring_bytes(name).len() + 18, Level::Name, ext, dir, base),
        ),
{
    lemma_walk_step(b, at, Level::Name, ext, dir, base, name);
    lemma_holds_record(b, at + cstring_bytes(name).len(), crc32, offset, length, base);
}

/// From the place before item `k` on, the written tree of plain items is
/// read back as the entries of the items from `k` on.
proof fn lemma_decode_from(b: Seq<u8>, start: int, items: Seq<ItemView>, base: int, k: int)
    requires
        plain_items(items),
        holds(b, start, tree_image(items)),
        0 <= base,
        base + payload_image(items).len() <= u32::MAX,
        0 <= k <= items.len(),
    ensures
        decode_tree(
            b,
            start + tree_upto(items, k).len(),
            level_before(k),
            ext_before(items, k),
            dir_before(items, k),
            base,
        ) == (
            Ok::<Seq<EntryView>, VpkError>(
                decoded_entries(items, base).subrange(k, items.len() as int),
            ),
            start + tree_image(items).len(),
        ),
    decreases items.len() - k,
{
    let n = items.len() as int;
    let at = start + tree_upto(items, k).len();
    let all = decoded_entries(items, base);
    if k == n {
        lemma_holds_split(b, start, tree_upto(items, n), closing(items));
        lemma_close(b, at, items, base);
        assert(all.subrange(k, n) =~= Seq::<EntryView>::empty());
    } else {
        let item = items[k];
        let offset = payload_upto(items, k).len();
        let o = opening(items, k);
        let name = cstring_bytes(item.name);
        crate::codec::lemma_upto_grows(items, k + 1, n);
        assert(payload_upto(items, k + 1).len() == offset + item.data.len());
        lemma_locate(b, start, items, k);
        lemma_open_group(b, at, items, k, base);
        lemma_read_entry(
            b,
            at + o.len(),
            item.ext,
            item.dir,
            item.name,
            item.crc32,
            offset as u32,
            item.data.len() as u32,
            base,
        );
        lemma_decode_from(b, start, items, base, k + 1);
        let rest = decode_tree(
            b,
            start + tree_upto(items, k + 1).len(),
            Level::Name,
            item.ext,
            item.dir,
            base,
        );
        assert(rest == (
            Ok::<Seq<EntryView>, VpkError>(all.subrange(k + 1, n)),
            start + tree_image(items).len(),
        ));
        assert(all[k] == decoded_entry(items, k, base));
        assert(seq![all[k]] + all.subrange(k + 1, n) =~= all.subrange(k, n));
    }
}

/// A tree of plain items is read back as it was written: one entry for
/// each item, in the same order, each under the path that its three names
/// make, with the place of its data made absolute.
pub proof fn lemma_tree_round_trip(b: Seq<u8>, start: int, items: Seq<ItemView>, base: int)
    requires
        plain_items(items),
        holds(b, start, tree_image(items)),
        0 <= base,
        base + payload_image(items).len() <= u32::MAX,
    ensures
        decode_tree(
            b,
            start,
            Level::Extension,
            Seq::<char>::empty(),
            Seq::<char>::empty(),
            base,
        ) == (
            Ok::<Seq<EntryView>, VpkError>(decoded_entries(items, base)),
            start + tree_image(items).len(),
        ),
{
    lemma_decode_from(b, start, items, base, 0);
    assert(decoded_entries(items, base).subrange(0, items.len() as int) =~= decoded_entries(
        items,
        base,
    ));
}

/// Whether the path of `e` can be written and read back: it has a `.` and
/// no character zero; neither the extension after its last `.`, nor the
/// name before it, nor the directory before the last `/` is empty; and the
/// directory is not the single space that stands for the root.
pub open spec fn plain_entry(e: EntryView) -> bool {
    &&& e.path.contains('.')
    &&& no_nul(e.path)
    &&& item_of(e).ext.len() > 0
    &&& item_of(e).dir.len() > 0
    &&& item_of(e).name.len() > 0
    &&& e.path.subrange(0, last_index(e.path, '.')).contains('/') ==> item_of(e).dir != root_dir()
}

/// Whether every entry of `t` is plain.
pub open spec fn plain_entries(t: Seq<EntryView>) -> bool {
    forall|i: int| 0 <= i < t.len() ==> plain_entry(#[trigger] t[i])
}

/// The three names of a plain entry make its path again.
pub proof fn lemma_plain_entry(e: EntryView)
    requires
        plain_entry(e),
    ensures
        plain_item(item_of(e)),
        full_path(item_of(e).dir, item_of(e).name, item_of(e).ext) == e.path,
        item_of(e).crc32 == e.metadata.crc32,
        item_of(e).data == e.metadata.preload,
{
    let p = e.path;
    lemma_last_index_exists(p, '.');
    let dot = last_index(p, '.');
    let stem = p.subrange(0, dot);
    let ext = p.subrange(dot + 1, p.len() as int);
    assert(p =~= stem + seq!['.'] + ext);
    if stem.contains('/') {
        lemma_last_index_exists(stem, '/');
        let slash = last_index(stem, '/');
        let dir = stem.subrange(0, slash);
        let name = stem.subrange(slash + 1, stem.len() as int);
        assert(stem =~= dir + seq!['/'] + name);
        assert(p =~= dir + seq!['/'] + name + seq!['.'] + ext);
    } else {
        assert(dir_prefix(root_dir()) + stem =~= stem);
    }
}

/// A header that decoding gives is read back as it was written.
pub proof fn lemma_header_round_trip(h: VPKHeader, rest: Seq<u8>)
    requires
        h.well_formed(),
    ensures
        header_at_front(header_image(h) + rest) == Ok::<VPKHeader, VpkError>(h),
        header_image(h).len() == h.header_length,
{
    let b = header_image(h) + rest;
    lemma_le_round_trip(0, h.signature);
    lemma_le_round_trip(0, h.version.spec_number());
    lemma_le_round_trip(0, h.tree_length);
    assert(b.subrange(0, 4) =~= u32_le(h.signature));
    assert(b.subrange(4, 8) =~= u32_le(h.version.spec_number()));
    assert(b.subrange(8, 12) =~= u32_le(h.tree_length));
    if h.version == VPKVersion::V2 {
        lemma_le_round_trip(0, h.embed_chunk_length->0);
        lemma_le_round_trip(0, h.chunk_hashes_length->0);
        lemma_le_round_trip(0, h.self_hashes_length->0);
        lemma_le_round_trip(0, h.signature_length->0);
        assert(b.subrange(12, 16) =~= u32_le(h.embed_chunk_length->0));
        assert(b.subrange(16, 20) =~= u32_le(h.chunk_hashes_length->0));
        assert(b.subrange(20, 24) =~= u32_le(h.self_hashes_length->0));
        assert(b.subrange(24, 28) =~= u32_le(h.signature_length->0));
    }
}

/// The items of plain entries are plain, in whatever order of the tree.
proof fn lemma_grouped_plain(t: Seq<EntryView>)
    requires
        plain_entries(t),
    ensures
        plain_items(grouped(items_of(t))),
        all_have_extension(t),
{
    let items = items_of(t);
    let arranged = grouped(items);
    assert forall|k: int| 0 <= k < arranged.len() implies plain_item(#[trigger] arranged[k]) by {
        lemma_grouped_keeps(items, arranged[k]);
        assert(arranged.contains(arranged[k]));
        let j = choose|j: int| 0 <= j < items.len() && items[j] == arranged[k];
        lemma_plain_entry(t[j]);
    }
}

/// The payload of the first `j` items stands at the start of every longer run.
proof fn lemma_holds_payload_upto(b: Seq<u8>, at: int, items: Seq<ItemView>, j: int, n: int)
    requires
        0 <= j <= n,
        holds(b, at, payload_upto(items, n)),
    ensures
        holds(b, at, payload_upto(items, j)),
    decreases n - j,
{
    if j < n {
        lemma_holds_split(b, at, payload_upto(items, n - 1), items[n - 1].data);
        lemma_holds_payload_upto(b, at, items, j, n - 1);
    }
}

/// Where the payload of item `k` stands in a written data section.
proof fn lemma_holds_payload(b: Seq<u8>, at: int, items: Seq<ItemView>, k: int)
    requires
        holds(b, at, payload_image(items)),
        0 <= k < items.len(),
    ensures
        holds(b, at + payload_upto(items, k).len(), items[k].data),
        payload_upto(items, k).len() + items[k].data.len() <= payload_image(items).len(),
{
    lemma_holds_payload_upto(b, at, items, k + 1, items.len() as int);
    lemma_holds_split(b, at, payload_upto(items, k), items[k].data);
    lemma_upto_grows(items, k + 1, items.len() as int);
}

/// Where the sections of an archive stand in its bytes.
proof fn lemma_layout(head: Seq<u8>, tree: Seq<u8>, payload: Seq<u8>, trailer: Seq<u8>)
    ensures
        head + tree + payload + trailer == head + (tree + payload + trailer),
        holds(head + tree + payload + trailer, head.len() as int, tree),
        holds(head + tree + payload + trailer, (head.len() + tree.len()) as int, payload),
        holds(
            head + tree + payload + trailer,
            (head.len() + tree.len() + payload.len()) as int,
            trailer,
        ),
        (head + tree + payload + trailer).len() == head.len() + tree.len() + payload.len()
            + trailer.len(),
{
    let image = head + tree + payload + trailer;
    assert(image =~= head + (tree + payload + trailer));
    assert(image.subrange(head.len() as int, (head.len() + tree.len()) as int) =~= tree);
    assert(image.subrange(
        (head.len() + tree.len()) as int,
        (head.len() + tree.len() + payload.len()) as int,
    ) =~= payload);
    assert(image.subrange(
        (head.len() + tree.len() + payload.len()) as int,
        (head.len() + tree.len() + payload.len() + trailer.len()) as int,
    ) =~= trailer);
}

/// The header that is written for an archive is one that decoding gives.
proof fn lemma_saved_header(h: VPKHeader, tree_length: u32, data_length: u32)
    requires
        h.well_formed(),
    ensures
        saved_header(h, tree_length, data_length).well_formed(),
        saved_header(h, tree_length, data_length).version == h.version,
        saved_header(h, tree_length, data_length).tree_length == tree_length,
        saved_header(h, tree_length, data_length).header_length == h.version.spec_header_length(),
        saved_header(h, tree_length, data_length).chunk_hashes_length == h.chunk_hashes_length,
        h.version == VPKVersion::V2 ==> saved_header(h, tree_length, data_length).embed_chunk_length
            == Some(data_length),
{
}

/// What bytes with the four sections of an archive are opened as.
proof fn lemma_opened_sections(
    path: Seq<char>,
    h: VPKHeader,
    items: Seq<ItemView>,
    trailer: Seq<u8>,
)
    requires
        h.well_formed(),
        plain_items(items),
        h.tree_length == tree_image(items).len(),
        h.header_length + h.tree_length + payload_image(items).len() <= u32::MAX,
        h.version == VPKVersion::V2 ==> h.chunk_hashes_length == Some(0u32)
            && h.embed_chunk_length == Some(payload_image(items).len() as u32) && trailer.len()
            == 48,
    ensures
        ({
            let image = header_image(h) + tree_image(items) + payload_image(items) + trailer;
            let base = h.header_length + h.tree_length;
            &&& opened(path, image) matches Ok(w) && w.path == Some(path) && w.header == h
                && w.entries == tree_of(decoded_entries(items, base))
            &&& holds(image, base, payload_image(items))
        }),
{
    let head = header_image(h);
    let tree = tree_image(items);
    let payload = payload_image(items);
    let image = head + tree + payload + trailer;
    let base = h.header_length + h.tree_length;
    lemma_layout(head, tree, payload, trailer);
    lemma_header_round_trip(h, tree + payload + trailer);
    assert(header_at_front(image) == Ok::<VPKHeader, VpkError>(h));
    lemma_tree_round_trip(image, h.header_length as int, items, base);
    if h.version == VPKVersion::V2 {
        assert(checksums_offset(h) == head.len() + tree.len() + payload.len());
        assert(checksums_at(image, h) is Ok);
    }
}

/// What a saved archive of plain entries is opened as: the header that
/// was written, and the tree of the entries that the written tree is read
/// back as. The payload stands where header and tree end.
pub proof fn lemma_opened_image(v: VpkView, path: Seq<char>)
    requires
        v.header.well_formed(),
        v.header.version == VPKVersion::V2 ==> v.header.chunk_hashes_length == Some(0u32),
        plain_entries(v.entries),
        archive_image(v) is Ok,
    ensures
        ({
            let image = archive_image(v)->Ok_0;
            let items = grouped(items_of(v.entries));
            let h = saved_header(
                v.header,
                tree_image(items).len() as u32,
                payload_image(items).len() as u32,
            );
            let base = h.header_length + h.tree_length;
            &&& opened(path, image) matches Ok(w) && w.path == Some(path) && w.header == h
                && w.entries == tree_of(decoded_entries(items, base))
            &&& holds(image, base, payload_image(items))
            &&& base + payload_image(items).len() <= u32::MAX
        }),
{
    let items = grouped(items_of(v.entries));
    let tree_length = tree_image(items).len() as u32;
    let data_length = payload_image(items).len() as u32;
    let h = saved_header(v.header, tree_length, data_length);
    lemma_grouped_plain(v.entries);
    lemma_saved_header(v.header, tree_length, data_length);
    lemma_opened_sections(path, h, items, trailer_image(v.header.version));
}

/// Whether the tree `t` of an archive opened from the file `vpk_path`
/// with the bytes `image` gives `e` back: it files an entry under the path
/// of `e`, with the checksum of `e`, whose content is the payload of `e`.
pub open spec fn reads_back(t: Seq<EntryView>, vpk_path: Seq<char>, image: Seq<u8>, e: EntryView)
    -> bool {
    let m = t[index_of_path(t, e.path)].metadata;
    &&& has_path(t, e.path)
    &&& m.crc32 == e.metadata.crc32
    &&& entry_view(vpk_path, e.path, m, image) matches Ok(f) && f.content() == e.metadata.preload
}

/// One entry of a saved archive is given back by the archive opened.
proof fn lemma_entry_reads_back(
    entries: Seq<EntryView>,
    base: int,
    image: Seq<u8>,
    vpk_path: Seq<char>,
    i: int,
)
    requires
        distinct_paths(entries),
        plain_entries(entries),
        0 <= i < entries.len(),
        0 <= base,
        holds(image, base, payload_image(grouped(items_of(entries)))),
        base + payload_image(grouped(items_of(entries))).len() <= u32::MAX,
    ensures
        reads_back(
            tree_of(decoded_entries(grouped(items_of(entries)), base)),
            vpk_path,
            image,
            entries[i],
        ),
{
    let e = entries[i];
    let items = items_of(entries);
    let arranged = grouped(items);
    let decoded = decoded_entries(arranged, base);
    let t = tree_of(decoded);
    lemma_tree_of(decoded);
    lemma_plain_entry(e);
    // The item of `e` is written somewhere, so its path is read back.
    assert(items[i] == item_of(e));
    assert(items.contains(item_of(e)));
    lemma_grouped_keeps(items, item_of(e));
    let k0 = choose|k: int| 0 <= k < arranged.len() && arranged[k] == item_of(e);
    assert(decoded[k0].path == e.path);
    assert(has_path(decoded, e.path));
    // Whatever entry stands under that path was read from the item of `e`.
    let j = index_of_path(t, e.path);
    assert(t[j].path == e.path);
    assert(decoded.contains(t[j]));
    let k = choose|k: int| 0 <= k < decoded.len() && decoded[k] == t[j];
    lemma_grouped_keeps(items, arranged[k]);
    assert(arranged.contains(arranged[k]));
    let i2 = choose|i2: int| 0 <= i2 < items.len() && items[i2] == arranged[k];
    lemma_plain_entry(entries[i2]);
    assert(entries[i2].path == e.path);
    assert(i2 == i) by {
        if i2 < i {
            assert(entries[i2].path != entries[i].path);
        } else if i < i2 {
            assert(entries[i].path != entries[i2].path);
        }
    }
    assert(arranged[k] == item_of(e));
    // Its data stands where the record says.
    lemma_holds_payload(image, base, arranged, k);
    let m = t[j].metadata;
    let data = e.metadata.preload;
    assert(m == decoded_entry(arranged, k, base).metadata);
    let f = entry_view(vpk_path, e.path, m, image)->Ok_0;
    if data.len() > 0 {
        assert(f.content() =~= data);
    } else {
        assert(f.content() =~= data);
    }
}

/// Saving and opening gives every entry back.
///
/// Let an archive have a header that decoding or scanning gives, without
/// chunk hashes, and entries with plain paths, no two the same. Where it
/// can be saved, the bytes saved can be opened, as an archive of the same
/// version with the same number of entries under the same paths; and each
/// entry is given back with its checksum, its content being all that the
/// entry held as payload.
pub proof fn lemma_save_open(v: VpkView, path: Seq<char>)
    requires
        v.header.well_formed(),
        v.header.version == VPKVersion::V2 ==> v.header.chunk_hashes_length == Some(0u32),
        distinct_paths(v.entries),
        plain_entries(v.entries),
        archive_image(v) is Ok,
    ensures
        opened(path, archive_image(v)->Ok_0) is Ok,
        ({
            let image = archive_image(v)->Ok_0;
            let w = opened(path, image)->Ok_0;
            &&& w.path == Some(path)
            &&& w.header.version == v.header.version
            &&& w.entries.len() == v.entries.len()
            &&& forall|p: Seq<char>| has_path(w.entries, p) <==> has_path(v.entries, p)
            &&& forall|i: int|
                0 <= i < v.entries.len() ==> reads_back(w.entries, path, image, #[trigger] v.entries[i])
        }),
{
    let image = archive_image(v)->Ok_0;
    let items = items_of(v.entries);
    let arranged = grouped(items);
    let h = saved_header(
        v.header,
        tree_image(arranged).len() as u32,
        payload_image(arranged).len() as u32,
    );
    let base = h.header_length + h.tree_length;
    let decoded = decoded_entries(arranged, base);
    lemma_opened_image(v, path);
    let w = opened(path, image)->Ok_0;
    lemma_tree_of(decoded);
    assert forall|i: int| 0 <= i < v.entries.len() implies reads_back(
        w.entries,
        path,
        image,
        #[trigger] v.entries[i],
    ) by {
        lemma_entry_reads_back(v.entries, base, image, path, i);
    }
    assert forall|p: Seq<char>| has_path(w.entries, p) <==> has_path(v.entries, p) by {
        if has_path(v.entries, p) {
            let i = index_of_path(v.entries, p);
            assert(reads_back(w.entries, path, image, v.entries[i]));
        }
        if has_path(w.entries, p) {
            let k = index_of_path(decoded, p);
            lemma_grouped_keeps(items, arranged[k]);
            assert(arranged.contains(arranged[k]));
            let i = choose|i: int| 0 <= i < items.len() && items[i] == arranged[k];
            lemma_plain_entry(v.entries[i]);
            assert(v.entries[i].path == p);
        }
    }
    lemma_same_paths_same_count(w.entries, v.entries);
}

/// Whether a scan found files that an archive can give back one by one:
/// every file name has a `.`, the normalized paths are plain, and no two of
/// them are the same.
pub open spec fn plain_scan(files: Seq<ScannedView>) -> bool {
    &&& all_names_have_extension(files)
    &&& plain_entries(scanned_entries(files))
    &&& distinct_paths(scanned_entries(files))
}

/// Whether header, tree and payload of an archive with the entries `t`
/// end within the 32 bits of the format.
pub open spec fn archive_fits(t: Seq<EntryView>) -> bool {
    28 + tree_image(grouped(items_of(t))).len() + payload_image(grouped(items_of(t))).len()
        <= u32::MAX
}

/// Packing, saving and opening gives every file back.
///
/// Let a scan find files with plain, distinct paths, which fit an archive
/// together. Then the scan gives an archive, the archive can be saved, and
/// the bytes saved can be opened, whatever the file is called. The archive
/// opened has as many entries as the scan found files. It holds an entry
/// under the normalized path of every file; the content of that entry is
/// the content of the file, and has the checksum that the entry records.
pub proof fn lemma_pack_round_trip(files: Seq<ScannedView>, path: Seq<char>)
    requires
        plain_scan(files),
        archive_fits(scanned_entries(files)),
    ensures
        scanned(files) is Ok,
        archive_image(scanned(files)->Ok_0) is Ok,
        opened(path, archive_image(scanned(files)->Ok_0)->Ok_0) is Ok,
        ({
            let image = archive_image(scanned(files)->Ok_0)->Ok_0;
            let t = (opened(path, image)->Ok_0).entries;
            &&& t.len() == files.len()
            &&& forall|i: int|
                #![trigger files[i]]
                0 <= i < files.len() ==> {
                    let p = normalized(files[i].relative_path);
                    let m = t[index_of_path(t, p)].metadata;
                    &&& has_path(t, p)
                    &&& entry_view(path, p, m, image) matches Ok(f) && f.content() == files[i].data
                        && crc32_checksum(f.content()) == f.metadata.crc32
                }
        }),
{
    let entries = scanned_entries(files);
    lemma_tree_of_distinct(entries);
    lemma_grouped_plain(entries);
    let v = scanned(files)->Ok_0;
    assert(v.entries == entries);
    lemma_save_open(v, path);
    let image = archive_image(v)->Ok_0;
    let t = (opened(path, image)->Ok_0).entries;
    assert forall|i: int| #![trigger files[i]] 0 <= i < files.len() implies {
        let p = normalized(files[i].relative_path);
        let m = t[index_of_path(t, p)].metadata;
        &&& has_path(t, p)
        &&& entry_view(path, p, m, image) matches Ok(f) && f.content() == files[i].data
            && crc32_checksum(f.content()) == f.metadata.crc32
    } by {
        assert(reads_back(t, path, image, entries[i]));
    }
}

} // verus!
