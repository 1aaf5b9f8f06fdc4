//! The layout of the tree section: how it is decoded, in which order its
//! entries are written, and what bytes they are written as.

use crate::error::{FormatError, VpkError};
use crate::file::MetadataView;
use crate::text::{chars_of, str_eq, string_of};
use crate::tree::{EntryView, TreeEntry};
use crate::utils::{
    cstring_at_front, cstring_bytes, cstring_stop, find_last, first_nul, has_nul, is_first_nul,
    last_index, le_u16, le_u32, u16_le, u32_le, EMBEDDED_ARCHIVE_INDEX, METADATA_SUFFIX,
};
use vstd::prelude::*;
use vstd::seq_lib::{lemma_multiset_commutative, to_multiset_build, to_multiset_len};

verus! {

/// What a decoder of the tree expects next: the name of an extension, of a
/// directory, or of a file.
#[derive(Debug, Clone, Copy, PartialEq, Eq, Structural)]
pub enum Level {
    Extension,
    Directory,
    Name,
}

/// The directory string that stands for "no directory".
pub open spec fn root_dir() -> Seq<char> {
    seq![' ']
}

/// What a directory string puts in front of the names filed under it.
pub open spec fn dir_prefix(dir: Seq<char>) -> Seq<char> {
    if dir == root_dir() {
        Seq::<char>::empty()
    } else {
        dir + seq!['/']
    }
}

/// The path of the entry `name` with extension `ext` in directory `dir`.
pub open spec fn full_path(dir: Seq<char>, name: Seq<char>, ext: Seq<char>) -> Seq<char> {
    dir_prefix(dir) + name + seq!['.'] + ext
}

/// The record that follows a name at `at` in `b`. `base` is the length of
/// header and tree together, by which the offset of embedded data is made
/// absolute. The preload follows the eighteen bytes of the record.
pub open spec fn record_at(b: Seq<u8>, at: int, base: int) -> Result<MetadataView, VpkError> {
    let rec = b.subrange(at, at + 18);
    let preload_length = le_u16(rec.subrange(4, 6));
    let archive_index = le_u16(rec.subrange(6, 8));
    let offset = le_u32(rec.subrange(8, 12));
    let suffix = le_u16(rec.subrange(16, 18));
    if at + 18 > b.len() {
        Err(VpkError::Format(FormatError::TruncatedRead))
    } else if suffix != METADATA_SUFFIX {
        Err(VpkError::Format(FormatError::BadMetadataSuffix(suffix)))
    } else if archive_index == EMBEDDED_ARCHIVE_INDEX && base + offset > u32::MAX {
        Err(VpkError::LimitExceeded)
    } else if at + 18 + preload_length > b.len() {
        Err(VpkError::Format(FormatError::TruncatedRead))
    } else {
        Ok(
            MetadataView {
                preload: b.subrange(at + 18, at + 18 + preload_length),
                crc32: le_u32(rec.subrange(0, 4)),
                preload_length,
                archive_index,
                archive_offset: if archive_index == EMBEDDED_ARCHIVE_INDEX {
                    (base + offset) as u32
                } else {
                    offset
                },
                file_length: le_u32(rec.subrange(12, 16)),
            },
        )
    }
}

/// Where a reader stands after it has read the record at `at`, or has
/// failed to: behind the preload; behind the eighteen bytes where their
/// content is at fault; at the end where the input is too short.
pub open spec fn record_stop(b: Seq<u8>, at: int, base: int) -> int {
    let preload_length = le_u16(b.subrange(at, at + 18).subrange(4, 6));
    match record_at(b, at, base) {
        Ok(_) => at + 18 + preload_length,
        Err(VpkError::Format(FormatError::TruncatedRead)) => b.len() as int,
        Err(_) => at + 18,
    }
}

/// A string that was read takes up at least its terminator.
pub proof fn lemma_cstring_advances(b: Seq<u8>)
    ensures
        cstring_stop(b) <= b.len(),
        has_nul(b) ==> 1 <= cstring_stop(b),
{
    if has_nul(b) {
        assert(is_first_nul(b, first_nul(b)));
    }
}

/// What reading the tree at `pos` in `b` gives: the entries that it
/// decodes to, in the order in which they stand, or the first fault; and
/// the place where the reading ends. The walk starts at `Level::Extension`;
/// `ext` and `dir` are the group names read last.
///
/// An empty extension ends the tree, an empty directory the extension's
/// group, an empty name the directory's group. Every other name is followed
/// by its record.
pub open spec fn decode_tree(
    b: Seq<u8>,
    pos: int,
    level: Level,
    ext: Seq<char>,
    dir: Seq<char>,
    base: int,
) -> (Result<Seq<EntryView>, VpkError>, int)
    decreases b.len() - pos,
{
    let rem = b.subrange(pos, b.len() as int);
    let next = pos + cstring_stop(rem);
    if pos < 0 || pos > b.len() {
        (Err(VpkError::Format(FormatError::TruncatedRead)), pos)
    } else {
        match cstring_at_front(rem) {
            Err(e) => (Err(e), next),
            Ok(s) => {
                proof {
                    lemma_cstring_advances(rem);
                }
                match level {
                    Level::Extension => if s.len() == 0 {
                        (Ok(Seq::<EntryView>::empty()), next)
                    } else {
                        decode_tree(b, next, Level::Directory, s, dir, base)
                    },
                    Level::Directory => if s.len() == 0 {
                        decode_tree(b, next, Level::Extension, ext, dir, base)
                    } else {
                        decode_tree(b, next, Level::Name, ext, s, base)
                    },
                    Level::Name => if s.len() == 0 {
                        decode_tree(b, next, Level::Directory, ext, dir, base)
                    } else {
                        match record_at(b, next, base) {
                            Err(e) => (Err(e), record_stop(b, next, base)),
                            Ok(metadata) => prepend(
                                seq![EntryView { path: full_path(dir, s, ext), metadata }],
                                decode_tree(
                                    b,
                                    record_stop(b, next, base),
                                    Level::Name,
                                    ext,
                                    dir,
                                    base,
                                ),
                            ),
                        }
                    },
                }
            },
        }
    }
}

/// `rest` with `done` put in front of its entries.
pub open spec fn prepend(done: Seq<EntryView>, rest: (Result<Seq<EntryView>, VpkError>, int)) -> (
    Result<Seq<EntryView>, VpkError>,
    int,
) {
    match rest.0 {
        Ok(entries) => (Ok(done + entries), rest.1),
        Err(e) => (Err(e), rest.1),
    }
}

/// Putting entries in front one at a time is the same as putting them in
/// front together.
pub proof fn lemma_prepend_push(
    done: Seq<EntryView>,
    e: EntryView,
    rest: (Result<Seq<EntryView>, VpkError>, int),
)
    ensures
        prepend(done, prepend(seq![e], rest)) == prepend(done.push(e), rest),
        prepend(Seq::<EntryView>::empty(), rest) == rest,
{
    match rest.0 {
        Ok(entries) => {
            assert(done + (seq![e] + entries) =~= done.push(e) + entries);
            assert(Seq::<EntryView>::empty() + entries =~= entries);
        },
        Err(_) => {},
    }
}

/// What the encoder needs of one entry: the three names under which the
/// tree files it, its checksum, and its payload.
pub ghost struct ItemView {
    pub ext: Seq<char>,
    pub dir: Seq<char>,
    pub name: Seq<char>,
    pub crc32: u32,
    pub data: Seq<u8>,
}

/// How the tree files `e`: the extension is what follows the last `.` of
/// the path, the directory what comes before the last `/` of the rest (the
/// root where there is none), the name what is left. The payload is all
/// that the record holds as preload.
pub open spec fn item_of(e: EntryView) -> ItemView
    recommends
        e.path.contains('.'),
{
    let dot = last_index(e.path, '.');
    let stem = e.path.subrange(0, dot);
    let ext = e.path.subrange(dot + 1, e.path.len() as int);
    if stem.contains('/') {
        let slash = last_index(stem, '/');
        ItemView {
            ext,
            dir: stem.subrange(0, slash),
            name: stem.subrange(slash + 1, stem.len() as int),
            crc32: e.metadata.crc32,
            data: e.metadata.preload,
        }
    } else {
        ItemView { ext, dir: root_dir(), name: stem, crc32: e.metadata.crc32, data: e.metadata.preload }
    }
}

/// The items of the entries of `t`, in the same order.
pub open spec fn items_of(t: Seq<EntryView>) -> Seq<ItemView> {
    t.map_values(|e: EntryView| item_of(e))
}

/// Whether every path in `t` has a `.`.
pub open spec fn all_have_extension(t: Seq<EntryView>) -> bool {
    forall|i: int| 0 <= i < t.len() ==> (#[trigger] t[i]).path.contains('.')
}

/// The two names by which the tree groups its entries.
#[derive(Debug, Clone, Copy, PartialEq, Eq, Structural)]
pub enum GroupBy {
    Extension,
    Directory,
}

/// The name of `item` that a grouping goes by.
pub open spec fn key_of(item: ItemView, by: GroupBy) -> Seq<char> {
    match by {
        GroupBy::Extension => item.ext,
        GroupBy::Directory => item.dir,
    }
}

/// The items of `items` whose key is `key` (for `same`), or is not, in
/// their order.
pub open spec fn pick(items: Seq<ItemView>, by: GroupBy, key: Seq<char>, same: bool) -> Seq<
    ItemView,
>
    decreases items.len(),
{
    if items.len() == 0 {
        Seq::<ItemView>::empty()
    } else {
        let front = pick(items.drop_last(), by, key, same);
        if (key_of(items.last(), by) == key) == same {
            front.push(items.last())
        } else {
            front
        }
    }
}

/// Every item is picked by exactly one of the two choices, and the first
/// item is picked by its own key.
pub proof fn lemma_pick_lengths(items: Seq<ItemView>, by: GroupBy, key: Seq<char>)
    ensures
        pick(items, by, key, true).len() + pick(items, by, key, false).len() == items.len(),
        items.len() > 0 && key == key_of(items[0], by) ==> pick(items, by, key, true).len() > 0
            && pick(items, by, key, true)[0] == items[0],
    decreases items.len(),
{
    if items.len() > 0 {
        lemma_pick_lengths(items.drop_last(), by, key);
        if items.len() > 1 {
            assert(items.drop_last()[0] == items[0]);
        }
    }
}

/// Picking keeps every item on one side or the other, and adds none.
pub proof fn lemma_pick_keeps(items: Seq<ItemView>, by: GroupBy, key: Seq<char>, x: ItemView)
    ensures
        (pick(items, by, key, true).contains(x) || pick(items, by, key, false).contains(x))
            <==> items.contains(x),
    decreases items.len(),
{
    let yes = pick(items, by, key, true);
    let no = pick(items, by, key, false);
    if items.len() > 0 {
        let front = items.drop_last();
        let last = items.last();
        let front_yes = pick(front, by, key, true);
        let front_no = pick(front, by, key, false);
        lemma_pick_keeps(front, by, key, x);
        if yes.contains(x) {
            let i = choose|i: int| 0 <= i < yes.len() && yes[i] == x;
            if i < front_yes.len() {
                assert(front_yes[i] == x);
            } else {
                assert(items[items.len() - 1] == x);
            }
        }
        if no.contains(x) {
            let i = choose|i: int| 0 <= i < no.len() && no[i] == x;
            if i < front_no.len() {
                assert(front_no[i] == x);
            } else {
                assert(items[items.len() - 1] == x);
            }
        }
        if front.contains(x) {
            let i = choose|i: int| 0 <= i < front.len() && front[i] == x;
            assert(items[i] == x);
        }
        if items.contains(x) {
            let i = choose|i: int| 0 <= i < items.len() && items[i] == x;
            if i < front.len() {
                assert(front[i] == x);
                if front_yes.contains(x) {
                    let j = choose|j: int| 0 <= j < front_yes.len() && front_yes[j] == x;
                    assert(yes[j] == x);
                } else {
                    let j = choose|j: int| 0 <= j < front_no.len() && front_no[j] == x;
                    assert(no[j] == x);
                }
            } else {
                if key_of(last, by) == key {
                    assert(yes[yes.len() - 1] == x);
                } else {
                    assert(no[no.len() - 1] == x);
                }
            }
        }
    }
}

/// A sequence put together of two holds what either of them holds.
pub proof fn lemma_contains_add(a: Seq<ItemView>, b: Seq<ItemView>, x: ItemView)
    ensures
        (a + b).contains(x) <==> a.contains(x) || b.contains(x),
{
    if (a + b).contains(x) {
        let i = choose|i: int| 0 <= i < (a + b).len() && (a + b)[i] == x;
        if i < a.len() {
            assert(a[i] == x);
        } else {
            assert(b[i - a.len()] == x);
        }
    }
    if a.contains(x) {
        let i = choose|i: int| 0 <= i < a.len() && a[i] == x;
        assert((a + b)[i] == x);
    }
    if b.contains(x) {
        let i = choose|i: int| 0 <= i < b.len() && b[i] == x;
        assert((a + b)[a.len() + i] == x);
    }
}

/// Grouping by directory keeps every item, and adds none.
pub proof fn lemma_grouped_by_dir_keeps(items: Seq<ItemView>, x: ItemView)
    ensures
        grouped_by_dir(items).contains(x) <==> items.contains(x),
    decreases items.len(),
{
    if items.len() > 0 {
        let key = items[0].dir;
        let same = pick(items, GroupBy::Directory, key, true);
        let rest = pick(items, GroupBy::Directory, key, false);
        lemma_pick_lengths(items, GroupBy::Directory, key);
        lemma_pick_keeps(items, GroupBy::Directory, key, x);
        lemma_grouped_by_dir_keeps(rest, x);
        lemma_contains_add(same, grouped_by_dir(rest), x);
    }
}

/// The order of the tree keeps every item, and adds none.
pub proof fn lemma_grouped_keeps(items: Seq<ItemView>, x: ItemView)
    ensures
        grouped(items).contains(x) <==> items.contains(x),
    decreases items.len(),
{
    if items.len() > 0 {
        let key = items[0].ext;
        let same = pick(items, GroupBy::Extension, key, true);
        let rest = pick(items, GroupBy::Extension, key, false);
        lemma_pick_lengths(items, GroupBy::Extension, key);
        lemma_pick_keeps(items, GroupBy::Extension, key, x);
        lemma_grouped_by_dir_keeps(same, x);
        lemma_grouped_keeps(rest, x);
        lemma_contains_add(grouped_by_dir(same), grouped(rest), x);
    }
}

/// `items` with those of the same directory brought together: the
/// directories in the order in which they first occur, the items of each in
/// their order.
pub open spec fn grouped_by_dir(items: Seq<ItemView>) -> Seq<ItemView>
    decreases items.len(),
{
    if items.len() == 0 {
        Seq::<ItemView>::empty()
    } else {
        proof {
            lemma_pick_lengths(items, GroupBy::Directory, items[0].dir);
        }
        pick(items, GroupBy::Directory, items[0].dir, true) + grouped_by_dir(
            pick(items, GroupBy::Directory, items[0].dir, false),
        )
    }
}

/// The order in which the tree holds `items`: those of the same extension
/// brought together, and among them those of the same directory; the
/// extensions in the order in which they first occur.
pub open spec fn grouped(items: Seq<ItemView>) -> Seq<ItemView>
    decreases items.len(),
{
    if items.len() == 0 {
        Seq::<ItemView>::empty()
    } else {
        proof {
            lemma_pick_lengths(items, GroupBy::Extension, items[0].ext);
        }
        grouped_by_dir(pick(items, GroupBy::Extension, items[0].ext, true)) + grouped(
            pick(items, GroupBy::Extension, items[0].ext, false),
        )
    }
}

/// The two choices of a picking share out the items: each item is picked
/// as often as it occurs.
pub proof fn lemma_pick_shares(items: Seq<ItemView>, by: GroupBy, key: Seq<char>)
    ensures
        pick(items, by, key, true).to_multiset().add(pick(items, by, key, false).to_multiset())
            == items.to_multiset(),
    decreases items.len(),
{
    broadcast use vstd::multiset::group_multiset_axioms;

    let yes = pick(items, by, key, true);
    let no = pick(items, by, key, false);
    if items.len() == 0 {
        assert(yes =~= items);
        assert(no =~= items);
        items.to_multiset_ensures();
        assert(items.to_multiset().len() == 0);
        assert(yes.to_multiset().add(no.to_multiset()) =~= items.to_multiset());
    } else {
        let front = items.drop_last();
        let last = items.last();
        lemma_pick_shares(front, by, key);
        assert(front.push(last) =~= items);
        to_multiset_build(front, last);
        to_multiset_build(pick(front, by, key, true), last);
        to_multiset_build(pick(front, by, key, false), last);
        assert(yes.to_multiset().add(no.to_multiset()) =~= items.to_multiset());
    }
}

/// Grouping by directory writes each item as often as it occurs.
pub proof fn lemma_grouped_by_dir_is_rearrangement(items: Seq<ItemView>)
    ensures
        grouped_by_dir(items).to_multiset() == items.to_multiset(),
    decreases items.len(),
{
    if items.len() > 0 {
        let key = items[0].dir;
        let same = pick(items, GroupBy::Directory, key, true);
        let rest = pick(items, GroupBy::Directory, key, false);
        lemma_pick_lengths(items, GroupBy::Directory, key);
        lemma_pick_shares(items, GroupBy::Directory, key);
        lemma_grouped_by_dir_is_rearrangement(rest);
        lemma_multiset_commutative(same, grouped_by_dir(rest));
    } else {
        assert(grouped_by_dir(items) =~= items);
    }
}

/// The order of the tree is a rearrangement of the items: each item is
/// written as often as it occurs, so none is lost and none is added.
pub proof fn lemma_grouped_is_rearrangement(items: Seq<ItemView>)
    ensures
        grouped(items).to_multiset() == items.to_multiset(),
        grouped(items).len() == items.len(),
    decreases items.len(),
{
    if items.len() > 0 {
        let key = items[0].ext;
        let same = pick(items, GroupBy::Extension, key, true);
        let rest = pick(items, GroupBy::Extension, key, false);
        lemma_pick_lengths(items, GroupBy::Extension, key);
        lemma_pick_shares(items, GroupBy::Extension, key);
        lemma_grouped_by_dir_is_rearrangement(same);
        lemma_grouped_is_rearrangement(rest);
        lemma_multiset_commutative(grouped_by_dir(same), grouped(rest));
    } else {
        assert(grouped(items) =~= items);
    }
    to_multiset_len(grouped(items));
    to_multiset_len(items);
}

/// What is picked for a key has that key, and what is picked against it
/// has another.
pub proof fn lemma_pick_keys(items: Seq<ItemView>, by: GroupBy, key: Seq<char>, same: bool, i: int)
    requires
        0 <= i < pick(items, by, key, same).len(),
    ensures
        (key_of(pick(items, by, key, same)[i], by) == key) == same,
    decreases items.len(),
{
    if items.len() > 0 {
        let front = pick(items.drop_last(), by, key, same);
        if i < front.len() {
            lemma_pick_keys(items.drop_last(), by, key, same, i);
        }
    }
}

/// Grouped by directory, the items of one directory stand together.
pub proof fn lemma_dirs_stand_together(items: Seq<ItemView>, i: int, j: int, k: int)
    requires
        0 <= i <= j <= k < grouped_by_dir(items).len(),
        grouped_by_dir(items)[i].dir == grouped_by_dir(items)[k].dir,
    ensures
        grouped_by_dir(items)[j].dir == grouped_by_dir(items)[i].dir,
    decreases items.len(),
{
    let key = items[0].dir;
    let same = pick(items, GroupBy::Directory, key, true);
    let rest = pick(items, GroupBy::Directory, key, false);
    let tail = grouped_by_dir(rest);
    let all = grouped_by_dir(items);
    lemma_pick_lengths(items, GroupBy::Directory, key);
    assert(all == same + tail);
    if k < same.len() {
        lemma_pick_keys(items, GroupBy::Directory, key, true, i);
        lemma_pick_keys(items, GroupBy::Directory, key, true, j);
    } else if i >= same.len() {
        lemma_dirs_stand_together(rest, i - same.len(), j - same.len(), k - same.len());
    } else {
        lemma_pick_keys(items, GroupBy::Directory, key, true, i);
        let x = tail[k - same.len()];
        assert(tail.contains(x));
        lemma_grouped_by_dir_keeps(rest, x);
        let m = choose|m: int| 0 <= m < rest.len() && rest[m] == x;
        lemma_pick_keys(items, GroupBy::Directory, key, false, m);
    }
}

/// In the order of the tree the items of one extension stand together,
/// and among them those of one directory: every extension opens one group,
/// and every directory one group within it.
pub proof fn lemma_groups_stand_together(items: Seq<ItemView>, i: int, j: int, k: int)
    requires
        0 <= i <= j <= k < grouped(items).len(),
        grouped(items)[i].ext == grouped(items)[k].ext,
    ensures
        grouped(items)[j].ext == grouped(items)[i].ext,
        grouped(items)[i].dir == grouped(items)[k].dir ==> grouped(items)[j].dir == grouped(
            items,
        )[i].dir,
    decreases items.len(),
{
    let key = items[0].ext;
    let same = pick(items, GroupBy::Extension, key, true);
    let rest = pick(items, GroupBy::Extension, key, false);
    let head = grouped_by_dir(same);
    let tail = grouped(rest);
    let all = grouped(items);
    lemma_pick_lengths(items, GroupBy::Extension, key);
    assert(all == head + tail);
    assert forall|n: int| 0 <= n < head.len() implies (#[trigger] head[n]).ext == key by {
        assert(head.contains(head[n]));
        lemma_grouped_by_dir_keeps(same, head[n]);
        let m = choose|m: int| 0 <= m < same.len() && same[m] == head[n];
        lemma_pick_keys(items, GroupBy::Extension, key, true, m);
    }
    if k < head.len() {
        if all[i].dir == all[k].dir {
            lemma_dirs_stand_together(same, i, j, k);
        }
    } else if i >= head.len() {
        lemma_groups_stand_together(rest, i - head.len(), j - head.len(), k - head.len());
    } else {
        let x = tail[k - head.len()];
        assert(tail.contains(x));
        lemma_grouped_keeps(rest, x);
        let m = choose|m: int| 0 <= m < rest.len() && rest[m] == x;
        lemma_pick_keys(items, GroupBy::Extension, key, false, m);
    }
}

/// The record of an entry whose `length` bytes of data start `offset`
/// bytes into the data that follows the tree. No preload is written.
pub open spec fn record_image(crc32: u32, offset: u32, length: u32) -> Seq<u8> {
    u32_le(crc32) + u16_le(0) + u16_le(EMBEDDED_ARCHIVE_INDEX) + u32_le(offset) + u32_le(length)
        + u16_le(METADATA_SUFFIX)
}

/// What stands before the name of item `k`: the names of the groups that
/// start with it, after the terminators of the groups that end before it.
pub open spec fn opening(items: Seq<ItemView>, k: int) -> Seq<u8> {
    if k == 0 {
        cstring_bytes(items[k].ext) + cstring_bytes(items[k].dir)
    } else if items[k].ext != items[k - 1].ext {
        seq![0u8, 0u8] + cstring_bytes(items[k].ext) + cstring_bytes(items[k].dir)
    } else if items[k].dir != items[k - 1].dir {
        seq![0u8] + cstring_bytes(items[k].dir)
    } else {
        Seq::<u8>::empty()
    }
}

/// What ends the tree: the terminators of the last directory and the last
/// extension, where there are items, and that of the tree.
pub open spec fn closing(items: Seq<ItemView>) -> Seq<u8> {
    if items.len() == 0 {
        seq![0u8]
    } else {
        seq![0u8, 0u8, 0u8]
    }
}

/// The payload of the first `k` items, one after the other.
pub open spec fn payload_upto(items: Seq<ItemView>, k: int) -> Seq<u8>
    decreases k,
{
    if k <= 0 {
        Seq::<u8>::empty()
    } else {
        payload_upto(items, k - 1) + items[k - 1].data
    }
}

/// The data section: the payload of all the items, in their order.
pub open spec fn payload_image(items: Seq<ItemView>) -> Seq<u8> {
    payload_upto(items, items.len() as int)
}

/// The part of the tree that files item `k`: what stands before its name,
/// its name, and its record. The data of the item starts where that of the
/// items before it ends.
pub open spec fn item_image(items: Seq<ItemView>, k: int) -> Seq<u8> {
    opening(items, k) + cstring_bytes(items[k].name) + record_image(
        items[k].crc32,
        payload_upto(items, k).len() as u32,
        items[k].data.len() as u32,
    )
}

/// The part of the tree that files the first `k` items.
pub open spec fn tree_upto(items: Seq<ItemView>, k: int) -> Seq<u8>
    decreases k,
{
    if k <= 0 {
        Seq::<u8>::empty()
    } else {
        tree_upto(items, k - 1) + item_image(items, k - 1)
    }
}

/// The tree section that files `items` in the order given.
pub open spec fn tree_image(items: Seq<ItemView>) -> Seq<u8> {
    tree_upto(items, items.len() as int) + closing(items)
}

/// A longer run of items takes up no less.
pub proof fn lemma_upto_grows(items: Seq<ItemView>, j: int, k: int)
    requires
        0 <= j <= k,
    ensures
        tree_upto(items, j).len() <= tree_upto(items, k).len(),
        payload_upto(items, j).len() <= payload_upto(items, k).len(),
    decreases k - j,
{
    if j < k {
        lemma_upto_grows(items, j, k - 1);
    }
}

/// What the encoder needs of one entry of a tree.
pub struct Item<'a> {
    pub ext: String,
    pub dir: String,
    pub name: String,
    pub crc32: u32,
    pub data: &'a Vec<u8>,
}

impl<'a> View for Item<'a> {
    type V = ItemView;

    open spec fn view(&self) -> ItemView {
        ItemView {
            ext: self.ext@,
            dir: self.dir@,
            name: self.name@,
            crc32: self.crc32,
            data: self.data@,
        }
    }
}

/// The mathematical values of `items`, in the same order.
pub open spec fn views(items: Seq<Item>) -> Seq<ItemView> {
    items.map_values(|i: Item| i@)
}

impl<'a> Item<'a> {
    /// Splits the path of `entry` into the names under which the tree files
    /// it. A path without a `.` fails with `MissingExtension`.
    pub fn of(entry: &'a TreeEntry) -> (r: Result<Item<'a>, VpkError>)
        ensures
            entry@.path.contains('.') ==> (r matches Ok(item) && item@ == item_of(entry@)),
            !entry@.path.contains('.') ==> (r matches Err(e) && e == VpkError::Format(
                FormatError::MissingExtension,
            )),
    {
        let cs = chars_of(entry.path.as_str());
        let n: usize = cs.len();
        assert(cs@.subrange(0, n as int) =~= entry@.path);
        let dot: usize = match find_last(&cs, n, '.') {
            Some(dot) => dot,
            None => {
                return Err(VpkError::Format(FormatError::MissingExtension));
            },
        };
        let ext = string_of(&cs, dot + 1, n);
        let ghost stem = cs@.subrange(0, dot as int);
        match find_last(&cs, dot, '/') {
            Some(slash) => {
                let dir = string_of(&cs, 0, slash);
                let name = string_of(&cs, slash + 1, dot);
                proof {
                    assert(dir@ =~= stem.subrange(0, slash as int));
                    assert(name@ =~= stem.subrange(slash + 1, stem.len() as int));
                }
                Ok(Item { ext, dir, name, crc32: entry.metadata.crc32, data: &entry.metadata.preload })
            },
            None => {
                let mut dir = String::new();
                crate::text::push_char(&mut dir, ' ');
                let name = string_of(&cs, 0, dot);
                proof {
                    assert(dir@ =~= root_dir());
                }
                Ok(Item { ext, dir, name, crc32: entry.metadata.crc32, data: &entry.metadata.preload })
            },
        }
    }

    /// Whether the key of the item is `key`.
    fn has_key(&self, by: GroupBy, key: &str) -> (r: bool)
        ensures
            r == (key_of(self@, by) == key@),
    {
        match by {
            GroupBy::Extension => str_eq(self.ext.as_str(), key),
            GroupBy::Directory => str_eq(self.dir.as_str(), key),
        }
    }
}

/// Parts `items` into those whose key is `key` and the others, each part
/// in the order of `items`.
fn partition<'a>(items: Vec<Item<'a>>, by: GroupBy, key: &str) -> (r: (
    Vec<Item<'a>>,
    Vec<Item<'a>>,
))
    ensures
        views(r.0@) == pick(views(items@), by, key@, true),
        views(r.1@) == pick(views(items@), by, key@, false),
{
    let mut same: Vec<Item<'a>> = Vec::new();
    let mut rest: Vec<Item<'a>> = Vec::new();
    let ghost all = views(items@);
    assert(views(same@) =~= pick(all.subrange(0, 0), by, key@, true));
    assert(views(rest@) =~= pick(all.subrange(0, 0), by, key@, false));
    for item in it: items
        invariant
            it.seq() == items@,
            all == views(items@),
            views(same@) == pick(all.subrange(0, it.index() as int), by, key@, true),
            views(rest@) == pick(all.subrange(0, it.index() as int), by, key@, false),
    {
        let ghost i = it.index() as int;
        let ghost before_same = same@;
        let ghost before_rest = rest@;
        proof {
            assert(all.subrange(0, i + 1).drop_last() =~= all.subrange(0, i));
            assert(all.subrange(0, i + 1).last() == item@);
        }
        if item.has_key(by, key) {
            same.push(item);
            assert(views(same@) =~= views(before_same).push(item@));
        } else {
            rest.push(item);
            assert(views(rest@) =~= views(before_rest).push(item@));
        }
    }
    assert(all.subrange(0, items@.len() as int) =~= all);
    (same, rest)
}

/// Brings the items of the same directory together.
fn arrange_dirs<'a>(items: Vec<Item<'a>>) -> (out: Vec<Item<'a>>)
    ensures
        views(out@) == grouped_by_dir(views(items@)),
{
    let mut out: Vec<Item<'a>> = Vec::new();
    let mut remaining = items;
    assert(views(out@) + grouped_by_dir(views(remaining@)) =~= grouped_by_dir(views(items@)));
    while remaining.len() > 0
        invariant
            grouped_by_dir(views(items@)) == views(out@) + grouped_by_dir(views(remaining@)),
        decreases remaining@.len(),
    {
        let ghost before = remaining@;
        let ghost done = out@;
        let key = remaining[0].dir.clone();
        let (mut same, rest) = partition(remaining, GroupBy::Directory, key.as_str());
        proof {
            lemma_pick_lengths(views(before), GroupBy::Directory, key@);
        }
        out.append(&mut same);
        remaining = rest;
        proof {
            assert(views(out@) =~= views(done) + pick(
                views(before),
                GroupBy::Directory,
                key@,
                true,
            ));
            assert(views(out@) + grouped_by_dir(views(remaining@)) =~= views(done)
                + grouped_by_dir(views(before)));
        }
    }
    assert(views(out@) + Seq::<ItemView>::empty() =~= views(out@));
    out
}

/// Puts `items` in the order in which the tree holds them.
pub fn arrange<'a>(items: Vec<Item<'a>>) -> (out: Vec<Item<'a>>)
    ensures
        views(out@) == grouped(views(items@)),
{
    let mut out: Vec<Item<'a>> = Vec::new();
    let mut remaining = items;
    assert(views(out@) + grouped(views(remaining@)) =~= grouped(views(items@)));
    while remaining.len() > 0
        invariant
            grouped(views(items@)) == views(out@) + grouped(views(remaining@)),
        decreases remaining@.len(),
    {
        let ghost before = remaining@;
        let ghost done = out@;
        let key = remaining[0].ext.clone();
        let (same, rest) = partition(remaining, GroupBy::Extension, key.as_str());
        proof {
            lemma_pick_lengths(views(before), GroupBy::Extension, key@);
        }
        let mut block = arrange_dirs(same);
        out.append(&mut block);
        remaining = rest;
        proof {
            assert(views(out@) =~= views(done) + grouped_by_dir(
                pick(views(before), GroupBy::Extension, key@, true),
            ));
            assert(views(out@) + grouped(views(remaining@)) =~= views(done) + grouped(
                views(before),
            ));
        }
    }
    assert(views(out@) + Seq::<ItemView>::empty() =~= views(out@));
    out
}

} // verus!
