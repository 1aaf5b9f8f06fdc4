//! The entries of an archive, filed by path.

use crate::file::{FileMetadata, MetadataView};
use crate::text::str_eq;
use vstd::prelude::*;

verus! {

/// One entry of an archive: where it is filed, and what the tree records of it.
#[derive(Debug)]
pub struct TreeEntry {
    /// The path of the entry, with forward slashes.
    pub path: String,
    /// The entry's record.
    pub metadata: FileMetadata,
}

/// The mathematical value of a `TreeEntry`.
pub ghost struct EntryView {
    pub path: Seq<char>,
    pub metadata: MetadataView,
}

impl View for TreeEntry {
    type V = EntryView;

    open spec fn view(&self) -> EntryView {
        EntryView { path: self.path@, metadata: self.metadata@ }
    }
}

/// Whether some entry of `t` is filed under `path`.
pub open spec fn has_path(t: Seq<EntryView>, path: Seq<char>) -> bool {
    exists|i: int| 0 <= i < t.len() && #[trigger] t[i].path == path
}

/// The place in `t` of an entry filed under `path`, where there is one.
pub open spec fn index_of_path(t: Seq<EntryView>, path: Seq<char>) -> int {
    choose|i: int| 0 <= i < t.len() && #[trigger] t[i].path == path
}

/// Whether no two entries of `t` are filed under the same path.
pub open spec fn distinct_paths(t: Seq<EntryView>) -> bool {
    forall|i: int, j: int| 0 <= i < j < t.len() ==> #[trigger] t[i].path != #[trigger] t[j].path
}

/// `t` after `e` is filed: in the place of the entry that had its path, or
/// at the end where none had.
pub open spec fn with_entry(t: Seq<EntryView>, e: EntryView) -> Seq<EntryView> {
    if has_path(t, e.path) {
        t.update(index_of_path(t, e.path), e)
    } else {
        t.push(e)
    }
}

/// The tree that filing `entries` one after the other gives: of entries
/// with the same path the last one stays, in the place of the first.
pub open spec fn tree_of(entries: Seq<EntryView>) -> Seq<EntryView>
    decreases entries.len(),
{
    if entries.len() == 0 {
        Seq::<EntryView>::empty()
    } else {
        with_entry(tree_of(entries.drop_last()), entries.last())
    }
}

/// Filing keeps paths distinct.
pub proof fn lemma_with_entry_distinct(t: Seq<EntryView>, e: EntryView)
    requires
        distinct_paths(t),
    ensures
        distinct_paths(with_entry(t, e)),
        has_path(with_entry(t, e), e.path),
        forall|p: Seq<char>| has_path(with_entry(t, e), p) <==> (has_path(t, p) || p == e.path),
{
    let u = with_entry(t, e);
    if has_path(t, e.path) {
        let k = index_of_path(t, e.path);
        assert(u[k].path == e.path);
        assert forall|p: Seq<char>| has_path(u, p) <==> (has_path(t, p) || p == e.path) by {
            if has_path(u, p) {
                let i = index_of_path(u, p);
                assert(t[i].path == p);
            }
            if has_path(t, p) {
                let i = index_of_path(t, p);
                assert(u[i].path == p);
            }
        }
    } else {
        assert(u[t.len() as int].path == e.path);
        assert forall|p: Seq<char>| has_path(u, p) <==> (has_path(t, p) || p == e.path) by {
            if has_path(u, p) {
                let i = index_of_path(u, p);
                if i < t.len() {
                    assert(t[i].path == p);
                }
            }
            if has_path(t, p) {
                let i = index_of_path(t, p);
                assert(u[i].path == p);
            }
        }
    }
}

/// What filing `entries` one after the other gives: a tree with distinct
/// paths, which holds exactly the paths of `entries`, and whose entries are
/// all among them.
pub proof fn lemma_tree_of(entries: Seq<EntryView>)
    ensures
        distinct_paths(tree_of(entries)),
        forall|p: Seq<char>| has_path(tree_of(entries), p) <==> has_path(entries, p),
        forall|j: int|
            0 <= j < tree_of(entries).len() ==> entries.contains(#[trigger] tree_of(entries)[j]),
    decreases entries.len(),
{
    let t = tree_of(entries);
    if entries.len() > 0 {
        let front = entries.drop_last();
        let e = entries.last();
        let u = tree_of(front);
        lemma_tree_of(front);
        lemma_with_entry_distinct(u, e);
        assert forall|p: Seq<char>| has_path(t, p) <==> has_path(entries, p) by {
            if has_path(entries, p) {
                let i = index_of_path(entries, p);
                if i < front.len() {
                    assert(front[i].path == p);
                }
            }
            if has_path(front, p) {
                let i = index_of_path(front, p);
                assert(entries[i].path == p);
            }
            assert(entries[entries.len() - 1].path == e.path);
        }
        assert forall|j: int| 0 <= j < t.len() implies entries.contains(#[trigger] t[j]) by {
            if t[j] == e {
                assert(entries[entries.len() - 1] == e);
            } else {
                assert(t[j] == u[j]);
                let k = choose|k: int| 0 <= k < front.len() && front[k] == u[j];
                assert(entries[k] == u[j]);
            }
        }
    }
}

/// Filing entries with distinct paths keeps them all, in their order.
pub proof fn lemma_tree_of_distinct(entries: Seq<EntryView>)
    requires
        distinct_paths(entries),
    ensures
        tree_of(entries) == entries,
    decreases entries.len(),
{
    if entries.len() > 0 {
        let front = entries.drop_last();
        lemma_tree_of_distinct(front);
        if has_path(front, entries.last().path) {
            let i = index_of_path(front, entries.last().path);
            assert(entries[i].path == entries[entries.len() - 1].path);
        }
        assert(front.push(entries.last()) =~= entries);
    } else {
        assert(tree_of(entries) =~= entries);
    }
}

/// The paths of `t`, in the order of its entries.
pub open spec fn paths_of(t: Seq<EntryView>) -> Seq<Seq<char>> {
    t.map_values(|e: EntryView| e.path)
}

/// Two trees that hold the same paths, each path once, have the same
/// number of entries.
pub proof fn lemma_same_paths_same_count(a: Seq<EntryView>, b: Seq<EntryView>)
    requires
        distinct_paths(a),
        distinct_paths(b),
        forall|p: Seq<char>| has_path(a, p) <==> has_path(b, p),
    ensures
        a.len() == b.len(),
{
    let pa = paths_of(a);
    let pb = paths_of(b);
    assert(pa.no_duplicates());
    assert(pb.no_duplicates());
    pa.unique_seq_to_set();
    pb.unique_seq_to_set();
    assert forall|p: Seq<char>| pa.to_set().contains(p) <==> pb.to_set().contains(p) by {
        if pa.contains(p) {
            let i = choose|i: int| 0 <= i < pa.len() && pa[i] == p;
            assert(a[i].path == p);
            assert(has_path(a, p));
            assert(has_path(b, p));
            let j = index_of_path(b, p);
            assert(pb[j] == p);
            assert(pb.contains(p));
        }
        if pb.contains(p) {
            let i = choose|i: int| 0 <= i < pb.len() && pb[i] == p;
            assert(b[i].path == p);
            assert(has_path(b, p));
            assert(has_path(a, p));
            let j = index_of_path(a, p);
            assert(pa[j] == p);
            assert(pa.contains(p));
        }
    }
    assert(pa.to_set() =~= pb.to_set());
}

/// The entries of an archive, each under a path of its own, in the order
/// in which their paths were first filed.
#[derive(Debug)]
pub struct FileTree {
    entries: Vec<TreeEntry>,
}

impl View for FileTree {
    type V = Seq<EntryView>;

    closed spec fn view(&self) -> Seq<EntryView> {
        self.entries@.map_values(|e: TreeEntry| e@)
    }
}

impl FileTree {
    #[verifier::type_invariant]
    spec fn unique(&self) -> bool {
        distinct_paths(self@)
    }

    /// A tree without entries.
    pub fn new() -> (t: Self)
        ensures
            t@ == Seq::<EntryView>::empty(),
    {
        let t = FileTree { entries: Vec::new() };
        assert(t@ =~= Seq::<EntryView>::empty());
        t
    }

    /// The number of entries, no two of which have the same path.
    pub fn len(&self) -> (n: usize)
        ensures
            n == self@.len(),
            distinct_paths(self@),
    {
        proof {
            use_type_invariant(self);
        }
        self.entries.len()
    }

    /// The place of the entry filed under `path`.
    pub fn find(&self, path: &str) -> (r: Option<usize>)
        ensures
            r is Some <==> has_path(self@, path@),
            r matches Some(i) ==> i < self@.len() && self@[i as int].path == path@ && i
                == index_of_path(self@, path@),
    {
        proof {
            use_type_invariant(self);
        }
        let n: usize = self.entries.len();
        let mut i: usize = 0;
        while i < n
            invariant
                n == self.entries@.len(),
                i <= n,
                distinct_paths(self@),
                forall|j: int| 0 <= j < i ==> (#[trigger] self@[j]).path != path@,
            decreases n - i,
        {
            if str_eq(self.entries[i].path.as_str(), path) {
                proof {
                    assert(self@[i as int].path == path@);
                    let k = index_of_path(self@, path@);
                    assert(self@[k].path == path@);
                    if k > i {
                        assert(self@[i as int].path != self@[k].path);
                    }
                }
                return Some(i);
            }
            i += 1;
        }
        None
    }

    /// The entry at place `i`.
    pub fn entry(&self, i: usize) -> (e: &TreeEntry)
        requires
            i < self@.len(),
        ensures
            e@ == self@[i as int],
    {
        &self.entries[i]
    }

    /// The record of the entry filed under `path`.
    pub fn get(&self, path: &str) -> (r: Option<&FileMetadata>)
        ensures
            r is Some <==> has_path(self@, path@),
            r matches Some(m) ==> m@ == self@[index_of_path(self@, path@)].metadata,
    {
        match self.find(path) {
            Some(i) => Some(&self.entries[i].metadata),
            None => None,
        }
    }

    /// Files an entry under `path`. An entry that was filed under it before
    /// gives way, and the new one takes its place.
    pub fn insert(&mut self, path: String, metadata: FileMetadata)
        ensures
            final(self)@ == with_entry(old(self)@, EntryView { path: path@, metadata: metadata@ }),
    {
        proof {
            use_type_invariant(&*self);
            lemma_with_entry_distinct(self@, EntryView { path: path@, metadata: metadata@ });
        }
        let ghost e = EntryView { path: path@, metadata: metadata@ };
        let ghost goal = with_entry(self@, e);
        let found = self.find(path.as_str());
        // The entries are taken out while they change, so that the tree is
        // sound whenever it is looked at.
        let mut entries: Vec<TreeEntry> = Vec::new();
        core::mem::swap(&mut entries, &mut self.entries);
        match found {
            Some(i) => {
                entries.set(i, TreeEntry { path, metadata });
            },
            None => {
                entries.push(TreeEntry { path, metadata });
            },
        }
        assert(entries@.map_values(|e: TreeEntry| e@) =~= goal);
        self.entries = entries;
    }
}

} // verus!
