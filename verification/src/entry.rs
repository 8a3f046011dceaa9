//! One scanned file or directory.

use crate::rank::{bytes_precede, RankKey};
use std::cmp::Ordering;
use vstd::prelude::*;
use vstd::utf8::*;

verus! {

/// What kind of filesystem object an entry stands for.
#[derive(Debug, Clone, Copy, PartialEq, Eq, Structural)]
pub enum EntryKind {
    File,
    Directory,
}

/// The value of an entry.
pub struct EntryView {
    pub path: Seq<char>,
    pub kind: EntryKind,
    /// All bytes in the object.
    pub total_size: u64,
    /// The total without the largest direct child; for a file, the total.
    pub rank_key: u64,
}

impl EntryView {
    /// What the entry is ranked by.
    pub open spec fn key(self) -> RankKey {
        RankKey { rank: self.rank_key, total: self.total_size, path: encode_utf8(self.path) }
    }

    /// The sizes fit together: nothing is ranked above its total, and a file
    /// is ranked by its total.
    pub open spec fn well_formed(self) -> bool {
        &&& self.rank_key <= self.total_size
        &&& self.kind == EntryKind::File ==> self.rank_key == self.total_size
    }
}

/// The entry of a file of `size` bytes.
pub open spec fn file_entry(path: Seq<char>, size: u64) -> EntryView {
    EntryView { path, kind: EntryKind::File, total_size: size, rank_key: size }
}

/// Two paths are the same exactly if their bytes are.
pub proof fn lemma_path_bytes_injective(a: Seq<char>, b: Seq<char>)
    ensures
        encode_utf8(a) == encode_utf8(b) <==> a == b,
{
    encode_utf8_decode_utf8(a);
    encode_utf8_decode_utf8(b);
}

/// Two entries have the same key exactly if they agree on path and sizes.
pub proof fn lemma_same_key(a: EntryView, b: EntryView)
    ensures
        a.key() == b.key() <==> a.path == b.path && a.total_size == b.total_size && a.rank_key
            == b.rank_key,
{
    lemma_path_bytes_injective(a.path, b.path);
}

/// A sized, ranked record of one file or directory. Its sizes always fit
/// together as `EntryView::well_formed` says.
#[derive(Debug)]
pub struct Entry {
    path: String,
    kind: EntryKind,
    total_size: u64,
    size_excluding_max: u64,
}

impl View for Entry {
    type V = EntryView;

    closed spec fn view(&self) -> EntryView {
        EntryView {
            path: self.path@,
            kind: self.kind,
            total_size: self.total_size,
            rank_key: self.size_excluding_max,
        }
    }
}

/// The values of a run of entries.
pub open spec fn views(entries: Seq<Entry>) -> Seq<EntryView> {
    entries.map_values(|e: Entry| e@)
}

/// The keys of a run of entry values.
pub open spec fn keys(entries: Seq<EntryView>) -> Seq<RankKey> {
    entries.map_values(|e: EntryView| e.key())
}

impl Entry {
    #[verifier::type_invariant]
    spec fn sizes_fit(self) -> bool {
        self@.well_formed()
    }

    /// An entry for `path` with the given sizes; `net_size` is the size
    /// without the largest child.
    pub fn new(path: String, kind: EntryKind, total_size: u64, net_size: u64) -> (entry: Entry)
        requires
            net_size <= total_size,
            kind == EntryKind::File ==> net_size == total_size,
        ensures
            entry@ == (EntryView { path: path@, kind, total_size, rank_key: net_size }),
            entry@.well_formed(),
    {
        Entry { path, kind, total_size, size_excluding_max: net_size }
    }

    /// The total size.
    pub fn size(&self) -> (size: u64)
        ensures
            size == self@.total_size,
    {
        self.total_size
    }

    /// The size the entry is ranked by, never above the total.
    pub fn rank_key(&self) -> (key: u64)
        ensures
            key == self@.rank_key,
            self@.well_formed(),
    {
        proof {
            use_type_invariant(self);
        }
        self.size_excluding_max
    }

    pub fn kind(&self) -> (kind: EntryKind)
        ensures
            kind == self@.kind,
    {
        self.kind
    }

    pub fn path(&self) -> (path: &str)
        ensures
            path@ == self@.path,
    {
        self.path.as_str()
    }

    /// Whether this entry ranks strictly below `other`.
    pub fn ranks_below(&self, other: &Entry) -> (below: bool)
        ensures
            below == self@.key().below(other@.key()),
    {
        if self.size_excluding_max != other.size_excluding_max {
            self.size_excluding_max < other.size_excluding_max
        } else if self.total_size != other.total_size {
            self.total_size < other.total_size
        } else {
            bytes_precede(self.path.as_str().as_bytes(), other.path.as_str().as_bytes())
        }
    }
}

impl Clone for Entry {
    fn clone(&self) -> (copy: Entry)
        ensures
            copy@ == self@,
    {
        proof {
            use_type_invariant(self);
        }
        Entry {
            path: self.path.clone(),
            kind: self.kind,
            total_size: self.total_size,
            size_excluding_max: self.size_excluding_max,
        }
    }
}

impl PartialEq for Entry {
    /// Entries are equal if they have the same key, whatever their kind.
    fn eq(&self, other: &Self) -> (equal: bool) {
        proof {
            lemma_same_key(self@, other@);
        }
        self.size_excluding_max == other.size_excluding_max && self.total_size == other.total_size
            && self.path == other.path
    }
}

impl vstd::std_specs::cmp::PartialEqSpecImpl for Entry {
    open spec fn obeys_eq_spec() -> bool {
        true
    }

    open spec fn eq_spec(&self, other: &Self) -> bool {
        self@.key() == other@.key()
    }
}

impl Eq for Entry {

}

impl PartialOrd for Entry {
    /// Entries are ordered by key.
    fn partial_cmp(&self, other: &Self) -> (order: Option<Ordering>) {
        if self.ranks_below(other) {
            Some(Ordering::Less)
        } else if other.ranks_below(self) {
            Some(Ordering::Greater)
        } else {
            Some(Ordering::Equal)
        }
    }
}

impl vstd::std_specs::cmp::PartialOrdSpecImpl for Entry {
    open spec fn obeys_partial_cmp_spec() -> bool {
        true
    }

    open spec fn partial_cmp_spec(&self, other: &Self) -> Option<Ordering> {
        if self@.key().below(other@.key()) {
            Some(Ordering::Less)
        } else if other@.key().below(self@.key()) {
            Some(Ordering::Greater)
        } else {
            Some(Ordering::Equal)
        }
    }
}

} // verus!
