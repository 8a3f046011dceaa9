//! The scan of one directory: what is done with each child that is listed,
//! the running totals, and what becomes of a failure.
//!
//! A directory's total size is the sum of the sizes of its children; it is
//! ranked by that total without its largest child. Symbolic links and other
//! objects that are neither file nor directory add nothing. A walk feeds a
//! `DirScan` what it finds: each child it lists, the outcome of each
//! subdirectory it has walked, a failure of the listing. The `DirScan` says
//! what to do with a child, and in the end gives the directory's entry or
//! the first failure it was told of.

use crate::entry::{file_entry, Entry, EntryKind, EntryView};
use crate::tree::ScanError;
use vstd::prelude::*;
use vstd::seq_lib::*;

verus! {

/// The sum of `sizes`.
pub open spec fn sum(sizes: Seq<u64>) -> nat
    decreases sizes.len(),
{
    if sizes.len() == 0 {
        0
    } else {
        sum(sizes.drop_last()) + sizes.last() as nat
    }
}

/// The largest of `sizes`, 0 if there is none.
pub open spec fn largest(sizes: Seq<u64>) -> nat
    decreases sizes.len(),
{
    if sizes.len() == 0 {
        0
    } else if largest(sizes.drop_last()) >= sizes.last() {
        largest(sizes.drop_last())
    } else {
        sizes.last() as nat
    }
}

/// The entry of the directory at `path` whose children have the sizes
/// `sizes`: its total is their sum, and it is ranked by the sum without the
/// largest of them.
pub open spec fn dir_entry(path: Seq<char>, sizes: Seq<u64>) -> EntryView {
    EntryView {
        path,
        kind: EntryKind::Directory,
        total_size: sum(sizes) as u64,
        rank_key: (sum(sizes) - largest(sizes)) as u64,
    }
}

/// The largest size is one of the sizes, so it is no more than their sum.
pub proof fn lemma_largest_within_sum(sizes: Seq<u64>)
    ensures
        largest(sizes) <= sum(sizes),
        largest(sizes) <= u64::MAX,
    decreases sizes.len(),
{
    if sizes.len() > 0 {
        lemma_largest_within_sum(sizes.drop_last());
    }
}

/// Where the sizes of a directory's children sum up to a `u64`, its entry
/// is ranked by no more than its total, and it is well-formed.
pub proof fn lemma_dir_entry_bound(path: Seq<char>, sizes: Seq<u64>)
    requires
        sum(sizes) <= u64::MAX,
    ensures
        0 <= dir_entry(path, sizes).rank_key <= dir_entry(path, sizes).total_size,
        dir_entry(path, sizes).total_size == sum(sizes),
        dir_entry(path, sizes).rank_key == sum(sizes) - largest(sizes),
        dir_entry(path, sizes).well_formed(),
{
    lemma_largest_within_sum(sizes);
}

/// What `sum` and `largest` make of one more size.
pub proof fn lemma_push_size(sizes: Seq<u64>, size: u64)
    ensures
        sum(sizes.push(size)) == sum(sizes) + size,
        largest(sizes.push(size)) == if largest(sizes) >= size {
            largest(sizes)
        } else {
            size as nat
        },
{
    assert(sizes.push(size).drop_last() =~= sizes);
}

/// What `sum` and `largest` make of a size put in anywhere.
proof fn lemma_insert_size(sizes: Seq<u64>, at: int, size: u64)
    requires
        0 <= at <= sizes.len(),
    ensures
        sum(sizes.insert(at, size)) == sum(sizes) + size,
        largest(sizes.insert(at, size)) == if largest(sizes) >= size {
            largest(sizes)
        } else {
            size as nat
        },
    decreases sizes.len(),
{
    if at == sizes.len() {
        assert(sizes.insert(at, size) =~= sizes.push(size));
        lemma_push_size(sizes, size);
    } else {
        let front = sizes.drop_last();
        let last = sizes.last();
        lemma_insert_size(front, at, size);
        assert(sizes.insert(at, size) =~= front.insert(at, size).push(last));
        lemma_push_size(front.insert(at, size), last);
    }
}

/// The order in which children are counted does not matter: the same sizes
/// in another order have the same sum and the same largest, so they give the
/// same directory entry.
pub proof fn lemma_sizes_in_any_order(a: Seq<u64>, b: Seq<u64>)
    requires
        a.to_multiset() == b.to_multiset(),
    ensures
        sum(a) == sum(b),
        largest(a) == largest(b),
        forall|path: Seq<char>| dir_entry(path, a) == dir_entry(path, b),
    decreases a.len(),
{
    a.to_multiset_ensures();
    b.to_multiset_ensures();
    if a.len() > 0 {
        let x = a.last();
        assert(a.to_multiset().count(x) > 0);
        let j = choose|j: int| 0 <= j < b.len() && b[j] == x;
        let a1 = a.drop_last();
        let b1 = b.remove(j);
        to_multiset_remove(a, a.len() - 1);
        lemma_sizes_in_any_order(a1, b1);
        assert(b =~= b1.insert(j, x));
        lemma_insert_size(b1, j, x);
    }
}

/// What a listed child of a directory is.
#[derive(Debug, Clone, Copy, PartialEq, Eq, Structural)]
pub enum ChildKind {
    Symlink,
    Directory,
    File,
    /// Neither symbolic link, directory nor regular file.
    Other,
}

/// The kind of a child by what its metadata says. A symbolic link is a
/// symbolic link whatever it points to.
pub open spec fn kind_of(is_symlink: bool, is_dir: bool, is_file: bool) -> ChildKind {
    if is_symlink {
        ChildKind::Symlink
    } else if is_dir {
        ChildKind::Directory
    } else if is_file {
        ChildKind::File
    } else {
        ChildKind::Other
    }
}

/// The kind of a child by what its metadata says.
pub fn classify(is_symlink: bool, is_dir: bool, is_file: bool) -> (kind: ChildKind)
    ensures
        kind == kind_of(is_symlink, is_dir, is_file),
{
    if is_symlink {
        ChildKind::Symlink
    } else if is_dir {
        ChildKind::Directory
    } else if is_file {
        ChildKind::File
    } else {
        ChildKind::Other
    }
}

/// What a walk does next with a child it has listed.
pub enum Step {
    /// Nothing: the child is neither sized nor reported.
    Skip,
    /// Hand the entry of a file to the collector.
    Emit(Entry),
    /// Scan the subdirectory at this path, and count its total once it is
    /// known.
    Descend(String),
}

/// The first of two failures: `earlier` if there is one, else `error`.
pub open spec fn first_failure(earlier: Option<ScanError>, error: ScanError) -> ScanError {
    match earlier {
        Some(first) => first,
        None => error,
    }
}

/// The scan of one directory: the sizes of the children counted so far,
/// their sum, the largest of them, and the first failure met.
pub struct DirScan {
    path: String,
    total_size: u64,
    largest_child: u64,
    failed: Option<ScanError>,
    counted: Ghost<Seq<u64>>,
}

impl DirScan {
    /// The directory's path.
    pub closed spec fn path(&self) -> Seq<char> {
        self.path@
    }

    /// The sizes of the children counted so far, in the order they were
    /// counted.
    pub closed spec fn sizes(&self) -> Seq<u64> {
        self.counted@
    }

    /// The first failure the scan was told of, if any.
    pub closed spec fn failure(&self) -> Option<ScanError> {
        self.failed
    }

    /// The totals are those of the sizes counted.
    pub closed spec fn well_formed(&self) -> bool {
        &&& self.total_size == sum(self.counted@)
        &&& self.largest_child == largest(self.counted@)
    }

    /// The scan of the directory at `path`, with no child counted and no
    /// failure met.
    pub fn new(path: String) -> (scan: DirScan)
        ensures
            scan.well_formed(),
            scan.path() == path@,
            scan.sizes() == Seq::<u64>::empty(),
            scan.failure() is None,
    {
        DirScan {
            path,
            total_size: 0,
            largest_child: 0,
            failed: None,
            counted: Ghost(Seq::empty()),
        }
    }

    /// The sum of the sizes counted so far.
    pub fn total_size(&self) -> (total: u64)
        requires
            self.well_formed(),
        ensures
            total == sum(self.sizes()),
    {
        self.total_size
    }

    /// The first failure the scan was told of, if any.
    pub fn failed(&self) -> (failed: Option<ScanError>)
        ensures
            failed == self.failure(),
    {
        self.failed
    }

    /// Whether a child of `size` bytes can still be counted without the
    /// total leaving the range of `u64`.
    pub fn has_room(&self, size: u64) -> (room: bool)
        requires
            self.well_formed(),
        ensures
            room == (sum(self.sizes()) + size <= u64::MAX),
    {
        size <= u64::MAX - self.total_size
    }

    /// Counts a child of `size` bytes.
    pub fn count(&mut self, size: u64)
        requires
            old(self).well_formed(),
            sum(old(self).sizes()) + size <= u64::MAX,
        ensures
            final(self).well_formed(),
            final(self).path() == old(self).path(),
            final(self).failure() == old(self).failure(),
            final(self).sizes() == old(self).sizes().push(size),
    {
        proof {
            lemma_push_size(self.counted@, size);
        }
        self.total_size = self.total_size + size;
        if size > self.largest_child {
            self.largest_child = size;
        }
        self.counted = Ghost(self.counted@.push(size));
    }

    /// Counts the file at `path` of `size` bytes and gives its entry.
    pub fn add_file(&mut self, path: String, size: u64) -> (entry: Entry)
        requires
            old(self).well_formed(),
            sum(old(self).sizes()) + size <= u64::MAX,
        ensures
            final(self).well_formed(),
            final(self).path() == old(self).path(),
            final(self).failure() == old(self).failure(),
            final(self).sizes() == old(self).sizes().push(size),
            entry@ == file_entry(path@, size),
    {
        let entry = Entry::new(path, EntryKind::File, size, size);
        self.count(entry.size());
        entry
    }

    /// Decides what to do with the listed child at `path`, of the given kind
    /// and length. A file is counted and gets an entry; a subdirectory is to
    /// be scanned; anything else is passed over.
    pub fn visit(&mut self, path: String, kind: ChildKind, size: u64) -> (step: Step)
        requires
            old(self).well_formed(),
            kind == ChildKind::File ==> sum(old(self).sizes()) + size <= u64::MAX,
        ensures
            final(self).well_formed(),
            final(self).path() == old(self).path(),
            final(self).failure() == old(self).failure(),
            match kind {
                ChildKind::File => {
                    &&& step matches Step::Emit(entry)
                    &&& entry@ == file_entry(path@, size)
                    &&& final(self).sizes() == old(self).sizes().push(size)
                },
                ChildKind::Directory => {
                    &&& step matches Step::Descend(subdir)
                    &&& subdir@ == path@
                    &&& final(self).sizes() == old(self).sizes()
                },
                _ => step is Skip && final(self).sizes() == old(self).sizes(),
            },
    {
        match kind {
            ChildKind::File => Step::Emit(self.add_file(path, size)),
            ChildKind::Directory => Step::Descend(path),
            _ => Step::Skip,
        }
    }

    /// Records a failure of the listing. The first failure recorded stays.
    pub fn fail(&mut self, error: ScanError)
        requires
            old(self).well_formed(),
        ensures
            final(self).well_formed(),
            final(self).path() == old(self).path(),
            final(self).sizes() == old(self).sizes(),
            final(self).failure() == Some(first_failure(old(self).failure(), error)),
    {
        if self.failed.is_none() {
            self.failed = Some(error);
        }
    }

    /// Takes in how the walk of a subdirectory ended: its total size is
    /// counted unless a failure was met before, its failure is recorded
    /// unless one was before.
    pub fn join(&mut self, walked: Result<u64, ScanError>)
        requires
            old(self).well_formed(),
            old(self).failure() is None ==> (walked matches Ok(size) ==> sum(old(self).sizes())
                + size <= u64::MAX),
        ensures
            final(self).well_formed(),
            final(self).path() == old(self).path(),
            match walked {
                Ok(size) => {
                    &&& final(self).failure() == old(self).failure()
                    &&& final(self).sizes() == if old(self).failure() is None {
                        old(self).sizes().push(size)
                    } else {
                        old(self).sizes()
                    }
                },
                Err(error) => {
                    &&& final(self).failure() == Some(first_failure(old(self).failure(), error))
                    &&& final(self).sizes() == old(self).sizes()
                },
            },
    {
        match walked {
            Ok(size) => {
                if self.failed.is_none() {
                    self.count(size);
                }
            },
            Err(error) => self.fail(error),
        }
    }

    /// Ends the scan once every child is dealt with: the directory's own
    /// entry, or the first failure met.
    pub fn finish(self) -> (ended: Result<Entry, ScanError>)
        requires
            self.well_formed(),
        ensures
            match self.failure() {
                Some(error) => ended == Err::<Entry, ScanError>(error),
                None => {
                    &&& ended matches Ok(entry)
                    &&& entry@ == dir_entry(self.path(), self.sizes())
                    &&& entry@.total_size == sum(self.sizes())
                    &&& entry@.rank_key == sum(self.sizes()) - largest(self.sizes())
                },
            },
    {
        proof {
            lemma_largest_within_sum(self.counted@);
        }
        match self.failed {
            Some(error) => Err(error),
            None => Ok(
                Entry::new(
                    self.path,
                    EntryKind::Directory,
                    self.total_size,
                    self.total_size - self.largest_child,
                ),
            ),
        }
    }
}

} // verus!
