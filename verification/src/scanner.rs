//! The two walks over a listed tree.
//!
//! Both visit every object below a directory, hand one entry for each file
//! and each directory to a collector, and give the directory's total size.
//! The sequential walk goes depth first: what is below a subdirectory comes
//! before the next child. The fork-join walk deals with the files of a
//! directory while it lists it, and only then with its subdirectories.
//! Symbolic links are passed over. A walk fails where something cannot be
//! read; what it handed over before stays with the collector.

use crate::collector::{is_top, Collector, VecCollector};
use crate::dir_scan::{dir_entry, lemma_push_size, DirScan, Step};
use crate::entry::{file_entry, views, Entry, EntryView};
use crate::tree::{
    child_sizes, dir_sizes, file_sizes, forest_size, lemma_child_sizes_sum,
    lemma_forest_size_grows, lemma_sizes_by_kind, lemma_sum_concat, tree_size, Node, ScanError,
};
use vstd::prelude::*;

verus! {

/// The failure that stops a sequential walk within the first `n` of
/// `nodes`, if there is one: the first it meets, depth first.
pub open spec fn stops(nodes: Seq<Node>, n: int) -> Option<ScanError>
    decreases nodes, n,
{
    if n <= 0 || n > nodes.len() {
        None
    } else {
        match stops(nodes, n - 1) {
            Some(error) => Some(error),
            None => child_stops(nodes[n - 1]),
        }
    }
}

/// The failure that stops a sequential walk at or below the child `node`.
pub open spec fn child_stops(node: Node) -> Option<ScanError>
    decreases node, 0nat,
{
    match node {
        Node::Unreadable { error, .. } => Some(error),
        Node::Directory { children, .. } => stops(children@, children@.len() as int),
        _ => None,
    }
}

/// What a sequential walk hands over for the first `n` of `nodes`, in
/// order, up to where it stops.
pub open spec fn emitted(nodes: Seq<Node>, n: int) -> Seq<EntryView>
    decreases nodes, n,
{
    if n <= 0 || n > nodes.len() {
        Seq::empty()
    } else if stops(nodes, n - 1) is Some {
        emitted(nodes, n - 1)
    } else {
        emitted(nodes, n - 1) + child_emitted(nodes[n - 1])
    }
}

/// What a sequential walk hands over for the child `node`: the entry of a
/// file; for a directory what is below it and then, unless the walk
/// stopped, its own entry; nothing for anything else.
pub open spec fn child_emitted(node: Node) -> Seq<EntryView>
    decreases node, 0nat,
{
    match node {
        Node::File { path, size } => seq![file_entry(path@, size)],
        Node::Directory { path, children } => {
            let below = emitted(children@, children@.len() as int);
            if stops(children@, children@.len() as int) is None {
                below.push(dir_entry(path@, child_sizes(children@, children@.len() as int)))
            } else {
                below
            }
        },
        _ => Seq::empty(),
    }
}

/// What the sequential walk of `root` gives: the bytes below a directory
/// that can be read throughout, else the failure. Only a directory can be
/// walked.
pub open spec fn walk_result(root: Node) -> Result<u64, ScanError> {
    match root {
        Node::Directory { children, .. } => match stops(children@, children@.len() as int) {
            Some(error) => Err(error),
            None => Ok(tree_size(root) as u64),
        },
        Node::Unreadable { error, .. } => Err(error),
        _ => Err(ScanError::NotAccessible),
    }
}

/// What the sequential walk of `root` hands over, in order.
pub open spec fn walk_emitted(root: Node) -> Seq<EntryView> {
    match root {
        Node::Directory { .. } => child_emitted(root),
        _ => Seq::empty(),
    }
}

/// Once a sequential walk has stopped, nothing more happens.
pub proof fn lemma_stopped(nodes: Seq<Node>, i: int, n: int)
    requires
        0 <= i <= n <= nodes.len(),
        stops(nodes, i) is Some,
    ensures
        stops(nodes, n) == stops(nodes, i),
        emitted(nodes, n) == emitted(nodes, i),
    decreases n - i,
{
    if i < n {
        lemma_stopped(nodes, i, n - 1);
    }
}

/// Walks the directory `node` depth first, hands the entries to
/// `collector`, and gives the directory's total size.
pub fn scan_dir_sync<C: Collector>(node: &Node, collector: &mut C) -> (result: Result<
    u64,
    ScanError,
>)
    requires
        old(collector).well_formed(),
        tree_size(*node) <= u64::MAX,
    ensures
        final(collector).well_formed(),
        result == walk_result(*node),
        final(collector).inserted() == old(collector).inserted() + walk_emitted(*node),
    decreases node,
{
    match node {
        Node::Directory { path, children } => {
            let mut dir = DirScan::new(path.clone());
            let ghost nodes = children@;
            let ghost start = collector.inserted();
            let mut i: usize = 0;
            while i < children.len()
                invariant
                    i <= children.len(),
                    nodes == children@,
                    start == old(collector).inserted(),
                    *node == (Node::Directory { path: *path, children: *children }),
                    forest_size(nodes, nodes.len() as int) <= u64::MAX,
                    dir.well_formed(),
                    dir.path() == path@,
                    dir.failure() is None,
                    dir.sizes() == child_sizes(nodes, i as int),
                    stops(nodes, i as int) is None,
                    collector.well_formed(),
                    collector.inserted() == start + emitted(nodes, i as int),
                decreases children.len() - i,
            {
                let ghost so_far = emitted(nodes, i as int);
                proof {
                    lemma_forest_size_grows(nodes, i as int, nodes.len() as int);
                    lemma_child_sizes_sum(nodes, i as int);
                }
                let child = &children[i];
                let (kind, size) = match child.metadata() {
                    Ok(metadata) => metadata,
                    Err(error) => {
                        proof {
                            lemma_stopped(nodes, i + 1, nodes.len() as int);
                            assert(so_far + child_emitted(*child) =~= so_far);
                        }
                        return Err(error);
                    },
                };
                match dir.visit(child.path().clone(), kind, size) {
                    Step::Skip => {
                        assert(so_far + child_emitted(*child) =~= so_far);
                    },
                    Step::Emit(entry) => collector.insert(entry),
                    Step::Descend(_) => {
                        assert(node->children == *children);
                        match scan_dir_sync(child, collector) {
                            Ok(size) => {
                                dir.count(size);
                                assert(start + (so_far + child_emitted(*child)) =~= (start
                                    + so_far) + child_emitted(*child));
                            },
                            Err(error) => {
                                proof {
                                    assert(child_stops(*child) == Some(error));
                                    lemma_stopped(nodes, i + 1, nodes.len() as int);
                                }
                                return Err(error);
                            },
                        }
                    },
                }
                i += 1;
            }
            proof {
                lemma_child_sizes_sum(nodes, nodes.len() as int);
            }
            match dir.finish() {
                Ok(own) => {
                    let total = own.size();
                    collector.insert(own);
                    Ok(total)
                },
                Err(error) => Err(error),
            }
        },
        Node::Unreadable { error, .. } => Err(*error),
        _ => Err(ScanError::NotAccessible),
    }
}

/// How many of the first `n` of `nodes` a listing gets to: it ends in front
/// of the first that cannot be read.
pub open spec fn listed(nodes: Seq<Node>, n: int) -> int
    decreases n,
{
    if n <= 0 || n > nodes.len() {
        0
    } else if listed(nodes, n - 1) < n - 1 || nodes[n - 1] is Unreadable {
        listed(nodes, n - 1)
    } else {
        n
    }
}

/// The entries of the files among the first `n` of `nodes`, in their order.
pub open spec fn files(nodes: Seq<Node>, n: int) -> Seq<EntryView>
    decreases n,
{
    if n <= 0 || n > nodes.len() {
        Seq::empty()
    } else {
        match nodes[n - 1] {
            Node::File { path, size } => files(nodes, n - 1).push(file_entry(path@, size)),
            _ => files(nodes, n - 1),
        }
    }
}

/// What the fork-join walks of the directories among the first `n` of
/// `nodes` hand over, one directory after the other.
pub open spec fn joined(nodes: Seq<Node>, n: int) -> Seq<EntryView>
    decreases nodes, n,
{
    if n <= 0 || n > nodes.len() {
        Seq::empty()
    } else {
        match nodes[n - 1] {
            Node::Directory { .. } => joined(nodes, n - 1) + fork_emitted(nodes[n - 1]),
            _ => joined(nodes, n - 1),
        }
    }
}

/// The failure of the first directory among the first `n` of `nodes` whose
/// fork-join walk fails, if there is one.
pub open spec fn joined_stops(nodes: Seq<Node>, n: int) -> Option<ScanError>
    decreases nodes, n,
{
    if n <= 0 || n > nodes.len() {
        None
    } else {
        match joined_stops(nodes, n - 1) {
            Some(error) => Some(error),
            None => match nodes[n - 1] {
                Node::Directory { .. } => fork_stops(nodes[n - 1]),
                _ => None,
            },
        }
    }
}

/// The failure of the fork-join walk of `node`, if it fails: where a child
/// cannot be read, that failure; else the failure of the first subdirectory
/// whose walk fails.
pub open spec fn fork_stops(node: Node) -> Option<ScanError>
    decreases node, 0nat,
{
    match node {
        Node::Directory { children, .. } => {
            let end = listed(children@, children@.len() as int);
            if end < children@.len() {
                match children@[end] {
                    Node::Unreadable { error, .. } => Some(error),
                    _ => None,
                }
            } else {
                joined_stops(children@, children@.len() as int)
            }
        },
        Node::Unreadable { error, .. } => Some(error),
        _ => None,
    }
}

/// What the fork-join walk of `node` hands over, in order: the entries of
/// the files it lists, then what the subdirectories it lists hand over,
/// each walked to its end whether or not another failed, then, unless the
/// walk failed, the directory's own entry.
pub open spec fn fork_emitted(node: Node) -> Seq<EntryView>
    decreases node, 0nat,
{
    match node {
        Node::Directory { path, children } => {
            let end = listed(children@, children@.len() as int);
            let below = files(children@, end) + joined(children@, end);
            if fork_stops(node) is None {
                below.push(dir_entry(path@, file_sizes(children@, end) + dir_sizes(children@, end)))
            } else {
                below
            }
        },
        _ => Seq::empty(),
    }
}

/// What the fork-join walk of `root` gives: the bytes below a directory
/// that can be read throughout, else the failure.
pub open spec fn fork_result(root: Node) -> Result<u64, ScanError> {
    match root {
        Node::Directory { .. } => match fork_stops(root) {
            Some(error) => Err(error),
            None => Ok(tree_size(root) as u64),
        },
        Node::Unreadable { error, .. } => Err(error),
        _ => Err(ScanError::NotAccessible),
    }
}

/// A listing that got past `end` readable children, and either reached the
/// `n`-th or met an unreadable one, got to `end`.
pub proof fn lemma_listed(nodes: Seq<Node>, n: int, end: int)
    requires
        0 <= end <= n <= nodes.len(),
        forall|j: int| 0 <= j < end ==> !(#[trigger] nodes[j] is Unreadable),
        end < n ==> nodes[end] is Unreadable,
    ensures
        listed(nodes, n) == end,
    decreases n,
{
    if n > end {
        lemma_listed(nodes, n - 1, end);
    } else if n > 0 {
        lemma_listed(nodes, n - 1, n - 1);
    }
}

/// Walks the directory `node` the fork-join way, hands the entries to
/// `collector`, and gives the directory's total size.
pub fn scan_dir<C: Collector>(node: &Node, collector: &mut C) -> (result: Result<u64, ScanError>)
    requires
        old(collector).well_formed(),
        tree_size(*node) <= u64::MAX,
    ensures
        final(collector).well_formed(),
        result == fork_result(*node),
        final(collector).inserted() == old(collector).inserted() + fork_emitted(*node),
    decreases node,
{
    match node {
        Node::Directory { path, children } => {
            let mut dir = DirScan::new(path.clone());
            let ghost nodes = children@;
            let ghost start = collector.inserted();
            let ghost len = nodes.len() as int;
            // the listing: files are dealt with at once, subdirectories wait
            let mut end: usize = 0;
            while end < children.len()
                invariant_except_break
                    dir.failure() is None,
                invariant
                    end <= children.len(),
                    nodes == children@,
                    len == nodes.len(),
                    start == old(collector).inserted(),
                    forest_size(nodes, len) <= u64::MAX,
                    dir.well_formed(),
                    dir.path() == path@,
                    dir.sizes() == file_sizes(nodes, end as int),
                    forall|j: int| 0 <= j < end ==> !(#[trigger] nodes[j] is Unreadable),
                    collector.well_formed(),
                    collector.inserted() == start + files(nodes, end as int),
                ensures
                    end < len ==> (nodes[end as int] matches Node::Unreadable { error, .. }
                        && dir.failure() == Some(error)),
                    end == len ==> dir.failure() is None,
                decreases children.len() - end,
            {
                let child = &children[end];
                let (kind, size) = match child.metadata() {
                    Ok(metadata) => metadata,
                    Err(error) => {
                        dir.fail(error);
                        break ;
                    },
                };
                proof {
                    if child is File {
                        lemma_sizes_by_kind(nodes, end + 1, len);
                        lemma_push_size(file_sizes(nodes, end as int), size);
                    }
                }
                match dir.visit(child.path().clone(), kind, size) {
                    Step::Emit(entry) => collector.insert(entry),
                    // a subdirectory is walked once the listing is over
                    Step::Descend(_) => {},
                    Step::Skip => {},
                }
                end += 1;
            }
            proof {
                lemma_listed(nodes, len, end as int);
            }
            // the join: every subdirectory listed is walked to its end
            let ghost listing = dir.failure();
            let mut j: usize = 0;
            while j < end
                invariant
                    j <= end <= children.len(),
                    nodes == children@,
                    len == nodes.len(),
                    start == old(collector).inserted(),
                    node is Directory,
                    node->children == *children,
                    forest_size(nodes, len) <= u64::MAX,
                    listing is Some <==> end < len,
                    dir.failure() == if listing is Some {
                        listing
                    } else {
                        joined_stops(nodes, j as int)
                    },
                    dir.well_formed(),
                    dir.path() == path@,
                    dir.failure() is None ==> dir.sizes() == file_sizes(nodes, end as int)
                        + dir_sizes(nodes, j as int),
                    collector.well_formed(),
                    collector.inserted() == (start + files(nodes, end as int)) + joined(
                        nodes,
                        j as int,
                    ),
                decreases end - j,
            {
                let child = &children[j];
                match child {
                    Node::Directory { .. } => {
                        proof {
                            lemma_forest_size_grows(nodes, j as int, len);
                        }
                        let walked = scan_dir(child, collector);
                        proof {
                            if dir.failure() is None && walked is Ok {
                                let size = walked->Ok_0;
                                lemma_sizes_by_kind(nodes, j + 1, len);
                                lemma_sum_concat(
                                    file_sizes(nodes, end as int),
                                    dir_sizes(nodes, j as int),
                                );
                                lemma_push_size(dir_sizes(nodes, j as int), size);
                            }
                        }
                        dir.join(walked);
                    },
                    _ => {},
                }
                j += 1;
            }
            proof {
                if dir.failure() is None {
                    lemma_sizes_by_kind(nodes, len, len);
                    lemma_sum_concat(file_sizes(nodes, len), dir_sizes(nodes, len));
                }
            }
            match dir.finish() {
                Ok(own) => {
                    let total = own.size();
                    collector.insert(own);
                    Ok(total)
                },
                Err(error) => Err(error),
            }
        },
        Node::Unreadable { error, .. } => Err(*error),
        _ => Err(ScanError::NotAccessible),
    }
}

/// Scans the listed tree `root` depth first and reports its highest-ranked
/// entries.
pub fn scan_sync(root: &Node) -> (result: Result<Vec<Entry>, ScanError>)
    requires
        tree_size(*root) <= u64::MAX,
    ensures
        match result {
            Ok(top) => walk_result(*root) is Ok && is_top(views(top@), walk_emitted(*root)),
            Err(error) => walk_result(*root) == Err::<u64, ScanError>(error),
        },
{
    let mut collector = VecCollector::new();
    match scan_dir_sync(root, &mut collector) {
        Ok(_) => Ok(collector.collect()),
        Err(error) => Err(error),
    }
}

/// Scans the listed tree `root` the fork-join way and reports its
/// highest-ranked entries.
pub fn scan(root: &Node) -> (result: Result<Vec<Entry>, ScanError>)
    requires
        tree_size(*root) <= u64::MAX,
    ensures
        match result {
            Ok(top) => fork_result(*root) is Ok && is_top(views(top@), fork_emitted(*root)),
            Err(error) => fork_result(*root) == Err::<u64, ScanError>(error),
        },
{
    let mut collector = VecCollector::new();
    match scan_dir(root, &mut collector) {
        Ok(_) => Ok(collector.collect()),
        Err(error) => Err(error),
    }
}

} // verus!
