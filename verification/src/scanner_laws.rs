//! What holds of the two walks over a listed tree: sizes are conserved, no
//! entry is ranked by more than its total, and the walks agree with each
//! other.

use crate::collector::{is_top, lemma_order_invariance};
use crate::dir_scan::{dir_entry, lemma_dir_entry_bound, lemma_sizes_in_any_order, sum};
use crate::entry::{file_entry, keys, EntryView};
use crate::scanner::{
    child_emitted, child_stops, emitted, files, fork_emitted, fork_result, fork_stops, joined,
    joined_stops, listed, stops, walk_emitted, walk_result,
};
use crate::tree::{
    child_sizes, dir_sizes, file_sizes, forest_size, lemma_child_sizes_sum,
    lemma_forest_size_grows, lemma_sizes_by_kind, lemma_sum_concat, tree_size, Node,
};
use vstd::prelude::*;
use vstd::seq_lib::*;

verus! {

/// The entry a walk hands over for `node` itself: a file and a directory
/// have one, nothing else has.
pub open spec fn own_entry(node: Node) -> Option<EntryView> {
    match node {
        Node::File { path, size } => Some(file_entry(path@, size)),
        Node::Directory { path, children } => Some(
            dir_entry(path@, child_sizes(children@, children@.len() as int)),
        ),
        _ => None,
    }
}

/// What `node` adds to the total size of the directory it is in: the total
/// size in its own entry, or 0 if it has none.
pub open spec fn counts_for(node: Node) -> nat {
    match own_entry(node) {
        Some(entry) => entry.total_size as nat,
        None => 0,
    }
}

/// Sizes are conserved: the total size in a directory's entry is the sum of
/// what its children add. A file or a directory among them adds the total
/// size in its own entry; a symbolic link, or anything else, adds 0.
pub proof fn lemma_size_conservation(node: Node)
    requires
        node is Directory,
        tree_size(node) <= u64::MAX,
    ensures
        counts_for(node) == tree_size(node),
        counts_for(node) == sum(child_sizes(node->children@, node->children@.len() as int)),
        tree_size(node) == forest_size(node->children@, node->children@.len() as int),
        forall|i: int|
            0 <= i < node->children@.len() ==> tree_size(#[trigger] node->children@[i])
                == counts_for(node->children@[i]),
{
    let nodes = node->children@;
    lemma_child_sizes_sum(nodes, nodes.len() as int);
    assert forall|i: int| 0 <= i < nodes.len() implies tree_size(#[trigger] nodes[i])
        == counts_for(nodes[i]) by {
        lemma_forest_size_grows(nodes, i, nodes.len() as int);
        let child = nodes[i];
        match child {
            Node::File { size, .. } => {
                assert(tree_size(child) == size);
            },
            Node::Directory { children, .. } => {
                lemma_child_sizes_sum(children@, children@.len() as int);
            },
            Node::Symlink { .. } => {
                assert(tree_size(child) == 0);
            },
            Node::Other { .. } => {
                assert(tree_size(child) == 0);
            },
            Node::Unreadable { .. } => {
                assert(tree_size(child) == 0);
            },
        }
    }
}

/// In what a sequential walk hands over for the first `n` of `nodes`, no
/// entry is ranked by more than its total size.
pub proof fn lemma_emitted_well_formed(nodes: Seq<Node>, n: int)
    requires
        0 <= n <= nodes.len(),
        forest_size(nodes, n) <= u64::MAX,
    ensures
        forall|i: int|
            0 <= i < emitted(nodes, n).len() ==> (#[trigger] emitted(nodes, n)[i]).well_formed(),
    decreases nodes, n,
{
    if n > 0 {
        lemma_emitted_well_formed(nodes, n - 1);
        if stops(nodes, n - 1) is None {
            lemma_forest_size_grows(nodes, n - 1, n);
            lemma_child_emitted_well_formed(nodes[n - 1]);
            let front = emitted(nodes, n - 1);
            let back = child_emitted(nodes[n - 1]);
            assert forall|i: int| 0 <= i < emitted(nodes, n).len() implies (#[trigger] emitted(
                nodes,
                n,
            )[i]).well_formed() by {
                if i < front.len() {
                    assert(emitted(nodes, n)[i] == front[i]);
                } else {
                    assert(emitted(nodes, n)[i] == back[i - front.len()]);
                }
            }
        } else {
            assert(emitted(nodes, n) == emitted(nodes, n - 1));
        }
    } else {
        assert(emitted(nodes, n).len() == 0);
    }
}

/// In what a sequential walk hands over for `node`, no entry is ranked by
/// more than its total size: `0 <= rank_key <= total_size`, for a directory
/// as for a file.
pub proof fn lemma_child_emitted_well_formed(node: Node)
    requires
        tree_size(node) <= u64::MAX,
    ensures
        forall|i: int|
            0 <= i < child_emitted(node).len() ==> (#[trigger] child_emitted(
                node,
            )[i]).well_formed(),
    decreases node, 0nat,
{
    match node {
        Node::Directory { path, children } => {
            let len = children@.len() as int;
            lemma_emitted_well_formed(children@, len);
            lemma_child_sizes_sum(children@, len);
            lemma_dir_entry_bound(path@, child_sizes(children@, len));
            let below = emitted(children@, len);
            assert forall|i: int| 0 <= i < child_emitted(node).len() implies (
            #[trigger] child_emitted(node)[i]).well_formed() by {
                if i < below.len() {
                    assert(child_emitted(node)[i] == below[i]);
                }
            }
        },
        Node::File { path, size } => {
            assert(child_emitted(node)[0] == file_entry(path@, size));
        },
        _ => {},
    }
}

/// In what the fork-join walks of the directories among the first `n` of
/// `nodes` hand over, no entry is ranked by more than its total size.
pub proof fn lemma_joined_well_formed(nodes: Seq<Node>, n: int)
    requires
        0 <= n <= nodes.len(),
        forest_size(nodes, n) <= u64::MAX,
    ensures
        forall|i: int|
            0 <= i < joined(nodes, n).len() ==> (#[trigger] joined(nodes, n)[i]).well_formed(),
        forall|i: int|
            0 <= i < files(nodes, n).len() ==> (#[trigger] files(nodes, n)[i]).well_formed(),
    decreases nodes, n,
{
    if n > 0 {
        lemma_forest_size_grows(nodes, n - 1, n);
        lemma_joined_well_formed(nodes, n - 1);
        let last = nodes[n - 1];
        match last {
            Node::Directory { .. } => {
                lemma_fork_emitted_well_formed(last);
                let front = joined(nodes, n - 1);
                let back = fork_emitted(last);
                assert forall|i: int| 0 <= i < joined(nodes, n).len() implies (#[trigger] joined(
                    nodes,
                    n,
                )[i]).well_formed() by {
                    if i < front.len() {
                        assert(joined(nodes, n)[i] == front[i]);
                    } else {
                        assert(joined(nodes, n)[i] == back[i - front.len()]);
                    }
                }
                assert(files(nodes, n) == files(nodes, n - 1));
            },
            Node::File { path, size } => {
                let front = files(nodes, n - 1);
                assert forall|i: int| 0 <= i < files(nodes, n).len() implies (#[trigger] files(
                    nodes,
                    n,
                )[i]).well_formed() by {
                    if i < front.len() {
                        assert(files(nodes, n)[i] == front[i]);
                    } else {
                        assert(files(nodes, n)[i] == file_entry(path@, size));
                    }
                }
                assert(joined(nodes, n) == joined(nodes, n - 1));
            },
            _ => {
                assert(files(nodes, n) == files(nodes, n - 1));
                assert(joined(nodes, n) == joined(nodes, n - 1));
            },
        }
    } else {
        assert(files(nodes, n).len() == 0);
        assert(joined(nodes, n).len() == 0);
    }
}

/// In what a fork-join walk hands over for `node`, no entry is ranked by
/// more than its total size.
pub proof fn lemma_fork_emitted_well_formed(node: Node)
    requires
        tree_size(node) <= u64::MAX,
    ensures
        forall|i: int|
            0 <= i < fork_emitted(node).len() ==> (#[trigger] fork_emitted(node)[i]).well_formed(),
    decreases node, 0nat,
{
    match node {
        Node::Directory { path, children } => {
            let nodes = children@;
            let len = nodes.len() as int;
            lemma_listed_end(nodes, len);
            let end = listed(nodes, len);
            lemma_forest_size_grows(nodes, end, len);
            lemma_joined_well_formed(nodes, end);
            lemma_sizes_by_kind(nodes, end, end);
            lemma_sum_concat(file_sizes(nodes, end), dir_sizes(nodes, end));
            lemma_dir_entry_bound(path@, file_sizes(nodes, end) + dir_sizes(nodes, end));
            let front = files(nodes, end);
            let back = joined(nodes, end);
            assert forall|i: int| 0 <= i < fork_emitted(node).len() implies (
            #[trigger] fork_emitted(node)[i]).well_formed() by {
                if i < front.len() {
                    assert(fork_emitted(node)[i] == front[i]);
                } else if i < front.len() + back.len() {
                    assert(fork_emitted(node)[i] == back[i - front.len()]);
                }
            }
        },
        _ => {},
    }
}

/// The sizes of the children that count are the lengths of the files and
/// the sizes of the directories, in another order.
pub proof fn lemma_child_sizes_by_kind(nodes: Seq<Node>, n: int)
    requires
        0 <= n <= nodes.len(),
    ensures
        child_sizes(nodes, n).to_multiset() == (file_sizes(nodes, n) + dir_sizes(
            nodes,
            n,
        )).to_multiset(),
    decreases n,
{
    if n > 0 {
        lemma_child_sizes_by_kind(nodes, n - 1);
        let c = child_sizes(nodes, n - 1);
        let f = file_sizes(nodes, n - 1);
        let d = dir_sizes(nodes, n - 1);
        lemma_multiset_commutative(f, d);
        match nodes[n - 1] {
            Node::File { size, .. } => {
                lemma_multiset_commutative(f.push(size), d);
                to_multiset_build(c, size);
                to_multiset_build(f, size);
                assert(f.push(size).to_multiset().add(d.to_multiset()) =~= f.to_multiset().add(
                    d.to_multiset(),
                ).insert(size));
            },
            Node::Directory { .. } => {
                let size = tree_size(nodes[n - 1]) as u64;
                assert(f + d.push(size) =~= (f + d).push(size));
                to_multiset_build(c, size);
                to_multiset_build(f + d, size);
            },
            _ => {},
        }
    } else {
        assert(file_sizes(nodes, n) + dir_sizes(nodes, n) =~= child_sizes(nodes, n));
    }
}

/// Where the sequential walk gets through the first `n` of `nodes`, so does
/// the fork-join walk, and it hands over the same entries.
pub proof fn lemma_children_agree(nodes: Seq<Node>, n: int)
    requires
        0 <= n <= nodes.len(),
        stops(nodes, n) is None,
    ensures
        listed(nodes, n) == n,
        joined_stops(nodes, n) is None,
        emitted(nodes, n).to_multiset() == (files(nodes, n) + joined(nodes, n)).to_multiset(),
    decreases nodes, n,
{
    if n > 0 {
        lemma_children_agree(nodes, n - 1);
        let last = nodes[n - 1];
        let e = emitted(nodes, n - 1);
        let f = files(nodes, n - 1);
        let j = joined(nodes, n - 1);
        lemma_multiset_commutative(f, j);
        match last {
            Node::File { path, size } => {
                let entry = file_entry(path@, size);
                assert(e + child_emitted(last) =~= e.push(entry));
                to_multiset_build(e, entry);
                to_multiset_build(f, entry);
                lemma_multiset_commutative(f.push(entry), j);
                assert(f.push(entry).to_multiset().add(j.to_multiset()) =~= f.to_multiset().add(
                    j.to_multiset(),
                ).insert(entry));
            },
            Node::Directory { .. } => {
                lemma_child_agrees(last);
                lemma_multiset_commutative(e, child_emitted(last));
                lemma_multiset_commutative(j, fork_emitted(last));
                lemma_multiset_commutative(f, j + fork_emitted(last));
                assert(f.to_multiset().add(j.to_multiset().add(fork_emitted(last).to_multiset()))
                    =~= f.to_multiset().add(j.to_multiset()).add(
                    fork_emitted(last).to_multiset(),
                ));
            },
            Node::Symlink { .. } => {
                assert(e + child_emitted(last) =~= e);
            },
            Node::Other { .. } => {
                assert(e + child_emitted(last) =~= e);
            },
            Node::Unreadable { .. } => {},
        }
    } else {
        assert(files(nodes, n) + joined(nodes, n) =~= emitted(nodes, n));
    }
}

/// Where the sequential walk of the directory `node` succeeds, so does the
/// fork-join walk, and it hands over the same entries.
pub proof fn lemma_child_agrees(node: Node)
    requires
        node is Directory,
        child_stops(node) is None,
    ensures
        fork_stops(node) is None,
        child_emitted(node).to_multiset() == fork_emitted(node).to_multiset(),
    decreases node, 0nat,
{
    let nodes = node->children@;
    let len = nodes.len() as int;
    lemma_children_agree(nodes, len);
    lemma_child_sizes_by_kind(nodes, len);
    let by_kind = file_sizes(nodes, len) + dir_sizes(nodes, len);
    lemma_sizes_in_any_order(child_sizes(nodes, len), by_kind);
    let own = dir_entry(node->Directory_path@, child_sizes(nodes, len));
    assert(own == dir_entry(node->Directory_path@, by_kind));
    to_multiset_build(emitted(nodes, len), own);
    to_multiset_build(files(nodes, len) + joined(nodes, len), own);
}

/// Where a listing ends: within the `n` nodes, behind readable ones, and in
/// front of an unreadable one unless it got through.
pub proof fn lemma_listed_end(nodes: Seq<Node>, n: int)
    requires
        0 <= n <= nodes.len(),
    ensures
        0 <= listed(nodes, n) <= n,
        listed(nodes, n) < n ==> nodes[listed(nodes, n)] is Unreadable,
        forall|j: int| 0 <= j < listed(nodes, n) ==> !(#[trigger] nodes[j] is Unreadable),
    decreases n,
{
    if n > 0 {
        lemma_listed_end(nodes, n - 1);
    }
}

/// Where the sequential walk stops within the first `n` of `nodes`, the
/// fork-join walk fails too: its listing ends early, or a subdirectory
/// fails.
pub proof fn lemma_children_fail(nodes: Seq<Node>, n: int)
    requires
        0 <= n <= nodes.len(),
        stops(nodes, n) is Some,
    ensures
        listed(nodes, n) < n || joined_stops(nodes, n) is Some,
    decreases nodes, n,
{
    if n > 0 {
        lemma_listed_end(nodes, n - 1);
        let last = nodes[n - 1];
        if stops(nodes, n - 1) is Some {
            lemma_children_fail(nodes, n - 1);
        } else {
            assert(child_stops(last) is Some);
            match last {
                Node::Directory { .. } => {
                    lemma_child_fails(last);
                },
                Node::Unreadable { .. } => {},
                Node::File { .. } => {},
                Node::Symlink { .. } => {},
                Node::Other { .. } => {},
            }
        }
    }
}

/// Where the sequential walk of the directory `node` fails, so does the
/// fork-join walk.
pub proof fn lemma_child_fails(node: Node)
    requires
        node is Directory,
        child_stops(node) is Some,
    ensures
        fork_stops(node) is Some,
    decreases node, 0nat,
{
    let nodes = node->children@;
    lemma_children_fail(nodes, nodes.len() as int);
    lemma_listed_end(nodes, nodes.len() as int);
}

/// The two walks of a listed tree succeed on the same trees. Where they
/// succeed they give the same total size and hand over the same entries,
/// each as often, in another order.
pub proof fn lemma_walks_agree(root: Node)
    ensures
        walk_result(root) is Ok <==> fork_result(root) is Ok,
        walk_result(root) is Ok ==> fork_result(root) == walk_result(root),
        walk_result(root) is Ok ==> walk_emitted(root).to_multiset() == fork_emitted(
            root,
        ).to_multiset(),
{
    if root is Directory {
        if child_stops(root) is None {
            lemma_child_agrees(root);
        } else {
            lemma_child_fails(root);
        }
    }
}

/// Where the walks of a listed tree succeed, the order in which entries
/// reach the collector does not matter: a report on what the fork-join walk
/// hands over, in whatever order its parts come in, has the same keys in
/// the same places as a report on what the sequential walk hands over.
pub proof fn lemma_walks_report_alike(
    root: Node,
    handed_over: Seq<EntryView>,
    top_walk: Seq<EntryView>,
    top_fork: Seq<EntryView>,
)
    requires
        walk_result(root) is Ok,
        handed_over.to_multiset() == fork_emitted(root).to_multiset(),
        is_top(top_walk, walk_emitted(root)),
        is_top(top_fork, handed_over),
    ensures
        keys(top_walk) == keys(top_fork),
{
    lemma_walks_agree(root);
    lemma_order_invariance(walk_emitted(root), handed_over, top_walk, top_fork);
}

} // verus!
