//! A listed directory tree: what listing a directory and reading the
//! metadata of its children gave, kept as plain values.

use crate::dir_scan::{lemma_push_size, sum, ChildKind};
use vstd::prelude::*;

verus! {

/// Why a scan fails.
#[derive(Debug, Clone, Copy, PartialEq, Eq, Structural)]
pub enum ScanError {
    /// A directory or its metadata could not be read.
    NotAccessible,
    /// An entry was gone between listing and reading its metadata.
    VanishedEntry,
    /// A concurrent part of the scan failed or was stopped.
    TaskFailure,
}

/// One object of a listed tree.
#[derive(Debug)]
pub enum Node {
    /// A regular file and its length.
    File { path: String, size: u64 },
    /// A symbolic link. It is not followed.
    Symlink { path: String },
    /// Something that is neither symbolic link, directory nor regular file.
    Other { path: String },
    /// A directory and its children in the order they were listed.
    Directory { path: String, children: Vec<Node> },
    /// An object that could not be listed or whose metadata could not be
    /// read.
    Unreadable { path: String, error: ScanError },
}

impl Node {
    /// The path of the node.
    pub open spec fn path_of(self) -> Seq<char> {
        match self {
            Node::File { path, .. } => path@,
            Node::Symlink { path } => path@,
            Node::Other { path } => path@,
            Node::Directory { path, .. } => path@,
            Node::Unreadable { path, .. } => path@,
        }
    }

    /// What reading the metadata of the node gives: its kind and its length
    /// in bytes, which counts for a file only, or the failure.
    pub open spec fn metadata_of(self) -> Result<(ChildKind, u64), ScanError> {
        match self {
            Node::File { size, .. } => Ok((ChildKind::File, size)),
            Node::Symlink { .. } => Ok((ChildKind::Symlink, 0)),
            Node::Other { .. } => Ok((ChildKind::Other, 0)),
            Node::Directory { .. } => Ok((ChildKind::Directory, 0)),
            Node::Unreadable { error, .. } => Err(error),
        }
    }

    /// The path of the node.
    pub fn path(&self) -> (path: &String)
        ensures
            path@ == self.path_of(),
    {
        match self {
            Node::File { path, .. } => path,
            Node::Symlink { path } => path,
            Node::Other { path } => path,
            Node::Directory { path, .. } => path,
            Node::Unreadable { path, .. } => path,
        }
    }

    /// The kind and the length of the node, or why it cannot be read.
    pub fn metadata(&self) -> (metadata: Result<(ChildKind, u64), ScanError>)
        ensures
            metadata == self.metadata_of(),
    {
        match self {
            Node::File { size, .. } => Ok((ChildKind::File, *size)),
            Node::Symlink { .. } => Ok((ChildKind::Symlink, 0)),
            Node::Other { .. } => Ok((ChildKind::Other, 0)),
            Node::Directory { .. } => Ok((ChildKind::Directory, 0)),
            Node::Unreadable { error, .. } => Err(*error),
        }
    }
}

/// The bytes in `node`: the length of a file, the sum over the children of
/// a directory, nothing for anything else.
pub open spec fn tree_size(node: Node) -> nat
    decreases node, 0nat,
{
    match node {
        Node::File { size, .. } => size as nat,
        Node::Directory { children, .. } => forest_size(children@, children@.len() as int),
        _ => 0,
    }
}

/// The bytes in the first `n` of `nodes`.
pub open spec fn forest_size(nodes: Seq<Node>, n: int) -> nat
    decreases nodes, n,
{
    if n <= 0 || n > nodes.len() {
        0
    } else {
        forest_size(nodes, n - 1) + tree_size(nodes[n - 1])
    }
}

/// The sizes of the files and directories among the first `n` of `nodes`,
/// in their order. These are the children that count towards a directory.
pub open spec fn child_sizes(nodes: Seq<Node>, n: int) -> Seq<u64>
    decreases n,
{
    if n <= 0 || n > nodes.len() {
        Seq::empty()
    } else {
        match nodes[n - 1] {
            Node::File { size, .. } => child_sizes(nodes, n - 1).push(size),
            Node::Directory { .. } => child_sizes(nodes, n - 1).push(
                tree_size(nodes[n - 1]) as u64,
            ),
            _ => child_sizes(nodes, n - 1),
        }
    }
}

/// The first `i` nodes hold no more bytes than the first `n`, and none of
/// them holds more.
pub proof fn lemma_forest_size_grows(nodes: Seq<Node>, i: int, n: int)
    requires
        0 <= i <= n <= nodes.len(),
    ensures
        forest_size(nodes, i) <= forest_size(nodes, n),
        i < n ==> forest_size(nodes, i) + tree_size(nodes[i]) <= forest_size(nodes, n),
    decreases n - i,
{
    if i < n {
        lemma_forest_size_grows(nodes, i + 1, n);
    }
}

/// The sizes of the children that count sum up to the bytes in all
/// children, as long as that fits a `u64`.
pub proof fn lemma_child_sizes_sum(nodes: Seq<Node>, n: int)
    requires
        0 <= n <= nodes.len(),
        forest_size(nodes, n) <= u64::MAX,
    ensures
        sum(child_sizes(nodes, n)) == forest_size(nodes, n),
    decreases n,
{
    if n > 0 {
        lemma_child_sizes_sum(nodes, n - 1);
        let front = child_sizes(nodes, n - 1);
        let last = nodes[n - 1];
        match last {
            Node::File { size, .. } => {
                assert(tree_size(last) == size);
                lemma_push_size(front, size);
            },
            Node::Directory { .. } => {
                lemma_push_size(front, tree_size(last) as u64);
            },
            _ => {
                assert(tree_size(last) == 0);
            },
        }
    }
}

/// The bytes in `node` if they fit a `u64`.
pub fn checked_size(node: &Node) -> (size: Option<u64>)
    ensures
        match size {
            Some(bytes) => bytes == tree_size(*node),
            None => tree_size(*node) > u64::MAX,
        },
    decreases node,
{
    match node {
        Node::File { size, .. } => Some(*size),
        Node::Directory { children, .. } => {
            let mut total: u64 = 0;
            let mut i: usize = 0;
            while i < children.len()
                invariant
                    i <= children.len(),
                    node is Directory,
                    node->children == *children,
                    total == forest_size(children@, i as int),
                decreases children.len() - i,
            {
                proof {
                    lemma_forest_size_grows(children@, i as int, children@.len() as int);
                }
                let below = match checked_size(&children[i]) {
                    Some(bytes) => bytes,
                    None => {
                        return None;
                    },
                };
                total = match total.checked_add(below) {
                    Some(sum) => sum,
                    None => {
                        return None;
                    },
                };
                i += 1;
            }
            Some(total)
        },
        _ => Some(0),
    }
}

/// The lengths of the files among the first `n` of `nodes`, in their order.
pub open spec fn file_sizes(nodes: Seq<Node>, n: int) -> Seq<u64>
    decreases n,
{
    if n <= 0 || n > nodes.len() {
        Seq::empty()
    } else {
        match nodes[n - 1] {
            Node::File { size, .. } => file_sizes(nodes, n - 1).push(size),
            _ => file_sizes(nodes, n - 1),
        }
    }
}

/// The sizes of the directories among the first `n` of `nodes`, in their
/// order.
pub open spec fn dir_sizes(nodes: Seq<Node>, n: int) -> Seq<u64>
    decreases n,
{
    if n <= 0 || n > nodes.len() {
        Seq::empty()
    } else {
        match nodes[n - 1] {
            Node::Directory { .. } => dir_sizes(nodes, n - 1).push(tree_size(nodes[n - 1]) as u64),
            _ => dir_sizes(nodes, n - 1),
        }
    }
}

/// The sum of two runs of sizes is the sum of their sums.
pub proof fn lemma_sum_concat(a: Seq<u64>, b: Seq<u64>)
    ensures
        sum(a + b) == sum(a) + sum(b),
    decreases b.len(),
{
    if b.len() > 0 {
        lemma_sum_concat(a, b.drop_last());
        assert((a + b).drop_last() =~= a + b.drop_last());
    }
}

/// The files and the directories among the first `i` nodes hold no more
/// bytes than the first `n` nodes, which the two kinds make up between
/// them.
pub proof fn lemma_sizes_by_kind(nodes: Seq<Node>, i: int, n: int)
    requires
        0 <= i <= n <= nodes.len(),
        forest_size(nodes, n) <= u64::MAX,
    ensures
        sum(file_sizes(nodes, i)) <= sum(file_sizes(nodes, n)),
        sum(dir_sizes(nodes, i)) <= sum(dir_sizes(nodes, n)),
        sum(file_sizes(nodes, n)) + sum(dir_sizes(nodes, n)) == forest_size(nodes, n),
    decreases n,
{
    if n > 0 {
        let last = nodes[n - 1];
        let front = if i < n {
            i
        } else {
            n - 1
        };
        lemma_sizes_by_kind(nodes, front, n - 1);
        match last {
            Node::File { size, .. } => {
                lemma_push_size(file_sizes(nodes, n - 1), size);
            },
            Node::Directory { .. } => {
                lemma_push_size(dir_sizes(nodes, n - 1), tree_size(last) as u64);
            },
            _ => {},
        }
    }
}

} // verus!
