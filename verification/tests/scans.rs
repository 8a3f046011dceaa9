use disk_rank::collector::{Collector, HeapCollector, VecCollector};
use disk_rank::dir_scan::ChildKind;
use disk_rank::entry::{Entry, EntryKind};
use disk_rank::scanner::{scan, scan_dir, scan_dir_sync, scan_sync};
use disk_rank::tree::{checked_size, Node, ScanError};

fn file(path: &str, size: u64) -> Node {
    Node::File { path: path.to_string(), size }
}

fn link(path: &str) -> Node {
    Node::Symlink { path: path.to_string() }
}

fn dir(path: &str, children: Vec<Node>) -> Node {
    Node::Directory { path: path.to_string(), children }
}

fn unreadable(path: &str, error: ScanError) -> Node {
    Node::Unreadable { path: path.to_string(), error }
}

fn file_entry(path: &str, size: u64) -> Entry {
    Entry::new(path.to_string(), EntryKind::File, size, size)
}

fn dir_entry(path: &str, total: u64, net: u64) -> Entry {
    Entry::new(path.to_string(), EntryKind::Directory, total, net)
}

/// path, kind, total size, rank key
fn fields(entries: &[Entry]) -> Vec<(String, EntryKind, u64, u64)> {
    entries
        .iter()
        .map(|e| (e.path().to_string(), e.kind(), e.size(), e.rank_key()))
        .collect()
}

fn row(path: &str, kind: EntryKind, total: u64, rank: u64) -> (String, EntryKind, u64, u64) {
    (path.to_string(), kind, total, rank)
}

fn sample() -> Node {
    dir(
        "/r",
        vec![
            file("/r/a", 30),
            dir(
                "/r/sub",
                vec![
                    file("/r/sub/x", 5),
                    dir("/r/sub/deep", vec![file("/r/sub/deep/y", 50), link("/r/sub/deep/l")]),
                    file("/r/sub/z", 7),
                ],
            ),
            link("/r/l"),
            Node::Other { path: "/r/sock".to_string() },
            dir("/r/empty", vec![]),
            file("/r/b", 70),
            dir("/r/two", vec![file("/r/two/p", 20), file("/r/two/q", 20)]),
        ],
    )
}

#[test]
fn one_file_of_size_100() {
    let root = dir("/r", vec![file("/r/f", 100)]);
    for top in [scan_sync(&root).unwrap(), scan(&root).unwrap()] {
        assert_eq!(
            fields(&top),
            vec![row("/r/f", EntryKind::File, 100, 100), row("/r", EntryKind::Directory, 100, 0)]
        );
    }
    let mut c = VecCollector::new();
    assert_eq!(scan_dir_sync(&root, &mut c), Ok(100));
    let mut c = VecCollector::new();
    assert_eq!(scan_dir(&root, &mut c), Ok(100));
}

#[test]
fn two_files_of_sizes_30_and_70() {
    let root = dir("/r", vec![file("/r/a", 30), file("/r/b", 70)]);
    for top in [scan_sync(&root).unwrap(), scan(&root).unwrap()] {
        assert_eq!(
            fields(&top),
            // the root and the smaller file tie on 30: the larger total ranks higher
            vec![
                row("/r/b", EntryKind::File, 70, 70),
                row("/r", EntryKind::Directory, 100, 30),
                row("/r/a", EntryKind::File, 30, 30),
            ]
        );
    }
}

#[test]
fn a_symlink_and_a_file_of_size_10() {
    let root = dir("/r", vec![link("/r/l"), file("/r/f", 10)]);
    for top in [scan_sync(&root).unwrap(), scan(&root).unwrap()] {
        assert_eq!(
            fields(&top),
            vec![row("/r/f", EntryKind::File, 10, 10), row("/r", EntryKind::Directory, 10, 0)]
        );
        assert_eq!(top.len(), 2);
    }
    let mut c = VecCollector::new();
    assert_eq!(scan_dir_sync(&root, &mut c), Ok(10));
}

#[test]
fn ten_files_of_sizes_1_to_10() {
    let children: Vec<Node> =
        [3u64, 8, 1, 10, 5, 2, 9, 4, 7, 6].iter().map(|s| file(&format!("/r/f{s}"), *s)).collect();
    let root = dir("/r", children);
    for top in [scan_sync(&root).unwrap(), scan(&root).unwrap()] {
        // the root is ranked by 55 - 10 = 45 and comes first
        assert_eq!(top.len(), 8);
        assert_eq!(top[0], dir_entry("/r", 55, 45));
        let rest: Vec<u64> = top[1..].iter().map(|e| e.rank_key()).collect();
        assert_eq!(rest, vec![10, 9, 8, 7, 6, 5, 4]);
        assert!(top[1..].iter().all(|e| e.kind() == EntryKind::File && e.size() == e.rank_key()));
    }
}

#[test]
fn an_unreadable_subdirectory_fails_the_scan() {
    let root = dir(
        "/r",
        vec![file("/r/a", 1), unreadable("/r/locked", ScanError::NotAccessible), file("/r/b", 2)],
    );
    assert_eq!(scan_sync(&root), Err(ScanError::NotAccessible));
    assert_eq!(scan(&root), Err(ScanError::NotAccessible));
}

#[test]
fn a_failure_deep_down_fails_the_scan() {
    let root = dir(
        "/r",
        vec![
            file("/r/a", 1),
            dir(
                "/r/s",
                vec![dir("/r/s/t", vec![unreadable("/r/s/t/u", ScanError::VanishedEntry)])],
            ),
        ],
    );
    assert_eq!(scan_sync(&root), Err(ScanError::VanishedEntry));
    assert_eq!(scan(&root), Err(ScanError::VanishedEntry));
}

#[test]
fn each_error_is_handed_up() {
    for error in [ScanError::NotAccessible, ScanError::VanishedEntry, ScanError::TaskFailure] {
        let root = dir("/r", vec![dir("/r/s", vec![unreadable("/r/s/x", error)])]);
        assert_eq!(scan_sync(&root), Err(error));
        assert_eq!(scan(&root), Err(error));
        assert_eq!(scan_sync(&unreadable("/r", error)), Err(error));
        assert_eq!(scan(&unreadable("/r", error)), Err(error));
    }
}

#[test]
fn only_a_directory_can_be_scanned() {
    for root in [file("/f", 3), link("/l"), Node::Other { path: "/o".to_string() }] {
        assert_eq!(scan_sync(&root), Err(ScanError::NotAccessible));
        assert_eq!(scan(&root), Err(ScanError::NotAccessible));
        let mut c = VecCollector::new();
        assert_eq!(scan_dir_sync(&root, &mut c), Err(ScanError::NotAccessible));
        assert!(c.collect().is_empty());
    }
}

#[test]
fn an_empty_directory_gives_its_own_entry() {
    let root = dir("/r", vec![]);
    assert_eq!(fields(&scan_sync(&root).unwrap()), vec![row("/r", EntryKind::Directory, 0, 0)]);
    assert_eq!(fields(&scan(&root).unwrap()), vec![row("/r", EntryKind::Directory, 0, 0)]);
}

#[test]
fn the_sequential_walk_stops_at_the_first_failure() {
    let root = dir(
        "/r",
        vec![
            file("/r/a", 1),
            dir("/r/s", vec![file("/r/s/x", 2), unreadable("/r/s/bad", ScanError::VanishedEntry)]),
            unreadable("/r/locked", ScanError::NotAccessible),
            file("/r/b", 3),
        ],
    );
    let mut c = VecCollector::new();
    assert_eq!(scan_dir_sync(&root, &mut c), Err(ScanError::VanishedEntry));
    // what came before the failure stays
    assert_eq!(
        fields(&c.collect()),
        vec![row("/r/s/x", EntryKind::File, 2, 2), row("/r/a", EntryKind::File, 1, 1)]
    );
}

#[test]
fn the_fork_join_walk_reports_the_listing_failure_and_lets_subdirectories_finish() {
    let root = dir(
        "/r",
        vec![
            file("/r/a", 1),
            dir("/r/s", vec![file("/r/s/x", 2), unreadable("/r/s/bad", ScanError::VanishedEntry)]),
            dir("/r/t", vec![file("/r/t/y", 4)]),
            unreadable("/r/locked", ScanError::NotAccessible),
            file("/r/b", 3),
            dir("/r/u", vec![file("/r/u/z", 5)]),
        ],
    );
    let mut c = VecCollector::new();
    assert_eq!(scan_dir(&root, &mut c), Err(ScanError::NotAccessible));
    assert_eq!(
        fields(&c.collect()),
        vec![
            row("/r/t/y", EntryKind::File, 4, 4),
            row("/r/s/x", EntryKind::File, 2, 2),
            row("/r/a", EntryKind::File, 1, 1),
            row("/r/t", EntryKind::Directory, 4, 0),
        ]
    );
}

#[test]
fn the_fork_join_walk_reports_the_first_failed_subdirectory() {
    let root = dir(
        "/r",
        vec![
            dir("/r/s", vec![unreadable("/r/s/bad", ScanError::VanishedEntry)]),
            dir("/r/t", vec![unreadable("/r/t/bad", ScanError::TaskFailure)]),
            dir("/r/u", vec![file("/r/u/z", 5)]),
        ],
    );
    let mut c = VecCollector::new();
    assert_eq!(scan_dir(&root, &mut c), Err(ScanError::VanishedEntry));
    assert_eq!(
        fields(&c.collect()),
        vec![row("/r/u/z", EntryKind::File, 5, 5), row("/r/u", EntryKind::Directory, 5, 0)]
    );
}

#[test]
fn sizes_add_up_through_the_tree() {
    let root = sample();
    assert_eq!(checked_size(&root), Some(202));
    let mut c = VecCollector::new();
    assert_eq!(scan_dir_sync(&root, &mut c), Ok(202));
    let mut h = HeapCollector::new();
    assert_eq!(scan_dir(&root, &mut h), Ok(202));
    let expected = vec![
        row("/r", EntryKind::Directory, 202, 132),
        row("/r/b", EntryKind::File, 70, 70),
        row("/r/sub/deep/y", EntryKind::File, 50, 50),
        row("/r/a", EntryKind::File, 30, 30),
        row("/r/two", EntryKind::Directory, 40, 20),
        row("/r/two/q", EntryKind::File, 20, 20),
        row("/r/two/p", EntryKind::File, 20, 20),
        row("/r/sub", EntryKind::Directory, 62, 12),
    ];
    assert_eq!(fields(&c.collect()), expected);
    assert_eq!(fields(&h.collect()), expected);
}

#[test]
fn no_entry_is_ranked_above_its_total() {
    let trees = [
        dir("/e", vec![]),
        dir("/one", vec![file("/one/f", 9)]),
        dir("/r/two", vec![file("/r/two/p", 20), file("/r/two/q", 20)]),
        dir(
            "/r/sub",
            vec![
                file("/r/sub/x", 5),
                dir("/r/sub/deep", vec![file("/r/sub/deep/y", 50), link("/r/sub/deep/l")]),
                file("/r/sub/z", 7),
            ],
        ),
        sample(),
    ];
    let mut seen = 0;
    for tree in &trees {
        for top in [scan_sync(tree).unwrap(), scan(tree).unwrap()] {
            for e in &top {
                assert!(e.rank_key() <= e.size());
                if e.kind() == EntryKind::File {
                    assert_eq!(e.rank_key(), e.size());
                }
                seen += 1;
            }
        }
    }
    assert_eq!(seen, 2 * (1 + 2 + 3 + 5 + 8));
}

#[test]
fn a_directory_holds_what_its_children_hold() {
    let sub = dir(
        "/r/sub",
        vec![
            file("/r/sub/x", 5),
            dir("/r/sub/deep", vec![file("/r/sub/deep/y", 50), link("/r/sub/deep/l")]),
            file("/r/sub/z", 7),
        ],
    );
    let top = scan_sync(&sub).unwrap();
    assert_eq!(
        fields(&top),
        vec![
            row("/r/sub/deep/y", EntryKind::File, 50, 50),
            row("/r/sub", EntryKind::Directory, 62, 12),
            row("/r/sub/z", EntryKind::File, 7, 7),
            row("/r/sub/x", EntryKind::File, 5, 5),
            row("/r/sub/deep", EntryKind::Directory, 50, 0),
        ]
    );
    // 62 = 5 + 50 + 7, and the symbolic link adds nothing to 50
    let by_path = |p: &str| top.iter().find(|e| e.path() == p).unwrap().size();
    assert_eq!(
        by_path("/r/sub"),
        by_path("/r/sub/x") + by_path("/r/sub/deep") + by_path("/r/sub/z")
    );
    assert_eq!(by_path("/r/sub/deep"), by_path("/r/sub/deep/y"));
}

#[test]
fn test_sync_vs_async() {
    let root = sample();
    let mut collector1 = VecCollector::new();
    scan_dir_sync(&root, &mut collector1).unwrap();
    let mut collector2 = VecCollector::new();
    scan_dir(&root, &mut collector2).unwrap();
    assert_eq!(collector1.collect(), collector2.collect());
    assert_eq!(scan_sync(&root), scan(&root));
}

#[test]
fn test_vec_vs_heap() {
    let root = sample();
    let mut collector1 = VecCollector::new();
    scan_dir_sync(&root, &mut collector1).unwrap();
    let mut collector2 = HeapCollector::new();
    scan_dir_sync(&root, &mut collector2).unwrap();
    let vec1 = collector1.collect();
    let vec2 = collector2.collect();
    assert_eq!(vec1.len(), vec2.len());
    for (e1, e2) in std::iter::zip(vec1, vec2) {
        assert_eq!(e1, e2);
    }
}

#[test]
fn checked_size_sees_an_overflow() {
    let root = dir("/r", vec![file("/r/a", u64::MAX), file("/r/b", 1)]);
    assert_eq!(checked_size(&root), None);
    let root = dir("/r", vec![file("/r/a", u64::MAX - 1), dir("/r/s", vec![file("/r/s/b", 1)])]);
    assert_eq!(checked_size(&root), Some(u64::MAX));
    let top = scan_sync(&root).unwrap();
    assert_eq!(top[0], file_entry("/r/a", u64::MAX - 1));
    assert_eq!(top[1], dir_entry("/r", u64::MAX, 1));
    assert_eq!(checked_size(&link("/l")), Some(0));
    assert_eq!(checked_size(&unreadable("/u", ScanError::NotAccessible)), Some(0));
    assert_eq!(checked_size(&file("/f", 9)), Some(9));
}

#[test]
fn a_node_shows_its_path_and_metadata() {
    assert_eq!(file("/f", 9).path(), "/f");
    assert_eq!(file("/f", 9).metadata(), Ok((ChildKind::File, 9)));
    assert_eq!(link("/l").path(), "/l");
    assert_eq!(link("/l").metadata(), Ok((ChildKind::Symlink, 0)));
    let other = Node::Other { path: "/o".to_string() };
    assert_eq!(other.path(), "/o");
    assert_eq!(other.metadata(), Ok((ChildKind::Other, 0)));
    let d = dir("/d", vec![file("/d/f", 9)]);
    assert_eq!(d.path(), "/d");
    assert_eq!(d.metadata(), Ok((ChildKind::Directory, 0)));
    let u = unreadable("/u", ScanError::VanishedEntry);
    assert_eq!(u.path(), "/u");
    assert_eq!(u.metadata(), Err(ScanError::VanishedEntry));
}
