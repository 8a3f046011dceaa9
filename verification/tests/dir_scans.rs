use disk_rank::entry::EntryKind;
use disk_rank::dir_scan::{classify, ChildKind, DirScan, Step};
use disk_rank::tree::ScanError;

#[test]
fn a_symlink_is_a_symlink_whatever_else_is_set() {
    assert_eq!(classify(true, false, false), ChildKind::Symlink);
    assert_eq!(classify(true, true, false), ChildKind::Symlink);
    assert_eq!(classify(true, false, true), ChildKind::Symlink);
    assert_eq!(classify(true, true, true), ChildKind::Symlink);
}

#[test]
fn classify_tells_directories_files_and_others() {
    assert_eq!(classify(false, true, false), ChildKind::Directory);
    assert_eq!(classify(false, true, true), ChildKind::Directory);
    assert_eq!(classify(false, false, true), ChildKind::File);
    assert_eq!(classify(false, false, false), ChildKind::Other);
}

#[test]
fn an_empty_directory_has_size_zero() {
    let t = DirScan::new("/empty".to_string());
    assert_eq!(t.total_size(), 0);
    let e = t.finish().unwrap();
    assert_eq!(e.path(), "/empty");
    assert_eq!(e.kind(), EntryKind::Directory);
    assert_eq!(e.size(), 0);
    assert_eq!(e.rank_key(), 0);
}

#[test]
fn a_directory_is_ranked_without_its_largest_child() {
    let mut t = DirScan::new("/d".to_string());
    t.count(30);
    t.count(70);
    t.count(5);
    assert_eq!(t.total_size(), 105);
    let e = t.finish().unwrap();
    assert_eq!(e.size(), 105);
    assert_eq!(e.rank_key(), 35);
}

#[test]
fn one_child_leaves_rank_key_zero() {
    let mut t = DirScan::new("/d".to_string());
    let f = t.add_file("/d/f".to_string(), 100);
    assert_eq!(f.kind(), EntryKind::File);
    assert_eq!(f.path(), "/d/f");
    assert_eq!(f.size(), 100);
    assert_eq!(f.rank_key(), 100);
    let e = t.finish().unwrap();
    assert_eq!(e.size(), 100);
    assert_eq!(e.rank_key(), 0);
}

#[test]
fn the_order_of_counting_does_not_matter() {
    let sizes = [4u64, 9, 0, 9, 2];
    let mut a = DirScan::new("/d".to_string());
    for s in sizes {
        a.count(s);
    }
    let mut b = DirScan::new("/d".to_string());
    for s in sizes.iter().rev() {
        b.count(*s);
    }
    let (a, b) = (a.finish().unwrap(), b.finish().unwrap());
    assert_eq!(a.size(), 24);
    assert_eq!(a.rank_key(), 15);
    assert_eq!(b.size(), 24);
    assert_eq!(b.rank_key(), 15);
}

#[test]
fn visit_counts_files_only() {
    let mut t = DirScan::new("/d".to_string());
    match t.visit("/d/link".to_string(), ChildKind::Symlink, 999) {
        Step::Skip => {}
        _ => panic!("a symbolic link is passed over"),
    }
    match t.visit("/d/sock".to_string(), ChildKind::Other, 999) {
        Step::Skip => {}
        _ => panic!("a socket is passed over"),
    }
    assert_eq!(t.total_size(), 0);
    match t.visit("/d/sub".to_string(), ChildKind::Directory, 4096) {
        Step::Descend(path) => assert_eq!(path, "/d/sub"),
        _ => panic!("a directory is to be scanned"),
    }
    assert_eq!(t.total_size(), 0);
    match t.visit("/d/f".to_string(), ChildKind::File, 10) {
        Step::Emit(e) => {
            assert_eq!(e.path(), "/d/f");
            assert_eq!(e.kind(), EntryKind::File);
            assert_eq!(e.size(), 10);
            assert_eq!(e.rank_key(), 10);
        }
        _ => panic!("a file gets an entry"),
    }
    assert_eq!(t.total_size(), 10);
    t.count(25);
    let e = t.finish().unwrap();
    assert_eq!(e.size(), 35);
    assert_eq!(e.rank_key(), 10);
}

#[test]
fn has_room_knows_the_limit() {
    let mut t = DirScan::new("/d".to_string());
    assert!(t.has_room(u64::MAX));
    t.count(u64::MAX - 10);
    assert!(t.has_room(10));
    assert!(!t.has_room(11));
    t.count(10);
    assert!(t.has_room(0));
    assert!(!t.has_room(1));
    let e = t.finish().unwrap();
    assert_eq!(e.size(), u64::MAX);
    assert_eq!(e.rank_key(), 10);
}

#[test]
fn the_first_failure_stays() {
    let mut t = DirScan::new("/d".to_string());
    assert_eq!(t.failed(), None);
    t.fail(ScanError::VanishedEntry);
    assert_eq!(t.failed(), Some(ScanError::VanishedEntry));
    t.fail(ScanError::NotAccessible);
    assert_eq!(t.failed(), Some(ScanError::VanishedEntry));
    t.join(Err(ScanError::TaskFailure));
    assert_eq!(t.finish(), Err(ScanError::VanishedEntry));
}

#[test]
fn join_counts_sizes_and_records_a_failure() {
    let mut t = DirScan::new("/d".to_string());
    t.join(Ok(40));
    t.join(Ok(2));
    assert_eq!(t.total_size(), 42);
    t.join(Err(ScanError::TaskFailure));
    // nothing is counted once the scan has failed
    t.join(Ok(100));
    assert_eq!(t.total_size(), 42);
    t.join(Err(ScanError::NotAccessible));
    assert_eq!(t.finish(), Err(ScanError::TaskFailure));
}

#[test]
fn join_without_failure_ends_in_the_entry() {
    let mut t = DirScan::new("/d".to_string());
    t.join(Ok(40));
    t.join(Ok(2));
    t.join(Ok(60));
    let e = t.finish().unwrap();
    assert_eq!(e.path(), "/d");
    assert_eq!(e.kind(), EntryKind::Directory);
    assert_eq!(e.size(), 102);
    assert_eq!(e.rank_key(), 42);
}

#[test]
fn each_failure_can_end_a_scan() {
    for error in [ScanError::NotAccessible, ScanError::VanishedEntry, ScanError::TaskFailure] {
        let mut t = DirScan::new("/d".to_string());
        t.count(5);
        t.fail(error);
        assert_eq!(t.finish(), Err(error));
    }
}
