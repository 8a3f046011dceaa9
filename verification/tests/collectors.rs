use disk_rank::collector::{Collector, HeapCollector, VecCollector, TOP_K};
use disk_rank::entry::{Entry, EntryKind};
use disk_rank::heap::{clone_entries, drain_descending, pop_min, push, sort_descending, swap};

fn file(path: &str, size: u64) -> Entry {
    Entry::new(path.to_string(), EntryKind::File, size, size)
}

fn dir(path: &str, total: u64, net: u64) -> Entry {
    Entry::new(path.to_string(), EntryKind::Directory, total, net)
}

fn numbered(sizes: &[u64]) -> Vec<Entry> {
    sizes.iter().map(|s| file(&format!("/r/f{s}"), *s)).collect()
}

fn collect_with<C: Collector>(entries: &[Entry]) -> Vec<Entry> {
    let mut c = C::new();
    for e in entries {
        c.insert(e.clone());
    }
    c.collect()
}

fn sizes(entries: &[Entry]) -> Vec<u64> {
    entries.iter().map(|e| e.size()).collect()
}

fn rank_keys(entries: &[Entry]) -> Vec<u64> {
    entries.iter().map(|e| e.rank_key()).collect()
}

#[test]
fn the_constant_is_eight() {
    assert_eq!(TOP_K, 8);
}

#[test]
fn a_new_collector_reports_nothing() {
    assert!(VecCollector::new().collect().is_empty());
    assert!(HeapCollector::new().collect().is_empty());
}

#[test]
fn one_entry_is_reported() {
    let e = [file("/a", 3)];
    assert_eq!(collect_with::<VecCollector>(&e), vec![file("/a", 3)]);
    assert_eq!(collect_with::<HeapCollector>(&e), vec![file("/a", 3)]);
}

#[test]
fn fewer_than_eight_are_all_reported_in_descending_order() {
    let e = numbered(&[2, 5, 1, 4]);
    assert_eq!(sizes(&collect_with::<VecCollector>(&e)), vec![5, 4, 2, 1]);
    assert_eq!(sizes(&collect_with::<HeapCollector>(&e)), vec![5, 4, 2, 1]);
}

#[test]
fn exactly_eight_are_all_reported() {
    let e = numbered(&[8, 1, 7, 2, 6, 3, 5, 4]);
    assert_eq!(sizes(&collect_with::<VecCollector>(&e)), vec![8, 7, 6, 5, 4, 3, 2, 1]);
    assert_eq!(sizes(&collect_with::<HeapCollector>(&e)), vec![8, 7, 6, 5, 4, 3, 2, 1]);
}

#[test]
fn ten_files_keep_the_eight_largest() {
    let e = numbered(&[4, 9, 1, 10, 7, 2, 8, 3, 6, 5]);
    let a = collect_with::<VecCollector>(&e);
    let b = collect_with::<HeapCollector>(&e);
    assert_eq!(sizes(&a), vec![10, 9, 8, 7, 6, 5, 4, 3]);
    assert_eq!(rank_keys(&a), vec![10, 9, 8, 7, 6, 5, 4, 3]);
    assert_eq!(a, b);
    assert_eq!(a[0].path(), "/r/f10");
    assert_eq!(a[7].path(), "/r/f3");
}

#[test]
fn ranking_goes_by_rank_key_not_by_total() {
    let e = [dir("/big", 1000, 1), dir("/flat", 20, 15), file("/f", 10)];
    for top in [collect_with::<VecCollector>(&e), collect_with::<HeapCollector>(&e)] {
        assert_eq!(rank_keys(&top), vec![15, 10, 1]);
        assert_eq!(sizes(&top), vec![20, 10, 1000]);
    }
}

#[test]
fn ties_are_broken_by_total_then_path() {
    let e = [
        dir("/b", 9, 5),
        dir("/a", 9, 5),
        dir("/c", 7, 5),
        file("/d", 5),
        dir("/e", 10, 5),
    ];
    for top in [collect_with::<VecCollector>(&e), collect_with::<HeapCollector>(&e)] {
        let paths: Vec<&str> = top.iter().map(|e| e.path()).collect();
        assert_eq!(paths, vec!["/e", "/b", "/a", "/c", "/d"]);
    }
}

#[test]
fn every_permutation_of_four_gives_the_same_report() {
    let base = numbered(&[3, 1, 4, 2]);
    let expected = vec![4u64, 3, 2, 1];
    let idx = [0usize, 1, 2, 3];
    let mut count = 0;
    for a in idx {
        for b in idx {
            for c in idx {
                for d in idx {
                    let p = [a, b, c, d];
                    if (0..4).any(|i| (0..i).any(|j| p[i] == p[j])) {
                        continue;
                    }
                    let order: Vec<Entry> = p.iter().map(|i| base[*i].clone()).collect();
                    assert_eq!(sizes(&collect_with::<VecCollector>(&order)), expected);
                    assert_eq!(sizes(&collect_with::<HeapCollector>(&order)), expected);
                    count += 1;
                }
            }
        }
    }
    assert_eq!(count, 24);
}

#[test]
fn rotations_of_twenty_give_the_same_report() {
    let mut order: Vec<u64> = (1..=20).map(|i| (i * 7) % 23).collect();
    let first = collect_with::<VecCollector>(&numbered(&order));
    // 16 and 9 are not among the twenty
    assert_eq!(sizes(&first), vec![22, 21, 20, 19, 18, 17, 15, 14]);
    for _ in 0..20 {
        order.rotate_left(1);
        assert_eq!(collect_with::<VecCollector>(&numbered(&order)), first);
        assert_eq!(collect_with::<HeapCollector>(&numbered(&order)), first);
        let mut back = order.clone();
        back.reverse();
        assert_eq!(collect_with::<HeapCollector>(&numbered(&back)), first);
    }
}

#[test]
fn the_strategies_agree_with_repeated_sizes() {
    let mut e = Vec::new();
    for i in 0..30u64 {
        e.push(file(&format!("/r/{i}"), i % 4));
    }
    let a = collect_with::<VecCollector>(&e);
    let b = collect_with::<HeapCollector>(&e);
    assert_eq!(a, b);
    assert_eq!(sizes(&a), vec![3, 3, 3, 3, 3, 3, 3, 2]);
    let paths: Vec<&str> = a.iter().map(|e| e.path()).collect();
    assert_eq!(
        paths,
        vec!["/r/7", "/r/3", "/r/27", "/r/23", "/r/19", "/r/15", "/r/11", "/r/6"]
    );
}

#[test]
fn the_same_entry_twice_is_reported_twice() {
    let e = [file("/a", 1), file("/a", 1), file("/b", 2)];
    for top in [collect_with::<VecCollector>(&e), collect_with::<HeapCollector>(&e)] {
        assert_eq!(top, vec![file("/b", 2), file("/a", 1), file("/a", 1)]);
    }
}

#[test]
fn collect_leaves_the_collector_as_it_is() {
    let mut v = VecCollector::new();
    let mut h = HeapCollector::new();
    for e in numbered(&[5, 3, 9]) {
        v.insert(e.clone());
        h.insert(e);
    }
    assert_eq!(sizes(&v.collect()), vec![9, 5, 3]);
    assert_eq!(sizes(&v.collect()), vec![9, 5, 3]);
    assert_eq!(sizes(&h.collect()), vec![9, 5, 3]);
    assert_eq!(sizes(&h.collect()), vec![9, 5, 3]);
    v.insert(file("/x", 7));
    h.insert(file("/x", 7));
    assert_eq!(sizes(&v.collect()), vec![9, 7, 5, 3]);
    assert_eq!(sizes(&h.collect()), vec![9, 7, 5, 3]);
}

#[test]
fn a_small_entry_does_not_push_out_a_larger_one() {
    let mut h = HeapCollector::new();
    for e in numbered(&[10, 11, 12, 13, 14, 15, 16, 17]) {
        h.insert(e);
    }
    h.insert(file("/small", 1));
    assert_eq!(sizes(&h.collect()), vec![17, 16, 15, 14, 13, 12, 11, 10]);
    h.insert(file("/large", 100));
    assert_eq!(sizes(&h.collect()), vec![100, 17, 16, 15, 14, 13, 12, 11]);
}

#[test]
fn sort_descending_sorts() {
    let mut v = numbered(&[3, 9, 1, 7, 7, 0, 12, 5, 4, 4, 8]);
    v[4] = file("/other", 7);
    sort_descending(&mut v);
    assert_eq!(sizes(&v), vec![12, 9, 8, 7, 7, 5, 4, 4, 3, 1, 0]);
    assert_eq!(v[3].path(), "/r/f7");
    assert_eq!(v[4].path(), "/other");
    let mut none: Vec<Entry> = Vec::new();
    sort_descending(&mut none);
    assert!(none.is_empty());
    let mut one = numbered(&[6]);
    sort_descending(&mut one);
    assert_eq!(sizes(&one), vec![6]);
}

#[test]
fn the_heap_gives_the_lowest_first() {
    let mut heap: Vec<Entry> = Vec::new();
    for e in numbered(&[5, 2, 8, 1, 9, 3]) {
        push(&mut heap, e);
    }
    assert_eq!(heap.len(), 6);
    assert_eq!(heap[0].size(), 1);
    let mut out = Vec::new();
    while !heap.is_empty() {
        out.push(pop_min(&mut heap).size());
    }
    assert_eq!(out, vec![1, 2, 3, 5, 8, 9]);
}

#[test]
fn draining_a_heap_gives_descending_order() {
    let mut heap: Vec<Entry> = Vec::new();
    for e in numbered(&[5, 2, 8, 1, 9, 3, 7]) {
        push(&mut heap, e);
    }
    let copy = clone_entries(&heap);
    assert_eq!(copy, heap);
    drain_descending(&mut heap);
    assert_eq!(sizes(&heap), vec![9, 8, 7, 5, 3, 2, 1]);
}

#[test]
fn swap_exchanges_two_entries() {
    let mut v = numbered(&[1, 2, 3]);
    swap(&mut v, 0, 2);
    assert_eq!(sizes(&v), vec![3, 2, 1]);
    swap(&mut v, 2, 1);
    assert_eq!(sizes(&v), vec![3, 1, 2]);
    swap(&mut v, 1, 1);
    assert_eq!(sizes(&v), vec![3, 1, 2]);
}

#[test]
fn both_strategies_match_a_plain_sort_on_five_hundred_entries() {
    // a small linear congruential generator: the same entries on every run
    let mut state: u64 = 0x2545_f491_4f6c_dd1d;
    let mut next = move |bound: u64| {
        state = state.wrapping_mul(6364136223846793005).wrapping_add(1442695040888963407);
        (state >> 33) % bound
    };
    let mut entries = Vec::new();
    for i in 0..500u64 {
        let total = next(40);
        let net = next(total + 1);
        let path = format!("/p/{}", next(6));
        if i % 3 == 0 {
            entries.push(file(&path, total));
        } else {
            entries.push(dir(&path, total, net));
        }
    }
    let mut expected: Vec<(u64, u64, String)> =
        entries.iter().map(|e| (e.rank_key(), e.size(), e.path().to_string())).collect();
    expected.sort();
    expected.reverse();
    expected.truncate(8);
    for top in [collect_with::<VecCollector>(&entries), collect_with::<HeapCollector>(&entries)] {
        let got: Vec<(u64, u64, String)> =
            top.iter().map(|e| (e.rank_key(), e.size(), e.path().to_string())).collect();
        assert_eq!(got, expected);
    }
    // the heap sort agrees with the plain sort on all of them
    let mut all: Vec<(u64, u64, String)> =
        entries.iter().map(|e| (e.rank_key(), e.size(), e.path().to_string())).collect();
    all.sort();
    all.reverse();
    let mut sorted = entries;
    sort_descending(&mut sorted);
    let got: Vec<(u64, u64, String)> =
        sorted.iter().map(|e| (e.rank_key(), e.size(), e.path().to_string())).collect();
    assert_eq!(got, all);
}
