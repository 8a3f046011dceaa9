//! A binary min-heap of entries laid out in a `Vec`, and the descending sort
//! built on it.
//!
//! The entry at index `i` has its parent at `(i - 1) / 2`. In a heap no entry
//! ranks below its parent, so the lowest-ranked entry is at index 0.

use crate::entry::{views, Entry};
use crate::rank::{lemma_at_most_transitive, lemma_below_is_at_most, lemma_trichotomy};
use vstd::prelude::*;
use vstd::seq_lib::*;

verus! {

/// The index of the parent of index `i`.
pub open spec fn parent(i: int) -> int {
    (i - 1) / 2
}

/// The entry at `i` does not rank below its parent.
pub open spec fn ordered_at(s: Seq<Entry>, i: int) -> bool {
    s[parent(i)]@.key().at_most(s[i]@.key())
}

/// The entry at `i` does not rank below its parent's parent.
pub open spec fn ordered_over(s: Seq<Entry>, i: int) -> bool {
    s[parent(parent(i))]@.key().at_most(s[i]@.key())
}

/// The first `n` entries of `s` form a min-heap.
pub open spec fn is_heap(s: Seq<Entry>, n: int) -> bool {
    forall|i: int| 0 < i < n ==> #[trigger] ordered_at(s, i)
}

/// Every entry from index `end` on ranks no higher than any entry in front
/// of it. With `end` at 0 the entries are in descending order.
pub open spec fn settled(s: Seq<Entry>, end: int) -> bool {
    forall|i: int, j: int|
        0 <= i < j < s.len() && end <= j ==> (#[trigger] s[j])@.key().at_most(
            (#[trigger] s[i])@.key(),
        )
}

/// `s` with the entries at `i` and `j` exchanged.
pub open spec fn swapped(s: Seq<Entry>, i: int, j: int) -> Seq<Entry> {
    s.update(i, s[j]).update(j, s[i])
}

/// Exchanging two of the first `n` entries keeps what the first `n` hold.
pub proof fn lemma_swapped_holds_same(s: Seq<Entry>, i: int, j: int, n: int)
    requires
        0 <= i < n <= s.len(),
        0 <= j < n,
    ensures
        views(swapped(s, i, j).take(n)).to_multiset() == views(s.take(n)).to_multiset(),
{
    let a = views(s.take(n));
    let b = views(swapped(s, i, j).take(n));
    assert(b =~= a.update(i, a[j]).update(j, a[i]));
    to_multiset_update(a, i, a[j]);
    to_multiset_update(a.update(i, a[j]), j, a[i]);
    a.to_multiset_ensures();
}

/// Two runs that hold the same in their first `n` places and agree behind
/// them hold the same altogether.
pub proof fn lemma_whole_from_parts(s: Seq<Entry>, t: Seq<Entry>, n: int)
    requires
        0 <= n <= s.len(),
        s.len() == t.len(),
        views(s.take(n)).to_multiset() == views(t.take(n)).to_multiset(),
        s.skip(n) == t.skip(n),
    ensures
        views(s).to_multiset() == views(t).to_multiset(),
{
    lemma_multiset_commutative(views(s.take(n)), views(s.skip(n)));
    lemma_multiset_commutative(views(t.take(n)), views(t.skip(n)));
    assert(views(s) =~= views(s.take(n)) + views(s.skip(n)));
    assert(views(t) =~= views(t.take(n)) + views(t.skip(n)));
}

/// Exchanges the entries at `i` and `j`.
pub fn swap(v: &mut Vec<Entry>, i: usize, j: usize)
    requires
        i < old(v).len(),
        j < old(v).len(),
    ensures
        final(v)@ == swapped(old(v)@, i as int, j as int),
{
    if i < j {
        let (left, right) = v.as_mut_slice().split_at_mut(j);
        core::mem::swap(&mut left[i], &mut right[0]);
    } else if j < i {
        let (left, right) = v.as_mut_slice().split_at_mut(i);
        core::mem::swap(&mut left[j], &mut right[0]);
    }
}

/// Moves the entry at `pos` up until it no longer ranks below its parent.
/// With a heap in front of it, this makes the heap one entry longer.
pub fn sift_up(v: &mut Vec<Entry>, pos: usize)
    requires
        pos < old(v).len(),
        is_heap(old(v)@, pos as int),
    ensures
        final(v)@.len() == old(v)@.len(),
        is_heap(final(v)@, pos + 1),
        views(final(v)@.take(pos + 1)).to_multiset() == views(
            old(v)@.take(pos + 1),
        ).to_multiset(),
        final(v)@.skip(pos + 1) == old(v)@.skip(pos + 1),
        views(final(v)@).to_multiset() == views(old(v)@).to_multiset(),
{
    let mut i = pos;
    while i > 0
        invariant
            i <= pos < v@.len(),
            v@.len() == old(v)@.len(),
            forall|k: int| 0 < k <= pos && k != i ==> #[trigger] ordered_at(v@, k),
            i > 0 ==> forall|k: int|
                0 < k <= pos && parent(k) == i ==> #[trigger] ordered_over(v@, k),
            views(v@.take(pos + 1)).to_multiset() == views(old(v)@.take(pos + 1)).to_multiset(),
            v@.skip(pos + 1) == old(v)@.skip(pos + 1),
            views(v@).to_multiset() == views(old(v)@).to_multiset(),
        decreases i,
    {
        let p = (i - 1) / 2;
        if !v[i].ranks_below(&v[p]) {
            return ;
        }
        let ghost s = v@;
        swap(v, i, p);
        proof {
            let t = v@;
            let ki = s[i as int]@.key();
            let kp = s[p as int]@.key();
            lemma_below_is_at_most(ki, kp);
            lemma_swapped_holds_same(s, i as int, p as int, pos + 1);
            assert(t.skip(pos + 1) =~= s.skip(pos + 1));
            lemma_whole_from_parts(t, s, pos + 1);
            assert forall|k: int| 0 < k <= pos && k != p implies #[trigger] ordered_at(t, k) by {
                if k == i {
                } else if parent(k) == p {
                    assert(ordered_at(s, k));
                    lemma_at_most_transitive(ki, kp, s[k]@.key());
                } else if parent(k) == i {
                    assert(ordered_over(s, k));
                } else {
                    assert(ordered_at(s, k));
                }
            }
            if p > 0 {
                assert forall|k: int| 0 < k <= pos && parent(k) == p implies #[trigger] ordered_over(
                    t,
                    k,
                ) by {
                    assert(ordered_at(s, p as int));
                    if k != i {
                        assert(ordered_at(s, k));
                        lemma_at_most_transitive(
                            s[parent(p as int)]@.key(),
                            kp,
                            s[k]@.key(),
                        );
                    }
                }
            }
        }
        i = p;
    }
}

/// Moves the entry at the root down until neither child ranks below it.
/// Where the first `n` entries form a heap but for the root, this makes
/// them a heap.
pub fn sift_down(v: &mut Vec<Entry>, n: usize)
    requires
        n <= old(v).len(),
        forall|k: int| 0 < k < n && parent(k) != 0 ==> #[trigger] ordered_at(old(v)@, k),
    ensures
        final(v)@.len() == old(v)@.len(),
        is_heap(final(v)@, n as int),
        views(final(v)@.take(n as int)).to_multiset() == views(
            old(v)@.take(n as int),
        ).to_multiset(),
        final(v)@.skip(n as int) == old(v)@.skip(n as int),
        views(final(v)@).to_multiset() == views(old(v)@).to_multiset(),
{
    let mut i: usize = 0;
    while i < n / 2
        invariant
            i < n || n == 0,
            n <= v@.len(),
            v@.len() == old(v)@.len(),
            forall|k: int| 0 < k < n && parent(k) != i ==> #[trigger] ordered_at(v@, k),
            i > 0 ==> forall|k: int|
                0 < k < n && parent(k) == i ==> #[trigger] ordered_over(v@, k),
            views(v@.take(n as int)).to_multiset() == views(old(v)@.take(n as int)).to_multiset(),
            v@.skip(n as int) == old(v)@.skip(n as int),
            views(v@).to_multiset() == views(old(v)@).to_multiset(),
        decreases n - i,
    {
        let left = 2 * i + 1;
        let right = left + 1;
        let least = if right < n && v[right].ranks_below(&v[left]) {
            right
        } else {
            left
        };
        let ghost s = v@;
        let ghost other = if least == left {
            right as int
        } else {
            left as int
        };
        let ghost ki = s[i as int]@.key();
        let ghost kl = s[least as int]@.key();
        proof {
            if other < n {
                if least == right {
                    lemma_below_is_at_most(kl, s[other]@.key());
                }
            }
        }
        if !v[least].ranks_below(&v[i]) {
            proof {
                assert forall|k: int| 0 < k < n implies #[trigger] ordered_at(s, k) by {
                    if k == other {
                        lemma_at_most_transitive(ki, kl, s[other]@.key());
                    }
                }
            }
            return ;
        }
        swap(v, i, least);
        proof {
            let t = v@;
            lemma_below_is_at_most(kl, ki);
            lemma_swapped_holds_same(s, i as int, least as int, n as int);
            assert(t.skip(n as int) =~= s.skip(n as int));
            lemma_whole_from_parts(t, s, n as int);
            assert forall|k: int| 0 < k < n && parent(k) != least implies #[trigger] ordered_at(
                t,
                k,
            ) by {
                if k == least {
                } else if k == other {
                } else if k == i {
                    assert(ordered_over(s, least as int));
                } else {
                    assert(ordered_at(s, k));
                }
            }
            assert forall|k: int| 0 < k < n && parent(k) == least implies #[trigger] ordered_over(
                t,
                k,
            ) by {
                assert(ordered_at(s, k));
            }
        }
        i = least;
    }
}

/// The root of a heap ranks lowest.
pub proof fn lemma_root_is_least(s: Seq<Entry>, n: int, i: int)
    requires
        is_heap(s, n),
        0 <= i < n <= s.len(),
    ensures
        s[0]@.key().at_most(s[i]@.key()),
    decreases i,
{
    if i > 0 {
        assert(ordered_at(s, i));
        lemma_root_is_least(s, n, parent(i));
        lemma_at_most_transitive(s[0]@.key(), s[parent(i)]@.key(), s[i]@.key());
    } else {
        lemma_trichotomy(s[0]@.key(), s[0]@.key());
    }
}

/// Adds `entry` to the heap `v`.
pub fn push(v: &mut Vec<Entry>, entry: Entry)
    requires
        is_heap(old(v)@, old(v)@.len() as int),
    ensures
        final(v)@.len() == old(v)@.len() + 1,
        is_heap(final(v)@, final(v)@.len() as int),
        views(final(v)@).to_multiset() == views(old(v)@).to_multiset().insert(entry@),
{
    v.push(entry);
    proof {
        assert(views(v@) =~= views(old(v)@).push(entry@));
        to_multiset_build(views(old(v)@), entry@);
        assert forall|k: int| 0 < k < old(v)@.len() implies #[trigger] ordered_at(v@, k) by {
            assert(ordered_at(old(v)@, k));
        }
    }
    let last = v.len() - 1;
    sift_up(v, last);
}

/// Takes the lowest-ranked entry out of the heap `v`.
pub fn pop_min(v: &mut Vec<Entry>) -> (least: Entry)
    requires
        old(v)@.len() > 0,
        is_heap(old(v)@, old(v)@.len() as int),
    ensures
        final(v)@.len() == old(v)@.len() - 1,
        is_heap(final(v)@, final(v)@.len() as int),
        least@ == old(v)@[0]@,
        views(old(v)@).to_multiset() == views(final(v)@).to_multiset().insert(least@),
        forall|i: int|
            0 <= i < old(v)@.len() ==> least@.key().at_most(#[trigger] old(v)@[i]@.key()),
{
    let last = v.len() - 1;
    proof {
        assert forall|i: int| 0 <= i < old(v)@.len() implies old(v)@[0]@.key().at_most(
            #[trigger] old(v)@[i]@.key(),
        ) by {
            lemma_root_is_least(old(v)@, old(v)@.len() as int, i);
        }
        lemma_swapped_holds_same(old(v)@, 0, last as int, old(v)@.len() as int);
        assert(old(v)@.take(old(v)@.len() as int) =~= old(v)@);
    }
    swap(v, 0, last);
    let ghost s = v@;
    assert(s.take(s.len() as int) =~= s);
    let least = v.pop().unwrap();
    proof {
        assert(views(s) =~= views(v@).push(least@));
        to_multiset_build(views(v@), least@);
        assert forall|k: int| 0 < k < last && parent(k) != 0 implies #[trigger] ordered_at(
            v@,
            k,
        ) by {
            assert(ordered_at(old(v)@, k));
        }
    }
    sift_down(v, last);
    least
}

/// Turns the heap `v` into the same entries in descending order: from the
/// highest-ranked down.
pub fn drain_descending(v: &mut Vec<Entry>)
    requires
        is_heap(old(v)@, old(v)@.len() as int),
    ensures
        final(v)@.len() == old(v)@.len(),
        views(final(v)@).to_multiset() == views(old(v)@).to_multiset(),
        settled(final(v)@, 0),
{
    let mut end = v.len();
    while end > 1
        invariant
            end <= v@.len(),
            v@.len() == old(v)@.len(),
            is_heap(v@, end as int),
            settled(v@, end as int),
            views(v@).to_multiset() == views(old(v)@).to_multiset(),
        decreases end,
    {
        end -= 1;
        let ghost s = v@;
        swap(v, 0, end);
        let ghost t = v@;
        proof {
            lemma_swapped_holds_same(s, 0, end as int, s.len() as int);
            assert(s.take(s.len() as int) =~= s);
            assert(t.take(s.len() as int) =~= t);
            assert forall|k: int| 0 < k < end && parent(k) != 0 implies #[trigger] ordered_at(
                t,
                k,
            ) by {
                assert(ordered_at(s, k));
            }
        }
        sift_down(v, end);
        proof {
            lemma_drain_step(s, v@, end as int);
        }
    }
}

/// One step of the drain: the root of the heap of `end + 1` entries goes to
/// index `end`, and the entries in front of it are rearranged.
proof fn lemma_drain_step(s: Seq<Entry>, u: Seq<Entry>, end: int)
    requires
        0 <= end < s.len(),
        s.len() == u.len(),
        is_heap(s, end + 1),
        settled(s, end + 1),
        views(u.take(end)).to_multiset() == views(swapped(s, 0, end).take(end)).to_multiset(),
        u.skip(end) == swapped(s, 0, end).skip(end),
    ensures
        settled(u, end),
{
    let t = swapped(s, 0, end);
    assert forall|i: int, j: int| 0 <= i < j < u.len() && end <= j implies (
    #[trigger] u[j])@.key().at_most((#[trigger] u[i])@.key()) by {
        assert(t[j] == t.skip(end)[j - end]);
        // the entry at `i` came from some index `w` of `s` in front of `j`
        let w: int = if i >= end {
            assert(t[i] == t.skip(end)[i - end]);
            if i == end {
                0
            } else {
                i
            }
        } else {
            let a = views(u.take(end));
            let b = views(t.take(end));
            a.to_multiset_ensures();
            b.to_multiset_ensures();
            assert(b.to_multiset().count(a[i]) > 0);
            let x = choose|x: int| 0 <= x < b.len() && b[x] == a[i];
            if x == 0 {
                end
            } else {
                x
            }
        };
        if j == end {
            lemma_root_is_least(s, end + 1, w);
        }
    }
}

/// Sorts `v` into descending order: from the highest-ranked entry down.
/// Entries with the same key end up next to each other, in no stated order.
pub fn sort_descending(v: &mut Vec<Entry>)
    ensures
        final(v)@.len() == old(v)@.len(),
        views(final(v)@).to_multiset() == views(old(v)@).to_multiset(),
        settled(final(v)@, 0),
{
    let mut pos: usize = 1;
    while pos < v.len()
        invariant
            1 <= pos,
            v@.len() == old(v)@.len(),
            is_heap(v@, pos as int),
            views(v@).to_multiset() == views(old(v)@).to_multiset(),
        decreases v@.len() - pos,
    {
        sift_up(v, pos);
        pos += 1;
    }
    drain_descending(v);
}

/// A copy of `v`, entry by entry.
pub fn clone_entries(v: &Vec<Entry>) -> (copy: Vec<Entry>)
    ensures
        views(copy@) == views(v@),
{
    let copy = v.clone();
    copy
}

} // verus!
