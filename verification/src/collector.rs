//! Collectors of entries: they take entries one by one and report the
//! highest-ranked ones.
//!
//! `VecCollector` keeps every entry and sorts when asked. `HeapCollector`
//! keeps only the highest-ranked entries seen so far, in a min-heap. Both
//! report the same keys for the same entries, in whatever order they came.

use crate::entry::{keys, views, Entry, EntryView};
use crate::heap::{
    clone_entries, drain_descending, is_heap, ordered_at, parent, pop_min, push, sort_descending,
};
use crate::top::{
    lemma_map_holds_same, lemma_ranked, lemma_ranked_unique, lemma_top_after_evict,
    lemma_top_ranked, lemma_top_ranked_of_permutation, lemma_top_while_room, ranked, top_ranked,
};
use vstd::prelude::*;
use vstd::seq_lib::*;

verus! {

/// How many entries a collector reports.
pub const TOP_K: usize = 8;

/// `top` is a report on `inserted`: its keys are the `TOP_K` largest keys
/// inserted, from the largest down, and its entries are among those
/// inserted.
pub open spec fn is_top(top: Seq<EntryView>, inserted: Seq<EntryView>) -> bool {
    &&& keys(top) == top_ranked(keys(inserted), TOP_K as nat)
    &&& top.to_multiset().subset_of(inserted.to_multiset())
}

/// Something that takes entries and reports the highest-ranked of them.
pub trait Collector: Sized {
    /// The entries inserted so far, in the order they came.
    spec fn inserted(&self) -> Seq<EntryView>;

    /// The collector is in a state that `new` and `insert` lead to.
    spec fn well_formed(&self) -> bool;

    /// A collector without entries.
    fn new() -> (collector: Self)
        ensures
            collector.well_formed(),
            collector.inserted() == Seq::<EntryView>::empty(),
    ;

    /// Takes one entry.
    fn insert(&mut self, entry: Entry)
        requires
            old(self).well_formed(),
        ensures
            final(self).well_formed(),
            final(self).inserted() == old(self).inserted().push(entry@),
    ;

    /// The `TOP_K` highest-ranked entries inserted so far, from the highest
    /// down. The collector stays as it is.
    fn collect(&self) -> (top: Vec<Entry>)
        requires
            self.well_formed(),
        ensures
            is_top(views(top@), self.inserted()),
    ;
}

/// The buffered strategy: every entry is kept, and sorted when the top is
/// asked for.
pub struct VecCollector {
    vec: Vec<Entry>,
    max_size: usize,
}

impl Collector for VecCollector {
    closed spec fn inserted(&self) -> Seq<EntryView> {
        views(self.vec@)
    }

    closed spec fn well_formed(&self) -> bool {
        self.max_size == TOP_K
    }

    fn new() -> (collector: Self) {
        let collector = VecCollector { max_size: TOP_K, vec: Vec::new() };
        collector
    }

    fn insert(&mut self, entry: Entry) {
        self.vec.push(entry);
    }

    fn collect(&self) -> (top: Vec<Entry>) {
        let mut vec = clone_entries(&self.vec);
        sort_descending(&mut vec);
        let ghost sorted = vec@;
        vec.truncate(self.max_size);
        proof {
            let all = views(self.vec@);
            lemma_map_holds_same(views(sorted), all, |e: EntryView| e.key());
            lemma_ranked_unique(keys(views(sorted)), keys(all));
            if sorted.len() <= TOP_K {
                assert(vec@ =~= sorted);
            }
            lemma_prefix_is_top(sorted, vec@, all);
        }
        vec
    }
}

/// The front of a descending arrangement of `all` is a report on `all`.
proof fn lemma_prefix_is_top(sorted: Seq<Entry>, front: Seq<Entry>, all: Seq<EntryView>)
    requires
        keys(views(sorted)) == ranked(keys(all)),
        views(sorted).to_multiset() == all.to_multiset(),
        sorted.len() <= TOP_K ==> front == sorted,
        sorted.len() > TOP_K ==> front == sorted.subrange(0, TOP_K as int),
    ensures
        is_top(views(front), all),
{
    views(sorted).to_multiset_ensures();
    all.to_multiset_ensures();
    if sorted.len() > TOP_K {
        let k = TOP_K as int;
        assert(keys(views(front)) =~= keys(views(sorted)).take(k));
        lemma_multiset_commutative(views(sorted).take(k), views(sorted).skip(k));
        assert(views(sorted) =~= views(sorted).take(k) + views(sorted).skip(k));
        assert(views(front) =~= views(sorted).take(k));
    }
}

/// The streaming strategy: a min-heap of at most `TOP_K` entries, the
/// highest-ranked of those inserted so far.
pub struct HeapCollector {
    heap: Vec<Entry>,
    max_size: usize,
    seen: Ghost<Seq<EntryView>>,
}

impl Collector for HeapCollector {
    closed spec fn inserted(&self) -> Seq<EntryView> {
        self.seen@
    }

    closed spec fn well_formed(&self) -> bool {
        &&& self.max_size == TOP_K
        &&& self.heap@.len() <= self.max_size
        &&& is_heap(self.heap@, self.heap@.len() as int)
        &&& keys(views(self.heap@)).to_multiset() == top_ranked(
            keys(self.seen@),
            TOP_K as nat,
        ).to_multiset()
        &&& views(self.heap@).to_multiset().subset_of(self.seen@.to_multiset())
    }

    fn new() -> (collector: Self) {
        let collector = HeapCollector {
            heap: Vec::new(),
            max_size: TOP_K,
            seen: Ghost(Seq::empty()),
        };
        proof {
            let none = keys(Seq::<EntryView>::empty());
            lemma_ranked(none);
            assert(views(collector.heap@) =~= Seq::<EntryView>::empty());
        }
        collector
    }

    fn insert(&mut self, entry: Entry) {
        let ghost before = self.heap@;
        let ghost all = self.seen@;
        let ghost e = entry@;
        push(&mut self.heap, entry);
        let ghost pushed = self.heap@;
        proof {
            lemma_pushed_keys(before, pushed, e);
            to_multiset_build(all, e);
            assert(keys(all.push(e)) =~= keys(all).push(e.key()));
        }
        if self.heap.len() > self.max_size {
            let least = pop_min(&mut self.heap);
            proof {
                lemma_popped_keys(before, pushed, self.heap@, e, least@);
                lemma_top_after_evict(
                    keys(all),
                    keys(views(before)),
                    e.key(),
                    TOP_K as nat,
                    keys(views(self.heap@)),
                    least@.key(),
                );
            }
        } else {
            proof {
                lemma_top_while_room(keys(all), keys(views(before)), e.key(), TOP_K as nat);
            }
        }
        self.seen = Ghost(all.push(e));
    }

    fn collect(&self) -> (top: Vec<Entry>) {
        let mut top = clone_entries(&self.heap);
        proof {
            // the copy is a heap as well
            assert forall|k: int| 0 < k < top@.len() implies #[trigger] ordered_at(top@, k) by {
                assert(ordered_at(self.heap@, k));
                assert(views(top@)[k] == views(self.heap@)[k]);
                assert(views(top@)[parent(k)] == views(self.heap@)[parent(k)]);
            }
        }
        drain_descending(&mut top);
        proof {
            let all = keys(self.seen@);
            let best = top_ranked(all, TOP_K as nat);
            lemma_map_holds_same(views(top@), views(self.heap@), |e: EntryView| e.key());
            lemma_top_ranked(all, TOP_K as nat);
            lemma_ranked_unique(keys(views(top@)), best);
            lemma_ranked_unique(best, best);
        }
        top
    }
}

impl HeapCollector {
    /// The entries the collector holds on to.
    pub closed spec fn held(&self) -> Seq<EntryView> {
        views(self.heap@)
    }

    /// A streaming collector never holds more than `TOP_K` entries: they
    /// are among those inserted, and their keys are the largest so far.
    pub proof fn lemma_holds_the_top(&self)
        requires
            self.well_formed(),
        ensures
            self.held().len() <= TOP_K,
            self.held().to_multiset().subset_of(self.inserted().to_multiset()),
            keys(self.held()).to_multiset() == top_ranked(
                keys(self.inserted()),
                TOP_K as nat,
            ).to_multiset(),
    {
    }
}

/// The keys in a heap after a push are those before it and the new key.
proof fn lemma_pushed_keys(before: Seq<Entry>, pushed: Seq<Entry>, e: EntryView)
    requires
        views(pushed).to_multiset() == views(before).to_multiset().insert(e),
    ensures
        keys(views(pushed)).to_multiset() == keys(views(before)).push(e.key()).to_multiset(),
        keys(views(pushed)).to_multiset() == keys(views(before)).to_multiset().insert(e.key()),
{
    to_multiset_build(views(before), e);
    lemma_map_holds_same(views(pushed), views(before).push(e), |e: EntryView| e.key());
    assert(keys(views(before).push(e)) =~= keys(views(before)).push(e.key()));
    to_multiset_build(keys(views(before)), e.key());
}

/// What taking the lowest-ranked entry out of a heap after a push leaves.
proof fn lemma_popped_keys(
    before: Seq<Entry>,
    pushed: Seq<Entry>,
    kept: Seq<Entry>,
    e: EntryView,
    least: EntryView,
)
    requires
        views(pushed).to_multiset() == views(before).to_multiset().insert(e),
        views(pushed).to_multiset() == views(kept).to_multiset().insert(least),
        forall|i: int| 0 <= i < pushed.len() ==> least.key().at_most(#[trigger] pushed[i]@.key()),
    ensures
        keys(views(before)).to_multiset().insert(e.key()) == keys(views(kept)).to_multiset().insert(
            least.key(),
        ),
        least.key().at_most(e.key()),
        forall|i: int|
            0 <= i < before.len() ==> least.key().at_most(#[trigger] keys(views(before))[i]),
        views(kept).to_multiset().subset_of(views(pushed).to_multiset()),
{
    lemma_pushed_keys(before, pushed, e);
    lemma_pushed_keys(kept, pushed, least);
    views(pushed).to_multiset_ensures();
    views(before).to_multiset_ensures();
    assert(views(pushed).to_multiset().count(e) > 0);
    let ie = choose|ie: int| 0 <= ie < views(pushed).len() && views(pushed)[ie] == e;
    assert(pushed[ie]@ == e);
    assert forall|i: int| 0 <= i < before.len() implies least.key().at_most(
        #[trigger] keys(views(before))[i],
    ) by {
        let b = views(before)[i];
        assert(views(pushed).to_multiset().count(b) > 0);
        let ib = choose|ib: int| 0 <= ib < views(pushed).len() && views(pushed)[ib] == b;
        assert(pushed[ib]@ == b);
    }
}

/// No two different entries of `entries` have the same key. This holds of
/// entries with different paths.
pub open spec fn keys_tell_apart(entries: Seq<EntryView>) -> bool {
    forall|x: EntryView, y: EntryView|
        entries.contains(x) && entries.contains(y) && x.key() == y.key() ==> x == y
}

/// The report depends on which entries were inserted, not on the order they
/// came in. Two reports on the same entries have the same keys in the same
/// places, so their entries are pairwise equal under `==`. Where no two
/// different entries share a key, the reports are the same altogether.
pub proof fn lemma_order_invariance(
    first: Seq<EntryView>,
    second: Seq<EntryView>,
    top_first: Seq<EntryView>,
    top_second: Seq<EntryView>,
)
    requires
        first.to_multiset() == second.to_multiset(),
        is_top(top_first, first),
        is_top(top_second, second),
    ensures
        keys(top_first) == keys(top_second),
        top_first.len() == top_second.len(),
        forall|i: int| 0 <= i < top_first.len() ==> top_first[i].key() == top_second[i].key(),
        keys_tell_apart(first) ==> top_first == top_second,
{
    lemma_map_holds_same(first, second, |e: EntryView| e.key());
    lemma_top_ranked_of_permutation(keys(first), keys(second), TOP_K as nat);
    assert(keys(top_second).len() == top_second.len());
    assert forall|i: int| 0 <= i < top_first.len() implies top_first[i].key()
        == top_second[i].key() by {
        assert(keys(top_first)[i] == keys(top_second)[i]);
    }
    if keys_tell_apart(first) {
        first.to_multiset_ensures();
        top_first.to_multiset_ensures();
        top_second.to_multiset_ensures();
        assert forall|i: int| 0 <= i < top_first.len() implies top_first[i] == top_second[i] by {
            let x = top_first[i];
            let y = top_second[i];
            assert(first.to_multiset().count(x) > 0);
            assert(second.to_multiset().count(y) > 0);
        }
    }
}

/// The two strategies agree: a buffered and a streaming collector that were
/// given the same entries, in whatever order, report the same keys in the
/// same places.
pub proof fn lemma_strategies_agree(
    buffered: VecCollector,
    streaming: HeapCollector,
    top_buffered: Seq<EntryView>,
    top_streaming: Seq<EntryView>,
)
    requires
        buffered.inserted().to_multiset() == streaming.inserted().to_multiset(),
        is_top(top_buffered, buffered.inserted()),
        is_top(top_streaming, streaming.inserted()),
    ensures
        keys(top_buffered) == keys(top_streaming),
{
    lemma_order_invariance(
        buffered.inserted(),
        streaming.inserted(),
        top_buffered,
        top_streaming,
    );
}

} // verus!
