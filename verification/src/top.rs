//! The largest keys of a collection.
//!
//! `top_ranked(keys, k)` is the descending arrangement of `keys` cut off
//! after `k` places. The lemmas here show that it depends only on which keys
//! there are, not on their order, and how it changes when a key is added.

use crate::rank::{
    descending, lemma_at_most_transitive, lemma_descending_is_total_order, RankKey,
};
use vstd::prelude::*;
use vstd::relations::*;
use vstd::seq_lib::*;

verus! {

/// The keys from the largest down.
pub open spec fn ranked(keys: Seq<RankKey>) -> Seq<RankKey> {
    keys.sort_by(descending())
}

/// The `k` largest keys from the largest down, or all of them if there are
/// fewer than `k`.
pub open spec fn top_ranked(keys: Seq<RankKey>, k: nat) -> Seq<RankKey> {
    if keys.len() <= k {
        ranked(keys)
    } else {
        ranked(keys).take(k as int)
    }
}

/// `ranked(keys)` holds the keys of `keys`, each as often, in descending
/// order.
pub proof fn lemma_ranked(keys: Seq<RankKey>)
    ensures
        ranked(keys).to_multiset() == keys.to_multiset(),
        ranked(keys).len() == keys.len(),
        sorted_by(ranked(keys), descending()),
{
    lemma_descending_is_total_order();
    keys.lemma_sort_by_ensures(descending());
    keys.to_multiset_ensures();
    ranked(keys).to_multiset_ensures();
}

/// A descending arrangement of the keys of `keys` is `ranked(keys)`: there
/// is only one.
pub proof fn lemma_ranked_unique(s: Seq<RankKey>, keys: Seq<RankKey>)
    requires
        sorted_by(s, descending()),
        s.to_multiset() == keys.to_multiset(),
    ensures
        s == ranked(keys),
{
    lemma_descending_is_total_order();
    lemma_ranked(keys);
    lemma_sorted_unique(s, ranked(keys), descending());
}

/// The top `k` do not depend on the order of the keys: two runs that hold
/// the same keys have the same top `k`.
pub proof fn lemma_top_ranked_of_permutation(a: Seq<RankKey>, b: Seq<RankKey>, k: nat)
    requires
        a.to_multiset() == b.to_multiset(),
    ensures
        top_ranked(a, k) == top_ranked(b, k),
{
    lemma_ranked(a);
    lemma_ranked_unique(ranked(a), b);
    a.to_multiset_ensures();
    b.to_multiset_ensures();
}

/// What `top_ranked` is made of: `min(k, len)` keys of `keys`, in descending
/// order.
pub proof fn lemma_top_ranked(keys: Seq<RankKey>, k: nat)
    ensures
        top_ranked(keys, k).len() == if keys.len() <= k {
            keys.len()
        } else {
            k
        },
        sorted_by(top_ranked(keys, k), descending()),
        top_ranked(keys, k).to_multiset().subset_of(keys.to_multiset()),
{
    lemma_ranked(keys);
    if keys.len() > k {
        let r = ranked(keys);
        lemma_multiset_commutative(r.take(k as int), r.skip(k as int));
        assert(r =~= r.take(k as int) + r.skip(k as int));
    }
}

/// If the keys of `all` are split into `a` and `b` so that no key of `b`
/// ranks above a key of `a`, then the keys of `a` are the `a.len()` largest.
pub proof fn lemma_split_top(all: Seq<RankKey>, a: Seq<RankKey>, b: Seq<RankKey>)
    requires
        a.to_multiset().add(b.to_multiset()) == all.to_multiset(),
        forall|i: int, j: int|
            0 <= i < a.len() && 0 <= j < b.len() ==> (#[trigger] b[j]).at_most(#[trigger] a[i]),
    ensures
        a.len() <= all.len(),
        ranked(a) == ranked(all).take(a.len() as int),
        ranked(b) == ranked(all).skip(a.len() as int),
{
    lemma_ranked(a);
    lemma_ranked(b);
    let sa = ranked(a);
    let sb = ranked(b);
    let c = sa + sb;
    lemma_multiset_commutative(sa, sb);
    assert forall|i: int, j: int| 0 <= i < j < c.len() implies #[trigger] descending()(
        c[i],
        c[j],
    ) by {
        if i < sa.len() <= j {
            // `c[i]` is a key of `a`, and `c[j]` one of `b`
            let x = sa[i];
            let y = sb[j - sa.len()];
            sa.to_multiset_ensures();
            sb.to_multiset_ensures();
            a.to_multiset_ensures();
            b.to_multiset_ensures();
            assert(a.to_multiset().count(x) > 0);
            assert(b.to_multiset().count(y) > 0);
            let ia = choose|ia: int| 0 <= ia < a.len() && a[ia] == x;
            let ib = choose|ib: int| 0 <= ib < b.len() && b[ib] == y;
            assert(b[ib].at_most(a[ia]));
        }
    }
    lemma_ranked_unique(c, all);
    all.to_multiset_ensures();
    c.to_multiset_ensures();
}

/// While fewer than `k` keys are held, the top `k` are all keys, and a new
/// key joins them.
pub proof fn lemma_top_while_room(all: Seq<RankKey>, held: Seq<RankKey>, x: RankKey, k: nat)
    requires
        held.len() < k,
        held.to_multiset() == top_ranked(all, k).to_multiset(),
    ensures
        held.push(x).to_multiset() == top_ranked(all.push(x), k).to_multiset(),
{
    held.to_multiset_ensures();
    top_ranked(all, k).to_multiset_ensures();
    lemma_ranked(all);
    lemma_ranked(all.push(x));
    to_multiset_build(all, x);
}

/// With `k` keys held, adding a key and taking out a lowest-ranked one
/// leaves the top `k` of all keys so far.
pub proof fn lemma_top_after_evict(
    all: Seq<RankKey>,
    held: Seq<RankKey>,
    x: RankKey,
    k: nat,
    kept: Seq<RankKey>,
    least: RankKey,
)
    requires
        held.len() == k,
        held.to_multiset() == top_ranked(all, k).to_multiset(),
        held.to_multiset().insert(x) == kept.to_multiset().insert(least),
        least.at_most(x),
        forall|i: int| 0 <= i < held.len() ==> least.at_most(#[trigger] held[i]),
    ensures
        kept.to_multiset() == top_ranked(all.push(x), k).to_multiset(),
{
    let r = ranked(all);
    let t = top_ranked(all, k);
    lemma_ranked(all);
    held.to_multiset_ensures();
    kept.to_multiset_ensures();
    t.to_multiset_ensures();
    let d = r.skip(k as int);
    let b = d.push(least);
    let all2 = all.push(x);
    // the keys held so far and the ones dropped so far make up all keys
    lemma_multiset_commutative(r.take(k as int), d);
    assert(r =~= r.take(k as int) + d);
    to_multiset_build(d, least);
    to_multiset_build(all, x);
    assert(kept.to_multiset().add(b.to_multiset()) =~= all2.to_multiset()) by {
        assert(held.to_multiset().insert(x).add(d.to_multiset()) =~= held.to_multiset().add(
            d.to_multiset(),
        ).insert(x));
    }
    assert(kept.len() == k) by {
        assert(kept.to_multiset().insert(least).len() == kept.len() + 1);
    }
    assert forall|i: int, j: int| 0 <= i < kept.len() && 0 <= j < b.len() implies (
    #[trigger] b[j]).at_most(#[trigger] kept[i]) by {
        // a key that is kept was held before or is the new key
        let a = kept[i];
        assert(held.to_multiset().insert(x).count(a) > 0);
        if j < d.len() {
            // `b[j]` was dropped earlier: it ranks no higher than anything held then
            if held.to_multiset().count(a) > 0 {
                let ia = choose|ia: int| 0 <= ia < t.len() && t[ia] == a;
                assert(descending()(r[ia], r[k + j]));
            } else {
                // `a` is the new key, so the key taken out was held before
                assert(held.to_multiset().insert(x).count(least) > 0);
                let il = choose|il: int| 0 <= il < t.len() && t[il] == least;
                assert(descending()(r[il], r[k + j]));
                lemma_at_most_transitive(b[j], least, a);
            }
        }
    }
    lemma_split_top(all2, kept, b);
    lemma_ranked(kept);
}

/// Applying `f` to each element of two runs that hold the same elements
/// gives runs that hold the same elements.
pub proof fn lemma_map_holds_same<A, B>(a: Seq<A>, b: Seq<A>, f: spec_fn(A) -> B)
    requires
        a.to_multiset() == b.to_multiset(),
    ensures
        a.map_values(f).to_multiset() == b.map_values(f).to_multiset(),
    decreases a.len(),
{
    a.to_multiset_ensures();
    b.to_multiset_ensures();
    if a.len() == 0 {
        assert(a.map_values(f) =~= b.map_values(f));
    } else {
        let x = a.last();
        assert(a.to_multiset().count(x) > 0);
        let j = choose|j: int| 0 <= j < b.len() && b[j] == x;
        let a1 = a.drop_last();
        let b1 = b.remove(j);
        to_multiset_remove(a, a.len() - 1);
        lemma_map_holds_same(a1, b1, f);
        assert(a.map_values(f) =~= a1.map_values(f).push(f(x)));
        assert(b.map_values(f) =~= b1.map_values(f).insert(j, f(x)));
        to_multiset_build(a1.map_values(f), f(x));
        to_multiset_insert(b1.map_values(f), j, f(x));
    }
}

} // verus!
