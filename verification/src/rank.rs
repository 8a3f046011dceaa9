//! The order entries are ranked by.
//!
//! An entry is ranked by a key of three parts, compared in turn: the size it
//! has once its largest child is set aside, its total size, and the bytes of
//! its path. The order on keys is total, so a set of keys has exactly one
//! descending arrangement.

use vstd::prelude::*;
use vstd::relations::*;

verus! {

/// What an entry is ranked by.
#[verifier::ext_equal]
pub struct RankKey {
    /// Size without the largest child.
    pub rank: u64,
    /// Total size.
    pub total: u64,
    /// The path as UTF-8 bytes.
    pub path: Seq<u8>,
}

/// Strict lexicographic order on byte strings: a proper prefix comes first,
/// otherwise the first differing byte decides.
pub open spec fn bytes_below(a: Seq<u8>, b: Seq<u8>) -> bool
    decreases a.len(),
{
    if b.len() == 0 {
        false
    } else if a.len() == 0 {
        true
    } else if a[0] != b[0] {
        a[0] < b[0]
    } else {
        bytes_below(a.drop_first(), b.drop_first())
    }
}

impl RankKey {
    /// `self` ranks strictly below `other`.
    pub open spec fn below(self, other: RankKey) -> bool {
        ||| self.rank < other.rank
        ||| self.rank == other.rank && self.total < other.total
        ||| self.rank == other.rank && self.total == other.total && bytes_below(
            self.path,
            other.path,
        )
    }

    /// `self` does not rank above `other`.
    pub open spec fn at_most(self, other: RankKey) -> bool {
        !other.below(self)
    }
}

/// The relation "`a` comes no later than `b`" of a descending arrangement.
pub open spec fn descending() -> spec_fn(RankKey, RankKey) -> bool {
    |a: RankKey, b: RankKey| b.at_most(a)
}

/// Whether `a` comes strictly before `b` in the lexicographic order on bytes.
pub fn bytes_precede(a: &[u8], b: &[u8]) -> (r: bool)
    ensures
        r == bytes_below(a@, b@),
{
    let mut i: usize = 0;
    assert(a@.skip(0) =~= a@ && b@.skip(0) =~= b@);
    while i < a.len() && i < b.len()
        invariant
            i <= a@.len(),
            i <= b@.len(),
            bytes_below(a@, b@) == bytes_below(a@.skip(i as int), b@.skip(i as int)),
        decreases a@.len() - i,
    {
        let ghost ra = a@.skip(i as int);
        let ghost rb = b@.skip(i as int);
        assert(ra.drop_first() =~= a@.skip(i + 1));
        assert(rb.drop_first() =~= b@.skip(i + 1));
        if a[i] != b[i] {
            return a[i] < b[i];
        }
        i += 1;
    }
    i < b.len()
}

/// No byte string is below itself.
pub proof fn lemma_bytes_irreflexive(a: Seq<u8>)
    ensures
        !bytes_below(a, a),
    decreases a.len(),
{
    if a.len() > 0 {
        lemma_bytes_irreflexive(a.drop_first());
    }
}

/// Of two different byte strings one is below the other.
pub proof fn lemma_bytes_connected(a: Seq<u8>, b: Seq<u8>)
    ensures
        a == b || bytes_below(a, b) || bytes_below(b, a),
    decreases a.len(),
{
    if a.len() > 0 && b.len() > 0 && a[0] == b[0] {
        lemma_bytes_connected(a.drop_first(), b.drop_first());
        if a.drop_first() == b.drop_first() {
            assert(b =~= seq![b[0]] + b.drop_first());
        }
    }
}

/// The order on byte strings is transitive.
pub proof fn lemma_bytes_transitive(a: Seq<u8>, b: Seq<u8>, c: Seq<u8>)
    requires
        bytes_below(a, b),
        bytes_below(b, c),
    ensures
        bytes_below(a, c),
    decreases a.len(),
{
    if a.len() > 0 && a[0] == b[0] && b[0] == c[0] {
        lemma_bytes_transitive(a.drop_first(), b.drop_first(), c.drop_first());
    }
}

/// No key ranks below itself.
pub proof fn lemma_below_irreflexive(a: RankKey)
    ensures
        !a.below(a),
{
    lemma_bytes_irreflexive(a.path);
}

/// Ranking below is transitive.
pub proof fn lemma_below_transitive(a: RankKey, b: RankKey, c: RankKey)
    requires
        a.below(b),
        b.below(c),
    ensures
        a.below(c),
{
    if a.rank == b.rank && b.rank == c.rank && a.total == b.total && b.total == c.total {
        lemma_bytes_transitive(a.path, b.path, c.path);
    }
}

/// Exactly one holds of two keys: the first ranks below the second, they are
/// the same key, or the second ranks below the first.
pub proof fn lemma_trichotomy(a: RankKey, b: RankKey)
    ensures
        a.below(b) || a == b || b.below(a),
        !(a.below(b) && b.below(a)),
        a == b ==> !a.below(b) && !b.below(a),
{
    lemma_bytes_connected(a.path, b.path);
    lemma_below_irreflexive(a);
    if a.below(b) && b.below(a) {
        lemma_below_transitive(a, b, a);
    }
}

/// A key that ranks below another does not rank above it.
pub proof fn lemma_below_is_at_most(a: RankKey, b: RankKey)
    requires
        a.below(b),
    ensures
        a.at_most(b),
{
    lemma_trichotomy(a, b);
}

/// "Does not rank above" is transitive.
pub proof fn lemma_at_most_transitive(a: RankKey, b: RankKey, c: RankKey)
    requires
        a.at_most(b),
        b.at_most(c),
    ensures
        a.at_most(c),
{
    lemma_trichotomy(a, b);
    lemma_trichotomy(b, c);
    if c.below(a) && a != b && b != c {
        lemma_below_transitive(a, b, c);
        lemma_below_transitive(a, c, a);
        lemma_below_irreflexive(a);
    }
}

/// The descending relation is a total order on keys.
pub proof fn lemma_descending_is_total_order()
    ensures
        total_ordering(descending()),
{
    let r = descending();
    assert forall|x: RankKey| #[trigger] r(x, x) by {
        lemma_below_irreflexive(x);
    }
    assert forall|x: RankKey, y: RankKey| #[trigger] r(x, y) && #[trigger] r(y, x) implies x
        == y by {
        lemma_trichotomy(x, y);
    }
    assert forall|x: RankKey, y: RankKey, z: RankKey| #[trigger] r(x, y) && #[trigger] r(
        y,
        z,
    ) implies r(x, z) by {
        lemma_at_most_transitive(z, y, x);
    }
    assert forall|x: RankKey, y: RankKey| #[trigger] r(x, y) || #[trigger] r(y, x) by {
        lemma_trichotomy(x, y);
    }
}

} // verus!
