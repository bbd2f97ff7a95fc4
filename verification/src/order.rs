//! Orders: what it takes to be sorted by, and the lexicographic order on byte
//! strings.

use vstd::prelude::*;
use vstd::relations::total_ordering;

verus! {

/// A key that items are sorted and bucketed by: any two keys compare, and the
/// comparison is transitive. Two keys may be of the same rank without being
/// equal.
pub trait Ranked: Sized {
    /// Whether this key comes no later than the other.
    spec fn at_most(self, other: Self) -> bool;

    /// Any two keys compare.
    proof fn lemma_total(a: Self, b: Self)
        ensures
            a.at_most(b) || b.at_most(a),
    ;

    /// The order is transitive.
    proof fn lemma_transitive(a: Self, b: Self, c: Self)
        requires
            a.at_most(b),
            b.at_most(c),
        ensures
            a.at_most(c),
    ;

    /// Whether this key comes no later than the other.
    fn is_at_most(&self, other: &Self) -> (r: bool)
        ensures
            r == self.at_most(*other),
    ;
}

/// Whether two keys come neither before nor after each other.
pub open spec fn same_rank<K: Ranked>(a: K, b: K) -> bool {
    a.at_most(b) && b.at_most(a)
}

/// Whether the first key comes strictly before the second.
pub open spec fn precedes<K: Ranked>(a: K, b: K) -> bool {
    a.at_most(b) && !b.at_most(a)
}

impl Ranked for u64 {
    open spec fn at_most(self, other: u64) -> bool {
        self <= other
    }

    proof fn lemma_total(a: u64, b: u64) {
    }

    proof fn lemma_transitive(a: u64, b: u64, c: u64) {
    }

    fn is_at_most(&self, other: &u64) -> (r: bool) {
        *self <= *other
    }
}

/// The lexicographic order on sequences that an order on their items gives:
/// the first difference decides, and a proper prefix comes first.
pub open spec fn lex_at_most<A>(a: Seq<A>, b: Seq<A>, item_at_most: spec_fn(A, A) -> bool) -> bool
    decreases a.len(),
{
    if a.len() == 0 {
        true
    } else if b.len() == 0 {
        false
    } else if a[0] == b[0] {
        lex_at_most(a.drop_first(), b.drop_first(), item_at_most)
    } else {
        item_at_most(a[0], b[0])
    }
}

/// The order on bytes by their value.
pub open spec fn byte_order() -> spec_fn(u8, u8) -> bool {
    |x: u8, y: u8| x <= y
}

/// The lexicographic order on byte strings.
pub open spec fn bytes_at_most(a: Seq<u8>, b: Seq<u8>) -> bool {
    lex_at_most(a, b, byte_order())
}

/// The lexicographic order is total.
pub proof fn lemma_lex_total<A>(a: Seq<A>, b: Seq<A>, item_at_most: spec_fn(A, A) -> bool)
    requires
        total_ordering(item_at_most),
    ensures
        lex_at_most(a, b, item_at_most) || lex_at_most(b, a, item_at_most),
    decreases a.len(),
{
    if a.len() > 0 && b.len() > 0 {
        if a[0] == b[0] {
            lemma_lex_total(a.drop_first(), b.drop_first(), item_at_most);
        } else {
            assert(item_at_most(a[0], b[0]) || item_at_most(b[0], a[0]));
        }
    }
}

/// Sequences that come no later than each other are equal.
pub proof fn lemma_lex_antisymmetric<A>(
    a: Seq<A>,
    b: Seq<A>,
    item_at_most: spec_fn(A, A) -> bool,
)
    requires
        total_ordering(item_at_most),
        lex_at_most(a, b, item_at_most),
        lex_at_most(b, a, item_at_most),
    ensures
        a == b,
    decreases a.len(),
{
    if a.len() > 0 && b.len() > 0 {
        if a[0] == b[0] {
            lemma_lex_antisymmetric(a.drop_first(), b.drop_first(), item_at_most);
            assert(a == seq![a[0]] + a.drop_first());
            assert(b == seq![b[0]] + b.drop_first());
        } else {
            assert(item_at_most(a[0], b[0]) && item_at_most(b[0], a[0]));
        }
    } else {
        assert(a == b);
    }
}

/// A sequence comes no later than itself.
pub proof fn lemma_lex_reflexive<A>(a: Seq<A>, item_at_most: spec_fn(A, A) -> bool)
    ensures
        lex_at_most(a, a, item_at_most),
    decreases a.len(),
{
    if a.len() > 0 {
        lemma_lex_reflexive(a.drop_first(), item_at_most);
    }
}

/// The lexicographic order is transitive.
pub proof fn lemma_lex_transitive<A>(
    a: Seq<A>,
    b: Seq<A>,
    c: Seq<A>,
    item_at_most: spec_fn(A, A) -> bool,
)
    requires
        total_ordering(item_at_most),
        lex_at_most(a, b, item_at_most),
        lex_at_most(b, c, item_at_most),
    ensures
        lex_at_most(a, c, item_at_most),
    decreases a.len(),
{
    if a.len() > 0 {
        if a[0] == b[0] && b[0] == c[0] {
            lemma_lex_transitive(a.drop_first(), b.drop_first(), c.drop_first(), item_at_most);
        } else if a[0] != b[0] && b[0] != c[0] {
            assert(item_at_most(a[0], b[0]) && item_at_most(b[0], c[0]));
            assert(item_at_most(a[0], c[0]));
            if a[0] == c[0] {
                assert(item_at_most(b[0], a[0]));
            }
        }
    }
}

/// The order on bytes is a total order.
pub proof fn lemma_byte_order()
    ensures
        total_ordering(byte_order()),
{
}

/// Whether the first byte string comes no later than the second.
pub fn compare_bytes(a: &[u8], b: &[u8]) -> (r: bool)
    ensures
        r == bytes_at_most(a@, b@),
{
    let mut i: usize = 0;
    assert(a@.skip(0) == a@ && b@.skip(0) == b@);
    while i < a.len() && i < b.len()
        invariant
            i <= a.len(),
            i <= b.len(),
            bytes_at_most(a@, b@) == bytes_at_most(a@.skip(i as int), b@.skip(i as int)),
        decreases a.len() - i,
    {
        if a[i] != b[i] {
            return a[i] < b[i];
        }
        assert(a@.skip(i as int).drop_first() == a@.skip(i + 1));
        assert(b@.skip(i as int).drop_first() == b@.skip(i + 1));
        i = i + 1;
    }
    i == a.len()
}

/// Sequences with a common start compare as what follows it does.
pub proof fn lemma_lex_common_start<A>(
    a: Seq<A>,
    b: Seq<A>,
    item_at_most: spec_fn(A, A) -> bool,
    n: int,
)
    requires
        0 <= n <= a.len(),
        n <= b.len(),
        a.take(n) == b.take(n),
    ensures
        lex_at_most(a, b, item_at_most) == lex_at_most(a.skip(n), b.skip(n), item_at_most),
    decreases n,
{
    if n == 0 {
        assert(a.skip(0) == a && b.skip(0) == b);
    } else {
        assert(a[0] == a.take(n)[0] && b[0] == b.take(n)[0]);
        let x = a.drop_first();
        let y = b.drop_first();
        assert(x.take(n - 1) == a.take(n).drop_first());
        assert(y.take(n - 1) == b.take(n).drop_first());
        lemma_lex_common_start(x, y, item_at_most, n - 1);
        assert(x.skip(n - 1) == a.skip(n) && y.skip(n - 1) == b.skip(n));
    }
}

/// Of two byte strings that first differ at a byte, the one with the
/// numerically smaller byte there comes first.
pub proof fn law_first_different_byte_decides(a: Seq<u8>, b: Seq<u8>, n: int)
    requires
        0 <= n < a.len(),
        n < b.len(),
        forall|i: int| 0 <= i < n ==> #[trigger] a[i] == b[i],
        a[n] < b[n],
    ensures
        bytes_at_most(a, b),
        !bytes_at_most(b, a),
{
    assert(a.take(n) == b.take(n));
    lemma_lex_common_start(a, b, byte_order(), n);
    lemma_lex_common_start(b, a, byte_order(), n);
    assert(a.skip(n)[0] == a[n] && b.skip(n)[0] == b[n]);
}

/// A byte string comes before any longer one that starts with it.
pub proof fn law_shorter_byte_string_comes_first(a: Seq<u8>, b: Seq<u8>)
    requires
        a.len() < b.len(),
        forall|i: int| 0 <= i < a.len() ==> #[trigger] a[i] == b[i],
    ensures
        bytes_at_most(a, b),
        !bytes_at_most(b, a),
{
    let n = a.len() as int;
    assert(a.take(n) == b.take(n));
    lemma_lex_common_start(a, b, byte_order(), n);
    lemma_lex_common_start(b, a, byte_order(), n);
}

} // verus!
