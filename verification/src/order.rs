//! Lexicographic order on byte strings, the order in which the table keeps
//! its keys.
use vstd::prelude::*;

verus! {

/// Result of comparing two byte strings.
#[derive(Clone, Copy, Debug, PartialEq, Eq, Structural)]
pub enum KeyOrder {
    Less,
    Equal,
    Greater,
}

/// `a` comes strictly before `b` when the two agree before position `i`
/// and are compared from position `i` on.
pub open spec fn lt_from(a: Seq<u8>, b: Seq<u8>, i: int) -> bool
    decreases a.len() - i,
{
    if i < 0 || i >= a.len() {
        0 <= i < b.len()
    } else if i >= b.len() {
        false
    } else if a[i] < b[i] {
        true
    } else if a[i] > b[i] {
        false
    } else {
        lt_from(a, b, i + 1)
    }
}

/// Strict lexicographic order: `a` is a proper prefix of `b`, or at the
/// first position where they differ `a` has the smaller byte.
pub open spec fn bytes_lt(a: Seq<u8>, b: Seq<u8>) -> bool {
    lt_from(a, b, 0)
}

proof fn lemma_lt_from_irreflexive(a: Seq<u8>, i: int)
    requires
        0 <= i,
    ensures
        !lt_from(a, a, i),
    decreases a.len() - i,
{
    if i < a.len() {
        lemma_lt_from_irreflexive(a, i + 1);
    }
}

proof fn lemma_lt_from_transitive(a: Seq<u8>, b: Seq<u8>, c: Seq<u8>, i: int)
    requires
        0 <= i,
        lt_from(a, b, i),
        lt_from(b, c, i),
    ensures
        lt_from(a, c, i),
    decreases a.len() - i,
{
    if i < a.len() && i < b.len() && i < c.len() && a[i] == b[i] && b[i] == c[i] {
        lemma_lt_from_transitive(a, b, c, i + 1);
    }
}

proof fn lemma_lt_from_asymmetric(a: Seq<u8>, b: Seq<u8>, i: int)
    requires
        0 <= i,
        lt_from(a, b, i),
    ensures
        !lt_from(b, a, i),
    decreases a.len() - i,
{
    if i < a.len() && i < b.len() && a[i] == b[i] {
        lemma_lt_from_asymmetric(a, b, i + 1);
    }
}

/// No byte string comes before itself.
pub proof fn lemma_bytes_lt_irreflexive(a: Seq<u8>)
    ensures
        !bytes_lt(a, a),
{
    lemma_lt_from_irreflexive(a, 0);
}

/// The order is transitive.
pub proof fn lemma_bytes_lt_transitive(a: Seq<u8>, b: Seq<u8>, c: Seq<u8>)
    requires
        bytes_lt(a, b),
        bytes_lt(b, c),
    ensures
        bytes_lt(a, c),
{
    lemma_lt_from_transitive(a, b, c, 0);
}

proof fn lemma_lt_from_first_difference(a: Seq<u8>, b: Seq<u8>, i: int, d: int)
    requires
        0 <= i <= d < a.len(),
        d < b.len(),
        forall|j: int| 0 <= j < d ==> a[j] == b[j],
        a[d] < b[d],
    ensures
        lt_from(a, b, i),
        !lt_from(b, a, i),
    decreases d - i,
{
    if i < d {
        lemma_lt_from_first_difference(a, b, i + 1, d);
    }
}

proof fn lemma_lt_from_proper_prefix(a: Seq<u8>, b: Seq<u8>, i: int)
    requires
        0 <= i <= a.len(),
        a.len() < b.len(),
        forall|j: int| 0 <= j < a.len() ==> a[j] == b[j],
    ensures
        lt_from(a, b, i),
        !lt_from(b, a, i),
    decreases a.len() - i,
{
    if i < a.len() {
        lemma_lt_from_proper_prefix(a, b, i + 1);
    }
}

/// Byte strings are ordered by their first differing byte, wherever it
/// stands: if `a` and `b` agree before position `d` and `a[d] < b[d]`, then
/// `a` comes strictly before `b`.
pub proof fn lemma_bytes_lt_first_difference(a: Seq<u8>, b: Seq<u8>, d: int)
    requires
        0 <= d < a.len(),
        d < b.len(),
        forall|j: int| 0 <= j < d ==> a[j] == b[j],
        a[d] < b[d],
    ensures
        bytes_lt(a, b),
        !bytes_lt(b, a),
{
    lemma_lt_from_first_difference(a, b, 0, d);
}

/// A proper prefix comes strictly before the longer string.
pub proof fn lemma_bytes_lt_proper_prefix(a: Seq<u8>, b: Seq<u8>)
    requires
        a.len() < b.len(),
        forall|j: int| 0 <= j < a.len() ==> a[j] == b[j],
    ensures
        bytes_lt(a, b),
        !bytes_lt(b, a),
{
    lemma_lt_from_proper_prefix(a, b, 0);
}

/// Compares two byte strings lexicographically, as `<[u8] as Ord>::cmp` does.
pub fn compare_keys(a: &[u8], b: &[u8]) -> (r: KeyOrder)
    ensures
        r == KeyOrder::Less <==> bytes_lt(a@, b@),
        r == KeyOrder::Equal <==> a@ == b@,
        r == KeyOrder::Greater <==> bytes_lt(b@, a@),
{
    let mut i: usize = 0;
    while i < a.len() && i < b.len()
        invariant
            i <= a@.len(),
            i <= b@.len(),
            forall|j: int| 0 <= j < i ==> a@[j] == b@[j],
            lt_from(a@, b@, 0) == lt_from(a@, b@, i as int),
            lt_from(b@, a@, 0) == lt_from(b@, a@, i as int),
        decreases a@.len() - i,
    {
        if a[i] < b[i] {
            proof {
                lemma_lt_from_asymmetric(a@, b@, i as int);
            }
            assert(a@[i as int] != b@[i as int]);
            return KeyOrder::Less;
        } else if a[i] > b[i] {
            proof {
                lemma_lt_from_asymmetric(b@, a@, i as int);
            }
            assert(a@[i as int] != b@[i as int]);
            return KeyOrder::Greater;
        }
        i = i + 1;
    }
    if a.len() < b.len() {
        assert(a@.len() != b@.len());
        KeyOrder::Less
    } else if a.len() > b.len() {
        assert(a@.len() != b@.len());
        KeyOrder::Greater
    } else {
        assert(a@ =~= b@);
        proof {
            lemma_lt_from_irreflexive(a@, i as int);
        }
        KeyOrder::Equal
    }
}

} // verus!
