//! Lexicographic order on byte strings, the order in which the table keeps its keys.

use vstd::prelude::*;

verus! {

/// `a` and `b` agree on their first `k` bytes.
pub open spec fn common_prefix(a: Seq<u8>, b: Seq<u8>, k: int) -> bool {
    &&& 0 <= k <= a.len()
    &&& k <= b.len()
    &&& forall|i: int| 0 <= i < k ==> a[i] == b[i]
}

/// `a` comes strictly before `b` in lexicographic order on raw bytes: at the first
/// place where they part, either `a` has ended or `a` holds the smaller byte.
pub open spec fn key_lt(a: Seq<u8>, b: Seq<u8>) -> bool {
    exists|k: int| #[trigger]
        common_prefix(a, b, k) && k < b.len() && (k == a.len() || a[k] < b[k])
}

/// How two keys stand to each other.
#[derive(Clone, Copy, Debug, PartialEq, Eq, Structural)]
pub enum KeyOrder {
    Before,
    Same,
    After,
}

/// The order is irreflexive and asymmetric: of `a < b`, `a == b` and `b < a` at most one holds.
pub proof fn lemma_key_lt_asymmetric(a: Seq<u8>, b: Seq<u8>)
    requires
        key_lt(a, b),
    ensures
        a != b,
        !key_lt(b, a),
{
    let k = choose|k: int| #[trigger]
        common_prefix(a, b, k) && k < b.len() && (k == a.len() || a[k] < b[k]);
    if key_lt(b, a) {
        let m = choose|m: int| #[trigger]
            common_prefix(b, a, m) && m < a.len() && (m == b.len() || b[m] < a[m]);
        if k < m {
            assert(b[k] == a[k]);
        } else if m < k {
            assert(a[m] == b[m]);
        }
    }
}

/// The order is transitive.
pub proof fn lemma_key_lt_transitive(a: Seq<u8>, b: Seq<u8>, c: Seq<u8>)
    requires
        key_lt(a, b),
        key_lt(b, c),
    ensures
        key_lt(a, c),
{
    let k = choose|k: int| #[trigger]
        common_prefix(a, b, k) && k < b.len() && (k == a.len() || a[k] < b[k]);
    let m = choose|m: int| #[trigger]
        common_prefix(b, c, m) && m < c.len() && (m == b.len() || b[m] < c[m]);
    let n = if k <= m { k } else { m };
    assert(common_prefix(a, c, n));
}

/// The order is total: two keys are equal or one comes before the other.
pub proof fn lemma_key_lt_total(a: Seq<u8>, b: Seq<u8>)
    ensures
        key_lt(a, b) || a == b || key_lt(b, a),
{
    lemma_first_difference(a, b, 0);
}

/// From a common prefix of length `k` on, the keys part somewhere or are equal.
proof fn lemma_first_difference(a: Seq<u8>, b: Seq<u8>, k: int)
    requires
        common_prefix(a, b, k),
    ensures
        key_lt(a, b) || a == b || key_lt(b, a),
    decreases a.len() - k,
{
    if k == a.len() {
        if k == b.len() {
            assert(a =~= b);
        } else {
            assert(common_prefix(a, b, k));
        }
    } else if k == b.len() {
        assert(common_prefix(b, a, k));
    } else if a[k] == b[k] {
        assert(common_prefix(a, b, k + 1));
        lemma_first_difference(a, b, k + 1);
    } else if a[k] < b[k] {
        assert(common_prefix(a, b, k));
    } else {
        assert(common_prefix(b, a, k));
    }
}

/// Compares two keys byte by byte.
pub fn compare_keys(a: &[u8], b: &[u8]) -> (order: KeyOrder)
    ensures
        order == KeyOrder::Before <==> key_lt(a@, b@),
        order == KeyOrder::Same <==> a@ == b@,
        order == KeyOrder::After <==> key_lt(b@, a@),
{
    let mut i: usize = 0;
    while i < a.len() && i < b.len()
        invariant
            common_prefix(a@, b@, i as int),
        decreases a.len() - i,
    {
        if a[i] < b[i] {
            proof {
                lemma_key_lt_asymmetric(a@, b@);
            }
            return KeyOrder::Before;
        }
        if a[i] > b[i] {
            proof {
                assert(common_prefix(b@, a@, i as int));
                lemma_key_lt_asymmetric(b@, a@);
            }
            return KeyOrder::After;
        }
        i += 1;
    }
    if i < b.len() {
        proof {
            lemma_key_lt_asymmetric(a@, b@);
        }
        KeyOrder::Before
    } else if i < a.len() {
        proof {
            assert(common_prefix(b@, a@, i as int));
            lemma_key_lt_asymmetric(b@, a@);
        }
        KeyOrder::After
    } else {
        proof {
            assert(a@ =~= b@);
            if key_lt(a@, b@) {
                lemma_key_lt_asymmetric(a@, b@);
            }
            if key_lt(b@, a@) {
                lemma_key_lt_asymmetric(b@, a@);
            }
        }
        KeyOrder::Same
    }
}

} // verus!
