use vstd::prelude::*;

use itertools::Itertools;

pub mod fish;
pub mod hidden_single;
pub mod hidden_subset;
pub mod jellyfish;
pub mod locked;
pub mod locked_candidate;
pub mod naked_single;
pub mod naked_subset;
pub mod pointing_tuple;
pub mod swordfish;
pub mod xwing;
pub mod ywing;

pub use self::hidden_single::HiddenSingle;
pub use self::hidden_subset::HiddenSubset;
pub use self::jellyfish::Jellyfish;
pub use self::locked_candidate::LockedCandidate;
pub use self::naked_single::NakedSingle;
pub use self::naked_subset::NakedSubset;
pub use self::pointing_tuple::PointingTuple;
pub use self::swordfish::Swordfish;
pub use self::xwing::XWing;
pub use self::ywing::YWing;

verus! {

/// `c` is a strictly increasing sequence of `k` values below `n`.
pub open spec fn is_combination(c: Seq<usize>, n: int, k: int) -> bool {
    &&& c.len() == k
    &&& forall|a: int, b: int| 0 <= a < b < k ==> c[a] < c[b]
    &&& forall|a: int| 0 <= a < k ==> #[trigger] c[a] < n
}

/// Sequence `a` comes before sequence `b` in lexicographic order.
pub open spec fn lex_less(a: Seq<usize>, b: Seq<usize>) -> bool {
    exists|i: int|
        0 <= i < a.len() && i < b.len() && #[trigger] a[i] < b[i] && forall|j: int| 0 <= j < i ==> a[j] == b[j]
}

/// Lexicographic order is asymmetric.
pub proof fn lemma_lex_asymmetric(a: Seq<usize>, b: Seq<usize>)
    requires
        lex_less(a, b),
    ensures
        !lex_less(b, a),
{
    let i1 = choose|i: int|
        0 <= i < a.len() && i < b.len() && #[trigger] a[i] < b[i] && forall|j: int| 0 <= j < i ==> a[j] == b[j];
    if lex_less(b, a) {
        let i2 = choose|i: int|
            0 <= i < b.len() && i < a.len() && #[trigger] b[i] < a[i] && forall|j: int| 0 <= j < i ==> b[j] == a[j];
        if i1 < i2 {
            assert(b[i1] == a[i1]);
        } else if i2 < i1 {
            assert(a[i2] == b[i2]);
        }
    }
}

/// Relies on itertools::Itertools::combinations over `0..n`: it yields every strictly
/// increasing `k`-length sequence of values below `n`, and nothing else, in lexicographic
/// order.
#[verifier::external_body]
pub(crate) fn combinations(n: usize, k: usize) -> (r: Vec<Vec<usize>>)
    ensures
        forall|j: int| 0 <= j < r@.len() ==> is_combination(#[trigger] r@[j]@, n as int, k as int),
        forall|c: Seq<usize>|
            is_combination(c, n as int, k as int) ==> exists|j: int|
                0 <= j < r@.len() && #[trigger] r@[j]@ == c,
        forall|j1: int, j2: int| 0 <= j1 < j2 < r@.len() ==> lex_less(#[trigger] r@[j1]@, #[trigger] r@[j2]@),
{
    (0..n).combinations(k).collect()
}

/// Returns true if `c` holds `p`.
pub(crate) fn combo_contains(c: &Vec<usize>, p: usize) -> (r: bool)
    ensures
        r == c@.contains(p),
{
    let mut t: usize = 0;
    while t < c.len()
        invariant
            t <= c@.len(),
            forall|t2: int| 0 <= t2 < t ==> c@[t2] != p,
        decreases c@.len() - t,
    {
        if c[t] == p {
            return true;
        }
        t += 1;
    }
    false
}

} // verus!
