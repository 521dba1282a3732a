use vstd::prelude::*;

verus! {

/// True when the bit standing for digit `d` (bit `d - 1`) is set in `bits`.
pub open spec fn bit_set(bits: u16, d: int) -> bool {
    1 <= d <= 9 && (bits >> ((d - 1) as u16)) & 1u16 == 1u16
}

/// Bit facts behind the set operations of `Candidates`.
proof fn lemma_bit_ops(a: u16, b: u16, j: u16)
    by (bit_vector)
    requires
        j < 9,
    ensures
        forall|k: u16|
            k < 9 ==> ((((a & b) >> k) & 1u16 == 1u16) == (((a >> k) & 1u16 == 1u16) && ((b
                >> k) & 1u16 == 1u16))),
        forall|k: u16|
            k < 9 ==> ((((a | b) >> k) & 1u16 == 1u16) == (((a >> k) & 1u16 == 1u16) || ((b
                >> k) & 1u16 == 1u16))),
        forall|k: u16|
            k < 9 ==> ((((a & !b) >> k) & 1u16 == 1u16) == (((a >> k) & 1u16 == 1u16) && !((b
                >> k) & 1u16 == 1u16))),
        forall|k: u16|
            k < 9 ==> ((((a | (1u16 << j)) >> k) & 1u16 == 1u16) == (k == j || ((a >> k) & 1u16
                == 1u16))),
        forall|k: u16|
            k < 9 ==> ((((a & !(1u16 << j)) >> k) & 1u16 == 1u16) == (k != j && ((a >> k)
                & 1u16 == 1u16))),
        forall|k: u16|
            k < 9 ==> ((((a & 0x1ffu16) >> k) & 1u16 == 1u16) == ((a >> k) & 1u16 == 1u16)),
        forall|k: u16| k < 9 ==> ((0u16 >> k) & 1u16 != 1u16),
        forall|k: u16| k < 9 ==> ((0x1ffu16 >> k) & 1u16 == 1u16),
        ((a & (1u16 << j)) > 0) == ((a >> j) & 1u16 == 1u16),
{
}

/// The low nine bits are all clear exactly when each of them is.
proof fn lemma_low_bits(a: u16)
    by (bit_vector)
    ensures
        ((a & 0x1ffu16) == 0) == ((a >> 0u16) & 1u16 != 1u16 && (a >> 1u16) & 1u16 != 1u16 && (a
            >> 2u16) & 1u16 != 1u16 && (a >> 3u16) & 1u16 != 1u16 && (a >> 4u16) & 1u16 != 1u16
            && (a >> 5u16) & 1u16 != 1u16 && (a >> 6u16) & 1u16 != 1u16 && (a >> 7u16) & 1u16
            != 1u16 && (a >> 8u16) & 1u16 != 1u16),
{
}

/// The digits 1..=9 as a set, one bit per digit.
#[derive(Clone, Copy, PartialEq, Eq, Structural, Debug)]
pub struct Candidates(u16);

impl Candidates {
    /// The raw bits of the set.
    pub closed spec fn bits(self) -> u16 {
        self.0
    }

    /// True when digit `d` is in the set.
    pub open spec fn has(self, d: int) -> bool {
        bit_set(self.bits(), d)
    }

    /// The number of digits among `1..=n` that the set holds.
    pub open spec fn count_upto(self, n: int) -> nat
        decreases n,
    {
        if n <= 0 {
            0
        } else {
            self.count_upto(n - 1) + if self.has(n) {
                1nat
            } else {
                0nat
            }
        }
    }

    /// The number of digits in the set.
    pub open spec fn len(self) -> nat {
        self.count_upto(9)
    }

    /// The digits among `1..=n` that the set holds, in ascending order.
    pub open spec fn digits_upto(self, n: int) -> Seq<u8>
        decreases n,
    {
        if n <= 0 {
            Seq::empty()
        } else if self.has(n) {
            self.digits_upto(n - 1).push(n as u8)
        } else {
            self.digits_upto(n - 1)
        }
    }

    /// The digits of the set in ascending order.
    pub open spec fn digits(self) -> Seq<u8> {
        self.digits_upto(9)
    }

    /// Creates a new candidates set with all digits.
    pub fn all() -> (r: Self)
        ensures
            forall|d: int| #[trigger] r.has(d) == (1 <= d <= 9),
    {
        proof {
            lemma_bit_ops(0, 0, 0);
        }
        Candidates(0x1ff)
    }

    /// Creates a new empty candidates set.
    pub fn empty() -> (r: Self)
        ensures
            forall|d: int| !#[trigger] r.has(d),
    {
        proof {
            lemma_bit_ops(0, 0, 0);
        }
        Candidates(0)
    }

    /// Creates a candidates set from its bits: bit `d - 1` stands for digit `d`; higher bits
    /// are dropped.
    pub fn from(bits: u16) -> (r: Self)
        ensures
            forall|d: int| #[trigger] r.has(d) == bit_set(bits, d),
    {
        proof {
            lemma_bit_ops(bits, 0, 0);
        }
        Candidates(bits & 0x1ff)
    }

    /// Creates a new candidates set from a list of digits.
    pub fn new(candidates: &[u8]) -> (r: Self)
        requires
            forall|j: int| 0 <= j < candidates@.len() ==> 1 <= #[trigger] candidates@[j] <= 9,
        ensures
            forall|d: int|
                #[trigger] r.has(d) == (exists|j: int|
                    0 <= j < candidates@.len() && candidates@[j] == d),
    {
        let mut result = Candidates::empty();
        let mut i: usize = 0;
        while i < candidates.len()
            invariant
                i <= candidates@.len(),
                forall|j: int| 0 <= j < candidates@.len() ==> 1 <= #[trigger] candidates@[j] <= 9,
                forall|d: int|
                    #[trigger] result.has(d) == (exists|j: int|
                        0 <= j < i && candidates@[j] == d),
            decreases candidates@.len() - i,
        {
            let c = candidates[i];
            result.set(c);
            i += 1;
            assert forall|d: int| #[trigger] result.has(d) == (exists|j: int|
                0 <= j < i && candidates@[j] == d) by {
                if d == c {
                    assert(candidates@[i - 1] == d);
                }
                if exists|j: int| 0 <= j < i && candidates@[j] == d {
                    let j = choose|j: int| 0 <= j < i && candidates@[j] == d;
                    if j < i - 1 {
                        assert(exists|j: int| 0 <= j < i - 1 && candidates@[j] == d);
                    }
                }
            }
        }
        result
    }

    /// Returns true if the candidates set is empty.
    pub fn is_empty(&self) -> (r: bool)
        ensures
            r == (forall|d: int| 1 <= d <= 9 ==> !#[trigger] self.has(d)),
    {
        proof {
            lemma_low_bits(self.0);
            assert(self.has(1) == ((self.0 >> 0u16) & 1u16 == 1u16));
            assert(self.has(2) == ((self.0 >> 1u16) & 1u16 == 1u16));
            assert(self.has(3) == ((self.0 >> 2u16) & 1u16 == 1u16));
            assert(self.has(4) == ((self.0 >> 3u16) & 1u16 == 1u16));
            assert(self.has(5) == ((self.0 >> 4u16) & 1u16 == 1u16));
            assert(self.has(6) == ((self.0 >> 5u16) & 1u16 == 1u16));
            assert(self.has(7) == ((self.0 >> 6u16) & 1u16 == 1u16));
            assert(self.has(8) == ((self.0 >> 7u16) & 1u16 == 1u16));
            assert(self.has(9) == ((self.0 >> 8u16) & 1u16 == 1u16));
        }
        (self.0 & 0x1ff) == 0
    }

    /// Adds digit `candidate` to the set.
    pub fn set(&mut self, candidate: u8)
        requires
            1 <= candidate <= 9,
        ensures
            forall|d: int| #[trigger] final(self).has(d) == (d == candidate || old(self).has(d)),
    {
        proof {
            lemma_bit_ops(self.0, 0, (candidate - 1) as u16);
        }
        self.0 = self.0 | (1u16 << (candidate - 1) as u16);
    }

    /// Removes digit `candidate` from the set.
    pub fn unset(&mut self, candidate: u8)
        requires
            1 <= candidate <= 9,
        ensures
            forall|d: int| #[trigger] final(self).has(d) == (d != candidate && old(self).has(d)),
    {
        proof {
            lemma_bit_ops(self.0, 0, (candidate - 1) as u16);
        }
        self.0 = self.0 & !(1u16 << (candidate - 1) as u16);
    }

    /// Returns true if digit `candidate` is in the set.
    pub fn get(&self, candidate: u8) -> (r: bool)
        requires
            1 <= candidate <= 9,
        ensures
            r == self.has(candidate as int),
    {
        proof {
            lemma_bit_ops(self.0, 0, (candidate - 1) as u16);
        }
        (self.0 & (1u16 << (candidate - 1) as u16)) > 0
    }

    /// Returns the digits of the set in ascending order.
    pub fn iter(&self) -> (r: Vec<u8>)
        ensures
            r@ == self.digits(),
    {
        let mut out: Vec<u8> = Vec::new();
        let mut d: u8 = 1;
        while d <= 9
            invariant
                1 <= d <= 10,
                out@ == self.digits_upto(d - 1),
            decreases 10 - d,
        {
            if self.get(d) {
                out.push(d);
            }
            d += 1;
        }
        out
    }

    /// Returns the number of digits in the set.
    pub fn count(&self) -> (r: usize)
        ensures
            r == self.len(),
    {
        let mut n: usize = 0;
        let mut d: u8 = 1;
        while d <= 9
            invariant
                1 <= d <= 10,
                n == self.count_upto(d - 1),
                n < d,
            decreases 10 - d,
        {
            if self.get(d) {
                n += 1;
            }
            d += 1;
        }
        n
    }

    /// Returns the intersection of two sets.
    pub fn intersect(lhs: &Self, rhs: &Self) -> (r: Self)
        ensures
            forall|d: int| #[trigger] r.has(d) == (lhs.has(d) && rhs.has(d)),
    {
        proof {
            lemma_bit_ops(lhs.0, rhs.0, 0);
        }
        Candidates(lhs.0 & rhs.0)
    }

    /// Returns the union of two sets.
    pub fn union(lhs: &Self, rhs: &Self) -> (r: Self)
        ensures
            forall|d: int| #[trigger] r.has(d) == (lhs.has(d) || rhs.has(d)),
    {
        proof {
            lemma_bit_ops(lhs.0, rhs.0, 0);
        }
        Candidates(lhs.0 | rhs.0)
    }

    /// Returns the digits of `lhs` that `rhs` lacks.
    pub fn difference(lhs: &Self, rhs: &Self) -> (r: Self)
        ensures
            forall|d: int| #[trigger] r.has(d) == (lhs.has(d) && !rhs.has(d)),
    {
        proof {
            lemma_bit_ops(lhs.0, rhs.0, 0);
        }
        Candidates(lhs.0 & !rhs.0)
    }

    /// The set holding the single digit `candidate`.
    pub fn single(candidate: u8) -> (r: Self)
        requires
            1 <= candidate <= 9,
        ensures
            forall|d: int| #[trigger] r.has(d) == (d == candidate),
    {
        let mut r = Candidates::empty();
        r.set(candidate);
        r
    }
}

/// A set that loses digit `d` and gains none holds strictly fewer digits.
pub proof fn lemma_count_sub(a: Candidates, b: Candidates, n: int)
    requires
        forall|e: int| #[trigger] b.has(e) ==> a.has(e),
    ensures
        b.count_upto(n) <= a.count_upto(n),
        forall|d: int| 1 <= d <= n && a.has(d) && !b.has(d) ==> b.count_upto(n) < a.count_upto(n),
    decreases n,
{
    if n > 0 {
        lemma_count_sub(a, b, n - 1);
    }
}

/// No digit outside `1..=n` is counted, and the count is at most `n`.
pub proof fn lemma_count_bound(a: Candidates, n: int)
    ensures
        n >= 0 ==> a.count_upto(n) <= n,
        (forall|e: int| 1 <= e <= n ==> !#[trigger] a.has(e)) ==> a.count_upto(n) == 0,
    decreases n,
{
    if n > 0 {
        lemma_count_bound(a, n - 1);
    }
}

/// The digit list of a set has one entry per digit, each a digit that the set holds, in
/// ascending order.
pub proof fn lemma_digits(a: Candidates, n: int)
    requires
        n <= 9,
    ensures
        a.digits_upto(n).len() == a.count_upto(n),
        forall|k: int|
            0 <= k < a.digits_upto(n).len() ==> 1 <= #[trigger] a.digits_upto(n)[k] <= n && a.has(
                a.digits_upto(n)[k] as int,
            ),
        forall|k1: int, k2: int|
            0 <= k1 < k2 < a.digits_upto(n).len() ==> a.digits_upto(n)[k1] < a.digits_upto(n)[k2],
        forall|d: int| 1 <= d <= n && #[trigger] a.has(d) ==> a.digits_upto(n).contains(d as u8),
    decreases n,
{
    if n > 0 {
        lemma_digits(a, n - 1);
        let prev = a.digits_upto(n - 1);
        assert forall|d: int| 1 <= d <= n && #[trigger] a.has(d) implies a.digits_upto(n).contains(
            d as u8,
        ) by {
            if d < n {
                let k = choose|k: int| 0 <= k < prev.len() && prev[k] == d as u8;
                assert(a.digits_upto(n)[k] == d as u8);
            } else {
                assert(a.digits_upto(n).last() == d as u8);
            }
        }
    }
}

} // verus!
