use vstd::prelude::*;

verus! {

/// A set of board squares, one bit per square: bit `i` stands for square `i`,
/// where square `i` lies on rank `i / 8` and file `i % 8` (a1 = 0, h8 = 63).
#[derive(Clone, Copy, Debug, PartialEq, Eq, Structural)]
pub struct Bitboard {
    pub bits: u64,
}

/// Whether bit `s` of `b` is set.
pub open spec fn bit_of(b: u64, s: int) -> bool {
    0 <= s < 64 && (b >> (s as u64)) & 1u64 == 1u64
}

/// The squares whose bits are set in `b`.
pub open spec fn squares_of(b: u64) -> Set<int> {
    Set::new(|s: int| bit_of(b, s))
}

impl View for Bitboard {
    type V = Set<int>;

    open spec fn view(&self) -> Set<int> {
        squares_of(self.bits)
    }
}

pub proof fn lemma_zero_bits()
    ensures
        squares_of(0u64) == Set::<int>::empty(),
{
    assert forall|s: int| !bit_of(0u64, s) by {
        if 0 <= s < 64 {
            let u = s as u64;
            assert((0u64 >> u) & 1u64 == 0u64) by (bit_vector);
        }
    }
    assert(squares_of(0u64) =~= Set::<int>::empty());
}

pub proof fn lemma_single_bit(t: u64)
    requires
        t < 64,
    ensures
        squares_of(1u64 << t) == set![t as int],
{
    assert forall|s: int| bit_of(1u64 << t, s) <==> s == t as int by {
        if 0 <= s < 64 {
            let u = s as u64;
            assert(((1u64 << t) >> u) & 1u64 == 1u64 <==> u == t) by (bit_vector)
                requires
                    t < 64,
                    u < 64,
            ;
        }
    }
    assert(squares_of(1u64 << t) =~= set![t as int]);
}

pub proof fn lemma_or_bits(a: u64, b: u64)
    ensures
        squares_of(a | b) == squares_of(a).union(squares_of(b)),
{
    assert forall|s: int| bit_of(a | b, s) <==> bit_of(a, s) || bit_of(b, s) by {
        if 0 <= s < 64 {
            let u = s as u64;
            assert(((a | b) >> u) & 1u64 == 1u64 <==> ((a >> u) & 1u64 == 1u64 || (b >> u)
                & 1u64 == 1u64)) by (bit_vector);
        }
    }
    assert(squares_of(a | b) =~= squares_of(a).union(squares_of(b)));
}

pub proof fn lemma_and_bits(a: u64, b: u64)
    ensures
        squares_of(a & b) == squares_of(a).intersect(squares_of(b)),
{
    assert forall|s: int| bit_of(a & b, s) <==> bit_of(a, s) && bit_of(b, s) by {
        if 0 <= s < 64 {
            let u = s as u64;
            assert(((a & b) >> u) & 1u64 == 1u64 <==> ((a >> u) & 1u64 == 1u64 && (b >> u)
                & 1u64 == 1u64)) by (bit_vector);
        }
    }
    assert(squares_of(a & b) =~= squares_of(a).intersect(squares_of(b)));
}

/// Tests bit `t` of `b`.
pub fn has_bit(b: u64, t: u8) -> (r: bool)
    requires
        t < 64,
    ensures
        r == squares_of(b).contains(t as int),
{
    let t64 = t as u64;
    assert((b & (1u64 << t64)) != 0u64 <==> (b >> t64) & 1u64 == 1u64) by (bit_vector)
        requires
            t64 < 64,
    ;
    (b & (1u64 << t64)) != 0
}

impl Bitboard {
    /// The empty set.
    pub fn none() -> (r: Bitboard)
        ensures
            r@ == Set::<int>::empty(),
    {
        proof {
            lemma_zero_bits();
        }
        Bitboard { bits: 0 }
    }

    /// The set that holds `square` alone.
    pub fn from_square(square: u8) -> (r: Bitboard)
        requires
            square < 64,
        ensures
            r@ == set![square as int],
    {
        proof {
            lemma_single_bit(square as u64);
        }
        Bitboard { bits: 1u64 << square }
    }

    /// Whether `square` is a member.
    pub fn contains(&self, square: u8) -> (r: bool)
        requires
            square < 64,
        ensures
            r == self@.contains(square as int),
    {
        has_bit(self.bits, square)
    }

    /// The squares that are in either set.
    pub fn union(&self, other: Bitboard) -> (r: Bitboard)
        ensures
            r@ == self@.union(other@),
    {
        proof {
            lemma_or_bits(self.bits, other.bits);
        }
        Bitboard { bits: self.bits | other.bits }
    }

    /// The squares that are in both sets.
    pub fn intersection(&self, other: Bitboard) -> (r: Bitboard)
        ensures
            r@ == self@.intersect(other@),
    {
        proof {
            lemma_and_bits(self.bits, other.bits);
        }
        Bitboard { bits: self.bits & other.bits }
    }
}

} // verus!
