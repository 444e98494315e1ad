//! Sets of ring squares packed into a 64-bit word.
use crate::bits::{
    bit64, lemma_bit_and, lemma_bit_not, lemma_bit_or, lemma_bit_xor, lemma_bit_zero, lemma_bits_ext,
    lemma_ones64_le, lemma_ones_set_len, lemma_trailing_zeros, ones64, ones_set, u64_count_ones,
    u64_rotate_left, u64_rotate_right,
};
use crate::square::Square;
use vstd::prelude::*;

verus! {

/// A set of squares: bit `i` is set when square `i` is in the set.
#[derive(Clone, Copy, PartialEq, Eq, PartialOrd, Ord, Default, Hash, Debug, Structural)]
pub struct BitBoard(pub u64);

impl View for BitBoard {
    type V = Set<int>;

    open spec fn view(&self) -> Set<int> {
        Set::new(|i: int| bit64(self.0, i))
    }
}

/// The lowest square of a nonempty set.
pub open spec fn min_square(s: Set<int>) -> int {
    choose|m: int| s.contains(m) && forall|j: int| s.contains(j) ==> m <= j
}

pub proof fn lemma_view_bounded(b: BitBoard)
    ensures
        forall|i: int| b@.contains(i) ==> 0 <= i < 64,
        b@.finite(),
        b@ == ones_set(b.0, 64),
{
    assert(b@ =~= ones_set(b.0, 64));
    lemma_ones_set_len(b.0, 64);
}

/// Two bitboards holding the same squares are equal.
pub proof fn lemma_view_ext(a: BitBoard, b: BitBoard)
    requires
        a@ == b@,
    ensures
        a == b,
{
    assert forall|i: int| 0 <= i < 64 implies bit64(a.0, i) == bit64(b.0, i) by {
        assert(a@.contains(i) == bit64(a.0, i));
        assert(b@.contains(i) == bit64(b.0, i));
        assert(a@.contains(i) == b@.contains(i));
    }
    lemma_bits_ext(a.0, b.0);
}

/// The number of squares in a bitboard is its count of one bits.
pub proof fn lemma_view_len(b: BitBoard)
    ensures
        b@.finite(),
        b@.len() == ones64(b.0, 64),
        b@.len() <= 64,
{
    lemma_view_bounded(b);
    lemma_ones_set_len(b.0, 64);
    lemma_ones64_le(b.0, 64);
}

/// The lowest set bit of a nonempty bitboard is its lowest square.
proof fn lemma_lowest(b: BitBoard)
    ensures
        b.0 == 0 <==> b@.is_empty(),
        b.0 == 0 <==> b.0.trailing_zeros() == 64,
        b.0 != 0 ==> b@.contains(b.0.trailing_zeros() as int),
        b.0 != 0 ==> forall|j: int| b@.contains(j) ==> b.0.trailing_zeros() <= j,
        b.0 != 0 ==> min_square(b@) == b.0.trailing_zeros() as int,
{
    lemma_trailing_zeros(b.0);
    let t = b.0.trailing_zeros() as int;
    if b.0 == 0 {
        assert forall|i: int| !b@.contains(i) by {
            if 0 <= i < 64 {
                lemma_bit_zero(i as u64);
            }
        }
        assert(b@ =~= Set::<int>::empty());
    } else {
        assert(b@.contains(t));
        assert forall|j: int| b@.contains(j) implies t <= j by {
            if j < t {
                assert(!bit64(b.0, j));
            }
        }
        let m = min_square(b@);
        assert(b@.contains(m) && forall|j: int| b@.contains(j) ==> m <= j);
        assert(m <= t && t <= m);
    }
}

pub proof fn lemma_view_and(a: BitBoard, b: BitBoard)
    ensures
        BitBoard(a.0 & b.0)@ == a@.intersect(b@),
{
    assert forall|i: int| BitBoard(a.0 & b.0)@.contains(i) == a@.intersect(b@).contains(i) by {
        if 0 <= i < 64 {
            lemma_bit_and(a.0, b.0, i as u64);
        }
    }
    assert(BitBoard(a.0 & b.0)@ =~= a@.intersect(b@));
}

pub proof fn lemma_view_or(a: BitBoard, b: BitBoard)
    ensures
        BitBoard(a.0 | b.0)@ == a@.union(b@),
{
    assert forall|i: int| BitBoard(a.0 | b.0)@.contains(i) == a@.union(b@).contains(i) by {
        if 0 <= i < 64 {
            lemma_bit_or(a.0, b.0, i as u64);
        }
    }
    assert(BitBoard(a.0 | b.0)@ =~= a@.union(b@));
}

/// The squares in exactly one of two sets.
pub open spec fn sym_diff(a: Set<int>, b: Set<int>) -> Set<int> {
    a.difference(b).union(b.difference(a))
}

pub proof fn lemma_view_xor(a: BitBoard, b: BitBoard)
    ensures
        BitBoard(a.0 ^ b.0)@ == sym_diff(a@, b@),
{
    assert forall|i: int| BitBoard(a.0 ^ b.0)@.contains(i) == sym_diff(a@, b@).contains(i) by {
        if 0 <= i < 64 {
            lemma_bit_xor(a.0, b.0, i as u64);
        }
    }
    assert(BitBoard(a.0 ^ b.0)@ =~= sym_diff(a@, b@));
}

/// The squares of the ring outside a set.
pub open spec fn complement(a: Set<int>) -> Set<int> {
    Set::new(|i: int| 0 <= i < 64 && !a.contains(i))
}

pub proof fn lemma_view_not(a: BitBoard)
    ensures
        BitBoard(!a.0)@ == complement(a@),
{
    assert forall|i: int| BitBoard(!a.0)@.contains(i) == complement(a@).contains(i) by {
        if 0 <= i < 64 {
            lemma_bit_not(a.0, i as u64);
        }
    }
    assert(BitBoard(!a.0)@ =~= complement(a@));
}

/// A set rotated so that square `n` becomes square 0.
pub open spec fn rotated_right(a: Set<int>, n: int) -> Set<int> {
    Set::new(|i: int| 0 <= i < 64 && a.contains((i + n) % 64))
}

impl BitBoard {
    pub proof fn lemma_empty_view()
        ensures
            BitBoard(0)@ == Set::<int>::empty(),
    {
        lemma_lowest(BitBoard(0));
    }

    /// The empty set.
    pub fn empty() -> (r: Self)
        ensures
            r@ == Set::<int>::empty(),
            r.0 == 0,
    {
        proof {
            lemma_lowest(BitBoard(0));
        }
        Self(0)
    }

    pub fn is_empty(self) -> (r: bool)
        ensures
            r == self@.is_empty(),
    {
        proof {
            lemma_lowest(self);
        }
        self.0 == 0
    }

    /// Number of squares in the set.
    pub fn len(self) -> (r: usize)
        ensures
            r as nat == self@.len(),
            r <= 64,
    {
        proof {
            lemma_view_len(self);
        }
        u64_count_ones(self.0) as usize
    }

    pub fn has(self, square: Square) -> (r: bool)
        requires
            square.0 < 64,
        ensures
            r == self@.contains(square.0 as int),
    {
        !self.is_disjoint(square.bitboard())
    }

    pub fn is_disjoint(self, other: BitBoard) -> (r: bool)
        ensures
            r == self@.disjoint(other@),
    {
        let x = BitBoard(self.0 & other.0);
        proof {
            lemma_view_and(self, other);
            lemma_lowest(x);
            if !(x@.is_empty()) {
                let t = x.0.trailing_zeros() as int;
                assert(x@.contains(t));
            } else {
                assert forall|i: int| self@.contains(i) implies !other@.contains(i) by {
                    assert(!x@.contains(i));
                }
            }
        }
        x.0 == 0
    }

    pub fn is_subset(self, other: BitBoard) -> (r: bool)
        ensures
            r == self@.subset_of(other@),
    {
        let x = other.0 & self.0;
        proof {
            lemma_view_and(other, self);
            if x == self.0 {
                assert(self@ == other@.intersect(self@));
            } else {
                if self@.subset_of(other@) {
                    assert(other@.intersect(self@) =~= self@);
                    lemma_view_ext(BitBoard(x), self);
                }
            }
        }
        x == self.0
    }

    pub fn is_superset(self, other: BitBoard) -> (r: bool)
        ensures
            r == other@.subset_of(self@),
    {
        other.is_subset(self)
    }

    /// The lowest square of the set, if there is one.
    pub fn try_next_square(self) -> (r: Option<Square>)
        ensures
            self@.is_empty() ==> r is None,
            !self@.is_empty() ==> (r matches Some(s) && s.0 as int == min_square(self@)),
            r matches Some(s) ==> self@.contains(s.0 as int) && s.0 < 64,
    {
        if self.is_empty() {
            return None;
        }
        proof {
            lemma_lowest(self);
        }
        let index = self.0.trailing_zeros() as u8;
        Some(Square(index))
    }

    /// The lowest square of the set; square 64 when the set is empty.
    pub fn next_square(self) -> (r: Square)
        ensures
            self@.is_empty() ==> r.0 == 64,
            !self@.is_empty() ==> r.0 as int == min_square(self@) && self@.contains(r.0 as int),
            r.0 <= 64,
    {
        proof {
            lemma_lowest(self);
        }
        Square(self.0.trailing_zeros() as u8)
    }

    /// An iterator over the squares, lowest first.
    pub fn iter(self) -> (r: BitBoardIter)
        ensures
            r.0 == self,
    {
        BitBoardIter(self)
    }

    /// The squares of the set in increasing order.
    pub fn squares(self) -> (r: Vec<Square>)
        ensures
            r.len() == self@.len(),
            forall|i: int| 0 <= i < r.len() ==> self@.contains(#[trigger] r[i].0 as int),
            forall|s: int| self@.contains(s) ==> exists|i: int|
                0 <= i < r.len() && #[trigger] r[i].0 as int == s,
            forall|i: int, j: int| 0 <= i < j < r.len() ==> r[i].0 < r[j].0,
    {
        let mut res: Vec<Square> = Vec::new();
        let mut it = self.iter();
        proof {
            lemma_view_len(self);
        }
        loop
            invariant
                it.0@.subset_of(self@),
                res.len() + it.0@.len() == self@.len(),
                it.0@.finite(),
                self@.finite(),
                forall|i: int| 0 <= i < res.len() ==> self@.contains(#[trigger] res[i].0 as int),
                forall|i: int| 0 <= i < res.len() ==> !it.0@.contains(#[trigger] res[i].0 as int),
                forall|s: int| self@.contains(s) && !it.0@.contains(s) ==> exists|i: int|
                    0 <= i < res.len() && #[trigger] res[i].0 as int == s,
                forall|i: int, s: int| 0 <= i < res.len() && it.0@.contains(s) ==> res[i].0 < s,
                forall|i: int, j: int| 0 <= i < j < res.len() ==> res[i].0 < res[j].0,
            decreases it.0@.len(),
        {
            let ghost before = it.0@;
            match it.next() {
                None => {
                    return res;
                },
                Some(sq) => {
                    proof {
                        lemma_view_len(it.0);
                    }
                    let ghost old_res = res@;
                    res.push(sq);
                    proof {
                        assert(before == it.0@.insert(sq.0 as int));
                        assert forall|s: int| self@.contains(s) && !it.0@.contains(s) implies exists|
                            i: int,
                        | 0 <= i < res.len() && #[trigger] res[i].0 as int == s by {
                            if s == sq.0 as int {
                                assert(res[res.len() - 1].0 as int == s);
                            } else {
                                assert(!before.contains(s));
                                let i = choose|i: int|
                                    0 <= i < old_res.len() && #[trigger] old_res[i].0 as int == s;
                                assert(res@[i] == old_res[i]);
                                assert(res[i].0 as int == s);
                            }
                        }
                    }
                },
            }
        }
    }

    /// `x - 1`: sets the bits below the lowest one and clears the lowest one.
    pub fn invert_trailing(self) -> (r: Self)
        requires
            self.0 != 0,
        ensures
            r.0 == self.0 - 1,
    {
        Self(self.0 - 1)
    }

    /// Rotates the set so that square `n` becomes square 0.
    pub fn rotate_right(self, n: u8) -> (r: Self)
        ensures
            r@ == rotated_right(self@, n as int),
    {
        let r = Self(u64_rotate_right(self.0, n as u32));
        proof {
            assert forall|i: int| #[trigger] r@.contains(i) == rotated_right(self@, n as int).contains(i) by {
                if 0 <= i < 64 {
                    assert(bit64(r.0, i) == bit64(self.0, (i + n) % 64));
                }
            }
            assert(r@ =~= rotated_right(self@, n as int));
        }
        r
    }

    /// Rotates the set so that square 0 becomes square `n`.
    pub fn rotate_left(self, n: u8) -> (r: Self)
        ensures
            forall|i: int| 0 <= i < 64 ==> (r@.contains((i + n) % 64) <==> self@.contains(i)),
    {
        let r = Self(u64_rotate_left(self.0, n as u32));
        proof {
            assert forall|i: int| 0 <= i < 64 implies (r@.contains((i + n) % 64) <==> self@.contains(i)) by {
                assert(bit64(r.0, (i + n) % 64) == bit64(self.0, i));
            }
        }
        r
    }

    /// The squares in both sets.
    pub fn and(self, other: Self) -> (r: Self)
        ensures
            r@ == self@.intersect(other@),
            r.0 == self.0 & other.0,
    {
        proof {
            lemma_view_and(self, other);
        }
        Self(self.0 & other.0)
    }

    /// The squares in either set.
    pub fn or(self, other: Self) -> (r: Self)
        ensures
            r@ == self@.union(other@),
            r.0 == self.0 | other.0,
    {
        proof {
            lemma_view_or(self, other);
        }
        Self(self.0 | other.0)
    }

    /// The squares in exactly one of the two sets.
    pub fn xor(self, other: Self) -> (r: Self)
        ensures
            r@ == sym_diff(self@, other@),
            r.0 == self.0 ^ other.0,
    {
        proof {
            lemma_view_xor(self, other);
        }
        Self(self.0 ^ other.0)
    }

    /// The squares of `self` that are not in `other`.
    pub fn minus(self, other: Self) -> (r: Self)
        ensures
            r@ == self@.difference(other@),
    {
        let n = other.not();
        let r = self.and(n);
        proof {
            lemma_view_bounded(self);
            assert(r@ =~= self@.difference(other@));
        }
        r
    }

    /// The squares of the ring outside the set.
    pub fn not(self) -> (r: Self)
        ensures
            r@ == complement(self@),
            r.0 == !self.0,
    {
        proof {
            lemma_view_not(self);
        }
        Self(!self.0)
    }
}

/// Yields the squares of a bitboard, lowest first.
pub struct BitBoardIter(pub BitBoard);

impl BitBoardIter {
    /// Removes and returns the lowest square that is left.
    pub fn next(&mut self) -> (r: Option<Square>)
        ensures
            old(self).0@.is_empty() ==> r is None && final(self).0@ == old(self).0@,
            !old(self).0@.is_empty() ==> (r matches Some(s) && s.0 as int == min_square(old(self).0@)
                && s.0 < 64 && old(self).0@.contains(s.0 as int) && final(self).0@ == old(self).0@.remove(s.0 as int)),
    {
        let square = self.0.try_next_square();
        if let Some(square) = square {
            let b = square.bitboard();
            let ghost prev = self.0;
            self.0 = self.0.xor(b);
            proof {
                assert(self.0@ =~= prev@.remove(square.0 as int));
            }
        }
        square
    }

    /// How many squares are left.
    pub fn len(&self) -> (r: usize)
        ensures
            r as nat == self.0@.len(),
    {
        self.0.len()
    }
}

} // verus!
