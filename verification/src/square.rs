//! Squares of the 64-square ring.
use crate::bitboard::BitBoard;
use crate::color::Color;
use vstd::prelude::*;

verus! {

/// A square of the ring. Valid squares are `0 ..= 63`.
#[derive(Debug, Clone, Copy, PartialEq, Eq, PartialOrd, Ord, Default, Hash, Structural)]
pub struct Square(pub u8);

impl From<u8> for Square {
    fn from(value: u8) -> (r: Self) {
        Self(value)
    }
}

impl vstd::std_specs::convert::FromSpecImpl<u8> for Square {
    open spec fn obeys_from_spec() -> bool {
        true
    }

    open spec fn from_spec(v: u8) -> Square {
        Square(v)
    }
}

/// Distance of `sq` to the entry square of `color`, going forward around the ring.
pub open spec fn dist_home_spec(sq: int, color: Color) -> int {
    (64 - (sq + 64 - color.home_sq()) % 64) % 64
}

/// Forward distance from square `a` to square `b` on the ring (`0 <= a, b < 64`).
pub open spec fn forward_dist(a: int, b: int) -> int {
    if a <= b {
        b - a
    } else {
        64 - (a - b)
    }
}

/// `x` lies on the closed ring interval from `start` to `end`.
pub open spec fn in_range_spec(x: int, start: int, end: int) -> bool {
    if start < end {
        start <= x <= end
    } else {
        (start <= x <= 63) || (0 <= x <= end)
    }
}

impl Square {
    /// The bitboard holding this square alone.
    pub fn bitboard(self) -> (r: BitBoard)
        requires
            self.0 < 64,
        ensures
            r@ == set![self.0 as int],
            r.0 == 1u64 << self.0,
    {
        let r = BitBoard(1u64 << self.0);
        proof {
            assert forall|i: int| #[trigger] r@.contains(i) <==> i == self.0 as int by {
                if 0 <= i < 64 {
                    crate::bits::lemma_bit_single(self.0 as u64, i as u64);
                }
            }
            assert(r@ =~= set![self.0 as int]);
        }
        r
    }

    /// Wrap square around range 0 to 63.
    pub fn make_valid(self) -> (r: Self)
        ensures
            r.0 as int == self.0 as int % 64,
    {
        let v = self.0;
        assert(v & 63 == v % 64) by (bit_vector);
        Self(v & 63)
    }

    /// The square `amount` steps forward.
    pub fn add(self, amount: u8) -> (r: Self)
        requires
            self.0 + amount <= 255,
        ensures
            r.0 as int == (self.0 + amount) % 64,
    {
        Self(self.0 + amount).make_valid()
    }

    /// The square `amount` steps backward.
    pub fn sub(self, amount: u8) -> (r: Self)
        requires
            self.0 + 64 <= 255,
            amount <= self.0 + 64,
        ensures
            r.0 as int == (self.0 + 64 - amount) % 64,
    {
        Self(self.0 + 64 - amount).make_valid()
    }

    /// Steps from this square forward to the entry square of `color`.
    pub fn distance_to_home(self, color: Color) -> (r: u8)
        requires
            self.0 + 48 <= 255,
        ensures
            r as int == dist_home_spec(self.0 as int, color),
            r < 64,
    {
        let x: u8 = match color {
            Color::Black => self.0,
            Color::Blue => self.0 + 48,
            Color::Green => self.0 + 32,
            Color::Red => self.0 + 16,
        };
        assert(x & 63 == x % 64) by (bit_vector);
        let y: u8 = 64 - (x & 63);
        assert(y & 63 == y % 64) by (bit_vector);
        y & 63
    }

    /// Steps forward from this square to `other`.
    pub fn distance_to(self, other: Square) -> (r: u8)
        requires
            self.0 < 64,
            other.0 < 64,
        ensures
            r as int == forward_dist(self.0 as int, other.0 as int),
            1 <= r <= 64 || (r == 0 && self == other),
    {
        if self.0 <= other.0 {
            other.0 - self.0
        } else {
            64 - (self.0 - other.0)
        }
    }

    pub fn is_min(self) -> (r: bool)
        ensures
            r == (self.0 == 0),
    {
        self.0 == 0
    }

    pub fn is_max(self) -> (r: bool)
        ensures
            r == (self.0 == 63),
    {
        self.0 == 63
    }

    /// Whether this square lies on the ring from `start` to `end` (both included).
    pub fn in_range(self, start: Square, end: Square) -> (r: bool)
        ensures
            r == in_range_spec(self.0 as int, start.0 as int, end.0 as int),
    {
        if start.0 < end.0 {
            start.0 <= self.0 && self.0 <= end.0
        } else {
            (start.0 <= self.0 && self.0 <= 63) || self.0 <= end.0
        }
    }
}

} // verus!
