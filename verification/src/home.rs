//! The four goal squares of a player.
use crate::bits::{bit8, lemma_bit8_of, lemma_bit8_xor, ones8, u8_count_ones};
use vstd::prelude::*;

verus! {

/// Occupancy of a player's four goal squares: bit `i` is set when goal
/// square `i` holds a ball. Goal square 3 is the deepest.
#[derive(Debug, Clone, Copy, PartialEq, Eq, PartialOrd, Ord, Default, Hash, Structural)]
pub struct Home(pub u8);

/// Every goal square from `q` up to the deepest one holds a ball.
pub open spec fn all_set_from(x: u8, q: int) -> bool {
    forall|j: int| q <= j < 4 ==> #[trigger] bit8(x, j)
}

/// The ball on goal square `p` can still move: some deeper goal square is free.
pub open spec fn unlocked_at(x: u8, p: int) -> bool {
    bit8(x, p) && !all_set_from(x, p + 1)
}

/// The balls in the goal that can still move, shallowest first, among goal squares below `n`.
pub open spec fn unlocked_upto(x: u8, n: int) -> Seq<u8>
    decreases n,
{
    if n <= 0 {
        Seq::empty()
    } else if unlocked_at(x, n - 1) {
        unlocked_upto(x, n - 1).push((n - 1) as u8)
    } else {
        unlocked_upto(x, n - 1)
    }
}

/// The first goal square at or after `i` that holds a ball, or 4 if none does.
pub open spec fn first_set_from(x: u8, i: int) -> int
    decreases 4 - i,
{
    if i >= 4 {
        4
    } else if bit8(x, i) {
        i
    } else {
        first_set_from(x, i + 1)
    }
}

/// The balls in the goal fill it from the deepest square without a gap.
pub open spec fn locked_spec(x: u8) -> bool {
    x == 8 || x == 12 || x == 14 || x == 15
}

proof fn lemma_small_bits(x: u8)
    by (bit_vector)
    requires
        x < 16,
    ensures
        (x == 8 || x == 12 || x == 14 || x == 15) <==> (x != 0 && (((x >> 0u8) & 1u8 == 1u8) ==> ((x
            >> 1u8) & 1u8 == 1u8)) && (((x >> 1u8) & 1u8 == 1u8) ==> ((x >> 2u8) & 1u8 == 1u8)) && (((x
            >> 2u8) & 1u8 == 1u8) ==> ((x >> 3u8) & 1u8 == 1u8))),
        x == 0 <==> (!((x >> 0u8) & 1u8 == 1u8) && !((x >> 1u8) & 1u8 == 1u8) && !((x >> 2u8) & 1u8
            == 1u8) && !((x >> 3u8) & 1u8 == 1u8)),
        x == 15 <==> (((x >> 0u8) & 1u8 == 1u8) && ((x >> 1u8) & 1u8 == 1u8) && ((x >> 2u8) & 1u8
            == 1u8) && ((x >> 3u8) & 1u8 == 1u8)),
        !((x >> 4u8) & 1u8 == 1u8),
        !((x >> 5u8) & 1u8 == 1u8),
        !((x >> 6u8) & 1u8 == 1u8),
        !((x >> 7u8) & 1u8 == 1u8),
{
}

proof fn lemma_or16(x: u8, i: u8)
    by (bit_vector)
    requires
        i < 4,
    ensures
        (((x | 16u8) >> i) & 1u8 == 1u8) == ((x >> i) & 1u8 == 1u8),
        ((x | 16u8) >> 4u8) & 1u8 == 1u8,
{
}

/// Facts about a goal word below 16 in terms of its four bits.
pub proof fn lemma_home_bits(x: u8)
    requires
        x < 16,
    ensures
        locked_spec(x) <==> (x != 0 && all_set_from(x, first_set_from(x, 0))),
        x == 0 <==> first_set_from(x, 0) == 4,
        x == 0 <==> !bit8(x, 0) && !bit8(x, 1) && !bit8(x, 2) && !bit8(x, 3),
        x == 15 <==> all_set_from(x, 0),
        forall|i: int| 4 <= i ==> !bit8(x, i),
        ones8(x, 8) == ones8(x, 4),
{
    lemma_small_bits(x);
    assert(bit8(x, 0) == ((x >> 0u8) & 1u8 == 1u8));
    assert(bit8(x, 1) == ((x >> 1u8) & 1u8 == 1u8));
    assert(bit8(x, 2) == ((x >> 2u8) & 1u8 == 1u8));
    assert(bit8(x, 3) == ((x >> 3u8) & 1u8 == 1u8));
    assert(!bit8(x, 4) && !bit8(x, 5) && !bit8(x, 6) && !bit8(x, 7));
    assert(ones8(x, 8) == ones8(x, 4)) by {
        reveal_with_fuel(ones8, 5);
    }
    reveal_with_fuel(first_set_from, 5);
}

impl Home {
    /// The goal with no ball in it.
    pub fn empty() -> (r: Self)
        ensures
            r.0 == 0,
    {
        Home(0)
    }

    pub fn is_empty(self) -> (r: bool)
        ensures
            r == (self.0 == 0),
    {
        self.0 == 0
    }

    /// Toggles goal square `pos`.
    pub fn xor(&mut self, pos: u8)
        requires
            pos < 8,
        ensures
            final(self).0 == old(self).0 ^ (1u8 << pos),
            forall|i: int| bit8(final(self).0, i) == (bit8(old(self).0, i) != (i == pos)),
    {
        let ghost before = self.0;
        self.0 = self.0 ^ (1u8 << pos);
        proof {
            assert forall|i: int| bit8(self.0, i) == (bit8(before, i) != (i == pos)) by {
                if 0 <= i < 8 {
                    lemma_bit8_xor(before, pos, i as u8);
                }
            }
        }
    }

    /// Puts a ball on the free goal square `pos`.
    pub fn set(&mut self, pos: u8)
        requires
            pos < 8,
            !bit8(old(self).0, pos as int),
        ensures
            final(self).0 == old(self).0 ^ (1u8 << pos),
            forall|i: int| bit8(final(self).0, i) == (bit8(old(self).0, i) || i == pos),
    {
        self.xor(pos);
    }

    /// Takes the ball off goal square `pos`.
    pub fn unset(&mut self, pos: u8)
        requires
            pos < 8,
            bit8(old(self).0, pos as int),
        ensures
            final(self).0 == old(self).0 ^ (1u8 << pos),
            forall|i: int| bit8(final(self).0, i) == (bit8(old(self).0, i) && i != pos),
    {
        self.xor(pos);
    }

    /// Number of free goal squares before the first ball, counting from the entry (at most 4).
    pub fn free(self) -> (r: u8)
        ensures
            r as int == first_set_from(self.0, 0),
            r <= 4,
    {
        let y = self.0 | 16u8;
        let t = y.trailing_zeros();
        proof {
            vstd::std_specs::bits::axiom_u8_trailing_zeros(y);
            assert forall|i: int| 0 <= i < 4 implies bit8(y, i) == bit8(self.0, i) by {
                lemma_or16(self.0, i as u8);
            }
            lemma_or16(self.0, 0);
            assert(bit8(y, 4));
            assert(t <= 4) by {
                if t > 4 {
                    assert((y >> 4u8) & 1u8 == 0u8);
                }
            }
            lemma_first_set(self.0, y, t as int, 0);
        }
        t as u8
    }

    pub fn is_free(self, pos: u8) -> (r: bool)
        requires
            pos < 8,
        ensures
            r == !bit8(self.0, pos as int),
    {
        proof {
            lemma_bit8_of(self.0, pos);
        }
        (self.0 & (1u8 << pos)) == 0
    }

    /// Number of balls in the goal.
    pub fn amount(self) -> (r: u8)
        ensures
            r as nat == ones8(self.0, 8),
            r <= 8,
    {
        proof {
            lemma_ones8_le(self.0, 8);
        }
        u8_count_ones(self.0) as u8
    }

    pub fn is_locked(self) -> (r: bool)
        ensures
            r == locked_spec(self.0),
    {
        self.0 == 0b1000 || self.0 == 0b1100 || self.0 == 0b1110 || self.0 == 0b1111
    }

    pub fn is_full(self) -> (r: bool)
        ensures
            r == (self.0 == 15),
    {
        self.0 == 15
    }

    /// Some ball in the goal can still move.
    pub fn can_move(self) -> (r: bool)
        ensures
            r == (self.0 != 0 && !locked_spec(self.0)),
    {
        !self.is_empty() && !self.is_locked()
    }

    /// The shallowest ball that can still move, if any.
    pub fn get_single_unlocked(self) -> (r: Option<u8>)
        ensures
            r == (if !locked_spec(self.0) && self.0 != 0 {
                Some(first_set_from(self.0, 0) as u8)
            } else {
                None
            }),
    {
        if !self.is_locked() && !self.is_empty() {
            return Some(self.free());
        }
        None
    }

    /// All balls in the goal that can still move, shallowest first.
    pub fn get_all_unlocked(self) -> (r: Vec<u8>)
        requires
            self.0 < 16,
        ensures
            r@ == unlocked_upto(self.0, 4),
    {
        let h0 = self.0;
        let mut home = self;
        let mut res: Vec<u8> = Vec::new();
        let ghost mut k: int = 0;
        let mut next = home.get_single_unlocked();
        while next.is_some()
            invariant
                next == (if !locked_spec(home.0) && home.0 != 0 {
                    Some(first_set_from(home.0, 0) as u8)
                } else {
                    None::<u8>
                }),
                h0 < 16,
                home.0 < 16,
                0 <= k <= 4,
                forall|p: int| 0 <= p < k ==> !#[trigger] bit8(home.0, p),
                forall|p: int| k <= p ==> #[trigger] bit8(home.0, p) == bit8(h0, p),
                res@ == unlocked_upto(h0, k),
            decreases home.0,
        {
            let unlocked = next.unwrap();
            proof {
                lemma_home_bits(home.0);
                let i = unlocked as int;
                lemma_first_set_props(home.0, 0);
                assert(k <= i) by {
                    if i < k {
                        assert(!bit8(home.0, i));
                    }
                }
                assert forall|j: int| k <= j < i implies !#[trigger] bit8(h0, j) by {
                    assert(!bit8(home.0, j));
                }
                lemma_unlocked_skip(h0, k, i);
                assert(unlocked_at(h0, i)) by {
                    if all_set_from(h0, i + 1) {
                        assert(all_set_from(home.0, i));
                    }
                }
                assert(unlocked_upto(h0, i + 1) == unlocked_upto(h0, i).push(i as u8));
                k = i + 1;
            }
            res.push(unlocked);
            let ghost before = home.0;
            home.xor(unlocked);
            proof {
                assert(home.0 < 16) by {
                    lemma_home_bits(before);
                    lemma_xor_small(before, unlocked);
                }
                assert(home.0 < before) by {
                    lemma_xor_down(before, unlocked);
                }
            }
            next = home.get_single_unlocked();
        }
        proof {
            lemma_home_bits(home.0);
            lemma_unlocked_tail(h0, home.0, k);
        }
        res
    }
}

pub proof fn lemma_xor_small(x: u8, s: u8)
    by (bit_vector)
    requires
        x < 16,
        s < 4,
    ensures
        x ^ (1u8 << s) < 16,
{
}

proof fn lemma_xor_down(x: u8, s: u8)
    by (bit_vector)
    requires
        s < 8,
        (x >> s) & 1u8 == 1u8,
    ensures
        x ^ (1u8 << s) < x,
{
}

proof fn lemma_ones8_le(x: u8, n: int)
    requires
        0 <= n <= 8,
    ensures
        ones8(x, n) <= n,
    decreases n,
{
    if n > 0 {
        lemma_ones8_le(x, n - 1);
    }
}

/// `first_set_from` finds the lowest set bit at or after `i`.
pub proof fn lemma_first_set_props(x: u8, i: int)
    requires
        0 <= i <= 4,
    ensures
        i <= first_set_from(x, i) <= 4,
        forall|j: int| i <= j < first_set_from(x, i) ==> !#[trigger] bit8(x, j),
        first_set_from(x, i) < 4 ==> bit8(x, first_set_from(x, i)),
    decreases 4 - i,
{
    if i < 4 && !bit8(x, i) {
        lemma_first_set_props(x, i + 1);
    }
}

/// The trailing zero count of `y` (which has bit 4 set and agrees with `x` below 4)
/// is the first set bit of `x` among the goal squares.
proof fn lemma_first_set(x: u8, y: u8, t: int, i: int)
    requires
        0 <= i <= t <= 4,
        forall|j: int| 0 <= j < 4 ==> bit8(y, j) == bit8(x, j),
        t < 8 ==> (y >> (t as u8)) & 1u8 == 1u8,
        forall|j: u8| 0 <= j < t ==> #[trigger] (y >> j) & 1u8 == 0u8,
    ensures
        first_set_from(x, i) == t,
    decreases 4 - i,
{
    if i < 4 {
        if i < t {
            assert((y >> (i as u8)) & 1u8 == 0u8);
            assert(!bit8(x, i));
            lemma_first_set(x, y, t, i + 1);
        } else {
            assert(bit8(y, t));
        }
    }
}

/// Positions where no ball sits add nothing to `unlocked_upto`.
proof fn lemma_unlocked_skip(x: u8, k: int, i: int)
    requires
        0 <= k <= i <= 4,
        forall|j: int| k <= j < i ==> !#[trigger] bit8(x, j),
    ensures
        unlocked_upto(x, i) == unlocked_upto(x, k),
    decreases i - k,
{
    if i > k {
        assert(!bit8(x, i - 1));
        lemma_unlocked_skip(x, k, i - 1);
    }
}

/// Once the rest of the goal is locked or empty, no further ball can move.
proof fn lemma_unlocked_tail(h0: u8, home: u8, k: int)
    requires
        0 <= k <= 4,
        home < 16,
        locked_spec(home) || home == 0,
        forall|p: int| 0 <= p < k ==> !#[trigger] bit8(home, p),
        forall|p: int| k <= p ==> #[trigger] bit8(home, p) == bit8(h0, p),
        locked_spec(home) <==> (home != 0 && all_set_from(home, first_set_from(home, 0))),
        home == 0 <==> !bit8(home, 0) && !bit8(home, 1) && !bit8(home, 2) && !bit8(home, 3),
    ensures
        unlocked_upto(h0, 4) == unlocked_upto(h0, k),
{
    lemma_first_set_props(home, 0);
    assert forall|j: int| k <= j < 4 implies !unlocked_at(h0, j) by {
        if bit8(h0, j) {
            assert(bit8(home, j));
            assert(home != 0);
            let f = first_set_from(home, 0);
            assert(f <= j);
            assert(all_set_from(home, f));
            assert forall|q: int| j + 1 <= q < 4 implies #[trigger] bit8(h0, q) by {
                assert(bit8(home, q));
            }
        }
    }
    lemma_unlocked_no_more(h0, k, 4);
}

proof fn lemma_unlocked_no_more(x: u8, k: int, n: int)
    requires
        0 <= k <= n <= 4,
        forall|j: int| k <= j < 4 ==> !unlocked_at(x, j),
    ensures
        unlocked_upto(x, n) == unlocked_upto(x, k),
    decreases n - k,
{
    if n > k {
        lemma_unlocked_no_more(x, k, n - 1);
    }
}

} // verus!
