//! The four players, in turn order.
use crate::square::Square;
use vstd::prelude::*;

verus! {

/// The players in turn order: `Black`, `Blue`, `Green`, `Red`.
pub const ALL_COLORS: [Color; 4] = [Color::Black, Color::Blue, Color::Green, Color::Red];

#[derive(Debug, Copy, Clone, PartialEq, Eq, Structural)]
pub enum Color {
    Black,
    Blue,
    Green,
    Red,
}

/// The color at position `i` (taken modulo 4) of the turn order.
pub open spec fn color_of(i: int) -> Color {
    let k = i % 4;
    if k == 0 {
        Color::Black
    } else if k == 1 {
        Color::Blue
    } else if k == 2 {
        Color::Green
    } else {
        Color::Red
    }
}

impl Color {
    /// Position of the color in the turn order.
    pub open spec fn idx(self) -> int {
        match self {
            Color::Black => 0,
            Color::Blue => 1,
            Color::Green => 2,
            Color::Red => 3,
        }
    }

    /// Position of the color in the turn order.
    pub fn index(self) -> (r: usize)
        ensures
            r as int == self.idx(),
            r < 4,
    {
        match self {
            Color::Black => 0,
            Color::Blue => 1,
            Color::Green => 2,
            Color::Red => 3,
        }
    }

    /// The color at position `i` of the turn order.
    pub fn from_index(i: usize) -> (r: Color)
        requires
            i < 4,
        ensures
            r.idx() == i as int,
            r == color_of(i as int),
    {
        if i == 0 {
            Color::Black
        } else if i == 1 {
            Color::Blue
        } else if i == 2 {
            Color::Green
        } else {
            Color::Red
        }
    }

    /// The player who moves after `self`.
    pub fn next(self) -> (r: Self)
        ensures
            r == color_of(self.idx() + 1),
            r.idx() == (self.idx() + 1) % 4,
    {
        match self {
            Color::Black => Color::Blue,
            Color::Blue => Color::Green,
            Color::Green => Color::Red,
            Color::Red => Color::Black,
        }
    }

    /// The player who moves before `self`.
    pub fn prev(self) -> (r: Self)
        ensures
            r == color_of(self.idx() + 3),
            r.idx() == (self.idx() + 3) % 4,
    {
        match self {
            Color::Black => Color::Red,
            Color::Blue => Color::Black,
            Color::Green => Color::Blue,
            Color::Red => Color::Green,
        }
    }

    /// The player sitting opposite, who plays on the same team.
    pub fn partner(self) -> (r: Self)
        ensures
            r == color_of(self.idx() + 2),
            r.idx() == (self.idx() + 2) % 4,
    {
        self.next().next()
    }

    /// The square on which the color's balls enter the ring.
    pub open spec fn home_sq(self) -> int {
        16 * self.idx()
    }

    /// The square on which the color's balls enter the ring.
    pub fn home(self) -> (r: Square)
        ensures
            r.0 as int == self.home_sq(),
    {
        match self {
            Color::Black => Square(0),
            Color::Blue => Square(16),
            Color::Green => Square(32),
            Color::Red => Square(48),
        }
    }

    /// How many players sit strictly between `self` and `other` going forward
    /// in turn order (for `other == self` that is the three others).
    pub open spec fn between_spec(self, other: Self) -> int {
        (other.idx() - self.idx() + 3) % 4
    }

    /// How many players are between self and other
    pub fn between(self, other: Self) -> (r: usize)
        ensures
            r as int == self.between_spec(other),
            r < 4,
    {
        let mut res: usize = 0;
        let mut curr = self.next();
        let ghost target = self.between_spec(other);
        proof {
            lemma_color_window(self, other);
        }
        while curr != other
            invariant
                0 <= target < 4,
                color_of(self.idx() + 1 + target) == other,
                forall|k: int| 0 <= k < 4 && #[trigger] color_of(self.idx() + 1 + k) == other ==> k == target,
                res <= target,
                curr == color_of(self.idx() + 1 + res),
            decreases target - res,
        {
            curr = curr.next();
            res += 1;
        }
        res
    }
}

/// Going forward from `c`, the color `o` comes after exactly `between_spec` others.
pub proof fn lemma_color_window(c: Color, o: Color)
    ensures
        color_of(c.idx() + 1 + c.between_spec(o)) == o,
        forall|k: int| 0 <= k < 4 && #[trigger] color_of(c.idx() + 1 + k) == o ==> k == c.between_spec(o),
{
}

impl From<Color> for usize {
    fn from(value: Color) -> (r: usize) {
        value.index()
    }
}

impl vstd::std_specs::convert::FromSpecImpl<Color> for usize {
    open spec fn obeys_from_spec() -> bool {
        true
    }

    open spec fn from_spec(v: Color) -> usize {
        v.idx() as usize
    }
}

impl From<usize> for Color {
    /// The color at position `value` of the turn order, counted modulo 4.
    fn from(value: usize) -> (r: Color) {
        Color::from_index(value % 4)
    }
}

impl vstd::std_specs::convert::FromSpecImpl<usize> for Color {
    open spec fn obeys_from_spec() -> bool {
        true
    }

    open spec fn from_spec(v: usize) -> Color {
        color_of(v as int)
    }
}

} // verus!
