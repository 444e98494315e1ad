//! The cards of the game.
use vstd::prelude::*;

verus! {

pub const NUM_CARDS: usize = 18;

pub const CARDS: [Card; 18] = [
    Card::One,
    Card::Two,
    Card::Three,
    Card::Four,
    Card::Five,
    Card::Six,
    Card::Seven,
    Card::Eight,
    Card::Nine,
    Card::Ten,
    Card::Twelve,
    Card::Thirteen,
    Card::Trickster,
    Card::Jester,
    Card::Angel,
    Card::Devil,
    Card::Warrior,
    Card::Tac,
];

#[derive(Debug, Clone, Copy, PartialEq, Eq, Hash, PartialOrd, Ord, Structural)]
pub enum Card {
    One,
    Two,
    Three,
    Four,
    Five,
    Six,
    Seven,
    Eight,
    Nine,
    Ten,
    Twelve,
    Thirteen,
    Trickster,
    Jester,
    Angel,
    Devil,
    Warrior,
    Tac,
}

/// The card at position `i` of the card order.
pub open spec fn card_of(i: int) -> Card {
    if i <= 0 {
        Card::One
    } else if i == 1 {
        Card::Two
    } else if i == 2 {
        Card::Three
    } else if i == 3 {
        Card::Four
    } else if i == 4 {
        Card::Five
    } else if i == 5 {
        Card::Six
    } else if i == 6 {
        Card::Seven
    } else if i == 7 {
        Card::Eight
    } else if i == 8 {
        Card::Nine
    } else if i == 9 {
        Card::Ten
    } else if i == 10 {
        Card::Twelve
    } else if i == 11 {
        Card::Thirteen
    } else if i == 12 {
        Card::Trickster
    } else if i == 13 {
        Card::Jester
    } else if i == 14 {
        Card::Angel
    } else if i == 15 {
        Card::Devil
    } else if i == 16 {
        Card::Warrior
    } else {
        Card::Tac
    }
}

/// Positions and cards match one to one.
pub proof fn lemma_card_of_idx(i: int)
    requires
        0 <= i < 18,
    ensures
        card_of(i).idx() == i,
{
}

/// Different cards have different positions.
pub proof fn lemma_card_idx_injective(a: Card, b: Card)
    requires
        a != b,
    ensures
        a.idx() != b.idx(),
{
}

/// How many copies of each card the deck holds.
pub open spec fn amount_spec(c: Card) -> int {
    match c {
        Card::Seven => 8,
        Card::Jester | Card::Angel | Card::Devil | Card::Warrior => 1,
        Card::Tac => 4,
        Card::One | Card::Thirteen => 9,
        _ => 7,
    }
}

/// The number of steps a plain forward card moves, if it is one.
pub open spec fn simple_steps(c: Card) -> Option<u8> {
    match c {
        Card::One => Some(1u8),
        Card::Two => Some(2u8),
        Card::Three => Some(3u8),
        Card::Five => Some(5u8),
        Card::Six => Some(6u8),
        Card::Eight => Some(8u8),
        Card::Nine => Some(9u8),
        Card::Ten => Some(10u8),
        Card::Twelve => Some(12u8),
        Card::Thirteen => Some(13u8),
        _ => None,
    }
}

/// The card that moves exactly `steps` forward, if any.
pub open spec fn from_steps_spec(steps: u8) -> Option<Card> {
    if steps == 7 {
        Some(Card::Seven)
    } else if steps == 1 {
        Some(Card::One)
    } else if steps == 2 {
        Some(Card::Two)
    } else if steps == 3 {
        Some(Card::Three)
    } else if steps == 5 {
        Some(Card::Five)
    } else if steps == 6 {
        Some(Card::Six)
    } else if steps == 8 {
        Some(Card::Eight)
    } else if steps == 9 {
        Some(Card::Nine)
    } else if steps == 10 {
        Some(Card::Ten)
    } else if steps == 12 {
        Some(Card::Twelve)
    } else if steps == 13 {
        Some(Card::Thirteen)
    } else {
        None
    }
}

impl Card {
    /// Position of the card in the card order.
    pub open spec fn idx(self) -> int {
        match self {
            Card::One => 0,
            Card::Two => 1,
            Card::Three => 2,
            Card::Four => 3,
            Card::Five => 4,
            Card::Six => 5,
            Card::Seven => 6,
            Card::Eight => 7,
            Card::Nine => 8,
            Card::Ten => 9,
            Card::Twelve => 10,
            Card::Thirteen => 11,
            Card::Trickster => 12,
            Card::Jester => 13,
            Card::Angel => 14,
            Card::Devil => 15,
            Card::Warrior => 16,
            Card::Tac => 17,
        }
    }

    /// Position of the card in the card order.
    pub fn index(self) -> (r: usize)
        ensures
            r as int == self.idx(),
            r < 18,
            card_of(r as int) == self,
    {
        match self {
            Card::One => 0,
            Card::Two => 1,
            Card::Three => 2,
            Card::Four => 3,
            Card::Five => 4,
            Card::Six => 5,
            Card::Seven => 6,
            Card::Eight => 7,
            Card::Nine => 8,
            Card::Ten => 9,
            Card::Twelve => 10,
            Card::Thirteen => 11,
            Card::Trickster => 12,
            Card::Jester => 13,
            Card::Angel => 14,
            Card::Devil => 15,
            Card::Warrior => 16,
            Card::Tac => 17,
        }
    }

    /// The card at position `i` of the card order.
    pub fn from_index(i: usize) -> (r: Card)
        requires
            i < 18,
        ensures
            r == card_of(i as int),
            r.idx() == i as int,
    {
        if i == 0 {
            Card::One
        } else if i == 1 {
            Card::Two
        } else if i == 2 {
            Card::Three
        } else if i == 3 {
            Card::Four
        } else if i == 4 {
            Card::Five
        } else if i == 5 {
            Card::Six
        } else if i == 6 {
            Card::Seven
        } else if i == 7 {
            Card::Eight
        } else if i == 8 {
            Card::Nine
        } else if i == 9 {
            Card::Ten
        } else if i == 10 {
            Card::Twelve
        } else if i == 11 {
            Card::Thirteen
        } else if i == 12 {
            Card::Trickster
        } else if i == 13 {
            Card::Jester
        } else if i == 14 {
            Card::Angel
        } else if i == 15 {
            Card::Devil
        } else if i == 16 {
            Card::Warrior
        } else {
            Card::Tac
        }
    }

    /// How many copies of this card a full deck holds.
    pub fn amount(self) -> (r: u8)
        ensures
            r as int == amount_spec(self),
    {
        match self {
            Card::Seven => 8,
            Card::Jester | Card::Angel | Card::Devil | Card::Warrior => 1,
            Card::Tac => 4,
            Card::One | Card::Thirteen => 9,
            _ => 7,
        }
    }

    /// The plain forward card that moves exactly `steps` (seven included).
    pub fn from_steps(steps: u8) -> (r: Option<Card>)
        ensures
            r == from_steps_spec(steps),
    {
        match steps {
            1 => Some(Card::One),
            2 => Some(Card::Two),
            3 => Some(Card::Three),
            5 => Some(Card::Five),
            6 => Some(Card::Six),
            7 => Some(Card::Seven),
            8 => Some(Card::Eight),
            9 => Some(Card::Nine),
            10 => Some(Card::Ten),
            12 => Some(Card::Twelve),
            13 => Some(Card::Thirteen),
            _ => None,
        }
    }

    /// The label of the card.
    pub fn name(&self) -> (r: &'static str)
        ensures
            r@ == self.name_spec(),
    {
        match self {
            Card::One => "1",
            Card::Two => "2",
            Card::Three => "3",
            Card::Four => "4",
            Card::Five => "5",
            Card::Six => "6",
            Card::Seven => "7",
            Card::Eight => "8",
            Card::Nine => "9",
            Card::Ten => "10",
            Card::Twelve => "12",
            Card::Thirteen => "13",
            Card::Trickster => "Trickster",
            Card::Jester => "Jester",
            Card::Angel => "Angel",
            Card::Devil => "Devil",
            Card::Warrior => "Warrior",
            Card::Tac => "Tac",
        }
    }

    /// The label of the card.
    pub open spec fn name_spec(&self) -> Seq<char> {
        match self {
            Card::One => "1"@,
            Card::Two => "2"@,
            Card::Three => "3"@,
            Card::Four => "4"@,
            Card::Five => "5"@,
            Card::Six => "6"@,
            Card::Seven => "7"@,
            Card::Eight => "8"@,
            Card::Nine => "9"@,
            Card::Ten => "10"@,
            Card::Twelve => "12"@,
            Card::Thirteen => "13"@,
            Card::Trickster => "Trickster"@,
            Card::Jester => "Jester"@,
            Card::Angel => "Angel"@,
            Card::Devil => "Devil"@,
            Card::Warrior => "Warrior"@,
            Card::Tac => "Tac"@,
        }
    }

    /// The number of steps if the card is a plain forward card.
    pub fn is_simple(self) -> (r: Option<u8>)
        ensures
            r == simple_steps(self),
    {
        match self {
            Card::One => Some(1),
            Card::Two => Some(2),
            Card::Three => Some(3),
            Card::Five => Some(5),
            Card::Six => Some(6),
            Card::Eight => Some(8),
            Card::Nine => Some(9),
            Card::Ten => Some(10),
            Card::Twelve => Some(12),
            Card::Thirteen => Some(13),
            _ => None,
        }
    }
}

} // verus!
