//! Moves: what a card does, for whom and by whom.
use crate::card::{card_of, Card};
use crate::color::{color_of, Color};
use crate::square::Square;
use vstd::prelude::*;

verus! {

/// What a played card does on the board.
#[allow(inconsistent_fields)]
#[derive(Debug, Clone, PartialEq)]
pub enum TacAction {
    /// Move a ball around the ring.
    Step { from: Square, to: Square },
    /// Move a ball inside the goal.
    StepHome { from: u8, to: u8 },
    /// Move a ball from the ring into the goal.
    StepInHome { from: Square, to: u8 },
    /// Swap two balls on the ring.
    Trickster { target1: Square, target2: Square },
    /// Put a ball from the base onto the entry square.
    Enter,
    /// Put a ball of the next player from its base onto its entry square.
    AngelEnter,
    /// Force the next player to discard.
    Suspend,
    /// Pass the hands on to the next player.
    Jester,
    /// Look at the next player's hand.
    Devil,
    /// Move a ball to the next ball ahead and capture it.
    Warrior { from: Square, to: Square },
    /// Throw a card away.
    Discard,
    /// Hand a card to the partner.
    Trade,
    /// Split seven steps over several balls; steps from `partner_idx` on are for the partner.
    SevenSteps { steps: Vec<SevenAction>, partner_idx: Option<usize> },
}

/// One part of a split seven.
#[allow(inconsistent_fields)]
#[derive(Debug, Clone, Copy, PartialEq, Eq, Structural)]
pub enum SevenAction {
    /// Move a ball around the ring.
    Step { from: Square, to: Square },
    /// Move a ball inside the goal.
    StepHome { from: u8, to: u8 },
    /// Move a ball from the ring into the goal.
    StepInHome { from: Square, to: u8 },
}

/// Two actions are the same: equal, or split sevens with the same parts.
pub open spec fn same_action(a: TacAction, b: TacAction) -> bool {
    match (a, b) {
        (
            TacAction::SevenSteps { steps: s1, partner_idx: p1 },
            TacAction::SevenSteps { steps: s2, partner_idx: p2 },
        ) => s1@ == s2@ && p1 == p2,
        _ => a == b,
    }
}

impl TacAction {
    /// A copy of the action.
    pub fn copy(&self) -> (r: TacAction)
        ensures
            same_action(r, *self),
    {
        match self {
            TacAction::Step { from, to } => TacAction::Step { from: *from, to: *to },
            TacAction::StepHome { from, to } => TacAction::StepHome { from: *from, to: *to },
            TacAction::StepInHome { from, to } => TacAction::StepInHome { from: *from, to: *to },
            TacAction::Trickster { target1, target2 } => TacAction::Trickster { target1: *target1, target2: *target2 },
            TacAction::Enter => TacAction::Enter,
            TacAction::AngelEnter => TacAction::AngelEnter,
            TacAction::Suspend => TacAction::Suspend,
            TacAction::Jester => TacAction::Jester,
            TacAction::Devil => TacAction::Devil,
            TacAction::Warrior { from, to } => TacAction::Warrior { from: *from, to: *to },
            TacAction::Discard => TacAction::Discard,
            TacAction::Trade => TacAction::Trade,
            TacAction::SevenSteps { steps, partner_idx } => {
                let mut copied: Vec<SevenAction> = Vec::new();
                let mut i: usize = 0;
                while i < steps.len()
                    invariant
                        i <= steps.len(),
                        copied@ == steps@.take(i as int),
                    decreases steps.len() - i,
                {
                    copied.push(steps[i]);
                    i = i + 1;
                    proof {
                        assert(copied@ =~= steps@.take(i as int));
                    }
                }
                proof {
                    assert(steps@.take(steps.len() as int) =~= steps@);
                }
                TacAction::SevenSteps { steps: copied, partner_idx: *partner_idx }
            },
        }
    }
}

/// Both lists hold the same parts in the same order.
fn same_steps(s1: &Vec<SevenAction>, s2: &Vec<SevenAction>) -> (r: bool)
    ensures
        r == (s1@ == s2@),
{
    if s1.len() != s2.len() {
        return false;
    }
    let mut i: usize = 0;
    while i < s1.len()
        invariant
            i <= s1.len(),
            s1.len() == s2.len(),
            forall|j: int| 0 <= j < i ==> s1@[j] == s2@[j],
        decreases s1.len() - i,
    {
        if s1[i] != s2[i] {
            proof {
                assert(s1@[i as int] != s2@[i as int]);
            }
            return false;
        }
        i = i + 1;
    }
    proof {
        assert(s1@ =~= s2@);
    }
    true
}

impl TacAction {
    /// Both actions are the same: equal, or split sevens with the same parts.
    pub fn same_as(&self, other: &TacAction) -> (r: bool)
        ensures
            r == same_action(*self, *other),
    {
        match (self, other) {
            (TacAction::Step { from: a, to: b }, TacAction::Step { from: c, to: d }) => *a == *c && *b == *d,
            (TacAction::StepHome { from: a, to: b }, TacAction::StepHome { from: c, to: d }) => *a == *c && *b == *d,
            (TacAction::StepInHome { from: a, to: b }, TacAction::StepInHome { from: c, to: d }) => *a == *c && *b == *d,
            (TacAction::Trickster { target1: a, target2: b }, TacAction::Trickster { target1: c, target2: d }) => *a == *c && *b == *d,
            (TacAction::Enter, TacAction::Enter) => true,
            (TacAction::AngelEnter, TacAction::AngelEnter) => true,
            (TacAction::Suspend, TacAction::Suspend) => true,
            (TacAction::Jester, TacAction::Jester) => true,
            (TacAction::Devil, TacAction::Devil) => true,
            (TacAction::Warrior { from: a, to: b }, TacAction::Warrior { from: c, to: d }) => *a == *c && *b == *d,
            (TacAction::Discard, TacAction::Discard) => true,
            (TacAction::Trade, TacAction::Trade) => true,
            (TacAction::SevenSteps { steps: s1, partner_idx: p1 }, TacAction::SevenSteps { steps: s2, partner_idx: p2 }) => {
                same_steps(s1, s2) && *p1 == *p2
            },
            _ => false,
        }
    }
}

/// A move: the card played, its action, the player the action is for and the player
/// who played it.
#[derive(Debug, Clone, PartialEq)]
pub struct TacMove {
    pub card: Card,
    pub action: TacAction,
    pub played_for: Color,
    pub played_by: Color,
}

impl TacMove {
    pub fn new(card: Card, action: TacAction, played_for: Color, played_by: Color) -> (r: Self)
        ensures
            r.card == card,
            r.action == action,
            r.played_for == played_for,
            r.played_by == played_by,
    {
        Self { card, action, played_for, played_by }
    }

    /// Both moves play the same card with the same action, for and by the same players.
    pub fn same_as(&self, other: &TacMove) -> (r: bool)
        ensures
            r == (self.card == other.card && same_action(self.action, other.action) && self.played_for
                == other.played_for && self.played_by == other.played_by),
    {
        self.card == other.card && self.action.same_as(&other.action) && self.played_for == other.played_for
            && self.played_by == other.played_by
    }
}

/// A move packed into a machine word.
#[derive(Debug, Clone, Copy, PartialEq, Eq, Structural)]
pub enum PackedTacMove {
    Normal(u32),
    Seven(u64),
}

/// The number under which an action is packed.
pub open spec fn action_id(a: TacAction) -> u32 {
    match a {
        TacAction::Step { .. } => 0,
        TacAction::StepHome { .. } => 1,
        TacAction::StepInHome { .. } => 2,
        TacAction::Trickster { .. } => 3,
        TacAction::Enter => 4,
        TacAction::Suspend => 5,
        TacAction::Jester => 6,
        TacAction::Devil => 7,
        TacAction::Warrior { .. } => 8,
        TacAction::Discard => 9,
        TacAction::Trade => 10,
        TacAction::AngelEnter => 11,
        TacAction::SevenSteps { .. } => 12,
    }
}

/// The two squares (or goal positions) an action names; `(0, 0)` when it names none.
pub open spec fn action_squares(a: TacAction) -> (u8, u8) {
    match a {
        TacAction::Step { from, to } => (from.0, to.0),
        TacAction::StepHome { from, to } => (from, to),
        TacAction::StepInHome { from, to } => (from.0, to),
        TacAction::Trickster { target1, target2 } => (target1.0, target2.0),
        TacAction::Warrior { from, to } => (from.0, to.0),
        _ => (0, 0),
    }
}

/// The word of a packed move that is not a split seven: the card in bits 0-4, the
/// player played for in bits 5-6, the player who played it in bits 7-8, the first
/// square in bits 9-14, the second in bits 15-20 and the action in bits 21-24.
pub open spec fn pack_normal(card: Card, action: TacAction, played_for: Color, played_by: Color) -> u32 {
    let (from, to) = action_squares(action);
    let base = (card.idx() as u32) | ((played_for.idx() as u32) << 5u32) | ((played_by.idx() as u32)
        << 7u32);
    if from == 0 && to == 0 {
        base | (action_id(action) << 21u32)
    } else {
        base | ((((to as u32) << 6u32) | from as u32) << 9u32) | (action_id(action) << 21u32)
    }
}

/// The two-bit kind of a part of a split seven.
pub open spec fn seven_kind(a: SevenAction) -> u64 {
    match a {
        SevenAction::Step { .. } => 1,
        SevenAction::StepHome { .. } => 2,
        SevenAction::StepInHome { .. } => 3,
    }
}

/// The word of a packed split seven after its first `n` parts: bit 0 is set for a
/// tac, bits 1-2 hold the player played for, bits 3-4 the player who played it, and
/// part `i` has its kind at bit `6i + 5` and its partner flag at bit `6i + 7`.
pub open spec fn pack_seven(card: Card, actions: Seq<(SevenAction, bool)>, played_for: Color, played_by: Color, n: int) -> u64
    decreases n,
{
    if n <= 0 {
        (if card == Card::Tac {
            1u64
        } else {
            0u64
        }) | ((played_for.idx() as u64) << 1u64) | ((played_by.idx() as u64) << 3u64)
    } else {
        let i = n - 1;
        let prev = pack_seven(card, actions, played_for, played_by, i);
        let with_kind = prev | (seven_kind(actions[i].0) << ((i * 6 + 5) as u64));
        if actions[i].1 {
            with_kind | (1u64 << ((i * 6 + 7) as u64))
        } else {
            with_kind
        }
    }
}

/// The action that a packed move word decodes to; squares are read back with six bits.
pub open spec fn unpack_normal_action(m: u32) -> TacAction {
    let action = (m >> 21u32) & 0b1111u32;
    let from = ((m >> 9u32) & 0b111111u32) as u8;
    let to = ((m >> 15u32) & 0b111111u32) as u8;
    if action == 0 {
        TacAction::Step { from: Square(from), to: Square(to) }
    } else if action == 1 {
        TacAction::StepHome { from, to }
    } else if action == 2 {
        TacAction::StepInHome { from: Square(from), to }
    } else if action == 3 {
        TacAction::Trickster { target1: Square(from), target2: Square(to) }
    } else if action == 4 {
        TacAction::Enter
    } else if action == 5 {
        TacAction::Suspend
    } else if action == 6 {
        TacAction::Jester
    } else if action == 7 {
        TacAction::Devil
    } else if action == 8 {
        TacAction::Warrior { from: Square(from), to: Square(to) }
    } else if action == 9 {
        TacAction::Discard
    } else if action == 10 {
        TacAction::Trade
    } else {
        TacAction::AngelEnter
    }
}

proof fn lemma_masks32(x: u32)
    by (bit_vector)
    ensures
        x & 0b11u32 < 4,
        x & 0b11111u32 < 32,
        x & 0b1111u32 < 16,
{
}

proof fn lemma_masks64(x: u64)
    by (bit_vector)
    ensures
        x & 0b11u64 < 4,
{
}

impl PackedTacMove {
    /// Packs a move that is not a split seven.
    pub fn new(card: Card, action: TacAction, played_for: Color, played_by: Color) -> (r: Self)
        requires
            !(action is SevenSteps),
        ensures
            r == PackedTacMove::Normal(pack_normal(card, action, played_for, played_by)),
    {
        let mut res: u32 = card.index() as u32;
        res = res | ((played_for.index() as u32) << 5u32);
        res = res | ((played_by.index() as u32) << 7u32);
        let ghost base = res;
        let (from, to, action_id): (u8, u8, u32) = match action {
            TacAction::Step { from, to } => (from.0, to.0, 0),
            TacAction::StepHome { from, to } => (from, to, 1),
            TacAction::StepInHome { from, to } => (from.0, to, 2),
            TacAction::Trickster { target1, target2 } => (target1.0, target2.0, 3),
            TacAction::Enter => (0, 0, 4),
            TacAction::Suspend => (0, 0, 5),
            TacAction::Jester => (0, 0, 6),
            TacAction::Devil => (0, 0, 7),
            TacAction::Warrior { from, to } => (from.0, to.0, 8),
            TacAction::Discard => (0, 0, 9),
            TacAction::Trade => (0, 0, 10),
            TacAction::AngelEnter => (0, 0, 11),
            TacAction::SevenSteps { .. } => (0, 0, 12),
        };
        if from != 0 || to != 0 {
            res = res | ((((to as u32) << 6u32) | from as u32) << 9u32);
        }
        res = res | (action_id << 21u32);
        PackedTacMove::Normal(res)
    }

    /// Packs a split seven (played with a seven or a tac) of at most ten parts.
    pub fn new_seven(card: Card, actions: Vec<(SevenAction, bool)>, played_for: Color, played_by: Color) -> (r: Self)
        requires
            card == Card::Seven || card == Card::Tac,
            actions.len() <= 10,
        ensures
            r == PackedTacMove::Seven(pack_seven(card, actions@, played_for, played_by, actions.len() as int)),
    {
        let mut res: u64 = if matches!(card, Card::Tac) {
            1
        } else {
            0
        };
        res = res | ((played_for.index() as u64) << 1u64);
        res = res | ((played_by.index() as u64) << 3u64);
        let mut idx: usize = 0;
        while idx < actions.len()
            invariant
                idx <= actions.len() <= 10,
                res == pack_seven(card, actions@, played_for, played_by, idx as int),
            decreases actions.len() - idx,
        {
            let (action, for_partner) = actions[idx];
            let shift: u64 = idx as u64 * 6 + 5;
            match action {
                SevenAction::Step { .. } => {
                    res = res | (1u64 << shift);
                },
                SevenAction::StepHome { .. } => {
                    res = res | (2u64 << shift);
                },
                SevenAction::StepInHome { .. } => {
                    res = res | (3u64 << shift);
                },
            }
            if for_partner {
                res = res | (1u64 << (idx as u64 * 6 + 7));
            }
            idx += 1;
        }
        PackedTacMove::Seven(res)
    }

    /// The card of the packed move.
    pub fn card(&self) -> (r: Card)
        requires
            self matches PackedTacMove::Normal(m) ==> m & 0b11111u32 < 18,
        ensures
            self matches PackedTacMove::Normal(m) ==> r == card_of((m & 0b11111u32) as int),
            self matches PackedTacMove::Seven(m) ==> r == if m & 1u64 == 0 {
                Card::Seven
            } else {
                Card::Tac
            },
    {
        match self {
            PackedTacMove::Normal(m) => Card::from_index((*m & 0b11111u32) as usize),
            PackedTacMove::Seven(m) => {
                if *m & 1 == 0 {
                    Card::Seven
                } else {
                    Card::Tac
                }
            },
        }
    }

    /// The action of the packed move. A packed split seven decodes to a seven with no parts.
    pub fn action(&self) -> (r: TacAction)
        requires
            self matches PackedTacMove::Normal(m) ==> (m >> 21u32) & 0b1111u32 <= 11,
        ensures
            self matches PackedTacMove::Normal(m) ==> r == unpack_normal_action(*m),
            self is Seven ==> (r matches TacAction::SevenSteps { steps, partner_idx } && steps@.len() == 0
                && partner_idx is None),
    {
        match self {
            PackedTacMove::Normal(m) => {
                let m = *m;
                let action = (m >> 21u32) & 0b1111u32;
                let from = ((m >> 9u32) & 0b111111u32) as u8;
                let to = ((m >> 15u32) & 0b111111u32) as u8;
                if action == 0 {
                    TacAction::Step { from: Square(from), to: Square(to) }
                } else if action == 1 {
                    TacAction::StepHome { from, to }
                } else if action == 2 {
                    TacAction::StepInHome { from: Square(from), to }
                } else if action == 3 {
                    TacAction::Trickster { target1: Square(from), target2: Square(to) }
                } else if action == 4 {
                    TacAction::Enter
                } else if action == 5 {
                    TacAction::Suspend
                } else if action == 6 {
                    TacAction::Jester
                } else if action == 7 {
                    TacAction::Devil
                } else if action == 8 {
                    TacAction::Warrior { from: Square(from), to: Square(to) }
                } else if action == 9 {
                    TacAction::Discard
                } else if action == 10 {
                    TacAction::Trade
                } else {
                    TacAction::AngelEnter
                }
            },
            PackedTacMove::Seven(_) => TacAction::SevenSteps { steps: Vec::new(), partner_idx: None },
        }
    }

    /// The player the packed move was played for.
    pub fn played_for(&self) -> (r: Color)
        ensures
            self matches PackedTacMove::Normal(m) ==> r == color_of(((m >> 5u32) & 0b11u32) as int),
            self matches PackedTacMove::Seven(m) ==> r == color_of(((m >> 1u64) & 0b11u64) as int),
    {
        match self {
            PackedTacMove::Normal(m) => {
                proof {
                    lemma_masks32(*m >> 5u32);
                }
                Color::from_index(((*m >> 5u32) & 0b11u32) as usize)
            },
            PackedTacMove::Seven(m) => {
                proof {
                    lemma_masks64(*m >> 1u64);
                }
                Color::from_index(((*m >> 1u64) & 0b11u64) as usize)
            },
        }
    }

    /// The player who played the packed move.
    pub fn played_by(&self) -> (r: Color)
        ensures
            self matches PackedTacMove::Normal(m) ==> r == color_of(((m >> 7u32) & 0b11u32) as int),
            self matches PackedTacMove::Seven(m) ==> r == color_of(((m >> 3u64) & 0b11u64) as int),
    {
        match self {
            PackedTacMove::Normal(m) => {
                proof {
                    lemma_masks32(*m >> 7u32);
                }
                Color::from_index(((*m >> 7u32) & 0b11u32) as usize)
            },
            PackedTacMove::Seven(m) => {
                proof {
                    lemma_masks64(*m >> 3u64);
                }
                Color::from_index(((*m >> 3u64) & 0b11u64) as usize)
            },
        }
    }
}


proof fn lemma_pack_fields(c: u32, f: u32, b: u32, fr: u32, to: u32, id: u32)
    by (bit_vector)
    requires
        c < 32,
        f < 4,
        b < 4,
        fr < 64,
        to < 64,
        id < 16,
    ensures
        ({
            let w = (c | (f << 5u32) | (b << 7u32)) | (((to << 6u32) | fr) << 9u32) | (id << 21u32);
            &&& w & 0b11111u32 == c
            &&& (w >> 5u32) & 0b11u32 == f
            &&& (w >> 7u32) & 0b11u32 == b
            &&& (w >> 9u32) & 0b111111u32 == fr
            &&& (w >> 15u32) & 0b111111u32 == to
            &&& (w >> 21u32) & 0b1111u32 == id
        }),
        ({
            let w = (c | (f << 5u32) | (b << 7u32)) | (id << 21u32);
            &&& w & 0b11111u32 == c
            &&& (w >> 5u32) & 0b11u32 == f
            &&& (w >> 7u32) & 0b11u32 == b
            &&& (w >> 9u32) & 0b111111u32 == 0
            &&& (w >> 15u32) & 0b111111u32 == 0
            &&& (w >> 21u32) & 0b1111u32 == id
        }),
{
}

/// Packing a move that is not a split seven, then reading back its card, action and
/// players, gives the move back.
pub proof fn law_packed_roundtrip(card: Card, action: TacAction, played_for: Color, played_by: Color)
    requires
        !(action is SevenSteps),
        action_squares(action).0 < 64,
        action_squares(action).1 < 64,
    ensures
        ({
            let w = pack_normal(card, action, played_for, played_by);
            &&& card_of((w & 0b11111u32) as int) == card
            &&& (w >> 21u32) & 0b1111u32 <= 11
            &&& color_of(((w >> 5u32) & 0b11u32) as int) == played_for
            &&& color_of(((w >> 7u32) & 0b11u32) as int) == played_by
            &&& unpack_normal_action(w) == action
        }),
{
    let (fr, to) = action_squares(action);
    lemma_pack_fields(
        card.idx() as u32,
        played_for.idx() as u32,
        played_by.idx() as u32,
        fr as u32,
        to as u32,
        action_id(action),
    );
}

} // verus!
