//! The state of a game: balls on the ring and in the goals, hands, deck and turn.
use crate::bitboard::{lemma_view_bounded, lemma_view_ext, lemma_view_len, min_square, rotated_right, sym_diff, BitBoard};
use crate::bits::{bit8, lemma_ones8_toggle, ones8, u8_count_ones};
use crate::card::{amount_spec, Card};
use crate::color::{color_of, Color, ALL_COLORS};
use crate::deck::{expected_total, std_rng_below, std_rng_from_entropy, std_rng_from_seed, std_rng_u64, Deck};
use rand::rngs::StdRng;
use crate::hand::{lemma_remove_first_len, remove_first, removed_first, Hand};
use crate::tacmove::{SevenAction, TacAction, TacMove};
use crate::knowledge::{known_spec, lemma_known_len, view_wf, Knowledge};
use crate::home::{first_set_from, lemma_home_bits, lemma_xor_small, Home};
use crate::square::{dist_home_spec, forward_dist, in_range_spec, Square};
use vstd::prelude::*;

verus! {

/// The position of the balls: for each color (by turn order) the ring squares
/// holding its balls, the word of its goal, and whether its ball on the entry
/// square has not moved yet.
pub struct Position {
    pub balls: Seq<Set<int>>,
    pub homes: Seq<u8>,
    pub fresh: Seq<bool>,
}

/// A position is well formed: four colors, balls on distinct ring squares, and at
/// most four balls of a color on the ring and in its goal together.
pub open spec fn pos_wf(p: Position) -> bool {
    &&& p.balls.len() == 4
    &&& p.homes.len() == 4
    &&& p.fresh.len() == 4
    &&& forall|c: int| 0 <= c < 4 ==> #[trigger] p.balls[c].finite()
    &&& forall|c: int, sq: int| 0 <= c < 4 && #[trigger] p.balls[c].contains(sq) ==> 0 <= sq < 64
    &&& forall|c: int, d: int, sq: int|
        0 <= c < 4 && 0 <= d < 4 && c != d && #[trigger] p.balls[c].contains(sq) ==> !#[trigger] p.balls[d].contains(sq)
    &&& forall|c: int| 0 <= c < 4 ==> #[trigger] p.homes[c] < 16
    &&& forall|c: int| 0 <= c < 4 ==> #[trigger] p.balls[c].len() + ones8(p.homes[c], 8) <= 4
}

/// Some ball stands on `sq`.
pub open spec fn occupied_spec(p: Position, sq: int) -> bool {
    exists|c: int| 0 <= c < 4 && #[trigger] p.balls[c].contains(sq)
}

/// The color of the ball on `sq`, if any.
pub open spec fn color_on_spec(p: Position, sq: int) -> Option<Color> {
    if p.balls[0].contains(sq) {
        Some(Color::Black)
    } else if p.balls[1].contains(sq) {
        Some(Color::Blue)
    } else if p.balls[2].contains(sq) {
        Some(Color::Green)
    } else if p.balls[3].contains(sq) {
        Some(Color::Red)
    } else {
        None
    }
}

/// All ring squares that hold a ball.
pub open spec fn all_balls_spec(p: Position) -> Set<int> {
    p.balls[0].union(p.balls[1]).union(p.balls[2]).union(p.balls[3])
}

/// The position with the ball on `sq` (of whatever color) taken off.
pub open spec fn captured(p: Position, sq: int) -> Position {
    Position { balls: Seq::new(4, |c: int| p.balls[c].remove(sq)), ..p }
}

/// The position with a ball of color `c` put on `sq`.
pub open spec fn with_ball(p: Position, sq: int, c: Color) -> Position {
    Position { balls: p.balls.update(c.idx(), p.balls[c.idx()].insert(sq)), ..p }
}

/// The position with the ball of color `c` on `sq` taken off.
pub open spec fn without_ball(p: Position, sq: int, c: Color) -> Position {
    Position { balls: p.balls.update(c.idx(), p.balls[c.idx()].remove(sq)), ..p }
}

/// The position with the goal word of color `c` replaced.
pub open spec fn with_home(p: Position, c: Color, h: u8) -> Position {
    Position { homes: p.homes.update(c.idx(), h), ..p }
}

/// The position with the freshness flag of color `c` replaced.
pub open spec fn with_fresh(p: Position, c: Color, f: bool) -> Position {
    Position { fresh: p.fresh.update(c.idx(), f), ..p }
}

/// Balls of color `c` that are neither on the ring nor in the goal.
pub open spec fn num_base_spec(p: Position, c: Color) -> int {
    4 - ones8(p.homes[c.idx()], 8) - p.balls[c.idx()].len()
}

/// Moving the ball of color `c` from `start` to `end`, capturing what stands on `end`.
pub open spec fn move_ball_spec(p: Position, start: int, end: int, c: Color) -> Position {
    let p1 = with_ball(without_ball(captured(p, end), start, c), end, c);
    if c.home_sq() == start {
        with_fresh(p1, c, false)
    } else {
        p1
    }
}

/// Putting a ball of color `c` on its entry square, capturing what stands there.
pub open spec fn enter_spec(p: Position, c: Color) -> Position {
    with_fresh(with_ball(captured(p, c.home_sq()), c.home_sq(), c), c, true)
}

/// Swapping the balls on `sq1` and `sq2`; a ball that lands on or leaves its own
/// entry square is no longer fresh.
pub open spec fn swap_spec(p: Position, sq1: int, sq2: int) -> Position {
    let c1 = color_on_spec(p, sq1)->0;
    let c2 = color_on_spec(p, sq2)->0;
    let p1 = with_ball(without_ball(with_ball(without_ball(p, sq1, c1), sq1, c2), sq2, c2), sq2, c1);
    let p2 = if sq1 == c1.home_sq() || sq2 == c1.home_sq() {
        with_fresh(p1, c1, false)
    } else {
        p1
    };
    if sq1 == c2.home_sq() || sq2 == c2.home_sq() {
        with_fresh(p2, c2, false)
    } else {
        p2
    }
}

pub proof fn lemma_color_on(p: Position, sq: int)
    requires
        pos_wf(p),
    ensures
        color_on_spec(p, sq) matches Some(c) ==> p.balls[c.idx()].contains(sq),
        color_on_spec(p, sq) is None <==> !occupied_spec(p, sq),
        forall|c: int| 0 <= c < 4 && p.balls[c].contains(sq) ==> color_on_spec(p, sq) == Some(
            color_of(c),
        ),
        occupied_spec(p, sq) <==> all_balls_spec(p).contains(sq),
{
}

/// Copies of `c` in the hands of the players other than `obs`.
pub open spec fn others_count(hands: Seq<Seq<Card>>, obs: Color, c: Card) -> int {
    (if obs.idx() != 0 { hands[0].to_multiset().count(c) as int } else { 0 }) + (if obs.idx() != 1 {
        hands[1].to_multiset().count(c) as int
    } else {
        0
    }) + (if obs.idx() != 2 { hands[2].to_multiset().count(c) as int } else { 0 }) + (if obs.idx() != 3 {
        hands[3].to_multiset().count(c) as int
    } else {
        0
    })
}

/// The cards of a redetermination: copies of `c` in the pile and in the hands of the
/// players other than `obs`.
pub open spec fn pool(deck: Deck, hands: Seq<Seq<Card>>, obs: Color, c: Card) -> int {
    deck.count(c.idx()) + others_count(hands, obs, c)
}

/// The copies that the known cards say a hand holds exactly.
pub open spec fn exact_total(known: Seq<(Card, u8, bool)>) -> int
    decreases known.len(),
{
    if known.len() == 0 {
        0
    } else {
        exact_total(known.drop_last()) + if known.last().2 {
            known.last().1 as int
        } else {
            0
        }
    }
}

/// Each card that `known` says a hand holds exactly `n` copies of is in `h` at least
/// `n` times, unless `deck` has none of it left.
pub open spec fn exact_met(known: Seq<(Card, u8, bool)>, h: Seq<Card>, deck: Deck) -> bool {
    forall|i: int|
        0 <= i < known.len() && (#[trigger] known[i]).2 ==> h.to_multiset().count(known[i].0) >= known[i].1
            || deck.count(known[i].0.idx()) == 0
}

/// `exact_met` survives a hand that grows by one card and a pile that loses none but
/// some of it.
proof fn lemma_exact_met_grow(known: Seq<(Card, u8, bool)>, h: Seq<Card>, h2: Seq<Card>, deck: Deck, deck2: Deck)
    requires
        exact_met(known, h, deck),
        forall|c: Card| h.to_multiset().count(c) <= #[trigger] h2.to_multiset().count(c),
        forall|i: int| 0 <= i < 18 ==> #[trigger] deck2.count(i) <= deck.count(i),
        forall|i: int| 0 <= i < 18 ==> 0 <= #[trigger] deck2.count(i),
    ensures
        exact_met(known, h2, deck2),
{
    assert forall|i: int| 0 <= i < known.len() && (#[trigger] known[i]).2 implies h2.to_multiset().count(known[i].0) >= known[i].1
        || deck2.count(known[i].0.idx()) == 0 by {
        assert(h.to_multiset().count(known[i].0) <= h2.to_multiset().count(known[i].0));
        let ci = known[i].0.idx();
        assert(0 <= ci < 18);
        assert(deck2.count(ci) <= deck.count(ci));
    }
}

/// Moving a copy of `card` from the pile into the hand of `pi` keeps the pool.
proof fn lemma_pool_move(d0: Deck, d1: Deck, h0: Seq<Seq<Card>>, h1: Seq<Seq<Card>>, obs: Color, pi: int, card: Card)
    requires
        h0.len() == 4,
        0 <= pi < 4,
        pi != obs.idx(),
        d0.counts().len() == 18,
        d0.count(card.idx()) > 0,
        d1.counts() == d0.counts().update(card.idx(), (d0.count(card.idx()) - 1) as u8),
        h1 == h0.update(pi, h0[pi].push(card)),
    ensures
        forall|c: Card| #[trigger] pool(d1, h1, obs, c) == pool(d0, h0, obs, c),
{
    d0.lemma_counts();
    d1.lemma_counts();
    vstd::seq_lib::to_multiset_build(h0[pi], card);
    assert forall|c: Card| #[trigger] pool(d1, h1, obs, c) == pool(d0, h0, obs, c) by {
        assert(h1[pi].to_multiset().count(c) == h0[pi].to_multiset().count(c) + if c == card { 1int } else { 0int });
        if c == card {
            assert(d1.count(c.idx()) == d0.count(c.idx()) - 1);
        } else {
            crate::card::lemma_card_idx_injective(c, card);
            assert(d1.count(c.idx()) == d0.count(c.idx()));
        }
    }
}

/// A prefix of the known cards holds no more exact copies than the whole.
proof fn lemma_exact_prefix(known: Seq<(Card, u8, bool)>, i: int)
    requires
        0 <= i <= known.len(),
    ensures
        0 <= exact_total(known.take(i)) <= exact_total(known),
    decreases known.len() - i,
{
    if i < known.len() {
        lemma_exact_prefix(known, i + 1);
        assert(known.take(i + 1).drop_last() =~= known.take(i));
    } else {
        assert(known.take(i) =~= known);
    }
    lemma_exact_nonneg(known.take(i));
}

/// Exact copies are never negative.
proof fn lemma_exact_nonneg(known: Seq<(Card, u8, bool)>)
    ensures
        exact_total(known) >= 0,
    decreases known.len(),
{
    if known.len() > 0 {
        lemma_exact_nonneg(known.drop_last());
    }
}

/// A card a tac can copy: neither a tac nor a jester.
pub open spec fn copyable(c: Option<Card>) -> bool {
    c != Some(Card::Tac) && c != Some(Card::Jester)
}

/// The state of a game.
#[derive(Debug)]
pub struct Board {
    balls: [BitBoard; 4],
    player_to_move: Color,
    homes: [Home; 4],
    fresh: [bool; 4],
    discard_flag: bool,
    jester_flag: bool,
    devil_flag: bool,
    trade_flag: bool,
    started_flag: bool,
    deck_fresh_flag: bool,
    deck: Deck,
    last_tacable_card: Option<Card>,
    last_tacable_non_jester_card: Option<Card>,
    hands: Vec<Hand>,
    traded: [Option<Card>; 4],
    one_or_thirteen: [bool; 4],
    pub move_count: u32,
    seed: u64,
    started: Color,
    previous_balls: [BitBoard; 4],
    previous_homes: [Home; 4],
    previous_fresh: [bool; 4],
}

/// The position held in three arrays.
pub open spec fn position_of(balls: [BitBoard; 4], homes: [Home; 4], fresh: [bool; 4]) -> Position {
    Position {
        balls: Seq::new(4, |c: int| balls@[c]@),
        homes: Seq::new(4, |c: int| homes@[c].0),
        fresh: fresh@,
    }
}

impl Board {
    /// The position of the balls.
    pub closed spec fn pos(&self) -> Position {
        position_of(self.balls, self.homes, self.fresh)
    }

    /// The position kept for a tac to go back to.
    pub closed spec fn prev_pos(&self) -> Position {
        position_of(self.previous_balls, self.previous_homes, self.previous_fresh)
    }

    /// The cards in each hand, by turn order.
    pub closed spec fn hands_spec(&self) -> Seq<Seq<Card>> {
        Seq::new(self.hands@.len(), |i: int| self.hands@[i]@)
    }

    pub closed spec fn traded_spec(&self) -> Seq<Option<Card>> {
        self.traded@
    }

    pub closed spec fn to_move(&self) -> Color {
        self.player_to_move
    }

    pub closed spec fn deck_spec(&self) -> Deck {
        self.deck
    }

    pub closed spec fn discard_spec(&self) -> bool {
        self.discard_flag
    }

    pub closed spec fn jester_spec(&self) -> bool {
        self.jester_flag
    }

    pub closed spec fn devil_spec(&self) -> bool {
        self.devil_flag
    }

    pub closed spec fn trade_spec(&self) -> bool {
        self.trade_flag
    }

    pub closed spec fn started_spec(&self) -> bool {
        self.started_flag
    }

    pub closed spec fn deck_fresh_spec(&self) -> bool {
        self.deck_fresh_flag
    }

    pub closed spec fn openings_spec(&self) -> Seq<bool> {
        self.one_or_thirteen@
    }

    /// The number of moves played.
    pub closed spec fn moves_made(&self) -> u32 {
        self.move_count
    }

    pub closed spec fn seed_spec(&self) -> u64 {
        self.seed
    }

    pub closed spec fn started_color(&self) -> Color {
        self.started
    }

    pub closed spec fn last_cards(&self) -> (Option<Card>, Option<Card>) {
        (self.last_tacable_card, self.last_tacable_non_jester_card)
    }

    /// The invariant every board keeps.
    pub closed spec fn wf(&self) -> bool {
        &&& pos_wf(self.pos())
        &&& pos_wf(self.prev_pos())
        &&& self.hands@.len() == 4
        &&& self.deck.wf()
        &&& self.deck.total() == expected_total(self.deck.dealt())
        &&& copyable(self.last_tacable_card)
        &&& copyable(self.last_tacable_non_jester_card)
    }

    pub proof fn lemma_wf(&self)
        requires
            self.wf(),
        ensures
            pos_wf(self.pos()),
            pos_wf(self.prev_pos()),
            self.hands_spec().len() == 4,
            copyable(self.last_cards().0),
            copyable(self.last_cards().1),
    {
    }
}


/// Toggling `sq` for color `c` in a position.
pub open spec fn toggled(p: Position, sq: int, c: Color) -> Position {
    if p.balls[c.idx()].contains(sq) {
        without_ball(p, sq, c)
    } else {
        with_ball(p, sq, c)
    }
}

/// Toggling a square twice for the same color gives the position back.
pub proof fn law_toggle_twice(p: Position, sq: int, c: Color)
    requires
        p.balls.len() == 4,
    ensures
        toggled(toggled(p, sq, c), sq, c) == p,
{
    let q = toggled(p, sq, c);
    if p.balls[c.idx()].contains(sq) {
        assert(q.balls[c.idx()].insert(sq) =~= p.balls[c.idx()]);
    } else {
        assert(q.balls[c.idx()].remove(sq) =~= p.balls[c.idx()]);
    }
    assert(toggled(q, sq, c).balls =~= p.balls);
}

/// Undoing twice gives back both the position and the one kept for an undo: an undo
/// exchanges them.
pub proof fn law_undo_twice(b0: Board, b1: Board, b2: Board)
    requires
        b1.pos() == b0.prev_pos(),
        b1.prev_pos() == b0.pos(),
        b2.pos() == b1.prev_pos(),
        b2.prev_pos() == b1.pos(),
    ensures
        b2.pos() == b0.pos(),
        b2.prev_pos() == b0.prev_pos(),
{
}

/// Playing a move that is neither a trade nor a jester and then undoing it gives back
/// the balls, goals and fresh flags from before the move: `b1` is the board after
/// `play(mv)` on `b0`, and `b2` the board after `tac_undo` on `b1`.
pub proof fn law_play_then_undo(b0: Board, mv: TacMove, b1: Board, b2: Board)
    requires
        !(mv.action is Trade),
        !(mv.action is Jester),
        b1.prev_pos() == if mv.action is Jester { b0.prev_pos() } else { b0.pos() },
        b2.pos() == b1.prev_pos(),
    ensures
        b2.pos() == b0.pos(),
{
}

/// Removing a ball keeps a position well formed.
pub proof fn lemma_without_wf(p: Position, sq: int, c: Color)
    requires
        pos_wf(p),
    ensures
        pos_wf(without_ball(p, sq, c)),
        num_base_spec(without_ball(p, sq, c), c) == num_base_spec(p, c) + if p.balls[c.idx()].contains(sq) { 1int } else { 0int },
        forall|d: Color| d != c ==> #[trigger] num_base_spec(without_ball(p, sq, c), d) == num_base_spec(p, d),
{
    let q = without_ball(p, sq, c);
    assert forall|d: int| 0 <= d < 4 implies #[trigger] q.balls[d].len() + ones8(q.homes[d], 8) <= 4 by {
        if d == c.idx() {
            assert(q.balls[d] == p.balls[d].remove(sq));
        }
    }
}

/// Capturing keeps a position well formed.
pub proof fn lemma_captured_wf(p: Position, sq: int)
    requires
        pos_wf(p),
    ensures
        pos_wf(captured(p, sq)),
        forall|d: int| 0 <= d < 4 ==> #[trigger] captured(p, sq).balls[d] == p.balls[d].remove(sq),
        !occupied_spec(captured(p, sq), sq),
{
    let q = captured(p, sq);
    assert forall|d: int| 0 <= d < 4 implies #[trigger] q.balls[d].len() + ones8(q.homes[d], 8) <= 4 by {
        assert(q.balls[d] == p.balls[d].remove(sq));
    }
}

/// Adding a ball on a free square keeps a position well formed when the color has a
/// ball left in its base.
pub proof fn lemma_with_wf(p: Position, sq: int, c: Color)
    requires
        pos_wf(p),
        0 <= sq < 64,
        !occupied_spec(p, sq),
        num_base_spec(p, c) > 0,
    ensures
        pos_wf(with_ball(p, sq, c)),
        num_base_spec(with_ball(p, sq, c), c) == num_base_spec(p, c) - 1,
        forall|d: Color| d != c ==> #[trigger] num_base_spec(with_ball(p, sq, c), d) == num_base_spec(p, d),
{
    let q = with_ball(p, sq, c);
    assert(!p.balls[c.idx()].contains(sq));
    assert forall|d: int| 0 <= d < 4 implies #[trigger] q.balls[d].len() + ones8(q.homes[d], 8) <= 4 by {
        if d == c.idx() {
            assert(q.balls[d] == p.balls[d].insert(sq));
        }
    }
}

impl Board {
    /// Toggles `square` in the bitboard of `color`, with no check.
    fn toggle_raw(&mut self, square: Square, color: Color)
        requires
            square.0 < 64,
        ensures
            final(self).pos() == toggled(old(self).pos(), square.0 as int, color),
            final(self).prev_pos() == old(self).prev_pos(),
            final(self).hands@ == old(self).hands@,
            final(self).deck == old(self).deck,
            final(self).same_but_position(*old(self)),
    {
        let ghost p = self.pos();
        let c = color.index();
        let b = square.bitboard();
        let nb = self.balls[c].xor(b);
        self.balls[c] = nb;
        proof {
            let q = toggled(p, square.0 as int, color);
            if p.balls[c as int].contains(square.0 as int) {
                assert(nb@ =~= p.balls[c as int].remove(square.0 as int));
            } else {
                assert(nb@ =~= p.balls[c as int].insert(square.0 as int));
            }
            assert(self.pos().balls =~= q.balls);
            assert(self.pos() =~= q);
        }
    }

    /// Toggles the state of a square for a given player.
    pub fn xor(&mut self, square: Square, color: Color)
        requires
            old(self).wf(),
            square.0 < 64,
            !old(self).pos().balls[color.idx()].contains(square.0 as int) ==> !occupied_spec(old(self).pos(), square.0 as int)
                && num_base_spec(old(self).pos(), color) > 0,
        ensures
            final(self).wf(),
            final(self).pos() == toggled(old(self).pos(), square.0 as int, color),
            final(self).prev_pos() == old(self).prev_pos(),
            final(self).same_but_position(*old(self)),
    {
        let ghost p = self.pos();
        self.toggle_raw(square, color);
        proof {
            if p.balls[color.idx()].contains(square.0 as int) {
                lemma_without_wf(p, square.0 as int, color);
            } else {
                lemma_with_wf(p, square.0 as int, color);
            }
        }
    }

    /// Everything but the position of the balls is the same on both boards.
    pub closed spec fn same_but_position(&self, other: Board) -> bool {
        &&& self.player_to_move == other.player_to_move
        &&& self.discard_flag == other.discard_flag
        &&& self.jester_flag == other.jester_flag
        &&& self.devil_flag == other.devil_flag
        &&& self.trade_flag == other.trade_flag
        &&& self.started_flag == other.started_flag
        &&& self.deck_fresh_flag == other.deck_fresh_flag
        &&& self.deck == other.deck
        &&& self.last_tacable_card == other.last_tacable_card
        &&& self.last_tacable_non_jester_card == other.last_tacable_non_jester_card
        &&& self.hands_spec() == other.hands_spec()
        &&& self.traded == other.traded
        &&& self.one_or_thirteen == other.one_or_thirteen
        &&& self.move_count == other.move_count
        &&& self.seed == other.seed
        &&& self.started == other.started
        &&& self.previous_balls == other.previous_balls
        &&& self.previous_homes == other.previous_homes
        &&& self.previous_fresh == other.previous_fresh
    }

    /// Sets square to given color
    /// This is a wrapper around xor with an assert that the square is empty
    pub fn set(&mut self, square: Square, color: Color)
        requires
            old(self).wf(),
            square.0 < 64,
            !occupied_spec(old(self).pos(), square.0 as int),
            num_base_spec(old(self).pos(), color) > 0,
        ensures
            final(self).wf(),
            final(self).pos() == with_ball(old(self).pos(), square.0 as int, color),
            final(self).same_but_position(*old(self)),
    {
        proof {
            self.lemma_wf();
        }
        self.xor(square, color);
    }

    /// Removes color from square
    /// This is a wrapper around xor with an assert that the square is occupied by the color
    pub fn unset(&mut self, square: Square, color: Color)
        requires
            old(self).wf(),
            square.0 < 64,
            old(self).pos().balls[color.idx()].contains(square.0 as int),
        ensures
            final(self).wf(),
            final(self).pos() == without_ball(old(self).pos(), square.0 as int, color),
            final(self).same_but_position(*old(self)),
    {
        self.xor(square, color);
    }

    /// The bitboard of the balls of a given player.
    pub fn balls_with(&self, color: Color) -> (r: BitBoard)
        ensures
            r@ == self.pos().balls[color.idx()],
    {
        self.balls[color.index()]
    }

    /// Checks if there is a ball on `square` and returns it's color if there is any.
    pub fn color_on(&self, square: Square) -> (r: Option<Color>)
        requires
            square.0 < 64,
        ensures
            r == color_on_spec(self.pos(), square.0 as int),
    {
        let mut i: usize = 0;
        while i < 4
            invariant
                i <= 4,
                square.0 < 64,
                forall|j: int| 0 <= j < i ==> !#[trigger] self.pos().balls[j].contains(square.0 as int),
            decreases 4 - i,
        {
            let color = ALL_COLORS[i];
            if self.balls_with(color).has(square) {
                return Some(color);
            }
            i += 1;
        }
        None
    }

    /// Try to remove target ball and return its color if there was any.
    pub fn capture(&mut self, target: Square) -> (r: Option<Color>)
        requires
            old(self).wf(),
            target.0 < 64,
        ensures
            final(self).wf(),
            r == color_on_spec(old(self).pos(), target.0 as int),
            final(self).pos() == captured(old(self).pos(), target.0 as int),
            final(self).same_but_position(*old(self)),
    {
        proof {
            self.lemma_wf();
            lemma_color_on(self.pos(), target.0 as int);
        }
        let color = match self.color_on(target) {
            Some(c) => c,
            None => {
                proof {
                    let p = self.pos();
                    let q = captured(p, target.0 as int);
                    assert forall|d: int| 0 <= d < 4 implies #[trigger] q.balls[d] =~= p.balls[d] by {
                        assert(!p.balls[d].contains(target.0 as int));
                    }
                    assert(q.balls =~= p.balls);
                    assert(p =~= q);
                }
                return None;
            },
        };
        let ghost p = self.pos();
        self.unset(target, color);
        proof {
            let q = captured(p, target.0 as int);
            assert forall|d: int| 0 <= d < 4 implies #[trigger] self.pos().balls[d] =~= q.balls[d] by {
                if d != color.idx() {
                    assert(!p.balls[d].contains(target.0 as int));
                }
            }
            assert(self.pos().balls =~= q.balls);
            assert(self.pos() =~= q);
        }
        Some(color)
    }
}


/// Moving the ball of color `c` from `start` into goal square `goal`.
pub open spec fn to_goal_spec(p: Position, start: int, goal: u8, c: Color) -> Position {
    with_home(without_ball(p, start, c), c, p.homes[c.idx()] ^ (1u8 << goal))
}

/// Moving a ball of color `c` inside its goal from `start` to `end`.
pub open spec fn in_goal_spec(p: Position, start: u8, end: u8, c: Color) -> Position {
    with_home(p, c, (p.homes[c.idx()] ^ (1u8 << start)) ^ (1u8 << end))
}

/// Toggling a goal square below 4 keeps the goal word below 16 and changes its
/// ball count by one.
pub proof fn lemma_home_toggle(h: u8, pos: u8)
    requires
        h < 16,
        pos < 4,
    ensures
        h ^ (1u8 << pos) < 16,
        ones8(h ^ (1u8 << pos), 8) == if bit8(h, pos as int) { ones8(h, 8) - 1 } else { ones8(h, 8) + 1int },
        forall|i: int| bit8(h ^ (1u8 << pos), i) == (bit8(h, i) != (i == pos)),
{
    lemma_xor_small(h, pos);
    lemma_ones8_toggle(h, pos, 8);
    assert forall|i: int| bit8(h ^ (1u8 << pos), i) == (bit8(h, i) != (i == pos)) by {
        if 0 <= i < 8 {
            crate::bits::lemma_bit8_xor(h, pos, i as u8);
        }
    }
}

/// The first ring square at forward distance `d` or more from `start` that holds a
/// ball; 64 when none does.
pub open spec fn first_occupied_from(p: Position, start: int, d: int) -> int
    decreases 64 - d,
{
    if d >= 64 {
        64
    } else if occupied_spec(p, (start + d) % 64) {
        d
    } else {
        first_occupied_from(p, start, d + 1)
    }
}

/// Forward distance from `start` to the next ball; 0 when `start` itself is free.
pub open spec fn dist_next_spec(p: Position, start: int) -> int {
    if occupied_spec(p, start) {
        first_occupied_from(p, start, 1)
    } else {
        0
    }
}

/// The last card that a tac can copy: the last card played that was neither a tac
/// nor a jester.
pub open spec fn last_played_spec(l: Option<Card>, lj: Option<Card>) -> Option<Card> {
    match (l, lj) {
        (Some(_), Some(y)) => Some(y),
        _ => None,
    }
}

impl Board {
    /// Put ball from given player onto the board.
    /// Captures any ball that was on the starting position.
    pub fn put_ball_in_play(&mut self, color: Color) -> (r: Option<Color>)
        requires
            old(self).wf(),
            num_base_spec(old(self).pos(), color) != 0,
        ensures
            final(self).wf(),
            r == color_on_spec(old(self).pos(), color.home_sq()),
            final(self).pos() == enter_spec(old(self).pos(), color),
            final(self).same_but_position(*old(self)),
    {
        proof {
            self.lemma_wf();
            lemma_count_bound(self.pos(), color);
        }
        let home = color.home();
        let capture = self.capture(home);
        proof {
            lemma_captured_wf(old(self).pos(), color.home_sq());
            assert(num_base_spec(self.pos(), color) > 0) by {
                let p = old(self).pos();
                let q = self.pos();
                assert(q.balls[color.idx()] == p.balls[color.idx()].remove(color.home_sq()));
                vstd::set_lib::lemma_len_subset(q.balls[color.idx()], p.balls[color.idx()]);
            }
        }
        self.set(home, color);
        let ghost before_fresh = self.pos();
        self.fresh[color.index()] = true;
        proof {
            assert(self.pos() =~= enter_spec(old(self).pos(), color));
            self.lemma_fresh_wf(before_fresh, color);
        }
        capture
    }

    proof fn lemma_fresh_wf(&self, p: Position, color: Color)
        requires
            pos_wf(p),
            self.pos().balls == p.balls,
            self.pos().homes == p.homes,
        ensures
            pos_wf(self.pos()),
    {
    }

    /// Move ball from `start` to `end`.
    /// Captures any ball that was on the `end`.
    pub fn move_ball(&mut self, start: Square, end: Square, color: Color) -> (r: Option<Color>)
        requires
            old(self).wf(),
            start.0 < 64,
            end.0 < 64,
            start != end,
            old(self).pos().balls[color.idx()].contains(start.0 as int),
        ensures
            final(self).wf(),
            r == color_on_spec(old(self).pos(), end.0 as int),
            final(self).pos() == move_ball_spec(old(self).pos(), start.0 as int, end.0 as int, color),
            final(self).same_but_position(*old(self)),
    {
        proof {
            self.lemma_wf();
        }
        let capture = self.capture(end);
        proof {
            lemma_captured_wf(old(self).pos(), end.0 as int);
        }
        self.unset(start, color);
        proof {
            let p1 = captured(old(self).pos(), end.0 as int);
            lemma_without_wf(p1, start.0 as int, color);
        }
        self.set(end, color);
        if color.home() == start {
            self.fresh[color.index()] = false;
        }
        proof {
            assert(self.pos() =~= move_ball_spec(old(self).pos(), start.0 as int, end.0 as int, color));
        }
        capture
    }

    /// Move ball from `start` to `goal_pos`.
    pub fn move_ball_to_goal(&mut self, start: Square, goal_pos: u8, color: Color)
        requires
            old(self).wf(),
            start.0 < 64,
            goal_pos < 4,
            old(self).pos().balls[color.idx()].contains(start.0 as int),
            !bit8(old(self).pos().homes[color.idx()], goal_pos as int),
        ensures
            final(self).wf(),
            final(self).pos() == to_goal_spec(old(self).pos(), start.0 as int, goal_pos, color),
            final(self).same_but_position(*old(self)),
    {
        proof {
            self.lemma_wf();
        }
        self.unset(start, color);
        let c = color.index();
        let mut h = self.homes[c];
        h.set(goal_pos);
        self.homes[c] = h;
        proof {
            let p = old(self).pos();
            lemma_without_wf(p, start.0 as int, color);
            lemma_home_toggle(p.homes[c as int], goal_pos);
            let q = to_goal_spec(p, start.0 as int, goal_pos, color);
            assert(self.pos().balls =~= q.balls);
            assert(self.pos().homes =~= q.homes);
            assert(self.pos() =~= q);
        }
    }

    /// Move ball that is in it's home from `start` to `end`.
    pub fn move_ball_in_goal(&mut self, start: u8, end: u8, color: Color)
        requires
            old(self).wf(),
            start < 4,
            end < 4,
            bit8(old(self).pos().homes[color.idx()], start as int),
            start == end || !bit8(old(self).pos().homes[color.idx()], end as int),
        ensures
            final(self).wf(),
            final(self).pos() == in_goal_spec(old(self).pos(), start, end, color),
            final(self).same_but_position(*old(self)),
    {
        proof {
            self.lemma_wf();
        }
        let c = color.index();
        let mut h = self.homes[c];
        let ghost h0 = h.0;
        h.unset(start);
        proof {
            lemma_home_toggle(h0, start);
        }
        h.set(end);
        proof {
            lemma_home_toggle(h0 ^ (1u8 << start), end);
        }
        self.homes[c] = h;
        proof {
            let q = in_goal_spec(old(self).pos(), start, end, color);
            assert(self.pos().balls =~= q.balls);
            assert(self.pos().homes =~= q.homes);
            assert(self.pos() =~= q);
        }
    }

    /// Swaps the position of the balls on `sq1` and `sq2`.
    pub fn swap_balls(&mut self, sq1: Square, sq2: Square)
        requires
            old(self).wf(),
            sq1.0 < 64,
            sq2.0 < 64,
            occupied_spec(old(self).pos(), sq1.0 as int),
            occupied_spec(old(self).pos(), sq2.0 as int),
        ensures
            final(self).wf(),
            final(self).pos() == swap_spec(old(self).pos(), sq1.0 as int, sq2.0 as int),
            final(self).same_but_position(*old(self)),
    {
        proof {
            self.lemma_wf();
            lemma_color_on(self.pos(), sq1.0 as int);
            lemma_color_on(self.pos(), sq2.0 as int);
        }
        let c1 = self.color_on(sq1).unwrap();
        let c2 = self.color_on(sq2).unwrap();
        let ghost p = self.pos();
        self.toggle_raw(sq1, c1);
        self.toggle_raw(sq1, c2);
        self.toggle_raw(sq2, c2);
        self.toggle_raw(sq2, c1);
        let ghost before_fresh = self.pos();
        proof {
            let q = with_ball(without_ball(with_ball(without_ball(p, sq1.0 as int, c1), sq1.0 as int, c2), sq2.0 as int, c2), sq2.0 as int, c1);
            assert(before_fresh.balls =~= q.balls) by {
                assert forall|d: int| 0 <= d < 4 implies #[trigger] before_fresh.balls[d] =~= q.balls[d] by {
                    if sq1 != sq2 {
                        if d == c1.idx() && d != c2.idx() {
                            assert(!p.balls[d].contains(sq2.0 as int));
                        }
                        if d == c2.idx() && d != c1.idx() {
                            assert(!p.balls[d].contains(sq1.0 as int));
                        }
                    }
                }
            }
            assert(before_fresh =~= q);
            lemma_swap_wf(p, sq1.0 as int, sq2.0 as int, c1, c2);
        }
        // If any of the two squares belong to the home of one of the balls it's no longer fresh
        if sq1 == c1.home() || sq2 == c1.home() {
            self.fresh[c1.index()] = false;
        }
        if sq1 == c2.home() || sq2 == c2.home() {
            self.fresh[c2.index()] = false;
        }
        proof {
            assert(self.pos() =~= swap_spec(p, sq1.0 as int, sq2.0 as int));
            self.lemma_fresh_wf(before_fresh, c1);
        }
    }

    /// Advance to the next player according to turn order.
    pub fn next_player(&mut self)
        ensures
            final(self).to_move() == color_of(old(self).to_move().idx() + 1),
            final(self).pos() == old(self).pos(),
            final(self).prev_pos() == old(self).prev_pos(),
            final(self).wf() == old(self).wf(),
            final(self).same_but_turn(*old(self)),
    {
        self.player_to_move = self.player_to_move.next();
    }

    /// Everything but the player to move is the same on both boards.
    pub closed spec fn same_but_turn(&self, other: Board) -> bool {
        &&& self.balls == other.balls
        &&& self.homes == other.homes
        &&& self.fresh == other.fresh
        &&& self.discard_flag == other.discard_flag
        &&& self.jester_flag == other.jester_flag
        &&& self.devil_flag == other.devil_flag
        &&& self.trade_flag == other.trade_flag
        &&& self.started_flag == other.started_flag
        &&& self.deck_fresh_flag == other.deck_fresh_flag
        &&& self.deck == other.deck
        &&& self.last_tacable_card == other.last_tacable_card
        &&& self.last_tacable_non_jester_card == other.last_tacable_non_jester_card
        &&& self.hands_spec() == other.hands_spec()
        &&& self.traded == other.traded
        &&& self.one_or_thirteen == other.one_or_thirteen
        &&& self.move_count == other.move_count
        &&& self.seed == other.seed
        &&& self.started == other.started
        &&& self.previous_balls == other.previous_balls
        &&& self.previous_homes == other.previous_homes
        &&& self.previous_fresh == other.previous_fresh
    }

    /// The counters and flags that dealing and trading leave alone are the same.
    pub closed spec fn same_meta(&self, other: Board) -> bool {
        &&& self.move_count == other.move_count
        &&& self.jester_flag == other.jester_flag
        &&& self.devil_flag == other.devil_flag
        &&& self.discard_flag == other.discard_flag
        &&& self.player_to_move == other.player_to_move
        &&& self.last_tacable_card == other.last_tacable_card
        &&& self.last_tacable_non_jester_card == other.last_tacable_non_jester_card
        &&& self.seed == other.seed
        &&& self.started == other.started
    }

    /// Moves played since the start of the game.
    pub fn move_count(&self) -> (r: u32)
        ensures
            r == self.moves_made(),
    {
        self.move_count
    }

    pub fn current_player(&self) -> (r: Color)
        ensures
            r == self.to_move(),
    {
        self.player_to_move
    }

    /// Returns a `BitBoard` representing every ball on the board.
    pub fn all_balls(&self) -> (r: BitBoard)
        ensures
            r@ == all_balls_spec(self.pos()),
    {
        let r = self.balls[0].or(self.balls[1]).or(self.balls[2]).or(self.balls[3]);
        proof {
            assert(r@ =~= all_balls_spec(self.pos()));
        }
        r
    }

    /// Returns the amount of balls from a given player not in play.
    pub fn num_base(&self, color: Color) -> (r: u8)
        requires
            self.wf(),
        ensures
            r as int == num_base_spec(self.pos(), color),
    {
        proof {
            self.lemma_wf();
            lemma_count_bound(self.pos(), color);
        }
        let c = color.index();
        4 - self.homes[c].amount() - self.balls[c].len() as u8
    }

    /// Returns the `Home` of a given player.
    pub fn home(&self, color: Color) -> (r: Home)
        ensures
            r.0 == self.pos().homes[color.idx()],
    {
        self.homes[color.index()]
    }

    /// Returns true if player has no ball on home square
    /// or if it is on the home square but hasn't been moved yet.
    pub fn fresh(&self, color: Color) -> (r: bool)
        ensures
            r == self.pos().fresh[color.idx()],
    {
        self.fresh[color.index()]
    }

    /// Returns players hand
    pub fn hand(&self, color: Color) -> (r: &Hand)
        requires
            self.wf(),
        ensures
            r@ == self.hands_spec()[color.idx()],
    {
        &self.hands[color.index()]
    }

    /// Returns `true` if the current player is forced to discard a card.
    pub fn force_discard(&self) -> (r: bool)
        ensures
            r == self.discard_spec(),
    {
        self.discard_flag
    }

    /// Returns `true` if new round start.
    pub fn just_started(&self) -> (r: bool)
        ensures
            r == self.started_spec(),
    {
        self.started_flag
    }

    /// Returns `true` if first round for deck.
    pub fn deck_fresh(&self) -> (r: bool)
        ensures
            r == self.deck_fresh_spec(),
    {
        self.deck_fresh_flag
    }

    /// Returns `true` if current player played jester and needs to play another card.
    pub fn jester_flag(&self) -> (r: bool)
        ensures
            r == self.jester_spec(),
    {
        self.jester_flag
    }

    /// Checks if a ball at a given position can reach its home with a given amount.
    /// Returns the position in the goal if able to.
    pub fn position_in_home(&self, start: Square, amount: u8, color: Color) -> (r: Option<u8>)
        requires
            start.0 < 64,
        ensures
            ({
                let min_needed = dist_home_spec(start.0 as int, color) + 1;
                let home_free = first_set_from(self.pos().homes[color.idx()], 0);
                r == if min_needed <= amount < min_needed + home_free {
                    Some((amount - min_needed) as u8)
                } else {
                    None
                }
            }),
    {
        let min_needed = start.distance_to_home(color) + 1;
        let home_free = self.homes[color.index()].free();
        if min_needed <= amount && amount < min_needed + home_free {
            Some(amount - min_needed)
        } else {
            None
        }
    }

    /// Returns the last played card.
    /// Will return `None` if the current player is on the first move.
    pub fn last_played(&self) -> (r: Option<Card>)
        ensures
            r == last_played_spec(self.last_cards().0, self.last_cards().1),
    {
        match (self.last_tacable_card, self.last_tacable_non_jester_card) {
            (Some(l), Some(lj)) => {
                if l == lj {
                    Some(l)
                } else {
                    Some(lj)
                }
            },
            _ => None,
        }
    }

    /// Returns true if square is occupied
    pub fn occupied(&self, square: Square) -> (r: bool)
        requires
            square.0 < 64,
        ensures
            r == occupied_spec(self.pos(), square.0 as int),
    {
        let r = self.all_balls().has(square);
        proof {
            if r {
                let sq = square.0 as int;
                if self.pos().balls[0].contains(sq) {
                    assert(occupied_spec(self.pos(), sq));
                } else if self.pos().balls[1].contains(sq) {
                    assert(occupied_spec(self.pos(), sq));
                } else if self.pos().balls[2].contains(sq) {
                    assert(occupied_spec(self.pos(), sq));
                } else {
                    assert(occupied_spec(self.pos(), sq));
                }
            }
        }
        r
    }
}

/// A color never has more than four balls on the ring and in its goal.
pub proof fn lemma_count_bound(p: Position, c: Color)
    requires
        pos_wf(p),
    ensures
        p.balls[c.idx()].len() <= 4,
        ones8(p.homes[c.idx()], 8) <= 4,
        0 <= num_base_spec(p, c) <= 4,
{
    assert(p.balls[c.idx()].len() + ones8(p.homes[c.idx()], 8) <= 4);
}



/// Swapping two balls keeps a position well formed.
proof fn lemma_swap_wf(p: Position, sq1: int, sq2: int, c1: Color, c2: Color)
    requires
        pos_wf(p),
        p.balls[c1.idx()].contains(sq1),
        p.balls[c2.idx()].contains(sq2),
    ensures
        pos_wf(with_ball(without_ball(with_ball(without_ball(p, sq1, c1), sq1, c2), sq2, c2), sq2, c1)),
{
    let q = with_ball(without_ball(with_ball(without_ball(p, sq1, c1), sq1, c2), sq2, c2), sq2, c1);
    assert forall|d: int| 0 <= d < 4 implies #[trigger] q.balls[d].len() == p.balls[d].len() by {
        if sq1 == sq2 {
            assert(c1 == c2) by {
                if c1 != c2 {
                    assert(!p.balls[c2.idx()].contains(sq1));
                }
            }
            assert(q.balls[d] =~= p.balls[d]);
        } else if d == c1.idx() && d == c2.idx() {
            assert(q.balls[d] =~= p.balls[d]);
        } else if d == c1.idx() {
            assert(q.balls[d] =~= p.balls[d].remove(sq1).insert(sq2));
            assert(!p.balls[d].contains(sq2));
        } else if d == c2.idx() {
            assert(q.balls[d] =~= p.balls[d].remove(sq2).insert(sq1));
            assert(!p.balls[d].contains(sq1));
        } else {
            assert(q.balls[d] =~= p.balls[d]);
        }
    }
    assert forall|c: int, d: int, sq: int|
        0 <= c < 4 && 0 <= d < 4 && c != d && #[trigger] q.balls[c].contains(sq) implies !#[trigger] q.balls[d].contains(sq) by {
        if sq1 != sq2 {
            assert(p.balls[c1.idx()].contains(sq1));
        }
    }
}


proof fn lemma_dist_next(p: Position, s: int, rs: Set<int>, r: int)
    requires
        pos_wf(p),
        0 <= s < 64,
        rs == rotated_right(sym_diff(all_balls_spec(p), set![s]), s),
        rs.is_empty() ==> r == 64,
        !rs.is_empty() ==> rs.contains(r) && forall|j: int| rs.contains(j) ==> r <= j,
    ensures
        r == dist_next_spec(p, s),
{
    lemma_color_on(p, s);
    lemma_first_occupied(p, s, 1);
    let f = first_occupied_from(p, s, 1);
    let all = all_balls_spec(p);
    assert forall|i: int| 0 <= i < 64 implies (rs.contains(i) <==> (all.contains((i + s) % 64) != ((i + s) % 64 == s))) by {}
    if !occupied_spec(p, s) {
        assert(rs.contains(0));
    } else {
        assert(!rs.contains(0));
        if rs.is_empty() {
            if f < 64 {
                lemma_color_on(p, (s + f) % 64);
                assert(rs.contains(f));
            }
        } else {
            assert(all.contains((r + s) % 64));
            lemma_color_on(p, (r + s) % 64);
            assert(f <= r) by {
                if r < f {
                    assert(!occupied_spec(p, (s + r) % 64));
                }
            }
            if f < r {
                lemma_color_on(p, (s + f) % 64);
                assert(rs.contains(f));
            }
        }
    }
}

/// No ball stands on the squares strictly between `s` and `g`, going forward.
pub open spec fn path_clear(p: Position, s: int, g: int) -> bool {
    forall|k: int| 1 <= k < forward_dist(s, g) ==> !occupied_spec(p, #[trigger] ((s + k) % 64))
}

/// The lowest square of the balls other than the one on `s`, seen from `s`, is the
/// distance to the next ball.
proof fn lemma_next_ball(p: Position, s: int, rs: Set<int>, r: int)
    requires
        pos_wf(p),
        0 <= s < 64,
        rs == rotated_right(all_balls_spec(p).remove(s), s),
        rs.is_empty() ==> r == 64,
        !rs.is_empty() ==> rs.contains(r) && forall|j: int| rs.contains(j) ==> r <= j,
    ensures
        r == first_occupied_from(p, s, 1),
{
    lemma_first_occupied(p, s, 1);
    let f = first_occupied_from(p, s, 1);
    let all = all_balls_spec(p);
    assert forall|i: int| 0 <= i < 64 implies (rs.contains(i) <==> (all.contains((i + s) % 64) && (i + s) % 64 != s)) by {}
    assert(!rs.contains(0));
    if rs.is_empty() {
        if f < 64 {
            lemma_color_on(p, (s + f) % 64);
            assert(rs.contains(f));
        }
    } else {
        assert(all.contains((r + s) % 64));
        lemma_color_on(p, (r + s) % 64);
        assert(f <= r) by {
            if r < f {
                assert(!occupied_spec(p, (s + r) % 64));
            }
        }
        if f < r {
            lemma_color_on(p, (s + f) % 64);
            assert(rs.contains(f));
        }
    }
}

/// `first_occupied_from` finds the nearest ball at distance `d` or more.
proof fn lemma_first_occupied(p: Position, start: int, d: int)
    requires
        0 <= d <= 64,
    ensures
        d <= first_occupied_from(p, start, d) <= 64,
        first_occupied_from(p, start, d) < 64 ==> occupied_spec(p, (start + first_occupied_from(p, start, d)) % 64),
        forall|i: int| d <= i < first_occupied_from(p, start, d) ==> !occupied_spec(p, #[trigger] ((start + i) % 64)),
    decreases 64 - d,
{
    if d < 64 && !occupied_spec(p, (start + d) % 64) {
        lemma_first_occupied(p, start, d + 1);
    }
}

impl Board {
    /// A copy of the board, hands included.
    pub fn duplicate(&self) -> (r: Board)
        requires
            self.wf(),
        ensures
            r.wf(),
            r.pos() == self.pos(),
            r.prev_pos() == self.prev_pos(),
            r.hands_spec() == self.hands_spec(),
            r.last_cards() == self.last_cards(),
            r.to_move() == self.to_move(),
            r.discard_spec() == self.discard_spec(),
            r.jester_spec() == self.jester_spec(),
            r.traded_spec() == self.traded_spec(),
            r.trade_spec() == self.trade_spec(),
    {
        let mut hands: Vec<Hand> = Vec::new();
        let mut i: usize = 0;
        while i < self.hands.len()
            invariant
                i <= self.hands.len(),
                hands.len() == i,
                forall|j: int| 0 <= j < i ==> (#[trigger] hands@[j])@ == self.hands@[j]@,
            decreases self.hands.len() - i,
        {
            hands.push(self.hands[i].copy());
            i = i + 1;
        }
        let r = Board {
            balls: self.balls,
            player_to_move: self.player_to_move,
            homes: self.homes,
            fresh: self.fresh,
            discard_flag: self.discard_flag,
            jester_flag: self.jester_flag,
            devil_flag: self.devil_flag,
            trade_flag: self.trade_flag,
            started_flag: self.started_flag,
            deck_fresh_flag: self.deck_fresh_flag,
            deck: self.deck,
            last_tacable_card: self.last_tacable_card,
            last_tacable_non_jester_card: self.last_tacable_non_jester_card,
            hands,
            traded: self.traded,
            one_or_thirteen: self.one_or_thirteen,
            move_count: self.move_count,
            seed: self.seed,
            started: self.started,
            previous_balls: self.previous_balls,
            previous_homes: self.previous_homes,
            previous_fresh: self.previous_fresh,
        };
        proof {
            assert(r.hands_spec() =~= self.hands_spec());
        }
        r
    }

    /// Distance forward from `start` to the next ball (64 when there is none).
    pub fn distance_to_next(&self, start: Square) -> (r: u8)
        requires
            self.wf(),
            start.0 < 64,
        ensures
            r as int == dist_next_spec(self.pos(), start.0 as int),
            r <= 64,
    {
        // Get the distance of the start to the zero square
        let offset = start.0;
        // Convert to bitboard representation
        let start_bb = start.bitboard();
        let all = self.all_balls();
        let others = all.xor(start_bb);
        let rotated = others.rotate_right(offset);
        let r = rotated.next_square().0;
        proof {
            self.lemma_wf();
            lemma_dist_next(self.pos(), start.0 as int, rotated@, r as int);
        }
        r
    }

    /// Returns `true` if there is no ball between `start` and `goal`; a ball on `goal`
    /// itself does not block, and the ball on `start`, if any, is not counted.
    pub fn can_move(&self, start: Square, goal: Square) -> (r: bool)
        requires
            self.wf(),
            start.0 < 64,
            goal.0 < 64,
        ensures
            r == (start != goal && path_clear(self.pos(), start.0 as int, goal.0 as int)),
            occupied_spec(self.pos(), start.0 as int) ==> r == (start != goal && dist_next_spec(self.pos(), start.0 as int)
                >= forward_dist(start.0 as int, goal.0 as int)),
    {
        if start == goal {
            return false;
        }
        let all = self.all_balls();
        let occ = self.occupied(start);
        let others = if occ {
            all.xor(start.bitboard())
        } else {
            all
        };
        let rotated = others.rotate_right(start.0);
        let d = rotated.next_square().0;
        let fd = start.distance_to(goal);
        proof {
            self.lemma_wf();
            let ps = self.pos();
            let sv = start.0 as int;
            lemma_color_on(ps, sv);
            assert(others@ =~= all_balls_spec(ps).remove(sv));
            lemma_next_ball(ps, sv, rotated@, d as int);
            lemma_first_occupied(ps, sv, 1);
            let f = first_occupied_from(ps, sv, 1);
            if f < fd {
                assert(!path_clear(ps, sv, goal.0 as int)) by {
                    assert(!occupied_spec(ps, (sv + f) % 64) ==> false);
                }
            }
        }
        d >= fd
    }

    /// Undo to last state
    pub fn tac_undo(&mut self)
        requires
            old(self).wf(),
        ensures
            final(self).wf(),
            final(self).pos() == old(self).prev_pos(),
            final(self).prev_pos() == old(self).pos(),
            !final(self).discard_spec(),
            final(self).hands_spec() == old(self).hands_spec(),
            final(self).same_but_undo(*old(self)),
    {
        self.discard_flag = false;
        std::mem::swap(&mut self.balls, &mut self.previous_balls);
        std::mem::swap(&mut self.homes, &mut self.previous_homes);
        std::mem::swap(&mut self.fresh, &mut self.previous_fresh);
    }

    /// Everything but the two positions and the discard flag is the same on both boards.
    pub closed spec fn same_but_undo(&self, other: Board) -> bool {
        &&& self.player_to_move == other.player_to_move
        &&& self.jester_flag == other.jester_flag
        &&& self.devil_flag == other.devil_flag
        &&& self.trade_flag == other.trade_flag
        &&& self.started_flag == other.started_flag
        &&& self.deck_fresh_flag == other.deck_fresh_flag
        &&& self.deck == other.deck
        &&& self.last_tacable_card == other.last_tacable_card
        &&& self.last_tacable_non_jester_card == other.last_tacable_non_jester_card
        &&& self.hands_spec() == other.hands_spec()
        &&& self.traded == other.traded
        &&& self.one_or_thirteen == other.one_or_thirteen
        &&& self.move_count == other.move_count
        &&& self.seed == other.seed
        &&& self.started == other.started
    }

    /// Set card to be traded
    pub fn trade(&mut self, card: Card, player: Color)
        requires
            old(self).wf(),
            old(self).hands_spec()[player.idx()].contains(card),
        ensures
            final(self).wf(),
            removed_first(old(self).hands_spec()[player.idx()], final(self).hands_spec()[player.idx()], card),
            forall|i: int| 0 <= i < 4 && i != player.idx() ==> #[trigger] final(self).hands_spec()[i] == old(self).hands_spec()[i],
            final(self).traded_spec() == old(self).traded_spec().update((player.idx() + 2) % 4, Some(card)),
            final(self).pos() == old(self).pos(),
            final(self).prev_pos() == old(self).prev_pos(),
            final(self).same_meta(*old(self)),
            final(self).trade_spec() == old(self).trade_spec(),
    {
        let i = player.index();
        self.hands[i].remove(card);
        self.traded[player.partner().index()] = Some(card);
        proof {
            assert(self.traded_spec() =~= old(self).traded_spec().update((player.idx() + 2) % 4, Some(card)));
        }
    }
}


/// The position at the start of a game: every ball in its base.
pub open spec fn start_position() -> Position {
    Position {
        balls: Seq::new(4, |c: int| Set::<int>::empty()),
        homes: Seq::new(4, |c: int| 0u8),
        fresh: Seq::new(4, |c: int| true),
    }
}

/// The hand holds a card that brings a ball into play.
pub open spec fn has_opening(h: Seq<Card>) -> bool {
    h.contains(Card::One) || h.contains(Card::Thirteen)
}

impl Board {
    /// Put each traded card into the hand they belong to
    pub fn take_traded(&mut self)
        requires
            old(self).wf(),
            forall|i: int| 0 <= i < 4 ==> #[trigger] old(self).traded_spec()[i] is Some,
        ensures
            final(self).wf(),
            !final(self).trade_spec(),
            forall|i: int| 0 <= i < 4 ==> #[trigger] final(self).hands_spec()[i] == old(self).hands_spec()[i].push(old(self).traded_spec()[i]->0),
            forall|i: int| 0 <= i < 4 ==> #[trigger] final(self).traded_spec()[i] is None,
            final(self).pos() == old(self).pos(),
            final(self).prev_pos() == old(self).prev_pos(),
            final(self).to_move() == old(self).to_move(),
            final(self).same_meta(*old(self)),
    {
        self.trade_flag = false;
        let mut i: usize = 0;
        while i < 4
            invariant
                i <= 4,
                self.wf(),
                !self.trade_flag,
                self.pos() == old(self).pos(),
                self.prev_pos() == old(self).prev_pos(),
                self.player_to_move == old(self).player_to_move,
                self.same_meta(*old(self)),
                forall|j: int| 0 <= j < i ==> #[trigger] self.hands_spec()[j] == old(self).hands_spec()[j].push(old(self).traded_spec()[j]->0),
                forall|j: int| i <= j < 4 ==> #[trigger] self.hands_spec()[j] == old(self).hands_spec()[j],
                forall|j: int| 0 <= j < i ==> #[trigger] self.traded@[j] is None,
                forall|j: int| i <= j < 4 ==> #[trigger] self.traded@[j] == old(self).traded@[j],
                forall|j: int| 0 <= j < 4 ==> #[trigger] old(self).traded@[j] is Some,
            decreases 4 - i,
        {
            let card = self.traded[i].unwrap();
            let ghost before = self.hands_spec();
            assert(before[i as int] == old(self).hands_spec()[i as int]);
            self.traded[i] = None;
            assert(self.hands_spec() == before);
            self.hands[i].push(card);
            proof {
                assert(self.hands_spec() =~= before.update(i as int, before[i as int].push(card)));
                assert(card == old(self).traded_spec()[i as int]->0);
                assert(self.hands_spec()[i as int] == old(self).hands_spec()[i as int].push(card));
                assert forall|j: int| 0 <= j < 4 && j != i implies #[trigger] self.hands_spec()[j] == before[j] by {}
            }
            i += 1;
        }
    }

    /// Returns true if we are in trade phase
    pub fn need_trade(&self) -> (r: bool)
        ensures
            r == (self.trade_spec() && self.traded_spec()[(self.to_move().idx() + 2) % 4] is None),
    {
        self.trade_flag && self.traded[self.player_to_move.partner().index()].is_none()
    }

    /// Begin trade phase
    pub fn begin_trade(&mut self)
        ensures
            final(self).trade_spec(),
            final(self).wf() == old(self).wf(),
            final(self).pos() == old(self).pos(),
            final(self).hands_spec() == old(self).hands_spec(),
    {
        self.trade_flag = true;
    }

    /// Returns true if there is exactly one player that hasn't traded yet
    pub fn is_trade_almost_finished(&self) -> (r: bool)
        ensures
            r == (self.traded_spec().filter(|c: Option<Card>| c is None).len() == 1),
    {
        let mut count: usize = 0;
        let mut i: usize = 0;
        while i < 4
            invariant
                i <= 4,
                count == self.traded@.take(i as int).filter(|c: Option<Card>| c is None).len(),
                count <= i,
            decreases 4 - i,
        {
            proof {
                let t = self.traded@;
                assert(t.take(i + 1).drop_last() =~= t.take(i as int));
                reveal_with_fuel(Seq::filter, 1);
            }
            if self.traded[i].is_none() {
                count += 1;
            }
            i += 1;
        }
        proof {
            assert(self.traded@.take(4) =~= self.traded@);
        }
        count == 1
    }

    /// Returns `true` if the player has a ball on the ring.
    pub fn can_play(&self, player: Color) -> (r: bool)
        ensures
            r == !self.pos().balls[player.idx()].is_empty(),
    {
        !self.balls_with(player).is_empty()
    }

    /// The player whose balls `player` moves: the partner once `player`'s goal is full.
    pub fn play_for(&self, player: Color) -> (r: Color)
        ensures
            r == if self.pos().homes[player.idx()] == 15 { color_of(player.idx() + 2) } else { player },
    {
        if self.home(player).is_full() {
            player.partner()
        } else {
            player
        }
    }

    /// Which players were dealt a one or a thirteen this round.
    pub fn openings(&self) -> (r: [bool; 4])
        ensures
            r@ == self.openings_spec(),
    {
        self.one_or_thirteen
    }

    pub fn deck(&self) -> (r: &Deck)
        ensures
            *r == self.deck_spec(),
    {
        &self.deck
    }

    /// A team has won when both goals of the team are full.
    pub fn won(&self, player: Color) -> (r: bool)
        ensures
            r == (self.pos().homes[player.idx()] == 15 && self.pos().homes[(player.idx() + 2) % 4] == 15),
    {
        self.home(player).is_full() && self.home(player.partner()).is_full()
    }

    /// Makes `player` the one to move.
    pub fn set_player(&mut self, player: Color)
        ensures
            final(self).to_move() == player,
            final(self).wf() == old(self).wf(),
            final(self).pos() == old(self).pos(),
            final(self).prev_pos() == old(self).prev_pos(),
            final(self).hands_spec() == old(self).hands_spec(),
    {
        self.player_to_move = player;
    }

    /// The copies the known cards say a hand holds exactly.
    fn exact_sum(known: &Vec<(Card, u8, bool)>) -> (r: usize)
        requires
            known.len() <= 18,
        ensures
            r == exact_total(known@),
    {
        let mut sum: usize = 0;
        let mut i: usize = 0;
        while i < known.len()
            invariant
                i <= known.len(),
                sum == exact_total(known@.take(i as int)),
                sum <= 255 * i,
                known.len() <= 18,
            decreases known.len() - i,
        {
            let (_, amount, exact) = known[i];
            proof {
                assert(known@.take(i + 1).drop_last() =~= known@.take(i as int));
            }
            if exact {
                sum = sum + amount as usize;
            }
            i = i + 1;
        }
        proof {
            assert(known@.take(known.len() as int) =~= known@);
        }
        sum
    }

    /// Puts the hand of player `pi` back into the pile.
    fn put_back_hand(&mut self, pi: usize, Ghost(obs): Ghost<Color>)
        requires
            old(self).deck.wf(),
            old(self).hands@.len() == 4,
            pi < 4,
            pi != obs.idx(),
            forall|c: Card| #[trigger] pool(old(self).deck, old(self).hands_spec(), obs, c) <= amount_spec(c),
        ensures
            final(self).deck.wf(),
            final(self).hands@.len() == 4,
            final(self).hands_spec() == old(self).hands_spec().update(pi as int, Seq::empty()),
            forall|c: Card| #[trigger] pool(final(self).deck, final(self).hands_spec(), obs, c) == pool(old(self).deck, old(self).hands_spec(), obs, c),
            final(self).deck.total() == old(self).deck.total() + old(self).hands_spec()[pi as int].len(),
            final(self).deck.dealt() == old(self).deck.dealt(),
            final(self).pos() == old(self).pos(),
            final(self).prev_pos() == old(self).prev_pos(),
            final(self).same_meta(*old(self)),
            final(self).traded_spec() == old(self).traded_spec(),
            final(self).trade_spec() == old(self).trade_spec(),
            final(self).openings_spec() == old(self).openings_spec(),
            final(self).started_spec() == old(self).started_spec(),
            final(self).deck_fresh_spec() == old(self).deck_fresh_spec(),
    {
        let ghost h0 = self.hands_spec();
        while !self.hands[pi].is_empty()
            invariant
                self.deck.wf(),
                self.hands@.len() == 4,
                pi < 4,
                pi != obs.idx(),
                forall|j: int| 0 <= j < 4 && j != pi ==> #[trigger] self.hands_spec()[j] == h0[j],
                forall|c: Card| #[trigger] pool(self.deck, self.hands_spec(), obs, c) == pool(old(self).deck, h0, obs, c),
                forall|c: Card| #[trigger] pool(old(self).deck, h0, obs, c) <= amount_spec(c),
                self.deck.total() + self.hands_spec()[pi as int].len() == old(self).deck.total() + h0[pi as int].len(),
                self.deck.dealt() == old(self).deck.dealt(),
                self.pos() == old(self).pos(),
                self.prev_pos() == old(self).prev_pos(),
                self.same_meta(*old(self)),
                self.traded == old(self).traded,
                self.trade_flag == old(self).trade_flag,
                self.one_or_thirteen == old(self).one_or_thirteen,
                self.started_flag == old(self).started_flag,
                self.deck_fresh_flag == old(self).deck_fresh_flag,
            decreases self.hands@[pi as int]@.len(),
        {
            let ghost hs = self.hands_spec();
            let ghost d = self.deck;
            let card = self.hands[pi].get(0);
            proof {
                assert(hs[pi as int].contains(card)) by {
                    assert(hs[pi as int][0] == card);
                }
                vstd::seq_lib::to_multiset_contains(hs[pi as int], card);
                assert(pool(d, hs, obs, card) <= amount_spec(card));
                d.lemma_counts();
            }
            self.deck.put_back(card);
            self.hands[pi].remove(card);
            proof {
                let hs2 = self.hands_spec();
                assert(hs2 =~= hs.update(pi as int, self.hands@[pi as int]@));
                assert forall|c: Card| #[trigger] pool(self.deck, self.hands_spec(), obs, c) == pool(old(self).deck, h0, obs, c) by {
                    assert(pool(d, hs, obs, c) == pool(old(self).deck, h0, obs, c));
                    self.deck.lemma_counts();
                    d.lemma_counts();
                }
                vstd::seq_lib::to_multiset_len(hs[pi as int]);
                vstd::seq_lib::to_multiset_len(hs2[pi as int]);
            }
        }
        proof {
            assert(self.hands_spec()[pi as int] =~= Seq::<Card>::empty());
            assert(self.hands_spec() =~= h0.update(pi as int, Seq::empty()));
        }
    }

    /// Moves a copy of `card` from the pile into the hand of player `pi`.
    fn give(&mut self, pi: usize, card: Card, Ghost(obs): Ghost<Color>)
        requires
            old(self).deck.wf(),
            old(self).hands@.len() == 4,
            pi < 4,
            pi != obs.idx(),
            old(self).deck.count(card.idx()) > 0,
        ensures
            final(self).deck.wf(),
            final(self).hands@.len() == 4,
            final(self).hands_spec() == old(self).hands_spec().update(pi as int, old(self).hands_spec()[pi as int].push(card)),
            forall|i: int| 0 <= i < 18 ==> #[trigger] final(self).deck.count(i) == old(self).deck.count(i) - (if i == card.idx() { 1int } else { 0int }),
            forall|c: Card| #[trigger] pool(final(self).deck, final(self).hands_spec(), obs, c) == pool(old(self).deck, old(self).hands_spec(), obs, c),
            final(self).deck.total() == old(self).deck.total() - 1,
            final(self).deck.dealt() == old(self).deck.dealt(),
            final(self).pos() == old(self).pos(),
            final(self).prev_pos() == old(self).prev_pos(),
            final(self).same_meta(*old(self)),
            final(self).traded_spec() == old(self).traded_spec(),
            final(self).trade_spec() == old(self).trade_spec(),
            final(self).openings_spec() == old(self).openings_spec(),
            final(self).started_spec() == old(self).started_spec(),
            final(self).deck_fresh_spec() == old(self).deck_fresh_spec(),
    {
        let ghost h0 = self.hands_spec();
        let ghost d0 = self.deck;
        self.deck.take(card);
        self.hands[pi].push(card);
        proof {
            assert(self.hands_spec() =~= h0.update(pi as int, h0[pi as int].push(card)));
            d0.lemma_counts();
            self.deck.lemma_counts();
            lemma_pool_move(d0, self.deck, h0, self.hands_spec(), obs, pi as int, card);
        }
    }

    /// Fills the empty hand of player `pi` from the pile: first the cards known to be
    /// held exactly, then `amount` random cards, none of a card the knowledge says is
    /// used up while the pile still has another card.
    fn refill_hand(
        &mut self,
        pi: usize,
        amount: usize,
        known: &Vec<(Card, u8, bool)>,
        rng: &mut StdRng,
        Ghost(obs): Ghost<Color>,
    )
        requires
            old(self).deck.wf(),
            old(self).hands@.len() == 4,
            pi < 4,
            pi != obs.idx(),
            old(self).hands_spec()[pi as int].len() == 0,
            old(self).deck.total() >= amount + exact_total(known@),
            known.len() <= 18,
        ensures
            final(self).deck.wf(),
            final(self).hands@.len() == 4,
            final(self).hands_spec() == old(self).hands_spec().update(pi as int, final(self).hands_spec()[pi as int]),
            final(self).hands_spec()[pi as int].len() == amount + exact_total(known@),
            forall|c: Card| #[trigger] pool(final(self).deck, final(self).hands_spec(), obs, c) == pool(old(self).deck, old(self).hands_spec(), obs, c),
            final(self).deck.total() == old(self).deck.total() - (amount + exact_total(known@)),
            final(self).deck.dealt() == old(self).deck.dealt(),
            final(self).pos() == old(self).pos(),
            final(self).prev_pos() == old(self).prev_pos(),
            final(self).same_meta(*old(self)),
            final(self).traded_spec() == old(self).traded_spec(),
            final(self).trade_spec() == old(self).trade_spec(),
            final(self).openings_spec() == old(self).openings_spec(),
            final(self).started_spec() == old(self).started_spec(),
            final(self).deck_fresh_spec() == old(self).deck_fresh_spec(),
            exact_met(known@, final(self).hands_spec()[pi as int], final(self).deck),
            forall|x: int| 0 <= x < 18 ==> #[trigger] final(self).deck.count(x) <= old(self).deck.count(x),
    {
        let ghost h0 = self.hands_spec();
        let ghost s0 = *self;
        let mut bounded: [bool; 18] = [false; 18];
        let mut limit: [u8; 18] = [0; 18];
        let mut i: usize = 0;
        proof {
            lemma_exact_prefix(known@, 0);
        }
        while i < known.len()
            invariant
                i <= known.len(),
                known.len() <= 18,
                self.deck.wf(),
                self.hands@.len() == 4,
                pi < 4,
                pi != obs.idx(),
                bounded@.len() == 18,
                limit@.len() == 18,
                forall|j: int| 0 <= j < 4 && j != pi ==> #[trigger] self.hands_spec()[j] == h0[j],
                self.hands_spec()[pi as int].len() == exact_total(known@.take(i as int)),
                exact_met(known@.take(i as int), self.hands_spec()[pi as int], self.deck),
                forall|x: int| 0 <= x < 18 ==> #[trigger] self.deck.count(x) <= s0.deck.count(x),
                exact_total(known@.take(i as int)) <= exact_total(known@),
                forall|c: Card| #[trigger] pool(self.deck, self.hands_spec(), obs, c) == pool(s0.deck, h0, obs, c),
                self.deck.total() + self.hands_spec()[pi as int].len() == s0.deck.total(),
                s0.deck.total() >= amount + exact_total(known@),
                self.deck.dealt() == s0.deck.dealt(),
                self.pos() == s0.pos(),
                self.prev_pos() == s0.prev_pos(),
                self.same_meta(s0),
                self.traded == s0.traded,
                self.trade_flag == s0.trade_flag,
                self.one_or_thirteen == s0.one_or_thirteen,
                self.started_flag == s0.started_flag,
                self.deck_fresh_flag == s0.deck_fresh_flag,
            decreases known.len() - i,
        {
            let (card, amnt, exact) = known[i];
            let c = card.index();
            proof {
                lemma_exact_prefix(known@, i + 1);
                assert(known@.take(i + 1).drop_last() =~= known@.take(i as int));
            }
            if exact {
                let mut j: u8 = 0;
                while j < amnt
                    invariant
                        j <= amnt,
                        self.deck.wf(),
                        self.hands@.len() == 4,
                        pi < 4,
                        pi != obs.idx(),
                        forall|jj: int| 0 <= jj < 4 && jj != pi ==> #[trigger] self.hands_spec()[jj] == h0[jj],
                        self.hands_spec()[pi as int].len() == exact_total(known@.take(i as int)) + j,
                        exact_met(known@.take(i as int), self.hands_spec()[pi as int], self.deck),
                        forall|x: int| 0 <= x < 18 ==> #[trigger] self.deck.count(x) <= s0.deck.count(x),
                        self.hands_spec()[pi as int].to_multiset().count(card) >= j || self.deck.count(card.idx()) == 0,
                        exact_total(known@.take(i as int)) + amnt <= exact_total(known@),
                        forall|cc: Card| #[trigger] pool(self.deck, self.hands_spec(), obs, cc) == pool(s0.deck, h0, obs, cc),
                        self.deck.total() + self.hands_spec()[pi as int].len() == s0.deck.total(),
                        s0.deck.total() >= amount + exact_total(known@),
                        self.deck.dealt() == s0.deck.dealt(),
                        self.pos() == s0.pos(),
                        self.prev_pos() == s0.prev_pos(),
                        self.same_meta(s0),
                        self.traded == s0.traded,
                        self.trade_flag == s0.trade_flag,
                        self.one_or_thirteen == s0.one_or_thirteen,
                        self.started_flag == s0.started_flag,
                        self.deck_fresh_flag == s0.deck_fresh_flag,
                    decreases amnt - j,
                {
                    proof {
                        self.deck.lemma_counts();
                    }
                    let drawn = if self.deck.copies(card) > 0 {
                        card
                    } else {
                        self.deck.pick_one(rng)
                    };
                    let ghost hb = self.hands_spec()[pi as int];
                    let ghost db = self.deck;
                    self.give(pi, drawn, Ghost(obs));
                    proof {
                        broadcast use vstd::seq_lib::to_multiset_build;
                        self.deck.lemma_counts();
                        assert(self.hands_spec()[pi as int] == hb.push(drawn));
                        lemma_exact_met_grow(known@.take(i as int), hb, self.hands_spec()[pi as int], db, self.deck);
                    }
                    j = j + 1;
                }
                bounded[c] = true;
                limit[c] = 0;
            } else {
                bounded[c] = true;
                limit[c] = amnt;
            }
            i = i + 1;
        }
        proof {
            assert(known@.take(known.len() as int) =~= known@);
        }
        let mut k: usize = 0;
        while k < amount
            invariant
                k <= amount,
                self.deck.wf(),
                self.hands@.len() == 4,
                pi < 4,
                pi != obs.idx(),
                bounded@.len() == 18,
                limit@.len() == 18,
                forall|j: int| 0 <= j < 4 && j != pi ==> #[trigger] self.hands_spec()[j] == h0[j],
                self.hands_spec()[pi as int].len() == exact_total(known@) + k,
                exact_met(known@, self.hands_spec()[pi as int], self.deck),
                forall|x: int| 0 <= x < 18 ==> #[trigger] self.deck.count(x) <= s0.deck.count(x),
                forall|c: Card| #[trigger] pool(self.deck, self.hands_spec(), obs, c) == pool(s0.deck, h0, obs, c),
                self.deck.total() + self.hands_spec()[pi as int].len() == s0.deck.total(),
                s0.deck.total() >= amount + exact_total(known@),
                self.deck.dealt() == s0.deck.dealt(),
                self.pos() == s0.pos(),
                self.prev_pos() == s0.prev_pos(),
                self.same_meta(s0),
                self.traded == s0.traded,
                self.trade_flag == s0.trade_flag,
                self.one_or_thirteen == s0.one_or_thirteen,
                self.started_flag == s0.started_flag,
                self.deck_fresh_flag == s0.deck_fresh_flag,
            decreases amount - k,
        {
            let mut excluded: [bool; 18] = [false; 18];
            let mut c: usize = 0;
            while c < 18
                invariant
                    c <= 18,
                    excluded@.len() == 18,
                decreases 18 - c,
            {
                excluded[c] = bounded[c] && limit[c] == 0;
                c = c + 1;
            }
            proof {
                self.deck.lemma_counts();
            }
            let drawn = if self.deck.any_allowed(&excluded) {
                self.deck.pick_one_except(rng, &excluded)
            } else {
                self.deck.pick_one(rng)
            };
            let dc = drawn.index();
            if bounded[dc] && limit[dc] > 0 {
                limit[dc] = limit[dc] - 1;
            }
            let ghost hb = self.hands_spec()[pi as int];
            let ghost db = self.deck;
            self.give(pi, drawn, Ghost(obs));
            proof {
                broadcast use vstd::seq_lib::to_multiset_build;
                self.deck.lemma_counts();
                assert(self.hands_spec()[pi as int] == hb.push(drawn));
                lemma_exact_met_grow(known@, hb, self.hands_spec()[pi as int], db, self.deck);
            }
            k = k + 1;
        }
        proof {
            assert(self.hands_spec() =~= h0.update(pi as int, self.hands_spec()[pi as int]));
        }
    }

    /// Redraws the hands of every player but `observer` at random from the cards the
    /// observer cannot see: each hand keeps its size, gets first the cards the
    /// knowledge says it holds exactly (a random card in place of one the pile no
    /// longer holds), and then random cards, none of a card that the knowledge says is
    /// used up while the pile holds another card.
    #[verifier::rlimit(80)]
    #[verifier::spinoff_prover]
    pub fn redetermine(&mut self, observer: Color, knowledge: &Knowledge)
        requires
            old(self).wf(),
            view_wf(knowledge@),
            forall|p: Color| exact_total(known_spec(knowledge@, p)) <= #[trigger] old(self).hands_spec()[p.idx()].len(),
            forall|c: Card| #[trigger] pool(old(self).deck_spec(), old(self).hands_spec(), observer, c) <= amount_spec(c),
        ensures
            final(self).wf(),
            final(self).hands_spec()[observer.idx()] == old(self).hands_spec()[observer.idx()],
            forall|i: int| 0 <= i < 4 ==> #[trigger] final(self).hands_spec()[i].len() == old(self).hands_spec()[i].len(),
            forall|c: Card| #[trigger] pool(final(self).deck_spec(), final(self).hands_spec(), observer, c) == pool(old(self).deck_spec(), old(self).hands_spec(), observer, c),
            final(self).deck_spec().dealt() == old(self).deck_spec().dealt(),
            final(self).pos() == old(self).pos(),
            final(self).prev_pos() == old(self).prev_pos(),
            final(self).same_meta(*old(self)),
            final(self).traded_spec() == old(self).traded_spec(),
            final(self).trade_spec() == old(self).trade_spec(),
            final(self).openings_spec() == old(self).openings_spec(),
            final(self).started_spec() == old(self).started_spec(),
            final(self).deck_fresh_spec() == old(self).deck_fresh_spec(),
            forall|p: int|
                0 <= p < 4 && p != observer.idx() ==> #[trigger] exact_met(
                    known_spec(knowledge@, color_of(p)),
                    final(self).hands_spec()[p],
                    final(self).deck_spec(),
                ),
    {
        let mut rng = std_rng_from_entropy();
        let ghost s0 = *self;
        let ghost h0 = self.hands_spec();
        let mut amounts: [usize; 4] = [0; 4];
        let mut p: usize = 0;
        while p < 4
            invariant
                p <= 4,
                self.wf(),
                *self == s0,
                h0 == s0.hands_spec(),
                view_wf(knowledge@),
                forall|q: Color| exact_total(known_spec(knowledge@, q)) <= #[trigger] h0[q.idx()].len(),
                forall|q: int| 0 <= q < p ==> #[trigger] amounts@[q] + exact_total(known_spec(knowledge@, color_of(q))) == h0[q].len(),
            decreases 4 - p,
        {
            let player = Color::from_index(p);
            let known = knowledge.known_cards(player);
            proof {
                lemma_known_len(knowledge@, player);
                assert(exact_total(known_spec(knowledge@, player)) <= h0[player.idx()].len());
            }
            let sum = Self::exact_sum(&known);
            amounts[p] = self.hands[p].amount() - sum;
            p = p + 1;
        }
        proof {
            assert forall|c: Card| #[trigger] pool(s0.deck, h0, observer, c) <= amount_spec(c) by {
                assert(pool(old(self).deck_spec(), old(self).hands_spec(), observer, c) <= amount_spec(c));
            }
        }
        let mut q: usize = 0;
        while q < 4
            invariant
                q <= 4,
                self.deck.wf(),
                s0.deck.wf(),
                h0.len() == 4,
                self.hands@.len() == 4,
                forall|j: int| 0 <= j < 4 ==> #[trigger] self.hands_spec()[j] == if j < q && j != observer.idx() { Seq::empty() } else { h0[j] },
                forall|c: Card| #[trigger] pool(self.deck, self.hands_spec(), observer, c) == pool(s0.deck, h0, observer, c),
                forall|c: Card| #[trigger] pool(s0.deck, h0, observer, c) <= amount_spec(c),
                self.deck.total() == s0.deck.total() + (if 0 < q && observer.idx() != 0 { h0[0].len() as int } else { 0 })
                    + (if 1 < q && observer.idx() != 1 { h0[1].len() as int } else { 0 })
                    + (if 2 < q && observer.idx() != 2 { h0[2].len() as int } else { 0 })
                    + (if 3 < q && observer.idx() != 3 { h0[3].len() as int } else { 0 }),
                self.deck.dealt() == s0.deck.dealt(),
                self.pos() == s0.pos(),
                self.prev_pos() == s0.prev_pos(),
                self.same_meta(s0),
                self.traded_spec() == s0.traded_spec(),
                self.trade_spec() == s0.trade_spec(),
                self.openings_spec() == s0.openings_spec(),
                self.started_spec() == s0.started_spec(),
                self.deck_fresh_spec() == s0.deck_fresh_spec(),
            decreases 4 - q,
        {
            if q != observer.index() {
                self.put_back_hand(q, Ghost(observer));
            }
            q = q + 1;
        }
        let mut r: usize = 0;
        while r < 4
            invariant
                r <= 4,
                self.deck.wf(),
                s0.deck.wf(),
                h0.len() == 4,
                self.hands@.len() == 4,
                view_wf(knowledge@),
                forall|j: int| 0 <= j < 4 ==> #[trigger] self.hands_spec()[j].len() == if r <= j && j != observer.idx() { 0 } else { h0[j].len() },
                forall|j: int| 0 <= j < 4 && j == observer.idx() ==> #[trigger] self.hands_spec()[j] == h0[j],
                forall|q: int|
                    0 <= q < r && q != observer.idx() ==> #[trigger] exact_met(
                        known_spec(knowledge@, color_of(q)),
                        self.hands_spec()[q],
                        self.deck,
                    ),
                forall|q: int| 0 <= q < 4 ==> #[trigger] amounts@[q] + exact_total(known_spec(knowledge@, color_of(q))) == h0[q].len(),
                forall|c: Card| #[trigger] pool(self.deck, self.hands_spec(), observer, c) == pool(s0.deck, h0, observer, c),
                self.deck.total() == s0.deck.total() + (if r <= 0 && observer.idx() != 0 { h0[0].len() as int } else { 0 })
                    + (if r <= 1 && observer.idx() != 1 { h0[1].len() as int } else { 0 })
                    + (if r <= 2 && observer.idx() != 2 { h0[2].len() as int } else { 0 })
                    + (if r <= 3 && observer.idx() != 3 { h0[3].len() as int } else { 0 }),
                self.deck.dealt() == s0.deck.dealt(),
                self.pos() == s0.pos(),
                self.prev_pos() == s0.prev_pos(),
                self.same_meta(s0),
                self.traded_spec() == s0.traded_spec(),
                self.trade_spec() == s0.trade_spec(),
                self.openings_spec() == s0.openings_spec(),
                self.started_spec() == s0.started_spec(),
                self.deck_fresh_spec() == s0.deck_fresh_spec(),
            decreases 4 - r,
        {
            if r != observer.index() {
                let player = Color::from_index(r);
                let known = knowledge.known_cards(player);
                proof {
                    lemma_known_len(knowledge@, player);
                    assert(player == color_of(r as int));
                    assert(known@ == known_spec(knowledge@, color_of(r as int)));
                    assert(amounts@[r as int] + exact_total(known@) == h0[r as int].len());
                    s0.deck.lemma_counts();
                    assert(self.deck.total() >= h0[r as int].len()) by {
                        if r == 0 {} else if r == 1 {} else if r == 2 {} else {}
                    }
                }
                let ghost hb = self.hands_spec();
                let ghost db = self.deck;
                self.refill_hand(r, amounts[r], &known, &mut rng, Ghost(observer));
                proof {
                    self.deck.lemma_counts();
                    assert forall|q: int| 0 <= q < r + 1 && q != observer.idx() implies #[trigger] exact_met(
                        known_spec(knowledge@, color_of(q)),
                        self.hands_spec()[q],
                        self.deck,
                    ) by {
                        if q < r {
                            assert(self.hands_spec()[q] == hb[q]);
                            assert(exact_met(known_spec(knowledge@, color_of(q)), hb[q], db));
                            lemma_exact_met_grow(known_spec(knowledge@, color_of(q)), hb[q], self.hands_spec()[q], db, self.deck);
                        }
                    }
                }
            }
            r = r + 1;
        }
        proof {
            assert(self.deck.total() == s0.deck.total());
        }
    }

    /// Gives `player` one more card.
    pub fn add_hand(&mut self, player: Color, card: Card)
        requires
            old(self).wf(),
        ensures
            final(self).wf(),
            final(self).hands_spec() == old(self).hands_spec().update(player.idx(), old(self).hands_spec()[player.idx()].push(card)),
            final(self).pos() == old(self).pos(),
            final(self).prev_pos() == old(self).prev_pos(),
            final(self).to_move() == old(self).to_move(),
            final(self).discard_spec() == old(self).discard_spec(),
            final(self).jester_spec() == old(self).jester_spec(),
            final(self).last_cards() == old(self).last_cards(),
            final(self).traded_spec() == old(self).traded_spec(),
            final(self).trade_spec() == old(self).trade_spec(),
    {
        self.hands[player.index()].push(card);
        proof {
            assert(self.hands_spec() =~= old(self).hands_spec().update(player.idx(), old(self).hands_spec()[player.idx()].push(card)));
        }
    }

    /// Deal a new set of hands to each player
    pub fn deal_new(&mut self)
        requires
            old(self).wf(),
            forall|i: int| 0 <= i < 4 ==> #[trigger] old(self).hands_spec()[i].len() == 0,
        ensures
            final(self).wf(),
            final(self).trade_spec(),
            final(self).started_spec(),
            final(self).deck_fresh_spec() == (final(self).deck_spec().dealt() == 1),
            ({
                let start = if old(self).deck_spec().dealt() == 5 { 0 } else { old(self).deck_spec().dealt() };
                &&& final(self).deck_spec().dealt() == start + 1
                &&& forall|i: int| 0 <= i < 4 ==> #[trigger] final(self).hands_spec()[i].len() == if start == 4 { 6int } else { 5int }
            }),
            forall|i: int| 0 <= i < 4 ==> #[trigger] final(self).openings_spec()[i] == has_opening(final(self).hands_spec()[i]),
            final(self).pos() == old(self).pos(),
            final(self).prev_pos() == old(self).prev_pos(),
            final(self).to_move() == old(self).to_move(),
            final(self).traded_spec() == old(self).traded_spec(),
            final(self).last_cards() == old(self).last_cards(),
            final(self).discard_spec() == old(self).discard_spec(),
            final(self).jester_spec() == old(self).jester_spec(),
            final(self).seed_spec() == old(self).seed_spec(),
            final(self).started_color() == old(self).started_color(),
            final(self).same_meta(*old(self)),
    {
        let mut rng = std_rng_from_seed(self.seed);
        let dealt_cards = self.deck.deal(&mut rng);
        self.deck_fresh_flag = self.deck.fresh();
        let ghost d = self.deck;
        let n = dealt_cards.len();
        let mut k: usize = 0;
        proof {
            assert forall|j: int| 0 <= j < 4 implies #[trigger] self.hands_spec()[j] =~= Seq::new(0nat, |m: int| dealt_cards@[4 * m + j]) by {
                assert(old(self).hands_spec()[j].len() == 0);
            }
        }
        while k + 4 <= n
            invariant
                self.deck == d,
                self.deck_fresh_flag == (d.dealt() == 1),
                self.seed == old(self).seed,
                self.traded == old(self).traded,
                self.last_tacable_card == old(self).last_tacable_card,
                self.last_tacable_non_jester_card == old(self).last_tacable_non_jester_card,
                self.discard_flag == old(self).discard_flag,
                self.jester_flag == old(self).jester_flag,
                self.player_to_move == old(self).player_to_move,
                self.started == old(self).started,
                self.same_meta(*old(self)),
                n == dealt_cards.len(),
                n == 20 || n == 24,
                k % 4 == 0,
                k <= n,
                self.hands@.len() == 4,
                forall|j: int| 0 <= j < 4 ==> #[trigger] self.hands_spec()[j] == Seq::new((k / 4) as nat, |m: int| dealt_cards@[4 * m + j]),
                self.balls == old(self).balls,
                self.homes == old(self).homes,
                self.fresh == old(self).fresh,
                self.previous_balls == old(self).previous_balls,
                self.previous_homes == old(self).previous_homes,
                self.previous_fresh == old(self).previous_fresh,
            decreases n - k,
        {
            let mut cidx: usize = 0;
            while cidx < 4
                invariant
                    n == dealt_cards.len(),
                    k + 4 <= n,
                    k % 4 == 0,
                    cidx <= 4,
                    self.hands@.len() == 4,
                    self.deck == d,
                    self.deck_fresh_flag == (d.dealt() == 1),
                    self.seed == old(self).seed,
                self.traded == old(self).traded,
                self.last_tacable_card == old(self).last_tacable_card,
                self.last_tacable_non_jester_card == old(self).last_tacable_non_jester_card,
                self.discard_flag == old(self).discard_flag,
                self.jester_flag == old(self).jester_flag,
                self.player_to_move == old(self).player_to_move,
                self.started == old(self).started,
                self.same_meta(*old(self)),
                    forall|j: int| 0 <= j < cidx ==> #[trigger] self.hands_spec()[j] == Seq::new((k / 4 + 1) as nat, |m: int| dealt_cards@[4 * m + j]),
                    forall|j: int| cidx <= j < 4 ==> #[trigger] self.hands_spec()[j] == Seq::new((k / 4) as nat, |m: int| dealt_cards@[4 * m + j]),
                    self.balls == old(self).balls,
                    self.homes == old(self).homes,
                    self.fresh == old(self).fresh,
                    self.previous_balls == old(self).previous_balls,
                    self.previous_homes == old(self).previous_homes,
                    self.previous_fresh == old(self).previous_fresh,
                decreases 4 - cidx,
            {
                let ghost before = self.hands_spec();
                self.hands[cidx].push(dealt_cards[k + cidx]);
                proof {
                    assert(self.hands_spec() =~= before.update(cidx as int, before[cidx as int].push(dealt_cards@[k + cidx])));
                    assert(self.hands_spec()[cidx as int] =~= Seq::new((k / 4 + 1) as nat, |m: int| dealt_cards@[4 * m + cidx]));
                }
                cidx += 1;
            }
            k += 4;
        }
        proof {
            assert(k == n);
            assert forall|i: int| 0 <= i < 4 implies #[trigger] self.hands_spec()[i].len() == n / 4 by {
                assert(self.hands_spec()[i] == Seq::new((k / 4) as nat, |m: int| dealt_cards@[4 * m + i]));
            }
        }
        let mut j: usize = 0;
        while j < 4
            invariant
                j <= 4,
                self.hands@.len() == 4,
                self.deck == d,
                self.deck_fresh_flag == (d.dealt() == 1),
                self.seed == old(self).seed,
                self.traded == old(self).traded,
                self.last_tacable_card == old(self).last_tacable_card,
                self.last_tacable_non_jester_card == old(self).last_tacable_non_jester_card,
                self.discard_flag == old(self).discard_flag,
                self.jester_flag == old(self).jester_flag,
                self.player_to_move == old(self).player_to_move,
                self.started == old(self).started,
                self.same_meta(*old(self)),
                forall|i: int| 0 <= i < 4 ==> #[trigger] self.hands_spec()[i].len() == n / 4,
                forall|i: int| 0 <= i < j ==> #[trigger] self.one_or_thirteen@[i] == has_opening(self.hands_spec()[i]),
                self.balls == old(self).balls,
                self.homes == old(self).homes,
                self.fresh == old(self).fresh,
                self.previous_balls == old(self).previous_balls,
                self.previous_homes == old(self).previous_homes,
                self.previous_fresh == old(self).previous_fresh,
            decreases 4 - j,
        {
            let has = self.hands[j].position(Card::One).is_some() || self.hands[j].position(Card::Thirteen).is_some();
            let ghost hs = self.hands_spec();
            self.one_or_thirteen[j] = has;
            assert(self.hands_spec() == hs);
            j += 1;
        }
        let ghost hs = self.hands_spec();
        assert(forall|i: int| 0 <= i < 4 ==> #[trigger] hs[i].len() == n / 4);
        self.started_flag = true;
        self.trade_flag = true;
        assert(self.hands_spec() == hs);
        proof {
            let start = if old(self).deck_spec().dealt() == 5 { 0 } else { old(self).deck_spec().dealt() };
            assert(self.deck_spec().dealt() == start + 1);
            assert(n == if start == 4 { 24int } else { 20int });
            assert(forall|i: int| 0 <= i < 4 ==> #[trigger] self.hands_spec()[i].len() == n / 4);
        }
    }

    pub fn new_with_seed(seed: u64) -> (r: Self)
        ensures
            r.wf(),
            r.pos() == start_position(),
            r.prev_pos() == start_position(),
            r.to_move() == Color::Black,
            r.started_color() == Color::Black,
            r.seed_spec() == seed,
            r.trade_spec(),
            r.started_spec(),
            !r.discard_spec(),
            !r.jester_spec(),
            r.last_cards() == (None::<Card>, None::<Card>),
            forall|i: int| 0 <= i < 4 ==> #[trigger] r.traded_spec()[i] is None,
            forall|i: int| 0 <= i < 4 ==> #[trigger] r.hands_spec()[i].len() == 5,
            r.deck_spec().dealt() == 1,
            r.deck_fresh_spec(),
            r.moves_made() == 0,
    {
        let mut s = Self {
            balls: [BitBoard(0), BitBoard(0), BitBoard(0), BitBoard(0)],
            player_to_move: Color::Black,
            homes: [Home(0), Home(0), Home(0), Home(0)],
            fresh: [true, true, true, true],
            discard_flag: false,
            jester_flag: false,
            devil_flag: false,
            trade_flag: false,
            started_flag: false,
            deck_fresh_flag: false,
            deck: Deck::new(),
            last_tacable_card: None,
            last_tacable_non_jester_card: None,
            hands: vec![Hand::new(Vec::new()), Hand::new(Vec::new()), Hand::new(Vec::new()), Hand::new(Vec::new())],
            traded: [None, None, None, None],
            one_or_thirteen: [false, false, false, false],
            move_count: 0,
            seed,
            started: Color::Black,
            previous_balls: [BitBoard(0), BitBoard(0), BitBoard(0), BitBoard(0)],
            previous_homes: [Home(0), Home(0), Home(0), Home(0)],
            previous_fresh: [true, true, true, true],
        };
        proof {
            BitBoard::lemma_empty_view();
            assert(s.pos().balls =~= start_position().balls);
            assert(s.pos().homes =~= start_position().homes);
            assert(s.pos().fresh =~= start_position().fresh);
            assert(s.pos() =~= start_position());
            assert(s.prev_pos() =~= start_position());
            crate::home::lemma_home_bits(0);
            assert(ones8(0, 4) == 0) by {
                reveal_with_fuel(ones8, 5);
            }
        }
        s.deal_new();
        s
    }

    pub fn new() -> (r: Self)
        ensures
            r.wf(),
            r.pos() == start_position(),
            r.to_move() == Color::Black,
            r.seed_spec() == 0,
    {
        Self::new_with_seed(0)
    }

    /// Puts the goal of `color` in the state `bits`.
    fn set_goal(&mut self, color: Color, bits: u8)
        requires
            old(self).wf(),
            bits < 16,
            old(self).pos().balls[color.idx()].len() + ones8(bits, 8) <= 4,
        ensures
            final(self).wf(),
            final(self).pos() == (Position { homes: old(self).pos().homes.update(color.idx(), bits), ..old(self).pos() }),
            final(self).same_but_position(*old(self)),
    {
        self.homes[color.index()] = Home(bits);
        proof {
            assert(self.pos().homes =~= old(self).pos().homes.update(color.idx(), bits));
            assert(self.pos().balls =~= old(self).pos().balls);
            assert(self.pos().fresh =~= old(self).pos().fresh);
        }
    }

    /// A board of the given seed whose balls are put at random: up to sixteen random
    /// squares get a ball each, of a color drawn among those with a ball left in the
    /// base; then each color moves a random number of its base balls into its goal,
    /// onto random goal squares.
    pub fn new_random_state(seed: u64) -> (r: Self)
        ensures
            r.wf(),
            r.to_move() == Color::Black,
            r.seed_spec() == seed,
            r.trade_spec(),
            r.started_spec(),
            !r.discard_spec(),
            !r.jester_spec(),
            forall|i: int| 0 <= i < 4 ==> #[trigger] r.hands_spec()[i].len() == 5,
            r.deck_spec().dealt() == 1,
            r.pos().fresh == start_position().fresh,
    {
        let mut s = Self::new_with_seed(seed);
        let ghost s0 = s;
        let mut rng = std_rng_from_seed(seed);
        let mask = std_rng_u64(&mut rng);
        let mut placed: usize = 0;
        let mut i: u8 = 0;
        while i < 64 && placed < 16
            invariant
                i <= 64,
                s.wf(),
                s.same_but_position(s0),
                s.pos().fresh == start_position().fresh,
            decreases 64 - i,
        {
            if (mask >> i) & 1 == 1 && !s.occupied(Square(i)) {
                let mut candidates: Vec<Color> = Vec::new();
                let mut c: usize = 0;
                while c < 4
                    invariant
                        c <= 4,
                        s.wf(),
                        forall|j: int| 0 <= j < candidates.len() ==> num_base_spec(s.pos(), #[trigger] candidates@[j]) > 0,
                    decreases 4 - c,
                {
                    let color = Color::from_index(c);
                    if s.num_base(color) > 0 {
                        candidates.push(color);
                    }
                    c = c + 1;
                }
                if candidates.len() > 0 {
                    let k = std_rng_below(&mut rng, candidates.len());
                    let color = candidates[k];
                    s.set(Square(i), color);
                    placed = placed + 1;
                    proof {
                        assert(s.pos().fresh =~= start_position().fresh);
                    }
                }
            }
            i = i + 1;
        }
        let mut c: usize = 0;
        while c < 4
            invariant
                c <= 4,
                s.wf(),
                s.same_but_position(s0),
                s.pos().fresh == start_position().fresh,
            decreases 4 - c,
        {
            let color = Color::from_index(c);
            let base = s.num_base(color);
            let num_home = std_rng_below(&mut rng, base as usize + 1);
            let mut candidates: Vec<u8> = Vec::new();
            let mut v: u8 = 0;
            while v < 16
                invariant
                    v <= 16,
                    forall|j: int| 0 <= j < candidates.len() ==> #[trigger] candidates@[j] < 16 && ones8(candidates@[j], 8) == num_home,
                decreases 16 - v,
            {
                if u8_count_ones(v) as usize == num_home {
                    candidates.push(v);
                }
                v = v + 1;
            }
            if candidates.len() > 0 {
                let k = std_rng_below(&mut rng, candidates.len());
                let bits = candidates[k];
                proof {
                    assert(num_base_spec(s.pos(), color) == base);
                }
                s.set_goal(color, bits);
                proof {
                    assert(s.pos().fresh =~= start_position().fresh);
                }
            }
            c = c + 1;
        }
        s
    }
}

impl Default for Board {
    /// The board of seed zero.
    fn default() -> (r: Self)
        ensures
            r.wf(),
            r.pos() == start_position(),
            r.to_move() == Color::Black,
            r.seed_spec() == 0,
    {
        Self::new()
    }
}



/// A ring movement of a split seven: start, end, whether it ends in the goal, and
/// the color of the ball.
pub type SevenEntry = (Square, Square, bool, Color);

/// Whose ball part `i` of a split seven moves: the player's before `pidx`, the partner's after.
pub open spec fn seven_owner(player: Color, pidx: int, i: int) -> Color {
    if i < pidx {
        player
    } else {
        color_of(player.idx() + 2)
    }
}

/// One part of a split seven can be taken off the ring or moved in the goal.
pub open spec fn seven_step_ok(p: Position, a: SevenAction, c: Color) -> bool {
    match a {
        SevenAction::Step { from, to } => from.0 < 64 && to.0 < 64 && p.balls[c.idx()].contains(from.0 as int),
        SevenAction::StepHome { from, to } => from < 4 && to < 4 && bit8(p.homes[c.idx()], from as int) && (from
            == to || !bit8(p.homes[c.idx()], to as int)),
        SevenAction::StepInHome { from, to } => from.0 < 64 && to < 4 && p.balls[c.idx()].contains(from.0 as int)
            && !bit8(p.homes[c.idx()], to as int),
    }
}

/// The first phase of one part: a ring ball is lifted off, a goal ball is moved.
pub open spec fn seven_step(p: Position, a: SevenAction, c: Color) -> Position {
    match a {
        SevenAction::Step { from, .. } => without_ball(p, from.0 as int, c),
        SevenAction::StepHome { from, to } => in_goal_spec(p, from, to, c),
        SevenAction::StepInHome { from, to } => to_goal_spec(p, from.0 as int, to, c),
    }
}

/// The position after the first phase of the first `n` parts.
pub open spec fn seven_phase1(p: Position, steps: Seq<SevenAction>, player: Color, pidx: int, n: int) -> Position
    decreases n,
{
    if n <= 0 {
        p
    } else {
        seven_step(seven_phase1(p, steps, player, pidx, n - 1), steps[n - 1], seven_owner(player, pidx, n - 1))
    }
}

/// The first phase of the first `n` parts can be carried out.
pub open spec fn seven_phase1_ok(p: Position, steps: Seq<SevenAction>, player: Color, pidx: int, n: int) -> bool
    decreases n,
{
    if n <= 0 {
        true
    } else {
        seven_phase1_ok(p, steps, player, pidx, n - 1) && seven_step_ok(
            seven_phase1(p, steps, player, pidx, n - 1),
            steps[n - 1],
            seven_owner(player, pidx, n - 1),
        )
    }
}

/// The ring movements of the first `n` parts, in order: a step goes from its start to
/// its end, a move into the goal goes from its start to the entry square.
pub open spec fn seven_entries(steps: Seq<SevenAction>, player: Color, pidx: int, n: int) -> Seq<SevenEntry>
    decreases n,
{
    if n <= 0 {
        Seq::empty()
    } else {
        let prev = seven_entries(steps, player, pidx, n - 1);
        let c = seven_owner(player, pidx, n - 1);
        match steps[n - 1] {
            SevenAction::Step { from, to } => prev.push((from, to, false, c)),
            SevenAction::StepInHome { from, .. } => prev.push((from, Square(c.home_sq() as u8), true, c)),
            SevenAction::StepHome { .. } => prev,
        }
    }
}

/// Movement `idx` starts and ends on the ring stretch of another movement.
pub open spec fn contained_in_other(es: Seq<SevenEntry>, idx: int) -> bool {
    exists|j: int|
        0 <= j < es.len() && j != idx && #[trigger] in_range_spec(es[idx].0.0 as int, es[j].0.0 as int, es[j].1.0 as int)
            && in_range_spec(es[idx].1.0 as int, es[j].0.0 as int, es[j].1.0 as int)
}

/// The movements kept among the first `n`: those into the goal, and those not
/// contained in another movement (a contained ball is jumped over and captured).
pub open spec fn kept_upto(es: Seq<SevenEntry>, n: int) -> Seq<SevenEntry>
    decreases n,
{
    if n <= 0 {
        Seq::empty()
    } else if es[n - 1].2 || !contained_in_other(es, n - 1) {
        kept_upto(es, n - 1).push(es[n - 1])
    } else {
        kept_upto(es, n - 1)
    }
}

/// The squares a movement passes over: after its start, up to and including its end.
pub open spec fn path_spec(e: SevenEntry) -> Set<int> {
    Set::new(
        |sq: int|
            0 <= sq < 64 && 1 <= forward_dist(e.0.0 as int, sq) <= forward_dist(e.0.0 as int, e.1.0 as int),
    )
}

/// All squares passed over by the first `n` movements.
pub open spec fn paths_upto(ks: Seq<SevenEntry>, n: int) -> Set<int>
    decreases n,
{
    if n <= 0 {
        Set::empty()
    } else {
        paths_upto(ks, n - 1).union(path_spec(ks[n - 1]))
    }
}

/// The position with every ball on a square of `sqs` captured.
pub open spec fn without_squares(p: Position, sqs: Set<int>) -> Position {
    Position { balls: Seq::new(4, |c: int| p.balls[c].difference(sqs)), ..p }
}

/// The position with the balls of the first `n` kept ring movements that end on the
/// ring put on their ends.
pub open spec fn ends_upto(p: Position, ks: Seq<SevenEntry>, n: int) -> Position
    decreases n,
{
    if n <= 0 {
        p
    } else if ks[n - 1].2 {
        ends_upto(p, ks, n - 1)
    } else {
        with_ball(ends_upto(p, ks, n - 1), ks[n - 1].1.0 as int, ks[n - 1].3)
    }
}

/// Where the partner's parts begin.
pub open spec fn partner_start(steps: Seq<SevenAction>, partner_idx: Option<usize>) -> int {
    match partner_idx {
        Some(x) => x as int,
        None => steps.len() as int,
    }
}

/// The kept movements of a split seven.
pub open spec fn seven_kept(steps: Seq<SevenAction>, player: Color, pidx: int) -> Seq<SevenEntry> {
    let es = seven_entries(steps, player, pidx, steps.len() as int);
    kept_upto(es, es.len() as int)
}

/// The position after a split seven: all parts lifted off or moved in the goal, the
/// squares passed over cleared, and the balls put on the ends of the kept movements.
pub open spec fn seven_spec(p: Position, steps: Seq<SevenAction>, player: Color, pidx: int) -> Position {
    let p1 = seven_phase1(p, steps, player, pidx, steps.len() as int);
    let ks = seven_kept(steps, player, pidx);
    ends_upto(without_squares(p1, paths_upto(ks, ks.len() as int)), ks, ks.len() as int)
}

/// A split seven can be carried out: each part is possible in turn and no two kept
/// movements that end on the ring end on the same square.
pub open spec fn seven_ok(p: Position, steps: Seq<SevenAction>, player: Color, pidx: int) -> bool {
    let ks = seven_kept(steps, player, pidx);
    &&& seven_phase1_ok(p, steps, player, pidx, steps.len() as int)
    &&& forall|a: int, b: int|
        0 <= a < b < ks.len() && !ks[a].2 && !ks[b].2 ==> #[trigger] ks[a].1 != #[trigger] ks[b].1
}


/// Number of the first `n` movements that end on the ring and move a ball of color `c`.
pub open spec fn ring_count(es: Seq<SevenEntry>, n: int, c: Color) -> int
    decreases n,
{
    if n <= 0 {
        0
    } else {
        ring_count(es, n - 1, c) + if !es[n - 1].2 && es[n - 1].3 == c {
            1int
        } else {
            0int
        }
    }
}

/// Balls of color `c` on the ring and in its goal.
pub open spec fn placed(p: Position, c: Color) -> int {
    (p.balls[c.idx()].len() + ones8(p.homes[c.idx()], 8)) as int
}

proof fn lemma_ring_count_push(es: Seq<SevenEntry>, e: SevenEntry, c: Color)
    ensures
        ring_count(es.push(e), es.len() + 1int, c) == ring_count(es, es.len() as int, c) + if !e.2 && e.3 == c { 1int } else { 0int },
{
    lemma_ring_count_prefix(es.push(e), es, es.len() as int, c);
}

proof fn lemma_ring_count_prefix(a: Seq<SevenEntry>, b: Seq<SevenEntry>, n: int, c: Color)
    requires
        0 <= n <= b.len(),
        n <= a.len(),
        forall|j: int| 0 <= j < n ==> a[j] == b[j],
    ensures
        ring_count(a, n, c) == ring_count(b, n, c),
    decreases n,
{
    if n > 0 {
        lemma_ring_count_prefix(a, b, n - 1, c);
    }
}

/// One part of the first phase changes the balls of its color placed on the ring or in
/// the goal by minus one for a ring step and by nothing otherwise, keeps the rest, and
/// keeps the position well formed.
proof fn lemma_seven_step(p: Position, a: SevenAction, c: Color)
    requires
        pos_wf(p),
        seven_step_ok(p, a, c),
    ensures
        pos_wf(seven_step(p, a, c)),
        placed(seven_step(p, a, c), c) == placed(p, c) - if a is Step { 1int } else { 0int },
        forall|d: Color| d != c ==> #[trigger] placed(seven_step(p, a, c), d) == placed(p, d),
        forall|sq: int| occupied_spec(seven_step(p, a, c), sq) ==> occupied_spec(p, sq),
{
    let q = seven_step(p, a, c);
    match a {
        SevenAction::Step { from, .. } => {
            lemma_without_wf(p, from.0 as int, c);
        },
        SevenAction::StepHome { from, to } => {
            let h = p.homes[c.idx()];
            lemma_home_toggle(h, from);
            lemma_home_toggle(h ^ (1u8 << from), to);
            assert(q.balls == p.balls);
        },
        SevenAction::StepInHome { from, to } => {
            lemma_without_wf(p, from.0 as int, c);
            lemma_home_toggle(p.homes[c.idx()], to);
            let q1 = without_ball(p, from.0 as int, c);
            assert(q.balls == q1.balls);
        },
    }
}

impl Board {
    /// The first phase of a split seven: ring balls are lifted off, goal balls move.
    fn seven_phase_one(&mut self, steps: &Vec<SevenAction>, pidx: usize, player: Color)
        requires
            old(self).wf(),
            seven_phase1_ok(old(self).pos(), steps@, player, pidx as int, steps@.len() as int),
        ensures
            final(self).wf(),
            final(self).pos() == seven_phase1(old(self).pos(), steps@, player, pidx as int, steps@.len() as int),
            final(self).same_but_position(*old(self)),
            forall|c: Color| #[trigger] placed(final(self).pos(), c) + ring_count(
                seven_entries(steps@, player, pidx as int, steps@.len() as int),
                seven_entries(steps@, player, pidx as int, steps@.len() as int).len() as int,
                c,
            ) == placed(old(self).pos(), c),
    {
        let n = steps.len();
        let mut i: usize = 0;
        let ghost p0 = self.pos();
        while i < n
            invariant
                n == steps@.len(),
                i <= n,
                self.wf(),
                p0 == old(self).pos(),
                seven_phase1_ok(p0, steps@, player, pidx as int, n as int),
                self.pos() == seven_phase1(p0, steps@, player, pidx as int, i as int),
                self.same_but_position(*old(self)),
                forall|c: Color| #[trigger] placed(self.pos(), c) + ring_count(
                    seven_entries(steps@, player, pidx as int, i as int),
                    seven_entries(steps@, player, pidx as int, i as int).len() as int,
                    c,
                ) == placed(p0, c),
            decreases n - i,
        {
            proof {
                lemma_phase1_ok_prefix(p0, steps@, player, pidx as int, n as int, i as int + 1);
                lemma_phase1_next(p0, steps@, player, pidx as int, i as int);
                self.lemma_wf();
            }
            let ghost before = self.pos();
            let pf = if i < pidx {
                player
            } else {
                player.partner()
            };
            match steps[i] {
                SevenAction::Step { from, .. } => self.unset(from, pf),
                SevenAction::StepHome { from, to } => self.move_ball_in_goal(from, to, pf),
                SevenAction::StepInHome { from, to } => self.move_ball_to_goal(from, to, pf),
            }
            i += 1;
        }
    }
}

proof fn lemma_phase1_next(p0: Position, steps: Seq<SevenAction>, player: Color, pidx: int, i: int)
    requires
        0 <= i < steps.len(),
        seven_phase1_ok(p0, steps, player, pidx, i + 1),
        pos_wf(seven_phase1(p0, steps, player, pidx, i)),
        forall|c: Color| #[trigger] placed(seven_phase1(p0, steps, player, pidx, i), c) + ring_count(
            seven_entries(steps, player, pidx, i),
            seven_entries(steps, player, pidx, i).len() as int,
            c,
        ) == placed(p0, c),
    ensures
        seven_step_ok(seven_phase1(p0, steps, player, pidx, i), steps[i], seven_owner(player, pidx, i)),
        pos_wf(seven_phase1(p0, steps, player, pidx, i + 1)),
        forall|c: Color| #[trigger] placed(seven_phase1(p0, steps, player, pidx, i + 1), c) + ring_count(
            seven_entries(steps, player, pidx, i + 1),
            seven_entries(steps, player, pidx, i + 1).len() as int,
            c,
        ) == placed(p0, c),
{
    let before = seven_phase1(p0, steps, player, pidx, i);
    let a = steps[i];
    let pf = seven_owner(player, pidx, i);
    lemma_seven_step(before, a, pf);
    let es = seven_entries(steps, player, pidx, i);
    let es1 = seven_entries(steps, player, pidx, i + 1);
    match a {
        SevenAction::Step { from, to } => {
            assert(es1 == es.push((from, to, false, pf)));
            assert forall|c: Color| #[trigger] ring_count(es1, es1.len() as int, c) == ring_count(es, es.len() as int, c) + if c == pf { 1int } else { 0int } by {
                lemma_ring_count_push(es, (from, to, false, pf), c);
            }
        },
        SevenAction::StepInHome { from, .. } => {
            let e = (from, Square(pf.home_sq() as u8), true, pf);
            assert(es1 == es.push(e));
            assert forall|c: Color| #[trigger] ring_count(es1, es1.len() as int, c) == ring_count(es, es.len() as int, c) by {
                lemma_ring_count_push(es, e, c);
            }
        },
        SevenAction::StepHome { .. } => {
            assert(es1 == es);
        },
    }
}

proof fn lemma_phase1_ok_prefix(p: Position, steps: Seq<SevenAction>, player: Color, pidx: int, n: int, m: int)
    requires
        seven_phase1_ok(p, steps, player, pidx, n),
        0 <= m <= n,
    ensures
        seven_phase1_ok(p, steps, player, pidx, m),
    decreases n - m,
{
    if m < n {
        lemma_phase1_ok_prefix(p, steps, player, pidx, n, m + 1);
    }
}


/// The squares at forward distance 1 to `m` from `s`.
pub open spec fn partial_path(s: int, m: int) -> Set<int> {
    Set::new(|sq: int| 0 <= sq < 64 && 1 <= forward_dist(s, sq) <= m)
}

proof fn lemma_forward_dist(a: int, b: int)
    requires
        0 <= a < 64,
        0 <= b < 64,
    ensures
        forward_dist(a, b) == (b - a + 64) % 64,
        0 <= forward_dist(a, b) < 64,
        forward_dist(a, b) == 0 <==> a == b,
{
}

proof fn lemma_partial_step(s: int, m: int)
    requires
        0 <= s < 64,
        0 <= m < 63,
    ensures
        partial_path(s, m + 1) == partial_path(s, m).insert((s + m + 1) % 64),
        forward_dist(s, (s + m + 1) % 64) == m + 1,
{
    let x = (s + m + 1) % 64;
    lemma_forward_dist(s, x);
    assert forall|sq: int| #[trigger] partial_path(s, m + 1).contains(sq) == partial_path(s, m).insert(x).contains(sq) by {
        if 0 <= sq < 64 {
            lemma_forward_dist(s, sq);
        }
    }
    assert(partial_path(s, m + 1) =~= partial_path(s, m).insert(x));
}

proof fn lemma_capture_more(p: Position, sqs: Set<int>, x: int)
    ensures
        captured(without_squares(p, sqs), x) == without_squares(p, sqs.insert(x)),
{
    let a = captured(without_squares(p, sqs), x);
    let b = without_squares(p, sqs.insert(x));
    assert forall|c: int| 0 <= c < 4 implies #[trigger] a.balls[c] =~= b.balls[c] by {}
    assert(a.balls =~= b.balls);
    assert(a =~= b);
}

proof fn lemma_without_squares_wf(p: Position, sqs: Set<int>)
    requires
        pos_wf(p),
    ensures
        pos_wf(without_squares(p, sqs)),
        forall|c: Color| #[trigger] placed(without_squares(p, sqs), c) <= placed(p, c),
        forall|sq: int| occupied_spec(without_squares(p, sqs), sq) ==> occupied_spec(p, sq) && !sqs.contains(sq),
{
    let q = without_squares(p, sqs);
    assert forall|c: int| 0 <= c < 4 implies #[trigger] q.balls[c].len() <= p.balls[c].len() by {
        vstd::set_lib::lemma_len_subset(q.balls[c], p.balls[c]);
    }
    assert forall|c: Color| #[trigger] placed(q, c) <= placed(p, c) by {
        assert(q.balls[c.idx()].len() <= p.balls[c.idx()].len());
    }
}

impl Board {
    /// Clears every square passed over by the kept movements.
    fn seven_capture_paths(&mut self, kept: &Vec<SevenEntry>)
        requires
            old(self).wf(),
            forall|j: int| 0 <= j < kept@.len() ==> (#[trigger] kept@[j]).0.0 < 64 && kept@[j].1.0 < 64,
        ensures
            final(self).wf(),
            final(self).pos() == without_squares(old(self).pos(), paths_upto(kept@, kept@.len() as int)),
            final(self).same_but_position(*old(self)),
    {
        let ghost p1 = self.pos();
        let mut j: usize = 0;
        proof {
            self.lemma_wf();
            let q = without_squares(p1, Set::empty());
            assert forall|c: int| 0 <= c < 4 implies #[trigger] q.balls[c] =~= p1.balls[c] by {}
            assert(p1.balls =~= q.balls);
            assert(p1 =~= q);
        }
        while j < kept.len()
            invariant
                j <= kept@.len(),
                self.wf(),
                p1 == old(self).pos(),
                forall|k: int| 0 <= k < kept@.len() ==> (#[trigger] kept@[k]).0.0 < 64 && kept@[k].1.0 < 64,
                self.pos() == without_squares(p1, paths_upto(kept@, j as int)),
                self.same_but_position(*old(self)),
            decreases kept@.len() - j,
        {
            let (s, e, _, _) = kept[j];
            let mut cur = s;
            let ghost mut m: int = 0;
            let ghost base = paths_upto(kept@, j as int);
            proof {
                assert(partial_path(s.0 as int, 0) =~= Set::<int>::empty());
                assert(base.union(partial_path(s.0 as int, 0)) =~= base);
                lemma_forward_dist(s.0 as int, e.0 as int);
            }
            while cur != e
                invariant
                    s.0 < 64,
                    e.0 < 64,
                    0 <= m <= forward_dist(s.0 as int, e.0 as int),
                    cur.0 < 64,
                    cur.0 as int == (s.0 + m) % 64,
                    self.wf(),
                    self.pos() == without_squares(p1, base.union(partial_path(s.0 as int, m))),
                    self.same_but_position(*old(self)),
                decreases forward_dist(s.0 as int, e.0 as int) - m,
            {
                proof {
                    lemma_forward_dist(s.0 as int, e.0 as int);
                    lemma_forward_dist(s.0 as int, cur.0 as int);
                    assert(m < forward_dist(s.0 as int, e.0 as int));
                    lemma_partial_step(s.0 as int, m);
                }
                // Step one square forwards
                let next = cur.add(1);
                let ghost before = self.pos();
                self.capture(next);
                proof {
                    lemma_capture_more(p1, base.union(partial_path(s.0 as int, m)), next.0 as int);
                    assert(base.union(partial_path(s.0 as int, m)).insert(next.0 as int) =~= base.union(
                        partial_path(s.0 as int, m + 1),
                    ));
                    m = m + 1;
                }
                cur = next;
            }
            proof {
                lemma_forward_dist(s.0 as int, e.0 as int);
                assert(m == forward_dist(s.0 as int, e.0 as int)) by {
                    lemma_forward_dist(s.0 as int, cur.0 as int);
                }
                assert(partial_path(s.0 as int, m) =~= path_spec(kept@[j as int]));
                assert(paths_upto(kept@, j as int + 1) == base.union(path_spec(kept@[j as int])));
            }
            j += 1;
        }
    }
}


proof fn lemma_ring_count_mono(es: Seq<SevenEntry>, a: int, b: int, c: Color)
    requires
        0 <= a <= b,
    ensures
        ring_count(es, a, c) <= ring_count(es, b, c),
    decreases b - a,
{
    if a < b {
        lemma_ring_count_mono(es, a, b - 1, c);
    }
}

proof fn lemma_ends_occupied(p: Position, ks: Seq<SevenEntry>, j: int, sq: int)
    requires
        0 <= j <= ks.len(),
        occupied_spec(ends_upto(p, ks, j), sq),
        p.balls.len() == 4,
    ensures
        occupied_spec(p, sq) || exists|k: int| 0 <= k < j && !ks[k].2 && #[trigger] ks[k].1.0 as int == sq,
    decreases j,
{
    if j > 0 {
        let prev = ends_upto(p, ks, j - 1);
        if !ks[j - 1].2 && ks[j - 1].1.0 as int == sq {
        } else {
            lemma_ends_balls_len(p, ks, j - 1);
            if !ks[j - 1].2 {
                let c = choose|c: int| 0 <= c < 4 && #[trigger] ends_upto(p, ks, j).balls[c].contains(sq);
                let o = ks[j - 1].3.idx();
                if c == o {
                    assert(ends_upto(p, ks, j).balls[c] == prev.balls[o].insert(ks[j - 1].1.0 as int));
                } else {
                    assert(ends_upto(p, ks, j).balls[c] == prev.balls[c]);
                }
                assert(prev.balls[c].contains(sq));
            }
            lemma_ends_occupied(p, ks, j - 1, sq);
        }
    }
}

proof fn lemma_ends_balls_len(p: Position, ks: Seq<SevenEntry>, j: int)
    requires
        0 <= j <= ks.len(),
        p.balls.len() == 4,
    ensures
        ends_upto(p, ks, j).balls.len() == 4,
        ends_upto(p, ks, j).homes == p.homes,
    decreases j,
{
    if j > 0 {
        lemma_ends_balls_len(p, ks, j - 1);
    }
}

impl Board {
    /// Puts the balls of the kept movements that end on the ring on their ends.
    fn seven_place_ends(&mut self, kept: &Vec<SevenEntry>)
        requires
            old(self).wf(),
            forall|j: int| 0 <= j < kept@.len() ==> (#[trigger] kept@[j]).1.0 < 64,
            forall|j: int| 0 <= j < kept@.len() && !kept@[j].2 ==> !occupied_spec(old(self).pos(), (#[trigger] kept@[j]).1.0 as int),
            forall|a: int, b: int|
                0 <= a < b < kept@.len() && !kept@[a].2 && !kept@[b].2 ==> #[trigger] kept@[a].1 != #[trigger] kept@[b].1,
            forall|c: Color| #[trigger] placed(old(self).pos(), c) + ring_count(kept@, kept@.len() as int, c) <= 4,
        ensures
            final(self).wf(),
            final(self).pos() == ends_upto(old(self).pos(), kept@, kept@.len() as int),
            final(self).same_but_position(*old(self)),
    {
        let ghost p3 = self.pos();
        let mut j: usize = 0;
        while j < kept.len()
            invariant
                j <= kept@.len(),
                self.wf(),
                p3 == old(self).pos(),
                forall|k: int| 0 <= k < kept@.len() ==> (#[trigger] kept@[k]).1.0 < 64,
                forall|k: int| 0 <= k < kept@.len() && !kept@[k].2 ==> !occupied_spec(p3, (#[trigger] kept@[k]).1.0 as int),
                forall|a: int, b: int|
                    0 <= a < b < kept@.len() && !kept@[a].2 && !kept@[b].2 ==> #[trigger] kept@[a].1 != #[trigger] kept@[b].1,
                forall|c: Color| #[trigger] placed(p3, c) + ring_count(kept@, kept@.len() as int, c) <= 4,
                self.pos() == ends_upto(p3, kept@, j as int),
                forall|c: Color| #[trigger] placed(self.pos(), c) == placed(p3, c) + ring_count(kept@, j as int, c),
                self.same_but_position(*old(self)),
            decreases kept@.len() - j,
        {
            let (_, e, g, p) = kept[j];
            let ghost before = self.pos();
            if !g {
                proof {
                    self.lemma_wf();
                    lemma_ring_count_mono(kept@, j as int + 1, kept@.len() as int, p);
                    assert(placed(before, p) < 4);
                    assert(!occupied_spec(before, e.0 as int)) by {
                        if occupied_spec(before, e.0 as int) {
                            lemma_ends_occupied(p3, kept@, j as int, e.0 as int);
                            if !occupied_spec(p3, e.0 as int) {
                                let k = choose|k: int| 0 <= k < j && !kept@[k].2 && #[trigger] kept@[k].1.0 as int == e.0 as int;
                                assert(kept@[k].1 == kept@[j as int].1);
                            }
                        }
                    }
                }
                self.set(e, p);
                proof {
                    lemma_with_wf(before, e.0 as int, p);
                    assert forall|c: Color| #[trigger] placed(self.pos(), c) == placed(p3, c) + ring_count(kept@, j as int + 1, c) by {
                        assert(ring_count(kept@, j as int + 1, c) == ring_count(kept@, j as int, c) + if c == p { 1int } else { 0int });
                        if c == p {
                            assert(num_base_spec(self.pos(), p) == num_base_spec(before, p) - 1);
                        } else {
                            assert(num_base_spec(self.pos(), c) == num_base_spec(before, c));
                        }
                        assert(placed(self.pos(), c) == 4 - num_base_spec(self.pos(), c));
                        assert(placed(before, c) == 4 - num_base_spec(before, c));
                    }
                }
            } else {
                proof {
                    assert forall|c: Color| #[trigger] ring_count(kept@, j as int + 1, c) == ring_count(kept@, j as int, c) by {}
                }
            }
            j += 1;
        }
    }
}

/// The ring movements of a split seven, in order.
fn seven_movements(steps: &Vec<SevenAction>, pidx: usize, player: Color) -> (r: Vec<SevenEntry>)
    ensures
        r@ == seven_entries(steps@, player, pidx as int, steps@.len() as int),
{
    let mut res: Vec<SevenEntry> = Vec::new();
    let mut i: usize = 0;
    while i < steps.len()
        invariant
            i <= steps@.len(),
            res@ == seven_entries(steps@, player, pidx as int, i as int),
        decreases steps@.len() - i,
    {
        let pf = if i < pidx {
            player
        } else {
            player.partner()
        };
        match steps[i] {
            SevenAction::Step { from, to } => res.push((from, to, false, pf)),
            SevenAction::StepInHome { from, .. } => res.push((from, pf.home(), true, pf)),
            SevenAction::StepHome { .. } => {},
        }
        i += 1;
    }
    res
}

/// Keeps the movements into the goal and those not contained in another movement.
fn kept_movements(es: &Vec<SevenEntry>) -> (r: Vec<SevenEntry>)
    ensures
        r@ == kept_upto(es@, es@.len() as int),
{
    let mut res: Vec<SevenEntry> = Vec::new();
    let mut idx: usize = 0;
    while idx < es.len()
        invariant
            idx <= es@.len(),
            res@ == kept_upto(es@, idx as int),
        decreases es@.len() - idx,
    {
        let (s, e, g, _) = es[idx];
        let mut contained = false;
        let mut idx2: usize = 0;
        while idx2 < es.len()
            invariant
                idx < es@.len(),
                idx2 <= es@.len(),
                s == es@[idx as int].0,
                e == es@[idx as int].1,
                contained == exists|j: int|
                    0 <= j < idx2 && j != idx && #[trigger] in_range_spec(s.0 as int, es@[j].0.0 as int, es@[j].1.0 as int)
                        && in_range_spec(e.0 as int, es@[j].0.0 as int, es@[j].1.0 as int),
            decreases es@.len() - idx2,
        {
            let (s2, e2, _, _) = es[idx2];
            if idx != idx2 && s.in_range(s2, e2) && e.in_range(s2, e2) {
                contained = true;
            }
            idx2 += 1;
        }
        if g || !contained {
            res.push(es[idx]);
        }
        idx += 1;
    }
    res
}


/// Every prefix of a possible first phase keeps the position well formed, and the
/// ring movements start on squares that are free afterwards.
proof fn lemma_phase1_facts(p0: Position, steps: Seq<SevenAction>, player: Color, pidx: int, n: int)
    requires
        pos_wf(p0),
        0 <= n <= steps.len(),
        seven_phase1_ok(p0, steps, player, pidx, n),
    ensures
        pos_wf(seven_phase1(p0, steps, player, pidx, n)),
        forall|j: int| 0 <= j < seven_entries(steps, player, pidx, n).len() ==> {
            let e = #[trigger] seven_entries(steps, player, pidx, n)[j];
            &&& e.0.0 < 64
            &&& e.1.0 < 64
            &&& !occupied_spec(seven_phase1(p0, steps, player, pidx, n), e.0.0 as int)
        },
    decreases n,
{
    if n > 0 {
        lemma_phase1_facts(p0, steps, player, pidx, n - 1);
        let prev = seven_phase1(p0, steps, player, pidx, n - 1);
        let a = steps[n - 1];
        let c = seven_owner(player, pidx, n - 1);
        lemma_seven_step(prev, a, c);
        let cur = seven_phase1(p0, steps, player, pidx, n);
        let es0 = seven_entries(steps, player, pidx, n - 1);
        let es = seven_entries(steps, player, pidx, n);
        assert forall|j: int| 0 <= j < es.len() implies {
            let e = #[trigger] es[j];
            &&& e.0.0 < 64
            &&& e.1.0 < 64
            &&& !occupied_spec(cur, e.0.0 as int)
        } by {
            if j < es0.len() {
                assert(es[j] == es0[j]);
            } else {
                match a {
                    SevenAction::Step { from, .. } => {
                        assert(!cur.balls[c.idx()].contains(from.0 as int));
                        assert forall|d: int| 0 <= d < 4 implies !#[trigger] cur.balls[d].contains(from.0 as int) by {
                            if d != c.idx() {
                                assert(prev.balls[c.idx()].contains(from.0 as int));
                            }
                        }
                    },
                    SevenAction::StepInHome { from, .. } => {
                        assert(cur.balls == without_ball(prev, from.0 as int, c).balls);
                        assert forall|d: int| 0 <= d < 4 implies !#[trigger] cur.balls[d].contains(from.0 as int) by {
                            if d != c.idx() {
                                assert(prev.balls[c.idx()].contains(from.0 as int));
                            }
                        }
                    },
                    SevenAction::StepHome { .. } => {},
                }
            }
        }
    }
}

/// Every kept movement is one of the movements, and no more of them end on the ring.
proof fn lemma_kept_sub(es: Seq<SevenEntry>, n: int)
    requires
        0 <= n <= es.len(),
    ensures
        forall|k: int| 0 <= k < kept_upto(es, n).len() ==> exists|j: int| 0 <= j < n && es[j] == #[trigger] kept_upto(es, n)[k],
        forall|c: Color| #[trigger] ring_count(kept_upto(es, n), kept_upto(es, n).len() as int, c) <= ring_count(es, n, c),
        kept_upto(es, n).len() <= n,
    decreases n,
{
    if n > 0 {
        lemma_kept_sub(es, n - 1);
        let prev = kept_upto(es, n - 1);
        let cur = kept_upto(es, n);
        if es[n - 1].2 || !contained_in_other(es, n - 1) {
            assert forall|k: int| 0 <= k < cur.len() implies exists|j: int| 0 <= j < n && es[j] == #[trigger] cur[k] by {
                if k < prev.len() {
                    assert(cur[k] == prev[k]);
                    let j = choose|j: int| 0 <= j < n - 1 && es[j] == #[trigger] prev[k];
                    assert(es[j] == cur[k]);
                } else {
                    assert(es[n - 1] == cur[k]);
                }
            }
            assert forall|c: Color| #[trigger] ring_count(cur, cur.len() as int, c) <= ring_count(es, n, c) by {
                lemma_ring_count_push(prev, es[n - 1], c);
            }
        }
    }
}

/// The squares a kept movement passes over are among all squares passed over.
proof fn lemma_path_in_paths(ks: Seq<SevenEntry>, n: int, j: int)
    requires
        0 <= j < n,
    ensures
        path_spec(ks[j]).subset_of(paths_upto(ks, n)),
    decreases n,
{
    if j < n - 1 {
        lemma_path_in_paths(ks, n - 1, j);
    }
}

impl Board {
    /// Plays a split seven for `player` (steps from `partner_idx` on are for the partner).
    fn apply_seven(&mut self, steps: &Vec<SevenAction>, partner_idx: Option<usize>, player: Color)
        requires
            old(self).wf(),
            seven_ok(old(self).pos(), steps@, player, partner_start(steps@, partner_idx)),
        ensures
            final(self).wf(),
            final(self).pos() == seven_spec(old(self).pos(), steps@, player, partner_start(steps@, partner_idx)),
            final(self).same_but_position(*old(self)),
    {
        let pidx: usize = match partner_idx {
            Some(x) => x,
            None => steps.len(),
        };
        let ghost p0 = self.pos();
        let ghost n = steps@.len() as int;
        proof {
            self.lemma_wf();
            lemma_phase1_facts(p0, steps@, player, pidx as int, n);
        }
        self.seven_phase_one(steps, pidx, player);
        let ghost p1 = self.pos();
        let entries = seven_movements(steps, pidx, player);
        let kept = kept_movements(&entries);
        proof {
            lemma_kept_sub(entries@, entries@.len() as int);
            assert forall|j: int| 0 <= j < kept@.len() implies (#[trigger] kept@[j]).0.0 < 64 && kept@[j].1.0 < 64
                && !occupied_spec(p1, kept@[j].0.0 as int) by {
                let k = choose|k: int| 0 <= k < entries@.len() && entries@[k] == #[trigger] kept@[j];
                assert(entries@[k] == kept@[j]);
            }
        }
        self.seven_capture_paths(&kept);
        let ghost p3 = self.pos();
        proof {
            self.lemma_wf();
            lemma_without_squares_wf(p1, paths_upto(kept@, kept@.len() as int));
            assert forall|j: int| 0 <= j < kept@.len() && !kept@[j].2 implies !occupied_spec(p3, (#[trigger] kept@[j]).1.0 as int) by {
                let e = kept@[j];
                if e.0 != e.1 {
                    lemma_forward_dist(e.0.0 as int, e.1.0 as int);
                    assert(path_spec(e).contains(e.1.0 as int));
                    lemma_path_in_paths(kept@, kept@.len() as int, j);
                }
            }
            assert forall|c: Color| #[trigger] placed(p3, c) + ring_count(kept@, kept@.len() as int, c) <= 4 by {
                assert(placed(p0, c) <= 4);
                assert(placed(p3, c) <= placed(p1, c));
                assert(ring_count(kept@, kept@.len() as int, c) <= ring_count(entries@, entries@.len() as int, c));
            }
        }
        proof {
            assert(pidx as int == partner_start(steps@, partner_idx));
            assert(kept@ == seven_kept(steps@, player, pidx as int));
        }
        // Finally finish step moves by setting at destination
        self.seven_place_ends(&kept);
    }
}


/// The action can be carried out for color `c` on the position without a panic.
pub open spec fn action_ok(p: Position, a: TacAction, c: Color) -> bool {
    match a {
        TacAction::Step { from, to } => from.0 < 64 && to.0 < 64 && from != to && p.balls[c.idx()].contains(from.0 as int),
        TacAction::StepHome { from, to } => from < 4 && to < 4 && bit8(p.homes[c.idx()], from as int) && (from == to
            || !bit8(p.homes[c.idx()], to as int)),
        TacAction::StepInHome { from, to } => from.0 < 64 && to < 4 && p.balls[c.idx()].contains(from.0 as int)
            && !bit8(p.homes[c.idx()], to as int),
        TacAction::Trickster { target1, target2 } => target1.0 < 64 && target2.0 < 64 && occupied_spec(p, target1.0 as int)
            && occupied_spec(p, target2.0 as int),
        TacAction::Enter => num_base_spec(p, c) != 0,
        TacAction::AngelEnter => num_base_spec(p, c) != 0,
        TacAction::Warrior { from, to } => from.0 < 64 && to.0 < 64 && (from == to || p.balls[c.idx()].contains(
            from.0 as int,
        )),
        TacAction::SevenSteps { steps, partner_idx } => seven_ok(p, steps@, c, partner_start(steps@, partner_idx)),
        _ => true,
    }
}

/// The position after the action is carried out for color `c`.
pub open spec fn action_pos(p: Position, a: TacAction, c: Color) -> Position {
    match a {
        TacAction::Step { from, to } => move_ball_spec(p, from.0 as int, to.0 as int, c),
        TacAction::StepHome { from, to } => in_goal_spec(p, from, to, c),
        TacAction::StepInHome { from, to } => to_goal_spec(p, from.0 as int, to, c),
        TacAction::Trickster { target1, target2 } => swap_spec(p, target1.0 as int, target2.0 as int),
        TacAction::Enter => enter_spec(p, c),
        TacAction::AngelEnter => enter_spec(p, c),
        TacAction::Warrior { from, to } => if from == to {
            captured(p, from.0 as int)
        } else {
            move_ball_spec(p, from.0 as int, to.0 as int, c)
        },
        TacAction::SevenSteps { steps, partner_idx } => seven_spec(p, steps@, c, partner_start(steps@, partner_idx)),
        _ => p,
    }
}

/// The discard flag after the action: set by a suspend, cleared by a discard.
pub open spec fn discard_after(a: TacAction, discard: bool) -> bool {
    match a {
        TacAction::Suspend => true,
        TacAction::Discard => false,
        _ => discard,
    }
}

/// The hands passed on to the next player: player `i` gets the hand of player `i + 1`.
pub open spec fn rotated_hands(h: Seq<Seq<Card>>) -> Seq<Seq<Card>> {
    h.subrange(1, h.len() as int).push(h[0])
}

impl Board {
    /// Everything but the position, the flags an action sets and the hands is the same.
    pub closed spec fn same_but_action(&self, other: Board) -> bool {
        &&& self.player_to_move == other.player_to_move
        &&& self.trade_flag == other.trade_flag
        &&& self.started_flag == other.started_flag
        &&& self.deck_fresh_flag == other.deck_fresh_flag
        &&& self.deck == other.deck
        &&& self.last_tacable_card == other.last_tacable_card
        &&& self.last_tacable_non_jester_card == other.last_tacable_non_jester_card
        &&& self.traded == other.traded
        &&& self.one_or_thirteen == other.one_or_thirteen
        &&& self.move_count == other.move_count
        &&& self.seed == other.seed
        &&& self.started == other.started
        &&& self.previous_balls == other.previous_balls
        &&& self.previous_homes == other.previous_homes
        &&& self.previous_fresh == other.previous_fresh
    }

    /// Carries out an action for `player`.
    #[verifier::rlimit(50)]
    pub fn apply_action(&mut self, action: &TacAction, player: Color)
        requires
            old(self).wf(),
            action_ok(old(self).pos(), *action, player),
        ensures
            final(self).wf(),
            final(self).seed_spec() == old(self).seed_spec(),
            final(self).pos() == action_pos(old(self).pos(), *action, player),
            final(self).prev_pos() == old(self).prev_pos(),
            final(self).discard_spec() == discard_after(*action, old(self).discard_spec()),
            final(self).jester_spec() == (old(self).jester_spec() || *action is Jester),
            final(self).devil_spec() == (old(self).devil_spec() || *action is Devil),
            final(self).hands_spec() == if *action is Jester {
                rotated_hands(old(self).hands_spec())
            } else {
                old(self).hands_spec()
            },
            final(self).same_but_action(*old(self)),
    {
        match action {
            TacAction::Step { from, to } => {
                self.move_ball(*from, *to, player);
            },
            TacAction::StepHome { from, to } => self.move_ball_in_goal(*from, *to, player),
            TacAction::StepInHome { from, to } => self.move_ball_to_goal(*from, *to, player),
            TacAction::Trickster { target1, target2 } => self.swap_balls(*target1, *target2),
            TacAction::Enter => {
                self.put_ball_in_play(player);
            },
            TacAction::AngelEnter => {
                self.put_ball_in_play(player);
            },
            TacAction::Suspend => self.discard_flag = true,
            TacAction::Jester => {
                self.jester_flag = true;
                let ghost hs = self.hands_spec();
                let first = self.hands.remove(0);
                self.hands.push(first);
                proof {
                    assert(self.hands_spec() =~= rotated_hands(hs));
                }
            },
            TacAction::Devil => self.devil_flag = true,
            TacAction::Discard => self.discard_flag = false,
            TacAction::SevenSteps { steps, partner_idx } => self.apply_seven(steps, *partner_idx, player),
            TacAction::Warrior { from, to } => {
                if *from == *to {
                    self.capture(*from);
                } else {
                    self.move_ball(*from, *to, player);
                }
            },
            TacAction::Trade => {},
        }
    }
}


/// A tac copies the move before it, so its action is carried out on the position
/// before that move; a tac that is discarded or that does the jester's action does not.
pub open spec fn tac_undoes(mv: TacMove) -> bool {
    mv.card == Card::Tac && !(mv.action is Discard) && !(mv.action is Jester)
}

/// Every hand is empty.
pub open spec fn hands_empty(h: Seq<Seq<Card>>) -> bool {
    forall|i: int| 0 <= i < 4 ==> #[trigger] h[i].len() == 0
}

/// Player `p` holds the last card in play: after it is played every hand is empty.
pub open spec fn last_card_out(h: Seq<Seq<Card>>, p: Color) -> bool {
    h[p.idx()].len() == 1 && forall|i: int| 0 <= i < 4 && i != p.idx() ==> #[trigger] h[i].len() == 0
}

/// The hands after player `p` plays `card` (and, for a jester, passes the hands on).
pub open spec fn hands_after_play(h: Seq<Seq<Card>>, p: Color, mv: TacMove) -> Seq<Seq<Card>> {
    let h1 = h.update(p.idx(), remove_first(h[p.idx()], mv.card));
    if mv.action is Jester {
        rotated_hands(h1)
    } else {
        h1
    }
}

impl Board {
    /// The position the action of a move is carried out on.
    pub open spec fn base_pos(&self, mv: TacMove) -> Position {
        if tac_undoes(mv) {
            self.prev_pos()
        } else {
            self.pos()
        }
    }

    /// The move can be played without a panic: the card is in the hand of the player to
    /// move, the action can be carried out, and a round is not left with a forced
    /// discard pending once every card is out.
    pub open spec fn play_ok(&self, mv: TacMove) -> bool {
        let player = self.to_move();
        &&& self.hands_spec()[player.idx()].contains(mv.card)
        &&& self.moves_made() < u32::MAX
        &&& !(mv.action is Trade) ==> {
            &&& action_ok(self.base_pos(mv), mv.action, mv.played_for)
            &&& last_card_out(self.hands_spec(), player) ==> !discard_after(
                mv.action,
                if tac_undoes(mv) {
                    false
                } else {
                    self.discard_spec()
                },
            )
        }
    }

    /// Apply a `TacMove` to the current state
    pub fn play(&mut self, mv: &TacMove)
        requires
            old(self).wf(),
            old(self).play_ok(*mv),
        ensures
            final(self).wf(),
            final(self).seed_spec() == old(self).seed_spec(),
            final(self).moves_made() == old(self).moves_made() + 1,
            !final(self).devil_spec() || mv.action is Devil,
            final(self).jester_spec() == (mv.action is Jester),
            mv.action is Trade ==> {
                let player = old(self).to_move();
                let h1 = old(self).hands_spec().update(player.idx(), remove_first(old(self).hands_spec()[player.idx()], mv.card));
                let t1 = old(self).traded_spec().update((player.idx() + 2) % 4, Some(mv.card));
                let all_traded = forall|i: int| 0 <= i < 4 ==> #[trigger] t1[i] is Some;
                &&& final(self).pos() == old(self).pos()
                &&& final(self).prev_pos() == old(self).prev_pos()
                &&& final(self).to_move() == color_of(player.idx() + 1)
                &&& all_traded ==> (forall|i: int| 0 <= i < 4 ==> #[trigger] final(self).hands_spec()[i] == h1[i].push(t1[i]->0))
                &&& all_traded ==> (forall|i: int| 0 <= i < 4 ==> #[trigger] final(self).traded_spec()[i] is None)
                &&& all_traded ==> !final(self).trade_spec()
                &&& !all_traded ==> final(self).hands_spec() == h1 && final(self).traded_spec() == t1
                    && final(self).trade_spec() == old(self).trade_spec()
                &&& final(self).discard_spec() == old(self).discard_spec()
                &&& final(self).last_cards() == old(self).last_cards()
            },
            !(mv.action is Trade) ==> {
                let player = old(self).to_move();
                let h2 = hands_after_play(old(self).hands_spec(), player, *mv);
                let dealt = last_card_out(old(self).hands_spec(), player);
                let discard0 = if tac_undoes(*mv) { false } else { old(self).discard_spec() };
                &&& final(self).pos() == action_pos(old(self).base_pos(*mv), mv.action, mv.played_for)
                &&& final(self).prev_pos() == if mv.action is Jester { old(self).prev_pos() } else { old(self).pos() }
                &&& final(self).discard_spec() == discard_after(mv.action, discard0)
                &&& final(self).traded_spec() == old(self).traded_spec()
                &&& !dealt ==> final(self).hands_spec() == h2
                &&& !dealt ==> final(self).to_move() == if mv.action is Jester { player } else { color_of(player.idx() + 1) }
                &&& !dealt ==> final(self).last_cards() == if mv.card == Card::Tac || mv.card == Card::Jester {
                    old(self).last_cards()
                } else {
                    (if mv.action is Jester { old(self).last_cards().0 } else { Some(mv.card) }, Some(mv.card))
                }
                &&& dealt ==> final(self).last_cards() == (None::<Card>, None::<Card>)
                &&& dealt ==> final(self).to_move() == color_of(old(self).started_color().idx() + 1)
                &&& dealt ==> final(self).started_color() == final(self).to_move()
                &&& dealt ==> final(self).trade_spec() && final(self).started_spec()
                &&& dealt ==> forall|i: int| 0 <= i < 4 ==> #[trigger] final(self).hands_spec()[i].len() == 5 || final(self).hands_spec()[i].len() == 6
            },
    {
        self.jester_flag = false;
        self.devil_flag = false;
        self.started_flag = false;
        self.deck_fresh_flag = false;
        let ghost s0 = *self;
        proof {
            assert(s0.pos() == old(self).pos());
            assert(s0.prev_pos() == old(self).prev_pos());
            assert(s0.hands_spec() == old(self).hands_spec());
            assert(s0.base_pos(*mv) == old(self).base_pos(*mv));
        }
        if matches!(mv.action, TacAction::Trade) {
            self.play_trade(mv.card);
        } else {
            let ghost h0 = self.hands_spec();
            proof {
                lemma_hands_after_play_empty(h0, self.to_move(), *mv);
            }
            self.play_card(mv);
            let ghost s1 = *self;
            self.end_turn();
            proof {
                assert(hands_empty(s1.hands_spec()) == last_card_out(h0, s0.to_move()));
            }
        }
        let ghost s2 = *self;
        self.move_count = self.move_count + 1;
        proof {
            assert(self.pos() == s2.pos());
            assert(self.prev_pos() == s2.prev_pos());
            assert(self.hands_spec() == s2.hands_spec());
            assert(self.traded_spec() == s2.traded_spec());
            assert(self.last_cards() == s2.last_cards());
        }
    }
}


impl Board {
    /// The trade half of `play`: the card goes to the partner's slot, the traded
    /// cards are handed out once all four are in, and the turn passes on.
    fn play_trade(&mut self, card: Card)
        requires
            old(self).wf(),
            old(self).hands_spec()[old(self).to_move().idx()].contains(card),
        ensures
            final(self).wf(),
            final(self).seed_spec() == old(self).seed_spec(),
            ({
                let player = old(self).to_move();
                let h1 = old(self).hands_spec().update(player.idx(), remove_first(old(self).hands_spec()[player.idx()], card));
                let t1 = old(self).traded_spec().update((player.idx() + 2) % 4, Some(card));
                let all_traded = forall|i: int| 0 <= i < 4 ==> #[trigger] t1[i] is Some;
                &&& final(self).pos() == old(self).pos()
                &&& final(self).prev_pos() == old(self).prev_pos()
                &&& final(self).to_move() == color_of(player.idx() + 1)
                &&& all_traded ==> (forall|i: int| 0 <= i < 4 ==> #[trigger] final(self).hands_spec()[i] == h1[i].push(t1[i]->0))
                &&& all_traded ==> (forall|i: int| 0 <= i < 4 ==> #[trigger] final(self).traded_spec()[i] is None)
                &&& all_traded ==> !final(self).trade_spec()
                &&& !all_traded ==> final(self).hands_spec() == h1 && final(self).traded_spec() == t1
                    && final(self).trade_spec() == old(self).trade_spec()
                &&& final(self).discard_spec() == old(self).discard_spec()
                &&& final(self).last_cards() == old(self).last_cards()
                &&& final(self).moves_made() == old(self).moves_made()
                &&& final(self).jester_spec() == old(self).jester_spec()
                &&& final(self).devil_spec() == old(self).devil_spec()
            }),
    {
        let player = self.player_to_move;
        let ghost h0 = self.hands_spec();
        self.trade(card, player);
        proof {
            assert(self.hands_spec() =~= h0.update(player.idx(), remove_first(h0[player.idx()], card)));
        }
        let all_traded = self.traded[0].is_some() && self.traded[1].is_some() && self.traded[2].is_some() && self.traded[3].is_some();
        if all_traded {
            self.take_traded();
        }
        self.next_player();
    }

    /// The card half of `play`: a tac goes back one move first, the card leaves the
    /// hand, the action is carried out, and the last card and previous position are
    /// remembered.
    fn play_card(&mut self, mv: &TacMove)
        requires
            old(self).wf(),
            old(self).hands_spec()[old(self).to_move().idx()].contains(mv.card),
            !(mv.action is Trade),
            action_ok(old(self).base_pos(*mv), mv.action, mv.played_for),
        ensures
            final(self).wf(),
            final(self).seed_spec() == old(self).seed_spec(),
            ({
                let player = old(self).to_move();
                let discard0 = if tac_undoes(*mv) { false } else { old(self).discard_spec() };
                &&& final(self).pos() == action_pos(old(self).base_pos(*mv), mv.action, mv.played_for)
                &&& final(self).prev_pos() == if mv.action is Jester { old(self).prev_pos() } else { old(self).pos() }
                &&& final(self).discard_spec() == discard_after(mv.action, discard0)
                &&& final(self).traded_spec() == old(self).traded_spec()
                &&& final(self).hands_spec() == hands_after_play(old(self).hands_spec(), player, *mv)
                &&& final(self).to_move() == player
                &&& final(self).jester_spec() == (old(self).jester_spec() || mv.action is Jester)
                &&& final(self).devil_spec() == (old(self).devil_spec() || mv.action is Devil)
                &&& final(self).last_cards() == if mv.card == Card::Tac || mv.card == Card::Jester {
                    old(self).last_cards()
                } else {
                    (if mv.action is Jester { old(self).last_cards().0 } else { Some(mv.card) }, Some(mv.card))
                }
                &&& final(self).moves_made() == old(self).moves_made()
                &&& final(self).started_color() == old(self).started_color()
                &&& final(self).started_spec() == old(self).started_spec()
                &&& final(self).trade_spec() == old(self).trade_spec()
            }),
    {
        let player = self.player_to_move;
        let current_balls = self.balls;
        let current_homes = self.homes;
        let current_fresh = self.fresh;
        if matches!(mv.card, Card::Tac) && !matches!(mv.action, TacAction::Discard | TacAction::Jester) {
            self.tac_undo();
        }
        let ghost before_remove = self.hands_spec();
        self.hands[player.index()].remove(mv.card);
        proof {
            assert(self.hands_spec() =~= before_remove.update(player.idx(), remove_first(before_remove[player.idx()], mv.card)));
        }
        self.apply_action(&mv.action, mv.played_for);
        if !matches!(mv.card, Card::Tac) && !matches!(mv.card, Card::Jester) {
            if !matches!(mv.action, TacAction::Jester) {
                self.last_tacable_card = Some(mv.card);
            }
            self.last_tacable_non_jester_card = Some(mv.card);
        }
        if !matches!(mv.action, TacAction::Jester) {
            self.previous_balls = current_balls;
            self.previous_homes = current_homes;
            self.previous_fresh = current_fresh;
            proof {
                assert(pos_wf(old(self).pos()));
            }
        }
    }

    /// Ends a turn: when every hand is empty a new round is dealt and the player after
    /// the one who started the last round begins; otherwise the turn passes on unless
    /// a jester lets the same player go again.
    fn end_turn(&mut self)
        requires
            old(self).wf(),
            hands_empty(old(self).hands_spec()) ==> !old(self).discard_spec(),
        ensures
            final(self).wf(),
            final(self).seed_spec() == old(self).seed_spec(),
            final(self).pos() == old(self).pos(),
            final(self).prev_pos() == old(self).prev_pos(),
            final(self).discard_spec() == old(self).discard_spec(),
            final(self).traded_spec() == old(self).traded_spec(),
            final(self).jester_spec() == old(self).jester_spec(),
            final(self).devil_spec() == old(self).devil_spec(),
            final(self).moves_made() == old(self).moves_made(),
            !hands_empty(old(self).hands_spec()) ==> final(self).hands_spec() == old(self).hands_spec(),
            !hands_empty(old(self).hands_spec()) ==> final(self).last_cards() == old(self).last_cards(),
            !hands_empty(old(self).hands_spec()) ==> final(self).to_move() == if old(self).jester_spec() {
                old(self).to_move()
            } else {
                color_of(old(self).to_move().idx() + 1)
            },
            hands_empty(old(self).hands_spec()) ==> final(self).last_cards() == (None::<Card>, None::<Card>),
            hands_empty(old(self).hands_spec()) ==> final(self).to_move() == color_of(old(self).started_color().idx() + 1),
            hands_empty(old(self).hands_spec()) ==> final(self).started_color() == final(self).to_move(),
            hands_empty(old(self).hands_spec()) ==> final(self).trade_spec() && final(self).started_spec(),
            hands_empty(old(self).hands_spec()) ==> forall|i: int| 0 <= i < 4 ==> #[trigger] final(self).hands_spec()[i].len() == 5
                || final(self).hands_spec()[i].len() == 6,
    {
        let all_empty = self.hands[0].is_empty() && self.hands[1].is_empty() && self.hands[2].is_empty()
            && self.hands[3].is_empty();
        proof {
            let h = self.hands_spec();
            assert(h[0] == self.hands@[0]@);
            assert(h[1] == self.hands@[1]@);
            assert(h[2] == self.hands@[2]@);
            assert(h[3] == self.hands@[3]@);
            if all_empty {
                assert forall|i: int| 0 <= i < 4 implies #[trigger] h[i].len() == 0 by {
                    assert(i == 0 || i == 1 || i == 2 || i == 3);
                }
            } else {
                assert(h[0].len() != 0 || h[1].len() != 0 || h[2].len() != 0 || h[3].len() != 0);
            }
            assert(all_empty == hands_empty(h));
        }
        if all_empty {
            self.deal_new();
            let ghost mid = *self;
            self.last_tacable_card = None;
            self.last_tacable_non_jester_card = None;
            self.player_to_move = self.started.next();
            self.started = self.player_to_move;
            assert(self.hands_spec() == mid.hands_spec());
        } else if !self.jester_flag {
            self.next_player();
        }
    }
}


/// Every hand is empty after a play exactly when the player held the last card.
proof fn lemma_hands_after_play_empty(h: Seq<Seq<Card>>, p: Color, mv: TacMove)
    requires
        h.len() == 4,
        h[p.idx()].contains(mv.card),
    ensures
        hands_empty(hands_after_play(h, p, mv)) <==> last_card_out(h, p),
        hands_after_play(h, p, mv).len() == 4,
{
    lemma_remove_first_len(h[p.idx()], mv.card);
    let h1 = h.update(p.idx(), remove_first(h[p.idx()], mv.card));
    let h2 = hands_after_play(h, p, mv);
    assert forall|i: int| 0 <= i < 4 implies #[trigger] h1[i].len() == if i == p.idx() {
        h[i].len() - 1
    } else {
        h[i].len() as int
    } by {}
    assert(hands_empty(h1) <==> last_card_out(h, p)) by {
        if hands_empty(h1) {
            assert(h1[p.idx()].len() == 0);
            assert forall|i: int| 0 <= i < 4 && i != p.idx() implies #[trigger] h[i].len() == 0 by {
                assert(h1[i].len() == 0);
            }
        }
        if last_card_out(h, p) {
            assert forall|i: int| 0 <= i < 4 implies #[trigger] h1[i].len() == 0 by {
                if i != p.idx() {
                    assert(h[i].len() == 0);
                }
            }
        }
    }
    if mv.action is Jester {
        assert(h2 == rotated_hands(h1));
        assert forall|i: int| 0 <= i < 4 implies #[trigger] h2[i] == h1[(i + 1) % 4] by {}
        if hands_empty(h2) {
            assert forall|i: int| 0 <= i < 4 implies #[trigger] h1[i].len() == 0 by {
                assert(h2[(i + 3) % 4] == h1[i]);
                assert(h2[(i + 3) % 4].len() == 0);
            }
        }
        if hands_empty(h1) {
            assert forall|i: int| 0 <= i < 4 implies #[trigger] h2[i].len() == 0 by {
                assert(h2[i] == h1[(i + 1) % 4]);
                assert(h1[(i + 1) % 4].len() == 0);
            }
        }
    } else {
        assert(h2 == h1);
    }
}

} // verus!
