//! What one player knows of the cards the others hold.
use crate::board::{all_balls_spec, dist_next_spec, num_base_spec, Board, Position};
use crate::card::{amount_spec, card_of, from_steps_spec, simple_steps, Card};
use crate::color::{color_of, Color};
use crate::eval::lists;
use crate::home::locked_spec;
use crate::movegen::{goal_moves_table, square_moves};
use crate::seven::play_for_spec;
use crate::square::Square;
use crate::hand::{remove_first, Hand};
use crate::tacmove::{TacAction, TacMove};
use vstd::prelude::*;

verus! {

/// What is known of how many copies of a card a player holds.
#[derive(Debug, Clone, Copy, PartialEq, Eq, Structural)]
pub enum CardKnowledgeKind {
    /// Nothing is known.
    Unknown,
    /// At most this many (only ever one: what the announcement leaves open).
    Atmost(u8),
    /// Exactly this many.
    Exact(u8),
}

/// The knowledge of an observer, as plain values: for each of the three other
/// players (the next, the partner and the previous one) and each card what is known
/// of it, which of them announced an opening card, how many of each card were seen,
/// the card traded away and the card got in the trade (until played), and whether a
/// jester was played this round.
#[verifier::ext_equal]
pub struct KnowledgeView {
    pub observer: Color,
    pub hands: Seq<CardKnowledgeKind>,
    pub has_opening: Seq<bool>,
    pub history: Seq<u8>,
    pub traded_away: Option<Card>,
    pub got_traded: Option<Card>,
    pub played_jester: bool,
}

/// The knowledge one player has of the cards of the others.
#[derive(Debug, Clone, Copy)]
pub struct Knowledge {
    observer: Color,
    hands: [CardKnowledgeKind; 54],
    has_opening: [bool; 3],
    pub history: [u8; 18],
    traded_away: Option<Card>,
    got_traded: Option<Card>,
    played_jester: bool,
}

impl View for Knowledge {
    type V = KnowledgeView;

    closed spec fn view(&self) -> KnowledgeView {
        KnowledgeView {
            observer: self.observer,
            hands: self.hands@,
            has_opening: self.has_opening@,
            history: self.history@,
            traded_away: self.traded_away,
            got_traded: self.got_traded,
            played_jester: self.played_jester,
        }
    }
}

/// Where the knowledge of the other player `idx` (0 the next, 1 the partner, 2 the
/// previous one) about `card` is kept.
pub open spec fn slot(idx: int, card: Card) -> int {
    idx * 18 + card.idx()
}

/// The knowledge is well formed: three players of eighteen cards.
pub open spec fn view_wf(k: KnowledgeView) -> bool {
    &&& k.hands.len() == 54
    &&& k.has_opening.len() == 3
    &&& k.history.len() == 18
}

/// Which of the three others `player` is for `observer`.
pub open spec fn idx_of(observer: Color, player: Color) -> int {
    observer.between_spec(player)
}

/// Fewer copies of `card` were seen than the deck holds.
pub open spec fn possible_spec(k: KnowledgeView, card: Card) -> bool {
    k.history[card.idx()] < amount_spec(card)
}

/// The player holding the card the observer traded away: the partner, or the next
/// player once a jester passed the hands on.
pub open spec fn traded_holder(k: KnowledgeView) -> Color {
    if k.played_jester {
        color_of(k.observer.idx() + 1)
    } else {
        color_of(k.observer.idx() + 2)
    }
}

/// The knowledge with the entry of `player` about `card` replaced.
pub open spec fn with_entry(k: KnowledgeView, player: Color, card: Card, v: CardKnowledgeKind) -> KnowledgeView {
    KnowledgeView { hands: k.hands.update(slot(idx_of(k.observer, player), card), v), ..k }
}

/// The knowledge with one more copy of `card` seen.
pub open spec fn seen_one(k: KnowledgeView, card: Card) -> KnowledgeView {
    KnowledgeView { history: k.history.update(card.idx(), (k.history[card.idx()] + 1) as u8), ..k }
}

/// Seeing `card` in the hand of, or played by, `player` can be recorded: the count
/// does not overflow, and what is known of `player` leaves a copy for it.
pub open spec fn card_ok(k: KnowledgeView, card: Card, player: Color) -> bool {
    if player == k.observer {
        k.history[card.idx()] < 255
    } else {
        match k.hands[slot(idx_of(k.observer, player), card)] {
            CardKnowledgeKind::Unknown => k.history[card.idx()] < 255,
            CardKnowledgeKind::Atmost(x) => x > 0 && k.history[card.idx()] < 255,
            CardKnowledgeKind::Exact(x) => x > 0,
        }
    }
}

/// The knowledge after seeing `card` with `player`: one more copy seen, unless an
/// exact count already held it; what is known of `player` loses that copy.
pub open spec fn card_seen(k: KnowledgeView, card: Card, player: Color) -> KnowledgeView {
    if player == k.observer {
        seen_one(k, card)
    } else {
        match k.hands[slot(idx_of(k.observer, player), card)] {
            CardKnowledgeKind::Unknown => seen_one(k, card),
            CardKnowledgeKind::Atmost(x) => if x == 1 {
                with_entry(seen_one(k, card), player, card, CardKnowledgeKind::Exact(0))
            } else {
                with_entry(seen_one(k, card), player, card, CardKnowledgeKind::Atmost((x - 1) as u8))
            },
            CardKnowledgeKind::Exact(x) => with_entry(k, player, card, CardKnowledgeKind::Exact((x - 1) as u8)),
        }
    }
}

/// Seeing the first `n` cards of `cards` with `player` can be recorded in turn.
pub open spec fn cards_ok(k: KnowledgeView, cards: Seq<Card>, player: Color, n: int) -> bool
    decreases n,
{
    if n <= 0 {
        true
    } else {
        cards_ok(k, cards, player, n - 1) && card_ok(cards_seen(k, cards, player, n - 1), cards[n - 1], player)
    }
}

/// The knowledge after seeing the first `n` cards of `cards` with `player`, in turn.
pub open spec fn cards_seen(k: KnowledgeView, cards: Seq<Card>, player: Color, n: int) -> KnowledgeView
    decreases n,
{
    if n <= 0 {
        k
    } else {
        card_seen(cards_seen(k, cards, player, n - 1), cards[n - 1], player)
    }
}

/// The knowledge after the cards that can no longer be anywhere are known to be in no
/// hand where nothing was known; the holder of the card traded away is spared while
/// that card is out.
pub open spec fn synced(k: KnowledgeView) -> KnowledgeView {
    KnowledgeView {
        hands: Seq::new(
            54,
            |s: int|
                {
                    let i = s / 18;
                    let card = card_of(s % 18);
                    if !possible_spec(k, card) && (k.traded_away is None || idx_of(k.observer, traded_holder(k)) != i)
                        && k.hands[s] == CardKnowledgeKind::Unknown {
                        CardKnowledgeKind::Exact(0)
                    } else {
                        k.hands[s]
                    }
                },
        ),
        ..k
    }
}

/// The knowledge after the announcement: a player with no opening card holds no one
/// and no thirteen.
pub open spec fn announced(k: KnowledgeView) -> KnowledgeView {
    KnowledgeView {
        hands: Seq::new(
            54,
            |s: int|
                {
                    let i = s / 18;
                    let c = s % 18;
                    if !k.has_opening[i] && (c == Card::One.idx() || c == Card::Thirteen.idx()) {
                        CardKnowledgeKind::Exact(0)
                    } else {
                        k.hands[s]
                    }
                },
        ),
        ..k
    }
}

/// After the announcement, each other player that announced no opening card is known
/// to hold no one and no thirteen, both opening cards; what was known of every other
/// card, and of the players that announced one, stays as it was.
pub proof fn law_announce_rules_out_both_openings(k: KnowledgeView)
    requires
        view_wf(k),
    ensures
        forall|i: int|
            0 <= i < 3 && !k.has_opening[i] ==> #[trigger] announced(k).hands[i * 18 + Card::One.idx()] == CardKnowledgeKind::Exact(0)
                && announced(k).hands[i * 18 + Card::Thirteen.idx()] == CardKnowledgeKind::Exact(0),
        forall|i: int, c: int|
            0 <= i < 3 && 0 <= c < 18 && (k.has_opening[i] || (c != Card::One.idx() && c != Card::Thirteen.idx())) ==> #[trigger] announced(
                k,
            ).hands[i * 18 + c] == k.hands[i * 18 + c],
        announced(k).hands.len() == k.hands.len(),
        announced(k).has_opening == k.has_opening,
{
    assert forall|i: int| 0 <= i < 3 && !k.has_opening[i] implies #[trigger] announced(k).hands[i * 18 + Card::One.idx()]
        == CardKnowledgeKind::Exact(0) && announced(k).hands[i * 18 + Card::Thirteen.idx()] == CardKnowledgeKind::Exact(0) by {
        assert((i * 18 + Card::One.idx()) / 18 == i && (i * 18 + Card::One.idx()) % 18 == Card::One.idx());
        assert((i * 18 + Card::Thirteen.idx()) / 18 == i && (i * 18 + Card::Thirteen.idx()) % 18 == Card::Thirteen.idx());
    }
    assert forall|i: int, c: int|
        0 <= i < 3 && 0 <= c < 18 && (k.has_opening[i] || (c != Card::One.idx() && c != Card::Thirteen.idx())) implies #[trigger] announced(
            k,
        ).hands[i * 18 + c] == k.hands[i * 18 + c] by {
        assert((i * 18 + c) / 18 == i && (i * 18 + c) % 18 == c);
    }
}

/// The knowledge after the trade: when only one enemy announced no opening card, it
/// holds at most one of each (what its partner may have passed it), where one is
/// still possible.
pub open spec fn traded(k: KnowledgeView) -> KnowledgeView {
    let one = possible_spec(k, Card::One);
    let thirteen = possible_spec(k, Card::Thirteen);
    let i = if !k.has_opening[0] {
        0int
    } else if !k.has_opening[2] {
        2int
    } else {
        3int
    };
    KnowledgeView {
        hands: Seq::new(
            54,
            |s: int|
                {
                    if s / 18 == i && ((s % 18 == Card::One.idx() && one) || (s % 18 == Card::Thirteen.idx()
                        && thirteen)) {
                        CardKnowledgeKind::Atmost(1)
                    } else {
                        k.hands[s]
                    }
                },
        ),
        ..k
    }
}

/// What is known of the first `n` cards for the other player `i`: each card with an
/// exact count or a bound, in card order.
pub open spec fn known_upto(k: KnowledgeView, i: int, n: int) -> Seq<(Card, u8, bool)>
    decreases n,
{
    if n <= 0 {
        Seq::empty()
    } else {
        let prev = known_upto(k, i, n - 1);
        match k.hands[i * 18 + n - 1] {
            CardKnowledgeKind::Exact(x) => prev.push((card_of(n - 1), x, true)),
            CardKnowledgeKind::Atmost(x) => prev.push((card_of(n - 1), x, false)),
            CardKnowledgeKind::Unknown => prev,
        }
    }
}

/// At most one entry per card.
pub proof fn lemma_known_upto_len(k: KnowledgeView, i: int, n: int)
    ensures
        known_upto(k, i, n).len() <= if n < 0 { 0 } else { n },
    decreases n,
{
    if n > 0 {
        lemma_known_upto_len(k, i, n - 1);
    }
}

/// At most one entry per card.
pub proof fn lemma_known_len(k: KnowledgeView, player: Color)
    ensures
        known_spec(k, player).len() <= 18,
{
    if player != k.observer {
        lemma_known_upto_len(k, idx_of(k.observer, player), 18);
    }
}

/// What is known of the cards of `player`: nothing of the observer's own.
pub open spec fn known_spec(k: KnowledgeView, player: Color) -> Seq<(Card, u8, bool)> {
    if player == k.observer {
        Seq::empty()
    } else {
        known_upto(k, idx_of(k.observer, player), 18)
    }
}

/// `player` holds no `card`.
pub open spec fn ruled(k: KnowledgeView, card: Card, player: Color) -> KnowledgeView {
    with_entry(k, player, card, CardKnowledgeKind::Exact(0))
}

/// What a discard that was not forced shows of a player that could not play a card
/// which needs no ball on the ring: no devil, jester or angel, no one or thirteen with
/// balls left to enter, and, with a goal ball that can still move, no seven and no one,
/// two or three that has a goal move.
pub open spec fn discard_no_play(k: KnowledgeView, p: Position, player: Color) -> KnowledgeView {
    let pf = play_for_spec(p, player);
    let k1 = if num_base_spec(p, pf) > 0 {
        ruled(ruled(k, Card::One, player), Card::Thirteen, player)
    } else {
        k
    };
    let k2 = ruled(ruled(ruled(k1, Card::Devil, player), Card::Jester, player), Card::Angel, player);
    let h = p.homes[pf.idx()];
    if h != 0 && !locked_spec(h) {
        let k3 = ruled(k2, Card::Seven, player);
        let k4 = if goal_moves_table(h, Card::One).len() > 0 {
            ruled(k3, Card::One, player)
        } else {
            k3
        };
        let k5 = if goal_moves_table(h, Card::Two).len() > 0 {
            ruled(k4, Card::Two, player)
        } else {
            k4
        };
        if goal_moves_table(h, Card::Three).len() > 0 {
            ruled(k5, Card::Three, player)
        } else {
            k5
        }
    } else {
        k2
    }
}

/// The greatest free distance ahead of a ball of `s` among the squares below `n`.
pub open spec fn max_next(p: Position, s: Set<int>, n: int) -> int
    decreases n,
{
    if n <= 0 {
        0
    } else if s.contains(n - 1) && dist_next_spec(p, n - 1) > max_next(p, s, n - 1) {
        dist_next_spec(p, n - 1)
    } else {
        max_next(p, s, n - 1)
    }
}

/// The knowledge with every plain forward card of fewer than `n` steps ruled out for
/// `player`, from one step up.
pub open spec fn ruled_steps(k: KnowledgeView, player: Color, n: int) -> KnowledgeView
    decreases n,
{
    if n <= 1 {
        k
    } else {
        let prev = ruled_steps(k, player, n - 1);
        match from_steps_spec((n - 1) as u8) {
            Some(c) => ruled(prev, c, player),
            None => prev,
        }
    }
}

/// What a discard that was not forced shows of a player with balls on the ring: a
/// plain forward card that fits before the next ball of the ball with most room is not
/// held, and neither is a four when a four had a move.
pub open spec fn discard_play(k: KnowledgeView, p: Position, card: Card, player: Color) -> KnowledgeView {
    let k1 = if simple_steps(card) is Some {
        ruled_steps(k, player, max_next(p, p.balls[player.idx()], 64))
    } else {
        k
    };
    if exists|b: int| p.balls[player.idx()].contains(b) && #[trigger] square_moves(p, b, player, Card::Four).len() > 0 {
        ruled(k1, Card::Four, player)
    } else {
        k1
    }
}

/// Ruling out forward cards keeps the knowledge well formed.
proof fn lemma_ruled_steps_wf(k: KnowledgeView, player: Color, n: int)
    requires
        view_wf(k),
        player != k.observer,
    ensures
        view_wf(ruled_steps(k, player, n)),
        ruled_steps(k, player, n).observer == k.observer,
    decreases n,
{
    if n > 1 {
        lemma_ruled_steps_wf(k, player, n - 1);
    }
}

/// Knowledge of `observer` that knows nothing.
pub open spec fn empty_view(observer: Color) -> KnowledgeView {
    KnowledgeView {
        observer,
        hands: Seq::new(54, |s: int| CardKnowledgeKind::Unknown),
        has_opening: Seq::new(3, |i: int| false),
        history: Seq::new(18, |c: int| 0u8),
        traded_away: None,
        got_traded: None,
        played_jester: false,
    }
}

/// Who of the three others announced an opening card, from the announcements of all.
pub open spec fn others_openings(observer: Color, o: Seq<bool>) -> Seq<bool> {
    seq![o[color_of(observer.idx() + 1).idx()], o[color_of(observer.idx() + 2).idx()], o[color_of(observer.idx() + 3).idx()]]
}

/// The knowledge `observer` starts with on `b`: its own hand and, at the start of a
/// round, the announcement.
pub open spec fn from_board(observer: Color, b: Board) -> KnowledgeView {
    let k0 = empty_view(observer);
    let k1 = if b.started_spec() {
        announced(KnowledgeView { has_opening: others_openings(observer, b.openings_spec()), ..k0 })
    } else {
        k0
    };
    let hand = b.hands_spec()[observer.idx()];
    synced(cards_seen(k1, hand, observer, hand.len() as int))
}

/// No card was seen more often than the deck holds it.
pub open spec fn history_ok(k: KnowledgeView) -> bool {
    forall|c: int| 0 <= c < 18 ==> #[trigger] k.history[c] <= amount_spec(card_of(c))
}

/// How many of the first `n` cards of `s` are `c`.
pub open spec fn count_of(s: Seq<Card>, c: Card, n: int) -> nat
    decreases n,
{
    if n <= 0 {
        0
    } else {
        count_of(s, c, n - 1) + if s[n - 1] == c {
            1nat
        } else {
            0nat
        }
    }
}

/// The exact knowledge of a hand: its count of `c`, or nothing known when none.
pub open spec fn exact_entry(s: Seq<Card>, c: Card) -> CardKnowledgeKind {
    if count_of(s, c, s.len() as int) == 0 {
        CardKnowledgeKind::Unknown
    } else {
        CardKnowledgeKind::Exact(count_of(s, c, s.len() as int) as u8)
    }
}

/// The knowledge with the row of the other player `row` made the exact knowledge of `hand`.
pub open spec fn with_exact_row(k: KnowledgeView, row: int, hand: Seq<Card>) -> KnowledgeView {
    KnowledgeView {
        hands: Seq::new(54, |s: int| if s / 18 == row { exact_entry(hand, card_of(s % 18)) } else { k.hands[s] }),
        ..k
    }
}

/// The start of a round: the hands are forgotten (and the cards seen, when a fresh
/// deck is dealt), the observer's new hand is seen and the announcement taken.
pub open spec fn round_start(k: KnowledgeView, b: Board) -> KnowledgeView {
    let k1 = if b.deck_fresh_spec() {
        KnowledgeView { history: Seq::new(18, |c: int| 0u8), ..k }
    } else {
        k
    };
    let k2 = KnowledgeView { hands: Seq::new(54, |s: int| CardKnowledgeKind::Unknown), ..k1 };
    let hand = b.hands_spec()[k.observer.idx()];
    let k3 = cards_seen(k2, hand, k.observer, hand.len() as int);
    KnowledgeView {
        played_jester: false,
        ..announced(KnowledgeView { has_opening: others_openings(k.observer, b.openings_spec()), ..k3 })
    }
}

/// The start of a round can be recorded.
pub open spec fn round_start_ok(k: KnowledgeView, b: Board) -> bool {
    let k1 = if b.deck_fresh_spec() {
        KnowledgeView { history: Seq::new(18, |c: int| 0u8), ..k }
    } else {
        k
    };
    let k2 = KnowledgeView { hands: Seq::new(54, |s: int| CardKnowledgeKind::Unknown), ..k1 };
    let hand = b.hands_spec()[k.observer.idx()];
    history_ok(k) && cards_ok(k2, hand, k.observer, hand.len() as int)
}

/// The last trade of the round is being made.
pub open spec fn last_trade(b: Board) -> bool {
    b.traded_spec().filter(|c: Option<Card>| c is None).len() == 1
}

/// A trade: after the last one the announcement tells more; the card the partner
/// passes is seen, and the card the observer passes is remembered (an exact count of
/// the partner's grows by it).
pub open spec fn trade_step(k: KnowledgeView, mv: TacMove, b: Board) -> KnowledgeView {
    let k1 = if last_trade(b) {
        traded(k)
    } else {
        k
    };
    let player = mv.played_by;
    let k2 = if player == color_of(k.observer.idx() + 2) {
        KnowledgeView { got_traded: Some(mv.card), ..seen_one(k1, mv.card) }
    } else if player == k.observer {
        let k3 = KnowledgeView { traded_away: Some(mv.card), ..k1 };
        match k3.hands[slot(1, mv.card)] {
            CardKnowledgeKind::Exact(x) => KnowledgeView {
                hands: k3.hands.update(slot(1, mv.card), CardKnowledgeKind::Exact((x + 1) as u8)),
                ..k3
            },
            _ => k3,
        }
    } else {
        k1
    };
    synced(k2)
}

/// A trade can be recorded without an overflow.
pub open spec fn trade_ok(k: KnowledgeView, mv: TacMove) -> bool {
    let player = mv.played_by;
    &&& player == color_of(k.observer.idx() + 2) ==> k.history[mv.card.idx()] < 255
    &&& player == k.observer ==> !(k.hands[slot(1, mv.card)] matches CardKnowledgeKind::Exact(x) && x == 255)
}

/// The card the observer traded away is played by its holder: it was already seen,
/// so only the knowledge of the holder loses a copy.
pub open spec fn played_traded(k: KnowledgeView, card: Card, player: Color) -> KnowledgeView {
    let k1 = KnowledgeView { traded_away: None, ..k };
    match k1.hands[slot(idx_of(k.observer, player), card)] {
        CardKnowledgeKind::Unknown => k1,
        CardKnowledgeKind::Atmost(x) => if x == 1 {
            with_entry(k1, player, card, CardKnowledgeKind::Exact(0))
        } else {
            with_entry(k1, player, card, CardKnowledgeKind::Atmost((x - 1) as u8))
        },
        CardKnowledgeKind::Exact(x) => with_entry(k1, player, card, CardKnowledgeKind::Exact((x - 1) as u8)),
    }
}

/// The knowledge of the holder leaves a copy of the traded card.
pub open spec fn played_traded_ok(k: KnowledgeView, card: Card, player: Color) -> bool {
    match k.hands[slot(idx_of(k.observer, player), card)] {
        CardKnowledgeKind::Unknown => true,
        CardKnowledgeKind::Atmost(x) => x > 0,
        CardKnowledgeKind::Exact(x) => x > 0,
    }
}

/// The card of a move that is not a trade is seen: as the card traded away played by
/// its holder `holder`, or as a card of another player.
pub open spec fn card_played(k: KnowledgeView, mv: TacMove, holder: Color) -> KnowledgeView {
    let player = mv.played_by;
    if k.traded_away == Some(mv.card) && holder == player {
        played_traded(k, mv.card, player)
    } else if player != k.observer {
        card_seen(k, mv.card, player)
    } else {
        k
    }
}

/// The card of a move can be seen.
pub open spec fn card_played_ok(k: KnowledgeView, mv: TacMove, holder: Color) -> bool {
    let player = mv.played_by;
    if k.traded_away == Some(mv.card) && holder == player {
        player != k.observer && played_traded_ok(k, mv.card, player)
    } else if player != k.observer {
        card_ok(k, mv.card, player)
    } else {
        true
    }
}

/// A discard that was not forced, by another player, shows what it could not play.
pub open spec fn discard_step(k: KnowledgeView, mv: TacMove, b: Board) -> KnowledgeView {
    let player = mv.played_by;
    if mv.action is Discard && !b.discard_spec() && player != k.observer {
        let k1 = discard_no_play(k, b.pos(), player);
        if !b.pos().balls[player.idx()].is_empty() {
            discard_play(k1, b.pos(), mv.card, player)
        } else {
            k1
        }
    } else {
        k
    }
}

/// A discard can be looked into: with balls on the ring and a plain forward card,
/// some other color has a ball on the ring too.
pub open spec fn discard_ok(k: KnowledgeView, mv: TacMove, b: Board) -> bool {
    let player = mv.played_by;
    mv.action is Discard && !b.discard_spec() && player != k.observer && !b.pos().balls[player.idx()].is_empty()
        && simple_steps(mv.card) is Some ==> !all_balls_spec(b.pos()).difference(b.pos().balls[player.idx()]).is_empty()
}

/// The observer played a devil and saw the hand of the next player: its cards are
/// seen and known exactly; a card traded away that is out again after a jester is
/// seen once less.
pub open spec fn devil_step(k: KnowledgeView, mv: TacMove, b: Board) -> KnowledgeView {
    if mv.action is Devil && mv.played_by == k.observer {
        let next = color_of(k.observer.idx() + 1);
        let hand = b.hands_spec()[next.idx()];
        let k1 = with_exact_row(cards_seen(k, hand, next, hand.len() as int), 0, hand);
        match k1.traded_away {
            Some(c) => if k1.played_jester {
                KnowledgeView { history: k1.history.update(c.idx(), (k1.history[c.idx()] - 1) as u8), ..k1 }
            } else {
                k1
            },
            None => k1,
        }
    } else {
        k
    }
}

/// A devil can be recorded.
pub open spec fn devil_ok(k: KnowledgeView, mv: TacMove, b: Board) -> bool {
    mv.action is Devil && mv.played_by == k.observer ==> {
        let next = color_of(k.observer.idx() + 1);
        let hand = b.hands_spec()[next.idx()];
        let k1 = cards_seen(k, hand, next, hand.len() as int);
        &&& cards_ok(k, hand, next, hand.len() as int)
        &&& hand.len() < 256
        &&& (k1.played_jester && k1.traded_away is Some) ==> k1.history[k1.traded_away->0.idx()] > 0
    }
}

/// The hand the observer gets from the next player after a jester: the next player's
/// hand, less the jester when the next player is the one who played it.
pub open spec fn jester_hand(k: KnowledgeView, mv: TacMove, b: Board) -> Seq<Card> {
    let hand = b.hands_spec()[color_of(k.observer.idx() + 1).idx()];
    if k.observer == color_of(mv.played_for.idx() + 3) {
        remove_first(hand, mv.card)
    } else {
        hand
    }
}

/// A jester: the hand the observer gets is seen, the knowledge of the hands moves on
/// with them, and the observer's own hand, which the previous player now holds, is
/// known exactly.
pub open spec fn jester_step(k: KnowledgeView, mv: TacMove, b: Board) -> KnowledgeView {
    if mv.action is Jester {
        let hand = jester_hand(k, mv, b);
        let k1 = cards_seen(k, hand, color_of(k.observer.idx() + 1), hand.len() as int);
        let rotated = KnowledgeView {
            hands: Seq::new(54, |s: int| if s < 36 { k1.hands[s + 18] } else { k1.hands[s - 36] }),
            ..k1
        };
        KnowledgeView { played_jester: true, ..with_exact_row(rotated, 2, b.hands_spec()[k.observer.idx()]) }
    } else {
        k
    }
}

/// A jester can be recorded.
pub open spec fn jester_ok(k: KnowledgeView, mv: TacMove, b: Board) -> bool {
    mv.action is Jester ==> {
        let hand = jester_hand(k, mv, b);
        &&& k.observer == color_of(mv.played_for.idx() + 3) ==> b.hands_spec()[color_of(k.observer.idx() + 1).idx()].contains(
            mv.card,
        )
        &&& cards_ok(k, hand, color_of(k.observer.idx() + 1), hand.len() as int)
        &&& b.hands_spec()[k.observer.idx()].len() < 256
    }
}

/// The knowledge after a move on `b`, before it is carried out.
pub open spec fn move_update(k: KnowledgeView, mv: TacMove, b: Board) -> KnowledgeView {
    let holder = traded_holder(k);
    let k1 = if b.started_spec() {
        round_start(k, b)
    } else {
        k
    };
    if mv.action is Trade {
        trade_step(k1, mv, b)
    } else {
        let k2 = card_played(k1, mv, holder);
        let k3 = discard_step(k2, mv, b);
        let k4 = devil_step(k3, mv, b);
        synced(jester_step(k4, mv, b))
    }
}

/// A move can be recorded: it is played by the player to move, no card was seen more
/// often than the deck holds it, and no step below overflows or finds a count that
/// leaves no copy for a card played.
pub open spec fn move_ok(k: KnowledgeView, mv: TacMove, b: Board) -> bool {
    let holder = traded_holder(k);
    let k1 = if b.started_spec() {
        round_start(k, b)
    } else {
        k
    };
    &&& mv.played_by == b.to_move()
    &&& b.started_spec() ==> round_start_ok(k, b)
    &&& history_ok(k1)
    &&& mv.action is Trade ==> trade_ok(k1, mv)
    &&& !(mv.action is Trade) ==> {
        let k2 = card_played(k1, mv, holder);
        let k3 = discard_step(k2, mv, b);
        let k4 = devil_step(k3, mv, b);
        &&& card_played_ok(k1, mv, holder)
        &&& discard_ok(k2, mv, b)
        &&& devil_ok(k3, mv, b)
        &&& jester_ok(k4, mv, b)
    }
}

impl Knowledge {
    /// Knowledge of `observer` that knows nothing yet.
    pub fn new(observer: Color) -> (r: Self)
        ensures
            view_wf(r@),
            r@.observer == observer,
            forall|s: int| 0 <= s < 54 ==> r@.hands[s] == CardKnowledgeKind::Unknown,
            forall|i: int| 0 <= i < 3 ==> !r@.has_opening[i],
            forall|c: int| 0 <= c < 18 ==> r@.history[c] == 0,
            r@.traded_away is None,
            r@.got_traded is None,
            !r@.played_jester,
    {
        Self {
            observer,
            hands: [CardKnowledgeKind::Unknown; 54],
            has_opening: [false; 3],
            history: [0; 18],
            traded_away: None,
            got_traded: None,
            played_jester: false,
        }
    }

    /// Which of the three others `player` is: 0 the next, 1 the partner, 2 the previous.
    fn idx(&self, player: Color) -> (r: usize)
        ensures
            r as int == idx_of(self.observer, player),
            r < 4,
            player != self.observer ==> r < 3,
    {
        proof {
            crate::color::lemma_color_window(self.observer, player);
        }
        self.observer.between(player)
    }

    /// Fewer copies of `card` were seen than the deck holds.
    pub fn possible(&self, card: Card) -> (r: bool)
        requires
            view_wf(self@),
        ensures
            r == possible_spec(self@, card),
    {
        self.history[card.index()] < card.amount()
    }

    /// The card traded away was played.
    pub fn traded_card_played(&self) -> (r: bool)
        ensures
            r == self@.traded_away is None,
    {
        self.traded_away.is_none()
    }

    /// The player holding the card traded away.
    pub fn has_traded_card(&self) -> (r: Color)
        ensures
            r == traded_holder(self@),
    {
        if self.played_jester {
            self.observer.partner().prev()
        } else {
            self.observer.partner()
        }
    }

    /// The card traded away, until it is played.
    pub fn traded_away(&self) -> (r: Option<Card>)
        ensures
            r == self@.traded_away,
    {
        self.traded_away
    }

    /// `player` holds no `card`.
    pub fn rule_out(&mut self, card: Card, player: Color)
        requires
            view_wf(old(self)@),
            player != old(self)@.observer,
        ensures
            final(self)@ == with_entry(old(self)@, player, card, CardKnowledgeKind::Exact(0)),
    {
        self.set_exact(card, player, 0);
    }

    /// `player` holds exactly `amount` copies of `card`.
    pub fn set_exact(&mut self, card: Card, player: Color, amount: u8)
        requires
            view_wf(old(self)@),
            player != old(self)@.observer,
        ensures
            final(self)@ == with_entry(old(self)@, player, card, CardKnowledgeKind::Exact(amount)),
    {
        let s = self.idx(player) * 18 + card.index();
        self.hands[s] = CardKnowledgeKind::Exact(amount);
        proof {
            assert(self@.hands =~= with_entry(old(self)@, player, card, CardKnowledgeKind::Exact(amount)).hands);
        }
    }

    /// Records `card`, held or played by `player`.
    pub fn update_with_card(&mut self, card: Card, player: Color)
        requires
            view_wf(old(self)@),
            card_ok(old(self)@, card, player),
        ensures
            final(self)@ == card_seen(old(self)@, card, player),
    {
        let c = card.index();
        if player == self.observer {
            self.history[c] = self.history[c] + 1;
            proof {
                assert(self@.history =~= card_seen(old(self)@, card, player).history);
            }
        } else {
            let s = self.idx(player) * 18 + c;
            match self.hands[s] {
                CardKnowledgeKind::Unknown => {
                    self.history[c] = self.history[c] + 1;
                    proof {
                        assert(self@.history =~= card_seen(old(self)@, card, player).history);
                    }
                },
                CardKnowledgeKind::Atmost(x) => {
                    self.history[c] = self.history[c] + 1;
                    if x == 1 {
                        self.set_exact(card, player, 0);
                    } else {
                        self.hands[s] = CardKnowledgeKind::Atmost(x - 1);
                    }
                    proof {
                        let t = card_seen(old(self)@, card, player);
                        assert(self@.history =~= t.history);
                        assert(self@.hands =~= t.hands);
                    }
                },
                CardKnowledgeKind::Exact(x) => {
                    self.set_exact(card, player, x - 1);
                },
            }
        }
    }

    /// Records the cards of `hand`, held by `player`, in turn.
    pub fn update_with_hand(&mut self, hand: &crate::hand::Hand, player: Color)
        requires
            view_wf(old(self)@),
            cards_ok(old(self)@, hand@, player, hand@.len() as int),
        ensures
            final(self)@ == cards_seen(old(self)@, hand@, player, hand@.len() as int),
    {
        let n = hand.amount();
        let mut i: usize = 0;
        while i < n
            invariant
                i <= n,
                n == hand@.len(),
                view_wf(self@),
                self@ == cards_seen(old(self)@, hand@, player, i as int),
                cards_ok(old(self)@, hand@, player, hand@.len() as int),
            decreases n - i,
        {
            proof {
                lemma_cards_ok_prefix(old(self)@, hand@, player, hand@.len() as int, i + 1);
                lemma_seen_wf(old(self)@, hand@, player, i as int);
            }
            self.update_with_card(hand.get(i), player);
            i = i + 1;
        }
    }

    /// Cards that can no longer be anywhere are in no hand where nothing was known,
    /// but for the holder of the card traded away while it is out.
    pub fn sync(&mut self)
        requires
            view_wf(old(self)@),
        ensures
            final(self)@ == synced(old(self)@),
    {
        let ghost k0 = self@;
        let traded_card_played = self.traded_card_played();
        let owner = self.has_traded_card();
        let traded_card_owner_idx = self.idx(owner);
        let mut c: usize = 0;
        while c < 18
            invariant
                c <= 18,
                view_wf(self@),
                self@.history == k0.history,
                self@.observer == k0.observer,
                self@.traded_away == k0.traded_away,
                self@.played_jester == k0.played_jester,
                self@.has_opening == k0.has_opening,
                self@.got_traded == k0.got_traded,
                traded_card_played == (k0.traded_away is None),
                traded_card_owner_idx as int == idx_of(k0.observer, traded_holder(k0)),
                forall|s: int| 0 <= s < 54 ==> #[trigger] self@.hands[s] == (if s % 18 < c { synced(k0).hands[s] } else { k0.hands[s] }),
            decreases 18 - c,
        {
            let card = Card::from_index(c);
            if !self.possible(card) {
                let mut idx: usize = 0;
                while idx < 3
                    invariant
                        idx <= 3,
                        c < 18,
                        card == card_of(c as int),
                        !possible_spec(k0, card),
                        view_wf(self@),
                        self@.history == k0.history,
                        self@.observer == k0.observer,
                        self@.traded_away == k0.traded_away,
                        self@.played_jester == k0.played_jester,
                        self@.has_opening == k0.has_opening,
                        self@.got_traded == k0.got_traded,
                        traded_card_played == (k0.traded_away is None),
                        traded_card_owner_idx as int == idx_of(k0.observer, traded_holder(k0)),
                        forall|s: int|
                            0 <= s < 54 ==> #[trigger] self@.hands[s] == (if s % 18 < c || (s % 18 == c && s / 18 < idx) {
                                synced(k0).hands[s]
                            } else {
                                k0.hands[s]
                            }),
                    decreases 3 - idx,
                {
                    let s = idx * 18 + c;
                    if (traded_card_played || traded_card_owner_idx != idx) && self.hands[s] == CardKnowledgeKind::Unknown {
                        self.hands[s] = CardKnowledgeKind::Exact(0);
                    }
                    idx = idx + 1;
                }
            } else {
                proof {
                    assert forall|s: int| 0 <= s < 54 && s % 18 == c implies synced(k0).hands[s] == k0.hands[s] by {
                        assert(card_of(s % 18) == card);
                    }
                }
            }
            c = c + 1;
        }
        proof {
            assert(self@.hands =~= synced(k0).hands);
            assert(self@ =~= synced(k0));
        }
    }

    /// Forgets what is known of the hands and of the cards seen.
    pub fn reset(&mut self)
        ensures
            final(self)@ == (KnowledgeView {
                hands: Seq::new(54, |s: int| CardKnowledgeKind::Unknown),
                history: Seq::new(18, |c: int| 0u8),
                ..old(self)@
            }),
    {
        self.hands = [CardKnowledgeKind::Unknown; 54];
        self.history = [0; 18];
        proof {
            assert(self@.hands =~= Seq::new(54, |s: int| CardKnowledgeKind::Unknown));
            assert(self@.history =~= Seq::new(18, |c: int| 0u8));
        }
    }

    /// What is known of the cards of `player`: each card with an exact count (`true`)
    /// or a bound (`false`), in card order; nothing for the observer itself.
    pub fn known_cards(&self, player: Color) -> (r: Vec<(Card, u8, bool)>)
        requires
            view_wf(self@),
        ensures
            r@ == known_spec(self@, player),
    {
        let mut cards: Vec<(Card, u8, bool)> = Vec::new();
        if player == self.observer {
            return cards;
        }
        let i = self.idx(player);
        let mut c: usize = 0;
        while c < 18
            invariant
                c <= 18,
                i < 3,
                i as int == idx_of(self@.observer, player),
                view_wf(self@),
                cards@ == known_upto(self@, i as int, c as int),
            decreases 18 - c,
        {
            match self.hands[i * 18 + c] {
                CardKnowledgeKind::Exact(x) => cards.push((Card::from_index(c), x, true)),
                CardKnowledgeKind::Atmost(x) => cards.push((Card::from_index(c), x, false)),
                CardKnowledgeKind::Unknown => {},
            }
            c = c + 1;
        }
        cards
    }

    /// What a discard that was not forced shows of `player`'s cards that need no ball
    /// on the ring.
    pub fn discarded_no_balls_in_play(&mut self, board: &Board, player: Color)
        requires
            view_wf(old(self)@),
            board.wf(),
            player != old(self)@.observer,
        ensures
            final(self)@ == discard_no_play(old(self)@, board.pos(), player),
    {
        proof {
            board.lemma_wf();
        }
        let pf = board.play_for(player);
        if board.num_base(pf) > 0 {
            self.rule_out(Card::One, player);
            self.rule_out(Card::Thirteen, player);
        }
        self.rule_out(Card::Devil, player);
        self.rule_out(Card::Jester, player);
        self.rule_out(Card::Angel, player);
        let home = board.home(pf);
        if home.can_move() {
            self.rule_out(Card::Seven, player);
            if Board::home_moves_for(home, player, player, Card::One).len() != 0 {
                self.rule_out(Card::One, player);
            }
            if Board::home_moves_for(home, player, player, Card::Two).len() != 0 {
                self.rule_out(Card::Two, player);
            }
            if Board::home_moves_for(home, player, player, Card::Three).len() != 0 {
                self.rule_out(Card::Three, player);
            }
        }
    }

    /// What a discard of `card` that was not forced shows of `player`, who has balls on
    /// the ring: no plain forward card that fits before the next ball, no four that had
    /// a move.
    pub fn discarded_balls_in_play(&mut self, board: &Board, card: Card, player: Color)
        requires
            view_wf(old(self)@),
            board.wf(),
            player != old(self)@.observer,
            simple_steps(card) is Some ==> !board.pos().balls[player.idx()].is_empty() && !all_balls_spec(board.pos()).difference(
                board.pos().balls[player.idx()],
            ).is_empty(),
        ensures
            final(self)@ == discard_play(old(self)@, board.pos(), card, player),
    {
        let ghost p = board.pos();
        proof {
            board.lemma_wf();
        }
        let ghost k0 = self@;
        if card.is_simple().is_some() {
            let ours = board.balls_with(player);
            let sqs = ours.squares();
            proof {
                crate::bitboard::lemma_view_bounded(ours);
            }
            let mut max_amount_between_balls: u8 = 0;
            proof {
                let first = if sqs.len() > 0 { sqs[0].0 as int } else { 64 };
                assert forall|x: int| 0 <= x < first implies !p.balls[player.idx()].contains(x) by {
                    if p.balls[player.idx()].contains(x) {
                        let i = choose|i: int| 0 <= i < sqs.len() && #[trigger] sqs[i].0 as int == x;
                        if i > 0 {
                            assert(sqs[0].0 < sqs[i].0);
                        }
                    }
                }
                lemma_max_empty(p, p.balls[player.idx()], first);
            }
            let mut k: usize = 0;
            while k < sqs.len()
                invariant
                    k <= sqs.len(),
                    board.wf(),
                    p == board.pos(),
                    lists(sqs@, p.balls[player.idx()]),
                    max_amount_between_balls as int == max_next(
                        p,
                        p.balls[player.idx()],
                        if k < sqs.len() { sqs[k as int].0 as int } else { 64 },
                    ),
                    max_amount_between_balls <= 64,
                decreases sqs.len() - k,
            {
                let d = board.distance_to_next(sqs[k]);
                proof {
                    lemma_max_step(p, p.balls[player.idx()], sqs@, k as int);
                }
                if d > max_amount_between_balls {
                    max_amount_between_balls = d;
                }
                k = k + 1;
            }
            proof {
                if sqs.len() == 0 {
                    lemma_max_empty(p, p.balls[player.idx()], 64);
                }
            }
            let mut steps: u8 = 1;
            while steps < max_amount_between_balls
                invariant
                    1 <= steps,
                    steps <= max_amount_between_balls || steps == 1,
                    max_amount_between_balls <= 64,
                    view_wf(self@),
                    self@.observer == k0.observer,
                    player != k0.observer,
                    view_wf(k0),
                    self@ == ruled_steps(k0, player, steps as int),
                decreases max_amount_between_balls - steps,
            {
                if let Some(c) = Card::from_steps(steps) {
                    self.rule_out(c, player);
                }
                steps = steps + 1;
                proof {
                    lemma_ruled_steps_wf(k0, player, steps as int);
                }
            }
            proof {
                if max_amount_between_balls <= 1 {
                    assert(ruled_steps(k0, player, max_amount_between_balls as int) == k0);
                }
            }
        }
        let ghost k1 = self@;
        let ours = board.balls_with(player);
        let fours = board.moves_for_card_squares(ours, player, player, Card::Four);
        if fours.len() != 0 {
            self.rule_out(Card::Four, player);
        }
    }

    /// Makes the row of the other player `row` the exact knowledge of `hand`.
    fn set_exact_row(&mut self, row: usize, hand: &Hand)
        requires
            view_wf(old(self)@),
            row < 3,
            hand@.len() < 256,
        ensures
            final(self)@ == with_exact_row(old(self)@, row as int, hand@),
    {
        let ghost k0 = self@;
        let mut c: usize = 0;
        while c < 18
            invariant
                c <= 18,
                row < 3,
                view_wf(self@),
                self@ == (KnowledgeView { hands: self@.hands, ..k0 }),
                forall|s: int|
                    0 <= s < 54 ==> #[trigger] self@.hands[s] == (if s / 18 == row && s % 18 < c {
                        CardKnowledgeKind::Unknown
                    } else {
                        k0.hands[s]
                    }),
            decreases 18 - c,
        {
            self.hands[row * 18 + c] = CardKnowledgeKind::Unknown;
            c = c + 1;
        }
        let n = hand.amount();
        let mut i: usize = 0;
        while i < n
            invariant
                i <= n,
                n == hand@.len(),
                n < 256,
                row < 3,
                view_wf(self@),
                self@ == (KnowledgeView { hands: self@.hands, ..k0 }),
                forall|s: int|
                    0 <= s < 54 ==> #[trigger] self@.hands[s] == (if s / 18 == row {
                        if count_of(hand@, card_of(s % 18), i as int) == 0 {
                            CardKnowledgeKind::Unknown
                        } else {
                            CardKnowledgeKind::Exact(count_of(hand@, card_of(s % 18), i as int) as u8)
                        }
                    } else {
                        k0.hands[s]
                    }),
            decreases n - i,
        {
            let card = hand.get(i);
            let s = row * 18 + card.index();
            proof {
                lemma_count_le(hand@, card, i as int);
                assert(card_of(s as int % 18) == card);
            }
            match self.hands[s] {
                CardKnowledgeKind::Unknown => {
                    self.hands[s] = CardKnowledgeKind::Exact(1);
                },
                CardKnowledgeKind::Exact(x) => {
                    self.hands[s] = CardKnowledgeKind::Exact(x + 1);
                },
                CardKnowledgeKind::Atmost(_) => {
                    proof {
                        assert(false);
                    }
                },
            }
            proof {
                assert forall|t: int| 0 <= t < 54 implies #[trigger] self@.hands[t] == (if t / 18 == row {
                    if count_of(hand@, card_of(t % 18), i + 1) == 0 {
                        CardKnowledgeKind::Unknown
                    } else {
                        CardKnowledgeKind::Exact(count_of(hand@, card_of(t % 18), i + 1) as u8)
                    }
                } else {
                    k0.hands[t]
                }) by {
                    if t / 18 == row && t != s {
                        crate::card::lemma_card_of_idx(t % 18);
                    }
                }
            }
            i = i + 1;
        }
        proof {
            assert(self@.hands =~= with_exact_row(k0, row as int, hand@).hands);
        }
    }

    /// The knowledge of the hands moves on with them: the next player's row takes the
    /// partner's, the partner's the previous player's, and the previous player's the
    /// next player's.
    fn rotate_rows(&mut self)
        requires
            view_wf(old(self)@),
        ensures
            final(self)@ == (KnowledgeView {
                hands: Seq::new(54, |s: int| if s < 36 { old(self)@.hands[s + 18] } else { old(self)@.hands[s - 36] }),
                ..old(self)@
            }),
    {
        let ghost k0 = self@;
        let mut c: usize = 0;
        while c < 18
            invariant
                c <= 18,
                view_wf(self@),
                self@ == (KnowledgeView { hands: self@.hands, ..k0 }),
                forall|s: int|
                    0 <= s < 54 ==> #[trigger] self@.hands[s] == (if s % 18 < c {
                        if s < 36 { k0.hands[s + 18] } else { k0.hands[s - 36] }
                    } else {
                        k0.hands[s]
                    }),
            decreases 18 - c,
        {
            let t = self.hands[c];
            self.hands[c] = self.hands[18 + c];
            self.hands[18 + c] = self.hands[36 + c];
            self.hands[36 + c] = t;
            c = c + 1;
        }
        proof {
            assert(self@.hands =~= Seq::new(54, |s: int| if s < 36 { k0.hands[s + 18] } else { k0.hands[s - 36] }));
        }
    }

    /// The knowledge `observer` starts with on `board`: its own hand and, at the start
    /// of a round, the announcement.
    pub fn new_from_board(observer: Color, board: &Board) -> (r: Self)
        requires
            board.wf(),
            board.hands_spec()[observer.idx()].len() < 255,
        ensures
            view_wf(r@),
            r@ == from_board(observer, *board),
    {
        proof {
            board.lemma_wf();
        }
        let mut res = Self::new(observer);
        proof {
            assert(res@ =~= empty_view(observer));
        }
        if board.just_started() {
            let openings = board.openings();
            res.has_opening = [
                openings[observer.next().index()],
                openings[observer.partner().index()],
                openings[observer.prev().index()],
            ];
            proof {
                assert(res@.has_opening =~= others_openings(observer, board.openings_spec()));
            }
            res.update_after_announce();
        }
        let hand = board.hand(observer);
        proof {
            lemma_own_cards_ok(res@, hand@, hand@.len() as int);
        }
        res.update_with_hand(hand, observer);
        proof {
            lemma_seen_wf(res@, hand@, observer, 0);
        }
        res.sync();
        res
    }

    /// Records what a move on `board`, before it is carried out, shows: the start of a
    /// round, a trade, the card played, what an unforced discard rules out, the hand a
    /// devil shows and the hands a jester passes on.
    pub fn update_with_move(&mut self, mv: &TacMove, board: &Board)
        requires
            view_wf(old(self)@),
            board.wf(),
            move_ok(old(self)@, *mv, *board),
        ensures
            view_wf(final(self)@),
            final(self)@ == move_update(old(self)@, *mv, *board),
    {
        let ghost k0 = self@;
        let has_traded_card = self.has_traded_card();
        if board.just_started() {
            self.start_round(board);
        }
        let ghost k1 = self@;
        assert(k1 == if board.started_spec() { round_start(k0, *board) } else { k0 });
        if matches!(mv.action, TacAction::Trade) {
            self.record_trade(mv, board);
            return;
        }
        self.record_card(mv, has_traded_card);
        let ghost k2 = self@;
        self.record_discard(mv, board);
        let ghost k3 = self@;
        if matches!(mv.action, TacAction::Devil) && mv.played_by == self.observer {
            self.record_devil(mv, board);
        }
        let ghost k4 = self@;
        assert(k4 == devil_step(k3, *mv, *board));
        if matches!(mv.action, TacAction::Jester) {
            self.record_jester(mv, board);
        }
        assert(self@ == jester_step(k4, *mv, *board));
        self.sync();
    }

    /// A discard that was not forced, by another player, shows what it could not play.
    fn record_discard(&mut self, mv: &TacMove, board: &Board)
        requires
            view_wf(old(self)@),
            board.wf(),
            discard_ok(old(self)@, *mv, *board),
        ensures
            view_wf(final(self)@),
            final(self)@ == discard_step(old(self)@, *mv, *board),
    {
        let ghost k2 = self@;
        if matches!(mv.action, TacAction::Discard) && !board.force_discard() && mv.played_by != self.observer {
            self.discarded_no_balls_in_play(board, mv.played_by);
            proof {
                lemma_discard_no_play_wf(k2, board.pos(), mv.played_by);
            }
            if !board.balls_with(mv.played_by).is_empty() {
                self.discarded_balls_in_play(board, mv.card, mv.played_by);
                proof {
                    lemma_discard_play_wf(discard_no_play(k2, board.pos(), mv.played_by), board.pos(), mv.card, mv.played_by);
                }
            }
        }
    }

    /// The start of a round: the hands are forgotten (and the cards seen, when a fresh
    /// deck is dealt), the observer's new hand is seen and the announcement taken.
    fn start_round(&mut self, board: &Board)
        requires
            view_wf(old(self)@),
            board.wf(),
            round_start_ok(old(self)@, *board),
        ensures
            view_wf(final(self)@),
            final(self)@ == round_start(old(self)@, *board),
    {
        let ghost k0 = self@;
        proof {
            board.lemma_wf();
        }
        if board.deck_fresh() {
            self.history = [0; 18];
        }
        self.hands = [CardKnowledgeKind::Unknown; 54];
        let ghost k2 = self@;
        proof {
            assert(self@.hands =~= Seq::new(54, |s: int| CardKnowledgeKind::Unknown));
            if board.deck_fresh_spec() {
                assert(self@.history =~= Seq::new(18, |c: int| 0u8));
            }
        }
        let observer = self.observer;
        self.update_with_hand(board.hand(observer), observer);
        let announce = board.openings();
        self.has_opening = [
            announce[observer.next().index()],
            announce[observer.partner().index()],
            announce[observer.prev().index()],
        ];
        proof {
            lemma_seen_wf(k2, board.hands_spec()[observer.idx()], observer, board.hands_spec()[observer.idx()].len() as int);
            assert(self@.has_opening =~= others_openings(observer, board.openings_spec()));
        }
        self.update_after_announce();
        self.played_jester = false;
        proof {
            assert(self@ =~= round_start(k0, *board));
        }
    }

    /// A trade: after the last one the announcement tells more; the card the partner
    /// passes is seen, the card the observer passes is remembered.
    fn record_trade(&mut self, mv: &TacMove, board: &Board)
        requires
            view_wf(old(self)@),
            trade_ok(old(self)@, *mv),
        ensures
            view_wf(final(self)@),
            final(self)@ == trade_step(old(self)@, *mv, *board),
    {
        let ghost k1 = self@;
        let player = mv.played_by;
        if board.is_trade_almost_finished() {
            self.update_after_trade();
        }
        let ghost k2 = self@;
        assert(k2 == if last_trade(*board) { traded(k1) } else { k1 });
        if player == self.observer.partner() {
            self.got_traded = Some(mv.card);
            let c = mv.card.index();
            self.history[c] = self.history[c] + 1;
            proof {
                assert(self@.history =~= seen_one(k2, mv.card).history);
                assert(self@ =~= KnowledgeView { got_traded: Some(mv.card), ..seen_one(k2, mv.card) });
            }
        } else if player == self.observer {
            self.traded_away = Some(mv.card);
            let s = 18 + mv.card.index();
            if let CardKnowledgeKind::Exact(x) = self.hands[s] {
                self.hands[s] = CardKnowledgeKind::Exact(x + 1);
            }
            proof {
                let k3 = KnowledgeView { traded_away: Some(mv.card), ..k2 };
                match k3.hands[slot(1, mv.card)] {
                    CardKnowledgeKind::Exact(x) => {
                        assert(self@.hands =~= k3.hands.update(slot(1, mv.card), CardKnowledgeKind::Exact((x + 1) as u8)));
                    },
                    _ => {},
                }
            }
        }
        self.sync();
    }

    /// The card of a move that is not a trade is seen: as the card traded away, played
    /// by `holder`, or as a card of another player.
    fn record_card(&mut self, mv: &TacMove, holder: Color)
        requires
            view_wf(old(self)@),
            card_played_ok(old(self)@, *mv, holder),
        ensures
            view_wf(final(self)@),
            final(self)@ == card_played(old(self)@, *mv, holder),
    {
        let ghost k1 = self@;
        let player = mv.played_by;
        if self.traded_away == Some(mv.card) && holder == player {
            self.traded_away = None;
            let card = mv.card;
            let s = self.idx(player) * 18 + card.index();
            match self.hands[s] {
                CardKnowledgeKind::Unknown => {},
                CardKnowledgeKind::Atmost(x) => {
                    if x == 1 {
                        self.set_exact(card, player, 0);
                    } else {
                        self.hands[s] = CardKnowledgeKind::Atmost(x - 1);
                        proof {
                            assert(self@.hands =~= played_traded(k1, card, player).hands);
                        }
                    }
                },
                CardKnowledgeKind::Exact(x) => {
                    self.set_exact(card, player, x - 1);
                },
            }
            proof {
                assert(self@ =~= played_traded(k1, card, player));
            }
        } else if player != self.observer {
            self.update_with_card(mv.card, player);
        }
    }

    /// The observer played a devil and saw the hand of the next player.
    fn record_devil(&mut self, mv: &TacMove, board: &Board)
        requires
            view_wf(old(self)@),
            board.wf(),
            mv.action is Devil,
            mv.played_by == old(self)@.observer,
            devil_ok(old(self)@, *mv, *board),
        ensures
            view_wf(final(self)@),
            final(self)@ == devil_step(old(self)@, *mv, *board),
    {
        let ghost k3 = self@;
        proof {
            board.lemma_wf();
        }
        let next = mv.played_by.next();
        let hand = board.hand(next).copy();
        self.update_with_hand(&hand, next);
        proof {
            lemma_seen_wf(k3, hand@, next, hand@.len() as int);
        }
        self.set_exact_row(0, &hand);
        if self.played_jester {
            if let Some(card) = self.traded_away {
                let c = card.index();
                self.history[c] = self.history[c] - 1;
            }
        }
        proof {
            assert(self@ =~= devil_step(k3, *mv, *board));
        }
    }

    /// A jester: the hand the observer gets is seen, the knowledge of the hands moves
    /// on with them, and the observer's own hand is known exactly.
    fn record_jester(&mut self, mv: &TacMove, board: &Board)
        requires
            view_wf(old(self)@),
            board.wf(),
            mv.action is Jester,
            jester_ok(old(self)@, *mv, *board),
        ensures
            view_wf(final(self)@),
            final(self)@ == jester_step(old(self)@, *mv, *board),
    {
        let ghost k4 = self@;
        proof {
            board.lemma_wf();
        }
        let observer = self.observer;
        let nxt = observer.next();
        let mut hand = board.hand(nxt).copy();
        if observer == mv.played_for.prev() {
            hand.remove(mv.card);
        }
        proof {
            assert(hand@ == jester_hand(k4, *mv, *board));
        }
        self.update_with_hand(&hand, nxt);
        proof {
            lemma_seen_wf(k4, hand@, nxt, hand@.len() as int);
        }
        self.rotate_rows();
        self.set_exact_row(2, board.hand(observer));
        self.played_jester = true;
        proof {
            assert(self@ =~= jester_step(k4, *mv, *board));
        }
    }

    /// A player with no opening card holds no one and no thirteen.
    pub fn update_after_announce(&mut self)
        requires
            view_wf(old(self)@),
        ensures
            final(self)@ == announced(old(self)@),
    {
        let ghost k0 = self@;
        let mut idx: usize = 0;
        while idx < 3
            invariant
                idx <= 3,
                view_wf(self@),
                self@.has_opening == k0.has_opening,
                forall|s: int| 0 <= s < 54 ==> #[trigger] self@.hands[s] == (if s / 18 < idx { announced(k0).hands[s] } else { k0.hands[s] }),
                self@ == (KnowledgeView { hands: self@.hands, ..k0 }),
            decreases 3 - idx,
        {
            if !self.has_opening[idx] {
                self.hands[idx * 18 + 0] = CardKnowledgeKind::Exact(0);
                self.hands[idx * 18 + 11] = CardKnowledgeKind::Exact(0);
            }
            idx = idx + 1;
        }
        proof {
            assert(self@.hands =~= announced(k0).hands);
            assert(self@ =~= announced(k0));
        }
    }

    /// After the trade: when only one enemy announced no opening card, it holds at most
    /// one one and one thirteen (what its partner may have passed it).
    pub fn update_after_trade(&mut self)
        requires
            view_wf(old(self)@),
        ensures
            final(self)@ == traded(old(self)@),
    {
        let ghost k0 = self@;
        let next = self.has_opening[0];
        let prev = self.has_opening[2];
        let one_possible = self.possible(Card::One);
        let thirteen_possible = self.possible(Card::Thirteen);
        if !next {
            if one_possible {
                self.hands[0] = CardKnowledgeKind::Atmost(1);
            }
            if thirteen_possible {
                self.hands[11] = CardKnowledgeKind::Atmost(1);
            }
        } else if !prev {
            if one_possible {
                self.hands[36] = CardKnowledgeKind::Atmost(1);
            }
            if thirteen_possible {
                self.hands[47] = CardKnowledgeKind::Atmost(1);
            }
        }
        proof {
            assert(self@.hands =~= traded(k0).hands);
            assert(self@ =~= traded(k0));
        }
    }
}

/// The greatest free distance over the squares before the next listed ball.
proof fn lemma_max_step(p: Position, s: Set<int>, l: Seq<Square>, k: int)
    requires
        lists(l, s),
        0 <= k < l.len(),
    ensures
        max_next(p, s, if k + 1 < l.len() { l[k + 1].0 as int } else { 64 }) == if dist_next_spec(p, l[k].0 as int) > max_next(
            p,
            s,
            l[k].0 as int,
        ) {
            dist_next_spec(p, l[k].0 as int)
        } else {
            max_next(p, s, l[k].0 as int)
        },
{
    let cur = l[k].0 as int;
    let next = if k + 1 < l.len() { l[k + 1].0 as int } else { 64 };
    assert(s.contains(cur));
    assert forall|x: int| cur + 1 <= x < next implies !s.contains(x) by {
        if s.contains(x) {
            let i = choose|i: int| 0 <= i < l.len() && #[trigger] l[i].0 as int == x;
            if i <= k {
                if i < k {
                    assert(l[i].0 < l[k].0);
                }
            } else if i > k + 1 {
                assert(l[k + 1].0 < l[i].0);
            }
        }
    }
    if k + 1 < l.len() {
        assert(l[k].0 < l[k + 1].0);
    }
    lemma_max_gap(p, s, cur + 1, next);
}

/// Squares without a member of `s` do not change the greatest free distance.
proof fn lemma_max_gap(p: Position, s: Set<int>, a: int, b: int)
    requires
        0 <= a <= b,
        forall|x: int| a <= x < b ==> !s.contains(x),
    ensures
        max_next(p, s, b) == max_next(p, s, a),
    decreases b - a,
{
    if a < b {
        lemma_max_gap(p, s, a, b - 1);
    }
}

/// With no member of `s` below `n` the greatest free distance is 0.
proof fn lemma_max_empty(p: Position, s: Set<int>, n: int)
    requires
        forall|x: int| 0 <= x < n ==> !s.contains(x),
    ensures
        max_next(p, s, n) == 0,
    decreases n,
{
    if n > 0 {
        lemma_max_empty(p, s, n - 1);
    }
}

/// There are no more copies of a card among the first `n` cards than cards.
proof fn lemma_count_le(s: Seq<Card>, c: Card, n: int)
    requires
        0 <= n,
    ensures
        count_of(s, c, n) <= n,
    decreases n,
{
    if n > 0 {
        lemma_count_le(s, c, n - 1);
    }
}

/// The observer seeing its own cards only counts them.
proof fn lemma_own_cards_ok(k: KnowledgeView, cards: Seq<Card>, n: int)
    requires
        view_wf(k),
        0 <= n <= cards.len(),
        cards.len() < 255,
        forall|c: int| 0 <= c < 18 ==> #[trigger] k.history[c] == 0,
    ensures
        cards_ok(k, cards, k.observer, n),
        view_wf(cards_seen(k, cards, k.observer, n)),
        forall|c: int| 0 <= c < 18 ==> #[trigger] cards_seen(k, cards, k.observer, n).history[c] <= n,
        cards_seen(k, cards, k.observer, n).observer == k.observer,
    decreases n,
{
    if n > 0 {
        lemma_own_cards_ok(k, cards, n - 1);
    }
}

/// What a discard shows keeps the knowledge well formed.
proof fn lemma_discard_no_play_wf(k: KnowledgeView, p: Position, player: Color)
    requires
        view_wf(k),
        player != k.observer,
    ensures
        view_wf(discard_no_play(k, p, player)),
        discard_no_play(k, p, player).observer == k.observer,
{
}

/// What a discard with balls on the ring shows keeps the knowledge well formed.
proof fn lemma_discard_play_wf(k: KnowledgeView, p: Position, card: Card, player: Color)
    requires
        view_wf(k),
        player != k.observer,
    ensures
        view_wf(discard_play(k, p, card, player)),
        discard_play(k, p, card, player).observer == k.observer,
{
    lemma_ruled_steps_wf(k, player, max_next(p, p.balls[player.idx()], 64));
}

/// Seeing cards keeps the knowledge well formed.
proof fn lemma_seen_wf(k: KnowledgeView, cards: Seq<Card>, player: Color, n: int)
    requires
        view_wf(k),
    ensures
        view_wf(cards_seen(k, cards, player, n)),
        cards_seen(k, cards, player, n).observer == k.observer,
    decreases n,
{
    if n > 0 {
        lemma_seen_wf(k, cards, player, n - 1);
    }
}

/// Cards that can be recorded in turn can be on every prefix too.
proof fn lemma_cards_ok_prefix(k: KnowledgeView, cards: Seq<Card>, player: Color, n: int, m: int)
    requires
        0 <= m <= n,
        cards_ok(k, cards, player, n),
    ensures
        cards_ok(k, cards, player, m),
    decreases n - m,
{
    if m < n {
        lemma_cards_ok_prefix(k, cards, player, n - 1, m);
    }
}

} // verus!
