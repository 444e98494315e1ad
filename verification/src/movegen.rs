//! Move generation: the moves each card allows on a board.
use crate::board::{
    action_ok, all_balls_spec, color_on_spec, dist_next_spec, last_card_out, last_played_spec, lemma_color_on, num_base_spec, occupied_spec, path_clear, pos_wf, Board,
    Position,
};
use crate::bitboard::BitBoard;
use crate::bits::bit8;
use crate::card::{simple_steps, Card};
use crate::color::{color_of, Color};
use crate::home::{first_set_from, lemma_first_set_props, locked_spec, Home};
use crate::square::{dist_home_spec, forward_dist, Square};
use crate::seven::{
    all_seven_ok, budget_offered, enter_first, lemma_seven_offers_mono, first_entry_offered, seven_budget_ok, goal_entry_ok, lemma_bits_of, lemma_offered_mono, lemma_splits_offered_mono, lists,
    moves_extend, offers, play_for_spec, ring_splits_offered, seven_move_ok, splits, steps_of,
};
use crate::tacmove::{same_action, SevenAction, TacAction, TacMove};
use vstd::prelude::*;

verus! {

/// The goal moves of a one, two or three for the goal word `h`: the ball that can
/// move that far without jumping over another.
pub open spec fn goal_moves_table(h: u8, card: Card) -> Seq<(u8, u8)> {
    if card == Card::One {
        if h == 1 || h == 9 || h == 13 {
            seq![(0u8, 1u8)]
        } else if h == 2 || h == 10 || h == 3 || h == 11 {
            seq![(1u8, 2u8)]
        } else if h == 4 || h == 6 || h == 7 {
            seq![(2u8, 3u8)]
        } else if h == 5 {
            seq![(0u8, 1u8), (2u8, 3u8)]
        } else {
            Seq::empty()
        }
    } else if card == Card::Two {
        if h == 1 || h == 9 {
            seq![(0u8, 2u8)]
        } else if h == 2 || h == 3 {
            seq![(1u8, 3u8)]
        } else {
            Seq::empty()
        }
    } else if card == Card::Three && h == 1 {
        seq![(0u8, 3u8)]
    } else {
        Seq::empty()
    }
}

/// The ball on goal square `f` of the goal word `h` can move `n` squares deeper: the
/// `n` squares after it are free and inside the goal.
pub open spec fn goal_step_free(h: u8, f: int, n: int) -> bool {
    &&& 0 <= f
    &&& f + n < 4
    &&& bit8(h, f)
    &&& forall|k: int| f < k <= f + n ==> !bit8(h, k)
}

/// The goal moves of a one, two or three are exactly the steps of a ball in the goal
/// by the card's count onto free squares inside the goal, jumping over no ball: every
/// such step is listed, each listed move is such a step, and a goal with such a step
/// is not locked (so its goal moves are offered).
pub proof fn law_goal_moves_exact(h: u8, card: Card)
    requires
        h < 16,
        card == Card::One || card == Card::Two || card == Card::Three,
    ensures
        forall|f: int|
            goal_step_free(h, f, simple_steps(card)->0 as int) ==> #[trigger] goal_moves_table(h, card).contains(
                (f as u8, (f + simple_steps(card)->0) as u8),
            ),
        forall|i: int|
            0 <= i < goal_moves_table(h, card).len() ==> (#[trigger] goal_moves_table(h, card)[i]).1 == goal_moves_table(h, card)[i].0
                + simple_steps(card)->0 && goal_step_free(h, goal_moves_table(h, card)[i].0 as int, simple_steps(card)->0 as int),
        forall|f: int| goal_step_free(h, f, simple_steps(card)->0 as int) ==> !#[trigger] locked_spec(h),
{
    lemma_bits_of(h);
    let n = simple_steps(card)->0 as int;
    let t = goal_moves_table(h, card);
    assert forall|f: int| goal_step_free(h, f, n) implies #[trigger] t.contains((f as u8, (f + n) as u8)) && !locked_spec(h) by {
        assert(!bit8(h, f + 1));
        if n >= 2 {
            assert(!bit8(h, f + 2));
        }
        if n >= 3 {
            assert(!bit8(h, f + 3));
        }
        assert(f == 0 || f == 1 || f == 2);
        if f == 0 {
            assert(t[0] == (0u8, n as u8));
            if h == 5 && n == 1 {
                assert(t[0] == (0u8, 1u8));
            }
        } else if f == 1 {
            assert(t[0] == (1u8, (1 + n) as u8));
        } else {
            if h == 5 {
                assert(t[1] == (2u8, 3u8));
            } else {
                assert(t[0] == (2u8, 3u8));
            }
        }
    }
    assert forall|i: int| 0 <= i < t.len() implies (#[trigger] t[i]).1 == t[i].0 + n && goal_step_free(h, t[i].0 as int, n) by {
        let f = t[i].0 as int;
        assert forall|k: int| f < k <= f + n implies !bit8(h, k) by {
            assert(k == f + 1 || k == f + 2 || k == f + 3);
        }
    }
}

/// A ball on `start` can move forward to `goal` without jumping over another ball.
pub open spec fn can_move_spec(p: Position, start: int, goal: int) -> bool {
    start != goal && path_clear(p, start, goal)
}

/// The goal square reached from `start` with exactly `amount` steps, if the goal has
/// room for it before its first ball.
pub open spec fn in_home_target(p: Position, start: int, amount: int, c: Color) -> Option<u8> {
    let min_needed = dist_home_spec(start, c) + 1;
    let free = first_set_from(p.homes[c.idx()], 0);
    if min_needed <= amount < min_needed + free {
        Some((amount - min_needed) as u8)
    } else {
        None
    }
}

/// The move of `card` with `action` for color `c`, played by `c`.
pub open spec fn mv(card: Card, action: TacAction, c: Color) -> TacMove {
    TacMove { card, action, played_for: c, played_by: c }
}

/// Moves of a card that simply steps forward: along the ring, and into the goal when
/// the ball passes its entry square.
pub open spec fn simple_moves(p: Position, start: int, c: Color, card: Card) -> Seq<TacMove> {
    match simple_steps(card) {
        None => Seq::empty(),
        Some(n) => {
            let to = (start + n) % 64;
            let step = if can_move_spec(p, start, to) {
                seq![mv(card, TacAction::Step { from: Square(start as u8), to: Square(to as u8) }, c)]
            } else {
                Seq::empty()
            };
            let into_goal = if dist_home_spec(start, c) < n && can_move_spec(p, start, (c.home_sq() + 1) % 64) {
                match in_home_target(p, start, n as int, c) {
                    Some(g) => seq![mv(card, TacAction::StepInHome { from: Square(start as u8), to: g }, c)],
                    None => Seq::empty(),
                }
            } else {
                Seq::empty()
            };
            step + into_goal
        },
    }
}

/// No ball on the four squares behind `start`.
pub open spec fn free_behind(p: Position, start: int) -> bool {
    forall|i: int| 1 <= i < 5 ==> !occupied_spec(p, #[trigger] ((start + 64 - i) % 64))
}

/// No ball on the `n` squares from the entry square of `c` on.
pub open spec fn free_from_entry(p: Position, c: Color, n: int) -> bool {
    forall|i: int| 0 <= i < n ==> !occupied_spec(p, #[trigger] ((c.home_sq() + i) % 64))
}

/// Moves of a four, which goes backwards: four squares back along the ring, and
/// backwards into the goal for a ball just past its entry square.
pub open spec fn four_moves(p: Position, start: int, c: Color) -> Seq<TacMove> {
    let back = if free_behind(p, start) {
        seq![mv(Card::Four, TacAction::Step { from: Square(start as u8), to: Square(((start + 60) % 64) as u8) }, c)]
    } else {
        Seq::empty()
    };
    let min_rev_dist = 64 - dist_home_spec(start, c) + 1;
    let free = first_set_from(p.homes[c.idx()], 0);
    let into_goal = if min_rev_dist == 65 && free == 4 && !p.fresh[c.idx()] {
        seq![mv(Card::Four, TacAction::StepInHome { from: Square(start as u8), to: 4 }, c)]
    } else if free > 0 && min_rev_dist + free > 4 && 2 <= min_rev_dist <= 4 && free_from_entry(
        p,
        c,
        min_rev_dist - 1,
    ) {
        seq![mv(Card::Four, TacAction::StepInHome { from: Square(start as u8), to: (4 - min_rev_dist) as u8 }, c)]
    } else {
        Seq::empty()
    };
    back + into_goal
}

/// Where a warrior on `start` lands: on the next ball ahead, or back on `start` when
/// it is the only ball on the ring.
pub open spec fn warrior_target_spec(p: Position, start: int) -> int {
    (start + dist_next_spec(p, start)) % 64
}

/// All moves of `card` for the ball of color `c` on `start`.
pub open spec fn square_moves(p: Position, start: int, c: Color, card: Card) -> Seq<TacMove> {
    simple_moves(p, start, c, card) + match card {
        Card::Four => four_moves(p, start, c),
        Card::Warrior => seq![
            mv(Card::Warrior, TacAction::Step { from: Square(start as u8), to: Square(warrior_target_spec(p, start) as u8) }, c)
        ],
        _ => Seq::empty(),
    }
}

/// An action the generator can name that no board carries out: the backward four from
/// the entry square names goal square 4, past the last one, and a warrior alone on the
/// ring steps onto its own square.
pub open spec fn degenerate(a: TacAction) -> bool {
    ||| a matches TacAction::StepInHome { to, .. } && to == 4
    ||| a matches TacAction::Step { from, to } && from == to
}


/// The trickster action swapping the balls on `a` and `b`.
pub open spec fn swap_action(a: int, b: int) -> TacAction {
    TacAction::Trickster { target1: Square(a as u8), target2: Square(b as u8) }
}

/// Some move of `ms` swaps the balls on `a` and `b`.
pub open spec fn has_swap(ms: Seq<TacMove>, a: int, b: int) -> bool {
    exists|i: int| 0 <= i < ms.len() && #[trigger] ms[i].action == swap_action(a, b)
}

/// The balls on `a` and `b` are both of color `c`, and one of them stands on the
/// entry square of `c` exactly when `at_entry`.
pub open spec fn same_color_kind(p: Position, a: int, b: int, c: Color, at_entry: bool) -> bool {
    &&& color_on_spec(p, a) == Some(c)
    &&& color_on_spec(p, b) == Some(c)
    &&& (a == c.home_sq() || b == c.home_sq()) == at_entry
}

/// The move is a swap of two balls of color `c` of the kind `at_entry`.
pub open spec fn is_same_swap(p: Position, m: TacMove, c: Color, at_entry: bool) -> bool {
    m.action matches TacAction::Trickster { target1, target2 } && same_color_kind(
        p,
        target1.0 as int,
        target2.0 as int,
        c,
        at_entry,
    )
}

/// Some move of `ms` swaps two balls of color `c` of the kind `at_entry`.
pub open spec fn has_same_swap(p: Position, ms: Seq<TacMove>, c: Color, at_entry: bool) -> bool {
    exists|i: int| 0 <= i < ms.len() && is_same_swap(p, #[trigger] ms[i], c, at_entry)
}

/// `ms` swaps every two balls on the ring of different colors, and for each color and
/// each kind (with or without a ball on its entry square), two balls of that color.
pub open spec fn trickster_offered(p: Position, ms: Seq<TacMove>) -> bool {
    &&& forall|a: int, b: int|
        a < b && all_balls_spec(p).contains(a) && all_balls_spec(p).contains(b) && color_on_spec(p, a) != color_on_spec(p, b)
            ==> #[trigger] has_swap(ms, a, b)
    &&& forall|a: int, b: int, c: Color, e: bool| a < b && #[trigger] same_color_kind(p, a, b, c, e) ==> has_same_swap(p, ms, c, e)
}

/// Some move of `ms` has the action `a`.
pub open spec fn has_action(ms: Seq<TacMove>, a: TacAction) -> bool {
    exists|j: int| 0 <= j < ms.len() && #[trigger] ms[j].action == a
}

/// What `trickster_offered` asks of some moves, moves holding each of their actions
/// ask too.
proof fn lemma_trickster_offered_grow(p: Position, ms: Seq<TacMove>, more: Seq<TacMove>)
    requires
        trickster_offered(p, ms),
        forall|i: int| 0 <= i < ms.len() ==> #[trigger] has_action(more, ms[i].action),
    ensures
        trickster_offered(p, more),
{
    assert forall|a: int, b: int|
        a < b && all_balls_spec(p).contains(a) && all_balls_spec(p).contains(b) && color_on_spec(p, a) != color_on_spec(p, b)
            implies #[trigger] has_swap(more, a, b) by {
        assert(has_swap(ms, a, b));
        let i = choose|i: int| 0 <= i < ms.len() && #[trigger] ms[i].action == swap_action(a, b);
        assert(has_action(more, ms[i].action));
        let j = choose|j: int| 0 <= j < more.len() && #[trigger] more[j].action == ms[i].action;
        assert(more[j].action == swap_action(a, b));
    }
    assert forall|a: int, b: int, c: Color, e: bool| a < b && #[trigger] same_color_kind(p, a, b, c, e) implies has_same_swap(p, more, c, e) by {
        assert(has_same_swap(p, ms, c, e));
        let i = choose|i: int| 0 <= i < ms.len() && is_same_swap(p, #[trigger] ms[i], c, e);
        assert(has_action(more, ms[i].action));
        let j = choose|j: int| 0 <= j < more.len() && #[trigger] more[j].action == ms[i].action;
        assert(is_same_swap(p, more[j], c, e));
    }
}

/// What `trickster_offered` asks of some moves, a longer list starting with them asks too.
proof fn lemma_trickster_prefix(p: Position, ms: Seq<TacMove>, more: Seq<TacMove>)
    requires
        trickster_offered(p, ms),
        ms.len() <= more.len(),
        forall|i: int| 0 <= i < ms.len() ==> #[trigger] more[i] == ms[i],
    ensures
        trickster_offered(p, more),
{
    assert forall|i: int| 0 <= i < ms.len() implies #[trigger] has_action(more, ms[i].action) by {
        assert(more[i] == ms[i]);
        assert(more[i].action == ms[i].action);
    }
    lemma_trickster_offered_grow(p, ms, more);
}

/// A tac has no moves of its own on the ring.
proof fn lemma_ring_seq_tac(p: Position, c: Color, label: Card, player: Color, bl: Seq<Square>, k: int)
    ensures
        ring_seq(p, c, Card::Tac, label, player, bl, k) == Seq::<TacMove>::empty(),
    decreases k,
{
    if k > 0 {
        lemma_ring_seq_tac(p, c, label, player, bl, k - 1);
        assert(square_moves(p, bl[k - 1].0 as int, c, Card::Tac) =~= Seq::<TacMove>::empty());
        assert(relabel_all(square_moves(p, bl[k - 1].0 as int, c, Card::Tac), label, player) =~= Seq::<TacMove>::empty());
        assert(ring_seq(p, c, Card::Tac, label, player, bl, k) =~= Seq::<TacMove>::empty());
    }
}

/// The move swaps two balls, on `t1 < t2`, for `c`.
pub open spec fn swap_move_ok(p: Position, m: TacMove, c: Color) -> bool {
    &&& m.card == Card::Trickster
    &&& m.played_for == c
    &&& m.played_by == c
    &&& m.action matches TacAction::Trickster { target1, target2 } && target1.0 < target2.0 && all_balls_spec(
        p,
    ).contains(target1.0 as int) && all_balls_spec(p).contains(target2.0 as int)
}

/// The swap `m` comes before the swap `n`: by first target, then by second.
pub open spec fn swap_before(m: TacMove, n: TacMove) -> bool {
    match (m.action, n.action) {
        (
            TacAction::Trickster { target1: a1, target2: a2 },
            TacAction::Trickster { target1: b1, target2: b2 },
        ) => a1.0 < b1.0 || (a1.0 == b1.0 && a2.0 < b2.0),
        _ => false,
    }
}

/// An action that `player` may be offered with `card` on board `b`, for
/// `played_for`: it can be carried out on the position it applies to (the one before
/// the last move for a tac), and a suspend is only offered when the player after the
/// one it is played for still holds cards.
pub open spec fn offered_action(b: Board, a: TacAction, played_for: Color, card: Card, player: Color) -> bool {
    &&& degenerate(a) || action_ok(
        if card == Card::Tac {
            b.prev_pos()
        } else {
            b.pos()
        },
        a,
        played_for,
    )
    &&& !(a is Trade)
    &&& !(a is Discard)
    &&& a is Jester ==> card == Card::Jester
    &&& a is Suspend ==> (played_for == player || played_for == color_of(player.idx() + 2)) && b.hands_spec()[(
    played_for.idx() + 1) % 4].len() > 0
}

/// A move of `card` that `player` may be offered on board `b`.
pub open spec fn card_move_ok(b: Board, m: TacMove, card: Card, player: Color) -> bool {
    &&& m.card == card
    &&& m.played_by == player
    &&& offered_action(b, m.action, m.played_for, card, player)
}

/// Every move of `ms` is one of `card` that `player` may be offered on `b`.
pub open spec fn all_card_moves_ok(b: Board, ms: Seq<TacMove>, card: Card, player: Color) -> bool {
    forall|i: int| 0 <= i < ms.len() ==> card_move_ok(b, #[trigger] ms[i], card, player)
}

/// Move `m`, as a move of `card` played by `player`.
pub open spec fn relabel(m: TacMove, card: Card, player: Color) -> TacMove {
    TacMove { card, played_by: player, ..m }
}

/// The moves `ms`, each as a move of card `label` played by `player`.
pub open spec fn relabel_all(ms: Seq<TacMove>, label: Card, player: Color) -> Seq<TacMove> {
    ms.map_values(|m: TacMove| relabel(m, label, player))
}

/// The moves of `card` for the balls of `c` on the first `k` squares of `bl`, ball by
/// ball, each as a move of card `label` played by `player`.
pub open spec fn ring_seq(p: Position, c: Color, card: Card, label: Card, player: Color, bl: Seq<Square>, k: int) -> Seq<TacMove>
    decreases k,
{
    if k <= 0 {
        Seq::empty()
    } else {
        ring_seq(p, c, card, label, player, bl, k - 1) + relabel_all(square_moves(p, bl[k - 1].0 as int, c, card), label, player)
    }
}

/// Moves of a ball added by `append_as` are the moves themselves, relabelled.
proof fn lemma_append_relabel(now: Seq<TacMove>, m0: Seq<TacMove>, sm: Seq<TacMove>, card: Card, player: Color)
    requires
        now.len() == m0.len() + sm.len(),
        forall|i: int| 0 <= i < m0.len() ==> now[i] == m0[i],
        forall|j: int|
            0 <= j < sm.len() ==> {
                let m = #[trigger] now[m0.len() + j];
                &&& m.card == card
                &&& m.played_for == sm[j].played_for
                &&& m.played_by == player
                &&& same_action(m.action, sm[j].action)
            },
        forall|j: int| 0 <= j < sm.len() ==> !((#[trigger] sm[j]).action is SevenSteps),
    ensures
        now == m0 + relabel_all(sm, card, player),
{
    assert forall|t: int| 0 <= t < sm.len() implies #[trigger] now[m0.len() + t] == relabel_all(sm, card, player)[t] by {
        assert(!(sm[t].action is SevenSteps));
    }
    let r = relabel_all(sm, card, player);
    assert forall|i: int| 0 <= i < now.len() implies now[i] == (m0 + r)[i] by {
        if i >= m0.len() {
            let t = i - m0.len();
            assert(now[m0.len() + t] == r[t]);
        }
    }
    assert(now =~= m0 + r);
}

/// `ms` holds every move that `moves_for_card` promises for `card`: its special
/// moves, its goal moves, its moves on the ring and, for a seven, every way to share the
/// steps between the balls on the ring.
pub open spec fn card_offers(b: Board, card: Card, player: Color, ms: Seq<TacMove>) -> bool {
    let p = b.pos();
    let pf = play_for_spec(p, player);
    &&& card != Card::Seven && card != Card::Tac ==> forall|i: int|
        0 <= i < special_seq(b, card, player).len() ==> ms.contains(#[trigger] special_seq(b, card, player)[i])
    &&& !locked_spec(p.homes[pf.idx()]) ==> forall|i: int|
        0 <= i < goal_seq(p.homes[pf.idx()], card, pf, player).len() ==> ms.contains(
            #[trigger] goal_seq(p.homes[pf.idx()], card, pf, player)[i],
        )
    &&& has_ring_moves(p, pf, card, card, player, ms)
    &&& card == Card::Seven && !p.balls[pf.idx()].is_empty() ==> ring_splits_offered(ms, p.balls[pf.idx()])
}

/// What `card_offers` asks of some moves, a list holding all of them asks too.
proof fn lemma_card_offers_grow(b: Board, card: Card, player: Color, ms: Seq<TacMove>, more: Seq<TacMove>)
    requires
        card_offers(b, card, player, ms),
        forall|x: TacMove| ms.contains(x) ==> more.contains(x),
    ensures
        card_offers(b, card, player, more),
{
    let p = b.pos();
    let pf = play_for_spec(p, player);
    if card == Card::Seven && !p.balls[pf.idx()].is_empty() {
        let balls = p.balls[pf.idx()];
        let e = Seq::<SevenAction>::empty();
        let bl = choose|bl: Seq<Square>|
            lists(bl, balls) && forall|k: int| 0 <= k < splits(e, bl, 7).len() ==> offers(ms, #[trigger] splits(e, bl, 7)[k]);
        assert forall|k: int| 0 <= k < splits(e, bl, 7).len() implies offers(more, #[trigger] splits(e, bl, 7)[k]) by {
            let x = choose|x: int| 0 <= x < ms.len() && steps_of(#[trigger] ms[x]) == splits(e, bl, 7)[k];
            assert(ms.contains(ms[x]));
            let y = choose|y: int| 0 <= y < more.len() && more[y] == ms[x];
            assert(steps_of(more[y]) == splits(e, bl, 7)[k]);
        }
        assert(ring_splits_offered(more, balls));
    }
}

/// The cards whose moves `moves_for_card` gives exactly, on position `p` for `player`:
/// all but the seven, the tac, the trickster, and an angel when the next player has
/// no ball to bring in.
pub open spec fn exact_kind(p: Position, card: Card, player: Color) -> bool {
    &&& card != Card::Seven
    &&& card != Card::Tac
    &&& card != Card::Trickster
    &&& !(card == Card::Angel && num_base_spec(p, play_for_spec(p, color_of(player.idx() + 1))) == 0)
}

/// The moves of `card` for `player` on `b`, in the order they are offered: the
/// special moves, the goal moves (none when the goal is locked), then the ring moves
/// of the balls on `bl`, ball by ball.
pub open spec fn card_seq(b: Board, card: Card, player: Color, bl: Seq<Square>) -> Seq<TacMove> {
    let p = b.pos();
    let pf = play_for_spec(p, player);
    special_seq(b, card, player) + (if locked_spec(p.homes[pf.idx()]) {
        Seq::<TacMove>::empty()
    } else {
        goal_seq(p.homes[pf.idx()], card, pf, player)
    }) + ring_seq(p, pf, card, card, player, bl, bl.len() as int)
}

/// No move of `ring_seq` is a split seven.
proof fn lemma_ring_seq_shape(p: Position, c: Color, card: Card, label: Card, player: Color, bl: Seq<Square>, k: int)
    ensures
        forall|i: int| 0 <= i < ring_seq(p, c, card, label, player, bl, k).len() ==> !((#[trigger] ring_seq(p, c, card, label, player, bl, k)[i]).action is SevenSteps),
    decreases k,
{
    if k > 0 {
        lemma_ring_seq_shape(p, c, card, label, player, bl, k - 1);
        lemma_square_moves_shape(p, bl[k - 1].0 as int, c, card);
        let a = ring_seq(p, c, card, label, player, bl, k - 1);
        let sm = square_moves(p, bl[k - 1].0 as int, c, card);
        let r = relabel_all(sm, label, player);
        assert forall|i: int| 0 <= i < (a + r).len() implies !((#[trigger] (a + r)[i]).action is SevenSteps) by {
            if i >= a.len() {
                assert(sm[i - a.len()].action is Step || sm[i - a.len()].action is StepInHome);
            }
        }
    }
}

/// No move of `card_seq` is a split seven.
proof fn lemma_card_seq_shape(b: Board, card: Card, player: Color, bl: Seq<Square>)
    requires
        card != Card::Seven,
    ensures
        forall|i: int| 0 <= i < card_seq(b, card, player, bl).len() ==> !((#[trigger] card_seq(b, card, player, bl)[i]).action is SevenSteps),
{
    let p = b.pos();
    let pf = play_for_spec(p, player);
    let sp = special_seq(b, card, player);
    let g = if locked_spec(p.homes[pf.idx()]) {
        Seq::<TacMove>::empty()
    } else {
        goal_seq(p.homes[pf.idx()], card, pf, player)
    };
    let rs = ring_seq(p, pf, card, card, player, bl, bl.len() as int);
    lemma_ring_seq_shape(p, pf, card, card, player, bl, bl.len() as int);
    assert forall|i: int| 0 <= i < (sp + g + rs).len() implies !((#[trigger] (sp + g + rs)[i]).action is SevenSteps) by {
        if i < sp.len() {
        } else if i < sp.len() + g.len() {
        } else {
            assert((sp + g + rs)[i] == rs[i - sp.len() - g.len()]);
        }
    }
}

/// `ms` holds every move of `card` from every ball of `c` on `p`, as a move of card
/// `label` played by `player`.
pub open spec fn has_ring_moves(p: Position, c: Color, card: Card, label: Card, player: Color, ms: Seq<TacMove>) -> bool {
    forall|sq: int, i: int|
        #![trigger square_moves(p, sq, c, card)[i]]
        p.balls[c.idx()].contains(sq) && 0 <= i < square_moves(p, sq, c, card).len() ==> ms.contains(
            relabel(square_moves(p, sq, c, card)[i], label, player),
        )
}

/// The moves `player` gets on board `b` from a card that does something else than
/// step, where that is one move or none: entering, suspending, passing the hands on,
/// entering for the next player, looking at a hand.
pub open spec fn special_seq(b: Board, card: Card, player: Color) -> Seq<TacMove> {
    let p = b.pos();
    let pf = play_for_spec(p, player);
    let pfn = play_for_spec(p, color_of(player.idx() + 1));
    match card {
        Card::One | Card::Thirteen => if num_base_spec(p, pf) > 0 {
            seq![TacMove { card, action: TacAction::Enter, played_for: pf, played_by: player }]
        } else {
            Seq::empty()
        },
        Card::Eight => if !p.balls[pf.idx()].is_empty() && b.hands_spec()[color_of(player.idx() + 1).idx()].len() > 0 {
            seq![TacMove { card, action: TacAction::Suspend, played_for: player, played_by: player }]
        } else {
            Seq::empty()
        },
        Card::Jester => seq![TacMove { card, action: TacAction::Jester, played_for: player, played_by: player }],
        Card::Devil => seq![TacMove { card, action: TacAction::Devil, played_for: pf, played_by: player }],
        Card::Angel => if num_base_spec(p, pfn) > 0 {
            seq![TacMove { card, action: TacAction::AngelEnter, played_for: pfn, played_by: player }]
        } else {
            Seq::empty()
        },
        _ => Seq::empty(),
    }
}

/// Appending the moves of `src`, as moves of `label` played by `player`, to `before`
/// keeps what `before` held and adds each of them.
proof fn lemma_appended_contains(before: Seq<TacMove>, after: Seq<TacMove>, src: Seq<TacMove>, label: Card, player: Color)
    requires
        after.len() == before.len() + src.len(),
        forall|i: int| 0 <= i < before.len() ==> after[i] == before[i],
        forall|j: int|
            0 <= j < src.len() ==> {
                let m = #[trigger] after[before.len() + j];
                &&& m.card == label
                &&& m.played_for == src[j].played_for
                &&& m.played_by == player
                &&& same_action(m.action, src[j].action)
            },
        forall|j: int| 0 <= j < src.len() ==> (#[trigger] src[j]).action is Step || src[j].action is StepInHome,
    ensures
        forall|j: int| 0 <= j < src.len() ==> after.contains(relabel(#[trigger] src[j], label, player)),
        forall|x: TacMove| before.contains(x) ==> after.contains(x),
{
    assert forall|j: int| 0 <= j < src.len() implies after.contains(relabel(#[trigger] src[j], label, player)) by {
        assert(after[before.len() + j] == relabel(src[j], label, player));
    }
    assert forall|x: TacMove| before.contains(x) implies after.contains(x) by {
        let w = choose|w: int| 0 <= w < before.len() && before[w] == x;
        assert(after[w] == x);
    }
}

/// The moves inside the goal `h` of `c` that `card` makes, as played by `player`.
pub open spec fn goal_seq(h: u8, card: Card, c: Color, player: Color) -> Seq<TacMove> {
    Seq::new(
        goal_moves_table(h, card).len(),
        |i: int|
            TacMove {
                card,
                action: TacAction::StepHome { from: goal_moves_table(h, card)[i].0, to: goal_moves_table(h, card)[i].1 },
                played_for: c,
                played_by: player,
            },
    )
}

/// The moves of `src`, as moves of `card` played by `player`.
fn append_as(moves: &mut Vec<TacMove>, src: &Vec<TacMove>, card: Card, player: Color)
    ensures
        final(moves).len() == old(moves).len() + src.len(),
        forall|i: int| 0 <= i < old(moves).len() ==> final(moves)[i] == old(moves)[i],
        forall|j: int|
            0 <= j < src.len() ==> {
                let m = #[trigger] final(moves)[old(moves).len() + j];
                &&& m.card == card
                &&& m.played_for == src[j].played_for
                &&& m.played_by == player
                &&& same_action(m.action, src[j].action)
            },
{
    let ghost start = moves.len();
    let mut j: usize = 0;
    while j < src.len()
        invariant
            j <= src.len(),
            start == old(moves).len(),
            moves.len() == start + j,
            forall|i: int| 0 <= i < start ==> moves[i] == old(moves)[i],
            forall|k: int|
                0 <= k < j ==> {
                    let m = #[trigger] moves[start + k];
                    &&& m.card == card
                    &&& m.played_for == src[k].played_for
                    &&& m.played_by == player
                    &&& same_action(m.action, src[k].action)
                },
        decreases src.len() - j,
    {
        moves.push(TacMove::new(card, src[j].action.copy(), src[j].played_for, player));
        j = j + 1;
    }
}

/// Moves appended as moves of `card` by `player` are offered when their actions are.
proof fn lemma_append_ok(b: Board, before: Seq<TacMove>, after: Seq<TacMove>, src: Seq<TacMove>, card: Card, player: Color)
    requires
        all_card_moves_ok(b, before, card, player),
        after.len() == before.len() + src.len(),
        forall|i: int| 0 <= i < before.len() ==> after[i] == before[i],
        forall|j: int|
            0 <= j < src.len() ==> {
                let m = #[trigger] after[before.len() + j];
                &&& m.card == card
                &&& m.played_for == src[j].played_for
                &&& m.played_by == player
                &&& same_action(m.action, src[j].action)
            },
        forall|j: int| 0 <= j < src.len() ==> offered_action(b, (#[trigger] src[j]).action, src[j].played_for, card, player),
    ensures
        all_card_moves_ok(b, after, card, player),
{
    assert forall|i: int| 0 <= i < after.len() implies card_move_ok(b, #[trigger] after[i], card, player) by {
        if i < before.len() {
            assert(after[i] == before[i]);
        } else {
            let j = i - before.len();
            assert(after[before.len() + j] == after[i]);
            assert(offered_action(b, src[j].action, src[j].played_for, card, player));
        }
    }
}

/// A move in the hand of the player to move that is a trade, a discard, or an offered
/// move (played from a suspended position only with a tac) can be played.
pub proof fn lemma_offered_playable(b: Board, m: TacMove, player: Color)
    requires
        b.wf(),
        player == b.to_move(),
        b.moves_made() < u32::MAX,
        b.hands_spec()[player.idx()].contains(m.card),
        m.action is Trade || m.action is Discard || (offered_action(b, m.action, m.played_for, m.card, player) && (m.card
            != Card::Tac ==> !b.discard_spec())),
    ensures
        degenerate(m.action) || b.play_ok(m),
{
    b.lemma_wf();
    let h = b.hands_spec();
    if !(m.action is Trade) && !(m.action is Discard) && !degenerate(m.action) {
        if m.action is Suspend && last_card_out(h, player) {
            let n = (m.played_for.idx() + 1) % 4;
            assert(n != player.idx());
            assert(h[n].len() == 0);
        }
    }
}

/// Moves in the hand of the player to move that are trades, discards or offered moves
/// (played from a suspended position only with a tac) can all be played.
proof fn lemma_all_playable(b: Board, ms: Seq<TacMove>, player: Color)
    requires
        b.wf(),
        forall|i: int|
            0 <= i < ms.len() ==> b.hands_spec()[player.idx()].contains((#[trigger] ms[i]).card) && (ms[i].action is Trade
                || ms[i].action is Discard || (offered_action(b, ms[i].action, ms[i].played_for, ms[i].card, player) && (
            ms[i].card != Card::Tac ==> !b.discard_spec()))),
    ensures
        player == b.to_move() && b.moves_made() < u32::MAX ==> forall|i: int|
            0 <= i < ms.len() ==> degenerate((#[trigger] ms[i]).action) || b.play_ok(ms[i]),
{
    if player == b.to_move() && b.moves_made() < u32::MAX {
        assert forall|i: int| 0 <= i < ms.len() implies degenerate((#[trigger] ms[i]).action) || b.play_ok(ms[i]) by {
            lemma_offered_playable(b, ms[i], player);
        }
    }
}

/// Adding an offered move keeps every move offered.
proof fn lemma_push_ok(b: Board, ms: Seq<TacMove>, m: TacMove, card: Card, player: Color)
    requires
        all_card_moves_ok(b, ms, card, player),
        card_move_ok(b, m, card, player),
    ensures
        all_card_moves_ok(b, ms.push(m), card, player),
{
    assert forall|i: int| 0 <= i < ms.push(m).len() implies card_move_ok(b, #[trigger] ms.push(m)[i], card, player) by {
        if i < ms.len() {
            assert(ms.push(m)[i] == ms[i]);
        }
    }
}

/// A color with a ball on the ring puts a ball on the ring.
proof fn lemma_some_ball(p: Position, c: Color)
    requires
        !p.balls[c.idx()].is_empty(),
    ensures
        !all_balls_spec(p).is_empty(),
{
    let x = p.balls[c.idx()].choose();
    assert(p.balls[c.idx()].contains(x));
    assert(all_balls_spec(p).contains(x));
}

/// Pushing a move keeps every swap that was there.
proof fn lemma_push_swaps(p: Position, ms: Seq<TacMove>, m: TacMove)
    ensures
        forall|a: int, b: int| has_swap(ms, a, b) ==> #[trigger] has_swap(ms.push(m), a, b),
        forall|c: Color, e: bool| has_same_swap(p, ms, c, e) ==> #[trigger] has_same_swap(p, ms.push(m), c, e),
        forall|c: Color, e: bool| #[trigger] has_same_swap(p, ms.push(m), c, e) ==> has_same_swap(p, ms, c, e) || is_same_swap(p, m, c, e),
{
    let ms2 = ms.push(m);
    assert forall|a: int, b: int| has_swap(ms, a, b) implies #[trigger] has_swap(ms2, a, b) by {
        let i = choose|i: int| 0 <= i < ms.len() && #[trigger] ms[i].action == swap_action(a, b);
        assert(ms2[i] == ms[i]);
    }
    assert forall|c: Color, e: bool| has_same_swap(p, ms, c, e) implies #[trigger] has_same_swap(p, ms2, c, e) by {
        let i = choose|i: int| 0 <= i < ms.len() && is_same_swap(p, #[trigger] ms[i], c, e);
        assert(ms2[i] == ms[i]);
    }
    assert forall|c: Color, e: bool| #[trigger] has_same_swap(p, ms2, c, e) implies has_same_swap(p, ms, c, e) || is_same_swap(p, m, c, e) by {
        let i = choose|i: int| 0 <= i < ms2.len() && is_same_swap(p, #[trigger] ms2[i], c, e);
        if i < ms.len() {
            assert(ms2[i] == ms[i]);
        }
    }
}

/// Goal squares before the first ball of the goal are free.
proof fn lemma_free_goal(x: u8, k: int)
    requires
        0 <= k < first_set_from(x, 0),
    ensures
        !bit8(x, k),
        k < 4,
{
    lemma_first_set_props(x, 0);
}

/// The moves of `card` for a ball of `c` are moves of that card for `c` that step.
pub proof fn lemma_square_moves_shape(p: Position, start: int, c: Color, card: Card)
    ensures
        forall|i: int|
            0 <= i < square_moves(p, start, c, card).len() ==> {
                let m = #[trigger] square_moves(p, start, c, card)[i];
                &&& m.card == card
                &&& m.played_for == c
                &&& (m.action is Step || m.action is StepInHome)
            },
{
    let sm = simple_moves(p, start, c, card);
    let all = square_moves(p, start, c, card);
    if card == Card::Four {
        let fm = four_moves(p, start, c);
        assert forall|i: int| 0 <= i < all.len() implies #[trigger] all[i].card == card && all[i].played_for == c && (
        all[i].action is Step || all[i].action is StepInHome) by {
            if i < sm.len() {
                assert(all[i] == sm[i]);
            } else {
                assert(all[i] == fm[i - sm.len()]);
            }
        }
    } else {
        assert forall|i: int| 0 <= i < all.len() implies #[trigger] all[i].card == card && all[i].played_for == c && (
        all[i].action is Step || all[i].action is StepInHome) by {
            if i < sm.len() {
                assert(all[i] == sm[i]);
            }
        }
    }
}

/// Every move of `card` for a ball of `c` on `start` can be carried out, but for the
/// degenerate ones.
pub proof fn lemma_square_moves_ok(p: Position, start: int, c: Color, card: Card)
    requires
        pos_wf(p),
        0 <= start < 64,
        p.balls[c.idx()].contains(start),
    ensures
        forall|i: int|
            0 <= i < square_moves(p, start, c, card).len() ==> degenerate(#[trigger] square_moves(p, start, c, card)[i].action)
                || action_ok(p, square_moves(p, start, c, card)[i].action, c),
{
    lemma_square_moves_shape(p, start, c, card);
    let sm = simple_moves(p, start, c, card);
    let all = square_moves(p, start, c, card);
    assert forall|i: int| 0 <= i < sm.len() implies degenerate(#[trigger] sm[i].action) || action_ok(p, sm[i].action, c) by {
        if let Some(n) = simple_steps(card) {
            if let Some(g) = in_home_target(p, start, n as int, c) {
                lemma_free_goal(p.homes[c.idx()], g as int);
            }
        }
    }
    if card == Card::Four {
        let fm = four_moves(p, start, c);
        let min_rev_dist = 64 - dist_home_spec(start, c) + 1;
        let free = first_set_from(p.homes[c.idx()], 0);
        if free > 0 && min_rev_dist + free > 4 && 2 <= min_rev_dist <= 4 {
            lemma_free_goal(p.homes[c.idx()], 4 - min_rev_dist);
        }
        assert forall|i: int| 0 <= i < fm.len() implies degenerate(#[trigger] fm[i].action) || action_ok(p, fm[i].action, c) by {}
        assert forall|i: int| 0 <= i < all.len() implies degenerate(#[trigger] all[i].action) || action_ok(p, all[i].action, c) by {
            if i < sm.len() {
                assert(all[i] == sm[i]);
            } else {
                assert(all[i] == fm[i - sm.len()]);
            }
        }
    } else {
        assert forall|i: int| 0 <= i < all.len() implies degenerate(#[trigger] all[i].action) || action_ok(p, all[i].action, c) by {
            if i < sm.len() {
                assert(all[i] == sm[i]);
            }
        }
    }
}

impl Board {
    /// The square a warrior on `start` moves to: the next ball ahead, or `start`
    /// itself when no other ball is on the ring.
    pub fn warrior_target(&self, start: Square, player: Color) -> (r: Square)
        requires
            self.wf(),
            start.0 < 64,
            self.pos().balls[player.idx()].contains(start.0 as int),
        ensures
            r.0 as int == warrior_target_spec(self.pos(), start.0 as int),
            r.0 < 64,
    {
        let d = self.distance_to_next(start);
        start.add(d)
    }

    /// Every swap of two balls for `play_for`, each pair once; of the pairs of balls of
    /// one color only one with a ball on the color's entry square and one without are
    /// kept, as the others lead to the same position.
    pub fn trickster_moves(&self, play_for: Color) -> (r: Vec<TacMove>)
        requires
            self.wf(),
            !all_balls_spec(self.pos()).is_empty(),
        ensures
            forall|i: int| 0 <= i < r.len() ==> swap_move_ok(self.pos(), #[trigger] r[i], play_for),
            forall|i: int, j: int| 0 <= i < j < r.len() ==> swap_before(#[trigger] r[i], #[trigger] r[j]),
            forall|a: int, b: int|
                a < b && all_balls_spec(self.pos()).contains(a) && all_balls_spec(self.pos()).contains(b)
                    && color_on_spec(self.pos(), a) != color_on_spec(self.pos(), b) ==> #[trigger] has_swap(r@, a, b),
            forall|a: int, b: int, c: Color, e: bool|
                a < b && #[trigger] same_color_kind(self.pos(), a, b, c, e) ==> has_same_swap(self.pos(), r@, c, e),
            forall|i: int, j: int, c: Color, e: bool|
                0 <= i < j < r.len() && #[trigger] is_same_swap(self.pos(), r[i], c, e) ==> !#[trigger] is_same_swap(
                    self.pos(),
                    r[j],
                    c,
                    e,
                ),
    {
        let ghost p = self.pos();
        proof {
            self.lemma_wf();
        }
        let all = self.all_balls();
        let sq = all.squares();
        let n = sq.len();
        let mut moves: Vec<TacMove> = Vec::new();
        let mut same_switch = [false; 4];
        let mut home_switch = [false; 4];
        let mut idx: usize = 0;
        while idx < n
            invariant
                self.wf(),
                p == self.pos(),
                pos_wf(p),
                all@ == all_balls_spec(p),
                n == sq.len(),
                idx <= n,
                forall|k: int| 0 <= k < n ==> all@.contains(#[trigger] sq[k].0 as int),
                forall|k: int, m: int| 0 <= k < m < n ==> (#[trigger] sq[k]).0 < (#[trigger] sq[m]).0,
                forall|i: int| 0 <= i < moves.len() ==> swap_move_ok(p, #[trigger] moves[i], play_for),
                forall|i: int| 0 <= i < moves.len() ==> (idx < n ==> (#[trigger] moves[i].action)->target1.0 < sq[idx as int].0),
                forall|i: int, j: int| 0 <= i < j < moves.len() ==> swap_before(#[trigger] moves[i], #[trigger] moves[j]),
                forall|k: int, m: int|
                    0 <= k < idx && k < m < n && color_on_spec(p, sq[k].0 as int) != color_on_spec(p, sq[m].0 as int)
                        ==> has_swap(moves@, (#[trigger] sq[k]).0 as int, (#[trigger] sq[m]).0 as int),
                forall|k: int, m: int, c: Color, e: bool|
                    0 <= k < idx && k < m < n && #[trigger] same_color_kind(p, sq[k].0 as int, sq[m].0 as int, c, e)
                        ==> has_same_swap(p, moves@, c, e),
                forall|c: int| 0 <= c < 4 ==> #[trigger] home_switch[c] == has_same_swap(p, moves@, color_of(c), true),
                forall|c: int| 0 <= c < 4 ==> #[trigger] same_switch[c] == has_same_swap(p, moves@, color_of(c), false),
                forall|i: int, j: int, c: Color, e: bool|
                    0 <= i < j < moves.len() && #[trigger] is_same_swap(p, moves[i], c, e) ==> !#[trigger] is_same_swap(
                        p,
                        moves[j],
                        c,
                        e,
                    ),
            decreases n - idx,
        {
            let target1 = sq[idx];
            let c1_opt = self.color_on(target1);
            proof {
                lemma_color_on(p, target1.0 as int);
            }
            let c1 = c1_opt.unwrap();
            let mut j: usize = idx + 1;
            while j < n
                invariant
                    self.wf(),
                    p == self.pos(),
                    pos_wf(p),
                    all@ == all_balls_spec(p),
                    n == sq.len(),
                    idx < n,
                    idx < j <= n,
                    target1 == sq[idx as int],
                    color_on_spec(p, target1.0 as int) == Some(c1),
                    forall|k: int| 0 <= k < n ==> all@.contains(#[trigger] sq[k].0 as int),
                    forall|k: int, m: int| 0 <= k < m < n ==> (#[trigger] sq[k]).0 < (#[trigger] sq[m]).0,
                    forall|i: int| 0 <= i < moves.len() ==> swap_move_ok(p, #[trigger] moves[i], play_for),
                    forall|i: int|
                        0 <= i < moves.len() ==> (#[trigger] moves[i].action)->target1.0 < target1.0 || (
                        moves[i].action->target1 == target1 && (j < n ==> moves[i].action->target2.0 < sq[j as int].0)),
                    forall|i: int, jj: int| 0 <= i < jj < moves.len() ==> swap_before(#[trigger] moves[i], #[trigger] moves[jj]),
                    forall|k: int, m: int|
                        0 <= k <= idx && k < m < n && (k < idx || m < j) && color_on_spec(p, sq[k].0 as int) != color_on_spec(
                            p,
                            sq[m].0 as int,
                        ) ==> has_swap(moves@, (#[trigger] sq[k]).0 as int, (#[trigger] sq[m]).0 as int),
                    forall|k: int, m: int, c: Color, e: bool|
                        0 <= k <= idx && k < m < n && (k < idx || m < j) && #[trigger] same_color_kind(
                            p,
                            sq[k].0 as int,
                            sq[m].0 as int,
                            c,
                            e,
                        ) ==> has_same_swap(p, moves@, c, e),
                    forall|c: int| 0 <= c < 4 ==> #[trigger] home_switch[c] == has_same_swap(p, moves@, color_of(c), true),
                    forall|c: int| 0 <= c < 4 ==> #[trigger] same_switch[c] == has_same_swap(p, moves@, color_of(c), false),
                    forall|i: int, jj: int, c: Color, e: bool|
                        0 <= i < jj < moves.len() && #[trigger] is_same_swap(p, moves[i], c, e) ==> !#[trigger] is_same_swap(
                            p,
                            moves[jj],
                            c,
                            e,
                        ),
                decreases n - j,
            {
                let target2 = sq[j];
                let c2_opt = self.color_on(target2);
                proof {
                    lemma_color_on(p, target2.0 as int);
                }
                let c2 = c2_opt.unwrap();
                let ghost old_moves = moves@;
                let mut skip = false;
                if c1 == c2 {
                    let ci = c1.index();
                    let entry = c1.home();
                    if entry == target1 || entry == target2 {
                        if home_switch[ci] {
                            skip = true;
                        } else {
                            home_switch[ci] = true;
                        }
                    } else if same_switch[ci] {
                        skip = true;
                    } else {
                        same_switch[ci] = true;
                    }
                }
                if !skip {
                    let m = TacMove::new(
                        Card::Trickster,
                        TacAction::Trickster { target1, target2 },
                        play_for,
                        play_for,
                    );
                    moves.push(m);
                    proof {
                        lemma_push_swaps(p, old_moves, m);
                        assert(moves@ == old_moves.push(m));
                        assert(has_swap(moves@, target1.0 as int, target2.0 as int)) by {
                            assert(moves@[old_moves.len() as int].action == swap_action(target1.0 as int, target2.0 as int));
                        }
                        if c1 == c2 {
                            let e = c1.home_sq() == target1.0 || c1.home_sq() == target2.0;
                            assert(is_same_swap(p, moves@[old_moves.len() as int], c1, e));
                            assert(!has_same_swap(p, old_moves, c1, e));
                        }
                    }
                }
                proof {
                    assert forall|c: int| 0 <= c < 4 implies #[trigger] home_switch[c] == has_same_swap(p, moves@, color_of(c), true) by {
                        if !skip && c1 == c2 && c == c1.idx() {
                        }
                    }
                }
                j = j + 1;
            }
            idx = idx + 1;
        }
        proof {
            assert forall|a: int, b: int|
                a < b && all_balls_spec(p).contains(a) && all_balls_spec(p).contains(b) && color_on_spec(p, a)
                    != color_on_spec(p, b) implies #[trigger] has_swap(moves@, a, b) by {
                let k = choose|k: int| 0 <= k < n && #[trigger] sq[k].0 as int == a;
                let m = choose|m: int| 0 <= m < n && #[trigger] sq[m].0 as int == b;
                if m < k {
                    assert(sq[m].0 < sq[k].0);
                }
                assert(k != m);
            }
            assert forall|a: int, b: int, c: Color, e: bool|
                a < b && #[trigger] same_color_kind(p, a, b, c, e) implies has_same_swap(p, moves@, c, e) by {
                lemma_color_on(p, a);
                lemma_color_on(p, b);
                let k = choose|k: int| 0 <= k < n && #[trigger] sq[k].0 as int == a;
                let m = choose|m: int| 0 <= m < n && #[trigger] sq[m].0 as int == b;
                if m < k {
                    assert(sq[m].0 < sq[k].0);
                }
                assert(k != m);
                assert(same_color_kind(p, sq[k].0 as int, sq[m].0 as int, c, e));
            }
        }
        moves
    }

    /// The moves of a tac for `player`: those of `tac_moves` for the player played for,
    /// as moves of a tac played by `player`.
    #[verifier::rlimit(80)]
    #[verifier::spinoff_prover]
    fn tac_card_moves(&self, player: Color) -> (r: Vec<TacMove>)
        requires
            self.wf(),
        ensures
            all_card_moves_ok(*self, r@, Card::Tac, player),
            last_played_spec(self.last_cards().0, self.last_cards().1) is Some ==> has_ring_moves(
                self.prev_pos(),
                play_for_spec(self.prev_pos(), play_for_spec(self.pos(), player)),
                last_played_spec(self.last_cards().0, self.last_cards().1)->0,
                Card::Tac,
                player,
                r@,
            ),
            last_played_spec(self.last_cards().0, self.last_cards().1) is Some && exact_kind(
                self.prev_pos(),
                last_played_spec(self.last_cards().0, self.last_cards().1)->0,
                play_for_spec(self.pos(), player),
            ) ==> exists|s: Board, bl: Seq<Square>|
                s.pos() == self.prev_pos() && s.hands_spec() == self.hands_spec() && lists(
                    bl,
                    self.prev_pos().balls[play_for_spec(self.prev_pos(), play_for_spec(self.pos(), player)).idx()],
                ) && r@ == relabel_all(
                    #[trigger] card_seq(s, last_played_spec(self.last_cards().0, self.last_cards().1)->0, play_for_spec(self.pos(), player), bl),
                    Card::Tac,
                    player,
                ),
        decreases 2int,
    {
        proof {
            self.lemma_wf();
        }
        let card = Card::Tac;
        let play_for = self.play_for(player);
        let mut moves: Vec<TacMove> = Vec::new();
        let tm = self.tac_moves(play_for);
        append_as(&mut moves, &tm, card, player);
            proof {
                assert forall|j: int| 0 <= j < tm.len() implies offered_action(*self, (#[trigger] tm[j]).action, tm[j].played_for, card, player) by {
                    assert(card_move_ok(*self, tm[j], Card::Tac, play_for));
                }
                lemma_append_ok(*self, Seq::empty(), moves@, tm@, card, player);
                let lc = self.last_cards();
                let pp = self.prev_pos();
                if last_played_spec(lc.0, lc.1) is Some {
                    let last = last_played_spec(lc.0, lc.1)->0;
                    let pfp = play_for_spec(pp, play_for);
                    assert forall|sq: int, i: int|
                        #![trigger square_moves(pp, sq, pfp, last)[i]]
                        pp.balls[pfp.idx()].contains(sq) && 0 <= i < square_moves(pp, sq, pfp, last).len() implies moves@.contains(
                            relabel(square_moves(pp, sq, pfp, last)[i], Card::Tac, player),
                        ) by {
                        let x = relabel(square_moves(pp, sq, pfp, last)[i], Card::Tac, play_for);
                        assert(tm@.contains(x));
                        let w = choose|w: int| 0 <= w < tm@.len() && tm@[w] == x;
                        lemma_square_moves_shape(pp, sq, pfp, last);
                        assert(moves@[0 + w] == moves[w]);
                        assert(moves@[w] == relabel(square_moves(pp, sq, pfp, last)[i], Card::Tac, player));
                    }
                    if exact_kind(pp, last, play_for) {
                        let (sb, bl) = choose|sb: Board, bl: Seq<Square>|
                            sb.pos() == pp && sb.hands_spec() == self.hands_spec() && lists(bl, pp.balls[pfp.idx()]) && tm@
                                == relabel_all(#[trigger] card_seq(sb, last, play_for, bl), Card::Tac, play_for);
                        lemma_card_seq_shape(sb, last, play_for, bl);
                        let cs = card_seq(sb, last, play_for, bl);
                        assert forall|j: int| 0 <= j < tm@.len() implies !((#[trigger] tm@[j]).action is SevenSteps) by {
                            assert(tm@[j].action == cs[j].action);
                        }
                        lemma_append_relabel(moves@, Seq::empty(), tm@, Card::Tac, player);
                        assert forall|j: int| 0 <= j < moves@.len() implies moves@[j] == relabel_all(cs, Card::Tac, player)[j] by {
                            assert(moves@[j] == relabel(tm@[j], Card::Tac, player));
                        }
                        assert(moves@ =~= relabel_all(cs, Card::Tac, player));
                    }
                }
            }
        moves
    }

    /// The moves `player` can make with `card`. Each can be carried out on the position
    /// it applies to, but for the degenerate ones.
    #[verifier::rlimit(100)]
    #[verifier::spinoff_prover]
    pub fn moves_for_card(&self, player: Color, card: Card) -> (r: Vec<TacMove>)
        requires
            self.wf(),
        ensures
            all_card_moves_ok(*self, r@, card, player),
            card != Card::Seven && card != Card::Tac ==> forall|i: int|
                0 <= i < special_seq(*self, card, player).len() ==> r@.contains(#[trigger] special_seq(*self, card, player)[i]),
            card == Card::Angel && num_base_spec(self.pos(), play_for_spec(self.pos(), color_of(player.idx() + 1))) == 0 ==> {
                &&& has_ring_moves(self.pos(), play_for_spec(self.pos(), color_of(player.idx() + 1)), Card::One, card, player, r@)
                &&& has_ring_moves(self.pos(), play_for_spec(self.pos(), color_of(player.idx() + 1)), Card::Thirteen, card, player, r@)
            },
            !locked_spec(self.pos().homes[play_for_spec(self.pos(), player).idx()]) ==> forall|i: int|
                0 <= i < goal_seq(self.pos().homes[play_for_spec(self.pos(), player).idx()], card, play_for_spec(self.pos(), player), player).len()
                    ==> r@.contains(#[trigger] goal_seq(self.pos().homes[play_for_spec(self.pos(), player).idx()], card, play_for_spec(self.pos(), player), player)[i]),
            has_ring_moves(self.pos(), play_for_spec(self.pos(), player), card, card, player, r@),
            card == Card::Seven && !self.pos().balls[play_for_spec(self.pos(), player).idx()].is_empty() ==> ring_splits_offered(
                r@,
                self.pos().balls[play_for_spec(self.pos(), player).idx()],
            ),
            card == Card::Seven && play_for_spec(self.pos(), player) == player && !self.pos().fresh[player.idx()]
                && first_set_from(self.pos().homes[player.idx()], 0) >= 1 ==> forall|b: Square|
                goal_entry_ok(self.pos(), player, b) ==> #[trigger] first_entry_offered(r@, self.pos(), player, b),
            card == Card::Seven ==> forall|hb: u8|
                seven_budget_ok(self.pos(), play_for_spec(self.pos(), player), hb) ==> #[trigger] budget_offered(
                    r@,
                    self.pos(),
                    play_for_spec(self.pos(), player),
                    hb,
                ),
            card_offers(*self, card, player, r@),
            card == Card::Trickster && !self.pos().balls[play_for_spec(self.pos(), player).idx()].is_empty() ==> trickster_offered(
                self.pos(),
                r@,
            ),
            card == Card::Tac && last_played_spec(self.last_cards().0, self.last_cards().1) is Some ==> has_ring_moves(
                self.prev_pos(),
                play_for_spec(self.prev_pos(), play_for_spec(self.pos(), player)),
                last_played_spec(self.last_cards().0, self.last_cards().1)->0,
                Card::Tac,
                player,
                r@,
            ),
            card == Card::Tac && last_played_spec(self.last_cards().0, self.last_cards().1) is Some && exact_kind(
                self.prev_pos(),
                last_played_spec(self.last_cards().0, self.last_cards().1)->0,
                play_for_spec(self.pos(), player),
            ) ==> exists|s: Board, bl: Seq<Square>|
                s.pos() == self.prev_pos() && s.hands_spec() == self.hands_spec() && lists(
                    bl,
                    self.prev_pos().balls[play_for_spec(self.prev_pos(), play_for_spec(self.pos(), player)).idx()],
                ) && r@ == relabel_all(
                    #[trigger] card_seq(s, last_played_spec(self.last_cards().0, self.last_cards().1)->0, play_for_spec(self.pos(), player), bl),
                    Card::Tac,
                    player,
                ),
            exact_kind(self.pos(), card, player) ==> exists|bl: Seq<Square>|
                lists(bl, self.pos().balls[play_for_spec(self.pos(), player).idx()]) && r@ == #[trigger] card_seq(*self, card, player, bl),
        decreases (if card == Card::Tac {
            3int
        } else {
            0int
        }),
    {
        let play_for = self.play_for(player);
        let mut moves: Vec<TacMove> = Vec::new();
        match card {
            Card::Seven => {
                let home = self.home(play_for);
                if (!home.is_empty() && !home.is_locked()) || self.can_play(play_for) {
                    let mut sev = self.seven_moves(player);
                    let ghost sv = sev@;
                    moves.append(&mut sev);
                    proof {
                        assert forall|i: int| 0 <= i < moves@.len() implies card_move_ok(*self, #[trigger] moves@[i], card, player) by {
                            assert(moves@[i] == sv[i]);
                        }
                        assert(moves@ =~= sv);
                    }
                }
            },
            Card::Tac => {
                moves = self.tac_card_moves(player);
            },
            _ => {
                self.special_moves(player, card, &mut moves);
            },
        }
        let ghost m1 = moves@;
        self.goal_moves(player, card, &mut moves);
        let ghost m2 = moves@;
        self.ring_moves(player, card, &mut moves);
        proof {
            if card == Card::Tac {
                let bl = choose|bl: Seq<Square>|
                    lists(bl, self.pos().balls[play_for_spec(self.pos(), player).idx()]) && moves@ == m2
                        + #[trigger] ring_seq(self.pos(), play_for_spec(self.pos(), player), card, card, player, bl, bl.len() as int);
                lemma_ring_seq_tac(self.pos(), play_for_spec(self.pos(), player), card, player, bl, bl.len() as int);
                let pf0 = play_for_spec(self.pos(), player);
                assert(goal_seq(self.pos().homes[pf0.idx()], card, pf0, player) =~= Seq::<TacMove>::empty());
                assert(moves@ =~= m1);
            }
            if card == Card::Trickster && !self.pos().balls[play_for_spec(self.pos(), player).idx()].is_empty() {
                assert forall|i: int| 0 <= i < m1.len() implies #[trigger] moves@[i] == m1[i] by {
                    assert(m2[i] == m1[i]);
                }
                lemma_trickster_prefix(self.pos(), m1, moves@);
            }
        }
        proof {
            if card != Card::Seven && card != Card::Tac && card != Card::Trickster && !(card == Card::Angel && num_base_spec(
                self.pos(),
                play_for_spec(self.pos(), color_of(player.idx() + 1)),
            ) == 0) {
                assert(m1 =~= special_seq(*self, card, player));
                let bl = choose|bl: Seq<Square>|
                    lists(bl, self.pos().balls[play_for_spec(self.pos(), player).idx()]) && moves@ == m2
                        + #[trigger] ring_seq(self.pos(), play_for_spec(self.pos(), player), card, card, player, bl, bl.len() as int);
                assert(moves@ =~= card_seq(*self, card, player, bl));
            }
        }
        proof {
            assert forall|x: TacMove| m1.contains(x) implies moves@.contains(x) by {
                let w = choose|w: int| 0 <= w < m1.len() && m1[w] == x;
                assert(m2[w] == x);
                assert(moves@[w] == x);
            }
            let gs = goal_seq(self.pos().homes[play_for_spec(self.pos(), player).idx()], card, play_for_spec(self.pos(), player), player);
            if !locked_spec(self.pos().homes[play_for_spec(self.pos(), player).idx()]) {
                assert forall|i: int| 0 <= i < gs.len() implies moves@.contains(#[trigger] gs[i]) by {
                    assert(m2[m1.len() + i] == gs[i]);
                    assert(moves@[m1.len() + i] == gs[i]);
                }
            }
            if card == Card::Seven {
                assert forall|x: int| 0 <= x < m1.len() implies #[trigger] moves@[x] == m1[x] by {
                    assert(m2[x] == m1[x]);
                }
                assert(moves_extend(moves@, m1));
                lemma_seven_offers_mono(moves@, m1, self.pos(), player);
            }
            if card != Card::Seven && card != Card::Tac {
                assert forall|i: int| 0 <= i < special_seq(*self, card, player).len() implies moves@.contains(#[trigger] special_seq(*self, card, player)[i]) by {
                    assert(m1[i] == special_seq(*self, card, player)[i]);
                    assert(m1.contains(special_seq(*self, card, player)[i]));
                }
            }
        }
        moves
    }

    /// The moves of the cards that do something else than step: entering, suspending,
    /// swapping, passing the hands on, helping the next player, looking at a hand.
    fn special_moves(&self, player: Color, card: Card, moves: &mut Vec<TacMove>)
        requires
            self.wf(),
            card != Card::Tac,
            card != Card::Seven,
            all_card_moves_ok(*self, old(moves)@, card, player),
        ensures
            all_card_moves_ok(*self, final(moves)@, card, player),
            card != Card::Trickster && !(card == Card::Angel && num_base_spec(self.pos(), play_for_spec(self.pos(), color_of(player.idx() + 1))) == 0)
                ==> final(moves)@ == old(moves)@ + special_seq(*self, card, player),
            card == Card::Angel ==> final(moves)@.len() >= old(moves)@.len() && forall|i: int| 0 <= i < old(moves)@.len() ==> #[trigger] final(moves)@[i] == old(moves)@[i],
            card == Card::Angel && num_base_spec(self.pos(), play_for_spec(self.pos(), color_of(player.idx() + 1))) == 0 ==> {
                &&& has_ring_moves(self.pos(), play_for_spec(self.pos(), color_of(player.idx() + 1)), Card::One, card, player, final(moves)@)
                &&& has_ring_moves(self.pos(), play_for_spec(self.pos(), color_of(player.idx() + 1)), Card::Thirteen, card, player, final(moves)@)
            },
            card == Card::Trickster && !self.pos().balls[play_for_spec(self.pos(), player).idx()].is_empty() ==> trickster_offered(
                self.pos(),
                final(moves)@,
            ),
            card == Card::Trickster ==> final(moves)@.len() >= old(moves)@.len() && forall|i: int|
                0 <= i < old(moves)@.len() ==> #[trigger] final(moves)@[i] == old(moves)@[i],
    {
        let ghost p = self.pos();
        let ghost b = *self;
        proof {
            self.lemma_wf();
        }
        let play_for = self.play_for(player);
        let play_for_next = self.play_for(player.next());
        let ghost m0 = moves@;
        match card {
            Card::One | Card::Thirteen => {
                if self.num_base(play_for) > 0 {
                    moves.push(TacMove::new(card, TacAction::Enter, play_for, player));
                    proof {
                        lemma_push_ok(b, m0, moves@.last(), card, player);
                    }
                }
            },
            Card::Eight => {
                if self.can_play(play_for) && !self.hand(player.next()).is_empty() {
                    moves.push(TacMove::new(card, TacAction::Suspend, player, player));
                    proof {
                        lemma_push_ok(b, m0, moves@.last(), card, player);
                    }
                }
            },
            Card::Trickster => {
                if self.can_play(play_for) {
                    proof {
                        lemma_some_ball(p, play_for);
                    }
                    let tm = self.trickster_moves(play_for);
                    append_as(moves, &tm, card, player);
                    proof {
                        assert forall|i: int| 0 <= i < tm@.len() implies #[trigger] has_action(moves@, tm@[i].action) by {
                            assert(moves@[m0.len() + i] == moves[m0.len() + i]);
                            assert(swap_move_ok(p, tm[i], play_for));
                            assert(moves@[m0.len() + i].action == tm@[i].action);
                        }
                        lemma_trickster_offered_grow(p, tm@, moves@);
                        assert forall|j: int| 0 <= j < tm.len() implies offered_action(b, (#[trigger] tm[j]).action, tm[j].played_for, card, player) by {
                            assert(swap_move_ok(p, tm[j], play_for));
                        }
                        lemma_append_ok(b, m0, moves@, tm@, card, player);
                    }
                }
            },
            Card::Jester => {
                moves.push(TacMove::new(card, TacAction::Jester, player, player));
                proof {
                    lemma_push_ok(b, m0, moves@.last(), card, player);
                }
            },
            Card::Angel => {
                if self.num_base(play_for_next) > 0 {
                    moves.push(TacMove::new(card, TacAction::AngelEnter, play_for_next, player));
                    proof {
                        lemma_push_ok(b, m0, moves@.last(), card, player);
                    }
                } else {
                    let balls = self.balls_with(play_for_next).squares();
                    let mut k: usize = 0;
                    while k < balls.len()
                        invariant
                            k <= balls.len(),
                            self.wf(),
                            p == self.pos(),
                            b == *self,
                            pos_wf(p),
                            card == Card::Angel,
                            forall|i: int| 0 <= i < balls.len() ==> p.balls[play_for_next.idx()].contains(#[trigger] balls[i].0 as int),
                            all_card_moves_ok(b, moves@, card, player),
                            moves@.len() >= old(moves)@.len(),
                            forall|i: int| 0 <= i < old(moves)@.len() ==> #[trigger] moves@[i] == old(moves)@[i],
                            forall|i: int, t: int|
                                #![trigger square_moves(p, balls@[i].0 as int, play_for_next, Card::One)[t]]
                                0 <= i < k && 0 <= t < square_moves(p, balls@[i].0 as int, play_for_next, Card::One).len() ==> moves@.contains(
                                    relabel(square_moves(p, balls@[i].0 as int, play_for_next, Card::One)[t], card, player),
                                ),
                            forall|i: int, t: int|
                                #![trigger square_moves(p, balls@[i].0 as int, play_for_next, Card::Thirteen)[t]]
                                0 <= i < k && 0 <= t < square_moves(p, balls@[i].0 as int, play_for_next, Card::Thirteen).len() ==> moves@.contains(
                                    relabel(square_moves(p, balls@[i].0 as int, play_for_next, Card::Thirteen)[t], card, player),
                                ),
                        decreases balls.len() - k,
                    {
                        let ball = balls[k];
                        proof {
                            assert(p.balls[play_for_next.idx()].contains(ball.0 as int));
                        }
                        let ones = self.moves_for_card_square(ball, play_for_next, Card::One);
                        let ghost m1 = moves@;
                        append_as(moves, &ones, Card::Angel, player);
                        proof {
                            assert forall|j: int| 0 <= j < ones.len() implies offered_action(b, (#[trigger] ones[j]).action, ones[j].played_for, card, player) by {
                                assert(degenerate(ones[j].action) || action_ok(p, ones[j].action, play_for_next));
                            }
                            lemma_append_ok(b, m1, moves@, ones@, card, player);
                        }
                        let thirteens = self.moves_for_card_square(ball, play_for_next, Card::Thirteen);
                        let ghost m2 = moves@;
                        append_as(moves, &thirteens, Card::Angel, player);
                        proof {
                            assert forall|j: int| 0 <= j < thirteens.len() implies offered_action(b, (#[trigger] thirteens[j]).action, thirteens[j].played_for, card, player) by {
                                assert(degenerate(thirteens[j].action) || action_ok(p, thirteens[j].action, play_for_next));
                            }
                            lemma_append_ok(b, m2, moves@, thirteens@, card, player);
                            lemma_appended_contains(m1, m2, ones@, card, player);
                            lemma_appended_contains(m2, moves@, thirteens@, card, player);
                            assert forall|i: int, t: int|
                                #![trigger square_moves(p, balls@[i].0 as int, play_for_next, Card::One)[t]]
                                0 <= i < k + 1 && 0 <= t < square_moves(p, balls@[i].0 as int, play_for_next, Card::One).len() implies moves@.contains(
                                    relabel(square_moves(p, balls@[i].0 as int, play_for_next, Card::One)[t], card, player),
                                ) by {
                                if i == k {
                                    assert(ones@[t] == square_moves(p, balls@[i].0 as int, play_for_next, Card::One)[t]);
                                    assert(m2.contains(relabel(ones@[t], card, player)));
                                } else {
                                    assert(m1.contains(relabel(square_moves(p, balls@[i].0 as int, play_for_next, Card::One)[t], card, player)));
                                    assert(m2.contains(relabel(square_moves(p, balls@[i].0 as int, play_for_next, Card::One)[t], card, player)));
                                }
                            }
                            assert forall|i: int, t: int|
                                #![trigger square_moves(p, balls@[i].0 as int, play_for_next, Card::Thirteen)[t]]
                                0 <= i < k + 1 && 0 <= t < square_moves(p, balls@[i].0 as int, play_for_next, Card::Thirteen).len() implies moves@.contains(
                                    relabel(square_moves(p, balls@[i].0 as int, play_for_next, Card::Thirteen)[t], card, player),
                                ) by {
                                if i == k {
                                    assert(thirteens@[t] == square_moves(p, balls@[i].0 as int, play_for_next, Card::Thirteen)[t]);
                                } else {
                                    assert(m1.contains(relabel(square_moves(p, balls@[i].0 as int, play_for_next, Card::Thirteen)[t], card, player)));
                                    assert(m2.contains(relabel(square_moves(p, balls@[i].0 as int, play_for_next, Card::Thirteen)[t], card, player)));
                                }
                            }
                        }
                        k = k + 1;
                    }
                    proof {
                        assert forall|sq: int, t: int|
                            #![trigger square_moves(p, sq, play_for_next, Card::One)[t]]
                            p.balls[play_for_next.idx()].contains(sq) && 0 <= t < square_moves(p, sq, play_for_next, Card::One).len() implies moves@.contains(
                                relabel(square_moves(p, sq, play_for_next, Card::One)[t], card, player),
                            ) by {
                            let i = choose|i: int| 0 <= i < balls.len() && #[trigger] balls[i].0 as int == sq;
                            assert(balls@[i].0 as int == sq);
                            assert(square_moves(p, balls@[i].0 as int, play_for_next, Card::One)[t] == square_moves(p, sq, play_for_next, Card::One)[t]);
                        }
                        assert forall|sq: int, t: int|
                            #![trigger square_moves(p, sq, play_for_next, Card::Thirteen)[t]]
                            p.balls[play_for_next.idx()].contains(sq) && 0 <= t < square_moves(p, sq, play_for_next, Card::Thirteen).len() implies moves@.contains(
                                relabel(square_moves(p, sq, play_for_next, Card::Thirteen)[t], card, player),
                            ) by {
                            let i = choose|i: int| 0 <= i < balls.len() && #[trigger] balls[i].0 as int == sq;
                            assert(balls@[i].0 as int == sq);
                            assert(square_moves(p, balls@[i].0 as int, play_for_next, Card::Thirteen)[t] == square_moves(p, sq, play_for_next, Card::Thirteen)[t]);
                        }
                    }
                }
            },
            Card::Devil => {
                moves.push(TacMove::new(card, TacAction::Devil, play_for, player));
                proof {
                    lemma_push_ok(b, m0, moves@.last(), card, player);
                }
            },
            _ => {},
        }
    }

    /// The moves of `card` for each ball of `balls`, played for `color` by `player`,
    /// ball after ball in increasing order of squares.
    pub fn moves_for_card_squares(&self, balls: BitBoard, color: Color, player: Color, card: Card) -> (r: Vec<TacMove>)
        requires
            self.wf(),
            balls@.subset_of(self.pos().balls[color.idx()]),
        ensures
            r.len() == 0 <==> forall|b: int| balls@.contains(b) ==> #[trigger] square_moves(self.pos(), b, color, card).len() == 0,
            forall|i: int|
                0 <= i < r.len() ==> (#[trigger] r[i]).card == card && r[i].played_for == color && r[i].played_by
                    == player && (degenerate(r[i].action) || action_ok(self.pos(), r[i].action, color)),
    {
        let ghost p = self.pos();
        proof {
            self.lemma_wf();
        }
        let sqs = balls.squares();
        let mut moves: Vec<TacMove> = Vec::new();
        let mut k: usize = 0;
        while k < sqs.len()
            invariant
                k <= sqs.len(),
                self.wf(),
                p == self.pos(),
                pos_wf(p),
                balls@.subset_of(p.balls[color.idx()]),
                forall|i: int| 0 <= i < sqs.len() ==> balls@.contains(#[trigger] sqs[i].0 as int),
                forall|b: int| balls@.contains(b) ==> exists|i: int| 0 <= i < sqs.len() && #[trigger] sqs[i].0 as int == b,
                moves.len() == 0 <==> forall|i: int| 0 <= i < k ==> #[trigger] square_moves(p, sqs[i].0 as int, color, card).len() == 0,
                forall|i: int|
                    0 <= i < moves.len() ==> (#[trigger] moves[i]).card == card && moves[i].played_for == color
                        && moves[i].played_by == player && (degenerate(moves[i].action) || action_ok(p, moves[i].action, color)),
            decreases sqs.len() - k,
        {
            let ball = sqs[k];
            proof {
                assert(balls@.contains(ball.0 as int));
                assert(p.balls[color.idx()].contains(ball.0 as int));
            }
            let sm = self.moves_for_card_square(ball, color, card);
            let ghost m0 = moves@;
            append_as(&mut moves, &sm, card, player);
            proof {
                assert forall|i: int|
                    0 <= i < moves.len() implies (#[trigger] moves[i]).card == card && moves[i].played_for == color
                        && moves[i].played_by == player && (degenerate(moves[i].action) || action_ok(p, moves[i].action, color)) by {
                    if i < m0.len() {
                        assert(moves[i] == m0[i]);
                    } else {
                        let j = i - m0.len();
                        assert(moves[m0.len() + j] == moves[i]);
                    }
                }
                if moves.len() == 0 {
                    assert(sm.len() == 0);
                } else if m0.len() == 0 {
                    assert(square_moves(p, sqs[k as int].0 as int, color, card).len() != 0);
                }
            }
            k = k + 1;
        }
        proof {
            if moves.len() != 0 {
                let i = choose|i: int| 0 <= i < sqs.len() && #[trigger] square_moves(p, sqs[i].0 as int, color, card).len() != 0;
                assert(balls@.contains(sqs[i].0 as int));
            } else {
                assert forall|b: int| balls@.contains(b) implies #[trigger] square_moves(p, b, color, card).len() == 0 by {
                    let i = choose|i: int| 0 <= i < sqs.len() && #[trigger] sqs[i].0 as int == b;
                    assert(square_moves(p, sqs[i].0 as int, color, card).len() == 0);
                }
            }
        }
        moves
    }

    /// The goal moves of `card` for the goal `home`, played for `play_for` by `player`.
    pub fn home_moves_for(home: Home, play_for: Color, player: Color, card: Card) -> (r: Vec<TacMove>)
        ensures
            r.len() == goal_moves_table(home.0, card).len(),
            forall|i: int|
                0 <= i < r.len() ==> #[trigger] r[i] == (TacMove {
                    card,
                    action: TacAction::StepHome {
                        from: goal_moves_table(home.0, card)[i].0,
                        to: goal_moves_table(home.0, card)[i].1,
                    },
                    played_for: play_for,
                    played_by: player,
                }),
            home.0 < 16 ==> forall|i: int|
                0 <= i < r.len() ==> {
                    let (f, t) = #[trigger] goal_moves_table(home.0, card)[i];
                    f < 4 && t < 4 && bit8(home.0, f as int) && !bit8(home.0, t as int)
                },
    {
        let h = home.0;
        let mut moves: Vec<TacMove> = Vec::new();
        if card == Card::One {
            if h == 0b0001 || h == 0b1001 || h == 0b1101 {
                moves.push(TacMove::new(card, TacAction::StepHome { from: 0, to: 1 }, play_for, player));
            } else if h == 0b0010 || h == 0b1010 || h == 0b0011 || h == 0b1011 {
                moves.push(TacMove::new(card, TacAction::StepHome { from: 1, to: 2 }, play_for, player));
            } else if h == 0b0100 || h == 0b0110 || h == 0b0111 {
                moves.push(TacMove::new(card, TacAction::StepHome { from: 2, to: 3 }, play_for, player));
            } else if h == 0b0101 {
                moves.push(TacMove::new(card, TacAction::StepHome { from: 0, to: 1 }, play_for, player));
                moves.push(TacMove::new(card, TacAction::StepHome { from: 2, to: 3 }, play_for, player));
            }
        } else if card == Card::Two {
            if h == 0b0001 || h == 0b1001 {
                moves.push(TacMove::new(card, TacAction::StepHome { from: 0, to: 2 }, play_for, player));
            } else if h == 0b0010 || h == 0b0011 {
                moves.push(TacMove::new(card, TacAction::StepHome { from: 1, to: 3 }, play_for, player));
            }
        } else if card == Card::Three {
            if h == 0b0001 {
                moves.push(TacMove::new(card, TacAction::StepHome { from: 0, to: 3 }, play_for, player));
            }
        }
        proof {
            if h < 16 {
                lemma_bits_of(h);
            }
        }
        moves
    }

    /// The moves of a one, two or three inside the goal of the player played for.
    fn goal_moves(&self, player: Color, card: Card, moves: &mut Vec<TacMove>)
        requires
            self.wf(),
            all_card_moves_ok(*self, old(moves)@, card, player),
        ensures
            all_card_moves_ok(*self, final(moves)@, card, player),
            final(moves)@ == old(moves)@ + if locked_spec(self.pos().homes[play_for_spec(self.pos(), player).idx()]) {
                Seq::<TacMove>::empty()
            } else {
                goal_seq(self.pos().homes[play_for_spec(self.pos(), player).idx()], card, play_for_spec(self.pos(), player), player)
            },
    {
        let ghost b = *self;
        proof {
            self.lemma_wf();
        }
        let play_for = self.play_for(player);
        let home = self.home(play_for);
        if !home.is_locked() {
            let ghost m0 = moves@;
            let hm = Self::home_moves_for(home, play_for, player, card);
            let mut k: usize = 0;
            while k < hm.len()
                invariant
                    k <= hm.len(),
                    home.0 < 16,
                    home.0 == b.pos().homes[play_for.idx()],
                    all_card_moves_ok(b, moves@, card, player),
                    forall|i: int|
                        0 <= i < hm.len() ==> #[trigger] hm[i] == (TacMove {
                            card,
                            action: TacAction::StepHome {
                                from: goal_moves_table(home.0, card)[i].0,
                                to: goal_moves_table(home.0, card)[i].1,
                            },
                            played_for: play_for,
                            played_by: player,
                        }),
                    hm.len() == goal_moves_table(home.0, card).len(),
                    moves@ == m0 + goal_seq(home.0, card, play_for, player).take(k as int),
                    forall|i: int|
                        0 <= i < hm.len() ==> {
                            let (f, t) = #[trigger] goal_moves_table(home.0, card)[i];
                            f < 4 && t < 4 && bit8(home.0, f as int) && !bit8(home.0, t as int)
                        },
                decreases hm.len() - k,
            {
                let m = TacMove::new(card, hm[k].action.copy(), play_for, player);
                proof {
                    assert(hm[k as int] == hm@[k as int]);
                    let (f, t) = goal_moves_table(home.0, card)[k as int];
                    assert(f < 4 && t < 4 && bit8(home.0, f as int) && !bit8(home.0, t as int));
                    assert(card_move_ok(b, m, card, player));
                    lemma_push_ok(b, moves@, m, card, player);
                }
                moves.push(m);
                k = k + 1;
                proof {
                    assert(goal_seq(home.0, card, play_for, player).take(k as int) =~= goal_seq(home.0, card, play_for, player).take(k - 1).push(m));
                    assert(moves@ =~= m0 + goal_seq(home.0, card, play_for, player).take(k as int));
                }
            }
            proof {
                assert(goal_seq(home.0, card, play_for, player).take(k as int) =~= goal_seq(home.0, card, play_for, player));
            }
        } else {
            proof {
                assert(moves@ =~= old(moves)@ + Seq::<TacMove>::empty());
            }
        }
    }

    /// The moves of `card` for each ball on the ring of the player played for.
    fn ring_moves(&self, player: Color, card: Card, moves: &mut Vec<TacMove>)
        requires
            self.wf(),
            all_card_moves_ok(*self, old(moves)@, card, player),
        ensures
            all_card_moves_ok(*self, final(moves)@, card, player),
            final(moves)@.len() >= old(moves)@.len(),
            forall|i: int| 0 <= i < old(moves)@.len() ==> #[trigger] final(moves)@[i] == old(moves)@[i],
            has_ring_moves(self.pos(), play_for_spec(self.pos(), player), card, card, player, final(moves)@),
            exists|bl: Seq<Square>|
                lists(bl, self.pos().balls[play_for_spec(self.pos(), player).idx()]) && final(moves)@ == old(moves)@
                    + #[trigger] ring_seq(self.pos(), play_for_spec(self.pos(), player), card, card, player, bl, bl.len() as int),
    {
        let ghost p = self.pos();
        let ghost b = *self;
        proof {
            self.lemma_wf();
        }
        let play_for = self.play_for(player);
        if !self.can_play(play_for) {
            proof {
                let e = Seq::<Square>::empty();
                assert(p.balls[play_for.idx()] =~= Set::<int>::empty());
                assert(lists(e, p.balls[play_for.idx()]));
                assert(moves@ =~= old(moves)@ + ring_seq(p, play_for, card, card, player, e, 0));
            }
        }
        if self.can_play(play_for) {
            let balls_bb = self.balls_with(play_for);
            let balls = balls_bb.squares();
            proof {
                crate::bitboard::lemma_view_bounded(balls_bb);
                assert(lists(balls@, p.balls[play_for.idx()]));
            }
            let mut k: usize = 0;
            while k < balls.len()
                invariant
                    k <= balls.len(),
                    self.wf(),
                    p == self.pos(),
                    b == *self,
                    pos_wf(p),
                    forall|i: int| 0 <= i < balls.len() ==> p.balls[play_for.idx()].contains(#[trigger] balls[i].0 as int),
                    all_card_moves_ok(b, moves@, card, player),
                    play_for == play_for_spec(p, player),
                    moves@.len() >= old(moves)@.len(),
                    forall|i: int| 0 <= i < old(moves)@.len() ==> #[trigger] moves@[i] == old(moves)@[i],
                    forall|i: int, t: int|
                        #![trigger square_moves(p, balls@[i].0 as int, play_for, card)[t]]
                        0 <= i < k && 0 <= t < square_moves(p, balls@[i].0 as int, play_for, card).len() ==> moves@.contains(
                            relabel(square_moves(p, balls@[i].0 as int, play_for, card)[t], card, player),
                        ),
                    moves@ == old(moves)@ + ring_seq(p, play_for, card, card, player, balls@, k as int),
                decreases balls.len() - k,
            {
                let ball = balls[k];
                proof {
                    assert(p.balls[play_for.idx()].contains(ball.0 as int));
                }
                let ghost before = moves@;
                let sm = self.moves_for_card_square(ball, play_for, card);
                let ghost m0 = moves@;
                append_as(moves, &sm, card, player);
                proof {
                    if card == Card::Tac {
                        assert(square_moves(p, ball.0 as int, play_for, card).len() == 0);
                    }
                    assert forall|j: int| 0 <= j < sm.len() implies offered_action(b, (#[trigger] sm[j]).action, sm[j].played_for, card, player) by {
                        assert(degenerate(sm[j].action) || action_ok(p, sm[j].action, play_for));
                    }
                    lemma_append_ok(b, m0, moves@, sm@, card, player);
                    lemma_append_relabel(moves@, m0, sm@, card, player);
                    assert(ring_seq(p, play_for, card, card, player, balls@, k + 1) == ring_seq(p, play_for, card, card, player, balls@, k as int)
                        + relabel_all(square_moves(p, balls@[k as int].0 as int, play_for, card), card, player));
                    assert forall|i: int, t: int|
                        #![trigger square_moves(p, balls@[i].0 as int, play_for, card)[t]]
                        0 <= i < k + 1 && 0 <= t < square_moves(p, balls@[i].0 as int, play_for, card).len() implies moves@.contains(
                            relabel(square_moves(p, balls@[i].0 as int, play_for, card)[t], card, player),
                        ) by {
                        if i < k {
                            let w = choose|w: int| 0 <= w < m0.len() && m0[w] == relabel(square_moves(p, balls@[i].0 as int, play_for, card)[t], card, player);
                            assert(moves@[w] == m0[w]);
                        } else {
                            assert(sm@[t] == square_moves(p, balls@[i].0 as int, play_for, card)[t]);
                            let m = moves@[m0.len() + t];
                            assert(m == moves[m0.len() + t]);
                            assert(sm[t].action is Step || sm[t].action is StepInHome);
                            assert(m == relabel(sm@[t], card, player));
                        }
                    }
                }
                k = k + 1;
            }
            proof {
                assert forall|sq: int, t: int|
                    #![trigger square_moves(p, sq, play_for, card)[t]]
                    p.balls[play_for.idx()].contains(sq) && 0 <= t < square_moves(p, sq, play_for, card).len() implies moves@.contains(
                        relabel(square_moves(p, sq, play_for, card)[t], card, player),
                    ) by {
                    let i = choose|i: int| 0 <= i < balls.len() && #[trigger] balls[i].0 as int == sq;
                    assert(balls@[i].0 as int == sq);
                    assert(square_moves(p, balls@[i].0 as int, play_for, card)[t] == square_moves(p, sq, play_for, card)[t]);
                }
            }
        }
    }

    /// The moves `player` may make: a trade of each different card during the trade
    /// phase; a tac or a discard when suspended; otherwise the moves of each different
    /// card in hand, or a discard of any card when there are none.
    pub fn get_moves(&self, player: Color) -> (r: Vec<TacMove>)
        requires
            self.wf(),
        ensures
            forall|i: int|
                0 <= i < r.len() ==> self.hands_spec()[player.idx()].contains((#[trigger] r[i]).card) && r[i].played_by
                    == player,
            forall|i: int|
                0 <= i < r.len() ==> ((#[trigger] r[i]).action is Trade <==> (self.trade_spec()
                    && self.traded_spec()[(self.to_move().idx() + 2) % 4] is None)),
            forall|i: int|
                0 <= i < r.len() ==> (#[trigger] r[i]).action is Trade || r[i].action is Discard || (offered_action(
                    *self,
                    r[i].action,
                    r[i].played_for,
                    r[i].card,
                    player,
                ) && (r[i].card != Card::Tac ==> !self.discard_spec())),
            self.hands_spec()[player.idx()].len() > 0 ==> r.len() > 0,
            player == self.to_move() && self.moves_made() < u32::MAX ==> forall|i: int|
                0 <= i < r.len() ==> degenerate((#[trigger] r[i]).action) || self.play_ok(r[i]),
            !(self.trade_spec() && self.traded_spec()[(self.to_move().idx() + 2) % 4] is None) && !self.discard_spec()
                ==> forall|c: Card| self.hands_spec()[player.idx()].contains(c) ==> #[trigger] card_offers(*self, c, player, r@),
            !(self.trade_spec() && self.traded_spec()[(self.to_move().idx() + 2) % 4] is None) && !self.discard_spec()
                && (exists|i: int| 0 <= i < r.len() && (#[trigger] r[i]).action is Discard) ==> forall|c: Card|
                self.hands_spec()[player.idx()].contains(c) ==> #[trigger] card_offers(*self, c, player, Seq::empty()),
    {
        let ghost b = *self;
        proof {
            self.lemma_wf();
        }
        let hand = self.hand(player);
        let cards = hand.distinct_cards();
        let ghost hs = hand@;
        let trade = self.need_trade();
        let mut moves: Vec<TacMove> = Vec::new();
        if trade {
            let mut k: usize = 0;
            while k < cards.len()
                invariant
                    k <= cards.len(),
                    moves.len() == k,
                    forall|i: int| 0 <= i < cards.len() ==> hs.contains(#[trigger] cards[i]),
                    forall|i: int|
                        0 <= i < k ==> (#[trigger] moves[i]).card == cards[i] && moves[i].played_by == player
                            && moves[i].action is Trade,
                decreases cards.len() - k,
            {
                moves.push(TacMove::new(cards[k], TacAction::Trade, player, player));
                k = k + 1;
            }
            proof {
                lemma_all_playable(b, moves@, player);
                if hs.len() > 0 {
                    assert(hs.contains(hs[0]));
                    assert(cards@.contains(hs[0]));
                }
            }
            return moves;
        }
        if self.force_discard() {
            let tac_at = hand.position(Card::Tac);
            if let Some(t) = tac_at {
                proof {
                    assert(hs[t as int] == Card::Tac);
                    assert(hs.contains(Card::Tac));
                }
                let pf = self.play_for(player);
                let tm = self.tac_moves(pf);
                append_as(&mut moves, &tm, Card::Tac, player);
                proof {
                    assert forall|j: int| 0 <= j < tm.len() implies offered_action(b, (#[trigger] tm[j]).action, tm[j].played_for, Card::Tac, player) by {
                        assert(card_move_ok(b, tm[j], Card::Tac, pf));
                    }
                    assert forall|i: int| 0 <= i < moves.len() implies hs.contains((#[trigger] moves[i]).card) && moves[i].played_by == player
                        && moves[i].card == Card::Tac && offered_action(b, moves[i].action, moves[i].played_for, Card::Tac, player) by {
                        assert(moves[0 + i] == moves[i]);
                        assert(offered_action(b, tm[i].action, tm[i].played_for, Card::Tac, player));
                    }
                }
            }
            let ghost m0 = moves@;
            assert forall|i: int|
                0 <= i < m0.len() implies hs.contains((#[trigger] m0[i]).card) && m0[i].played_by == player && m0[i].card
                    == Card::Tac && offered_action(b, m0[i].action, m0[i].played_for, Card::Tac, player) by {
                assert(m0[i] == moves[i]);
            }
            let mut k: usize = 0;
            while k < cards.len()
                invariant
                    k <= cards.len(),
                    moves.len() == m0.len() + k,
                    forall|i: int| 0 <= i < cards.len() ==> hs.contains(#[trigger] cards[i]),
                    forall|i: int| 0 <= i < m0.len() ==> moves[i] == m0[i],
                    forall|i: int|
                        0 <= i < m0.len() ==> hs.contains((#[trigger] m0[i]).card) && m0[i].played_by == player
                            && m0[i].card == Card::Tac && offered_action(b, m0[i].action, m0[i].played_for, Card::Tac, player),
                    forall|i: int|
                        0 <= i < k ==> (#[trigger] moves[m0.len() + i]).card == cards[i] && moves[m0.len() + i].played_by
                            == player && moves[m0.len() + i].action is Discard,
                decreases cards.len() - k,
            {
                moves.push(TacMove::new(cards[k], TacAction::Discard, player, player));
                k = k + 1;
            }
            proof {
                assert forall|i: int| 0 <= i < moves.len() implies hs.contains((#[trigger] moves[i]).card) && moves[i].played_by
                    == player && (moves[i].action is Discard || (moves[i].card == Card::Tac && offered_action(
                    b,
                    moves[i].action,
                    moves[i].played_for,
                    Card::Tac,
                    player,
                ))) by {
                    if i < m0.len() {
                        assert(moves[i] == m0[i]);
                    } else {
                        assert(moves[m0.len() + (i - m0.len())] == moves[i]);
                    }
                }
                lemma_all_playable(b, moves@, player);
                if hs.len() > 0 {
                    assert(hs.contains(hs[0]));
                    assert(cards@.contains(hs[0]));
                    let j = choose|j: int| 0 <= j < cards.len() && cards[j] == hs[0];
                    assert(moves[m0.len() + j].action is Discard);
                }
            }
            return moves;
        }
        let mut k: usize = 0;
        while k < cards.len()
            invariant
                k <= cards.len(),
                self.wf(),
                b == *self,
                !self.discard_spec(),
                forall|i: int| 0 <= i < cards.len() ==> hs.contains(#[trigger] cards[i]),
                hs == self.hands_spec()[player.idx()],
                forall|i: int|
                    0 <= i < moves.len() ==> hs.contains((#[trigger] moves[i]).card) && card_move_ok(b, moves[i], moves[i].card, player),
                forall|j: int| 0 <= j < k ==> #[trigger] card_offers(b, cards[j], player, moves@),
                moves@.len() == 0 ==> forall|j: int| 0 <= j < k ==> #[trigger] card_offers(b, cards[j], player, Seq::empty()),
            decreases cards.len() - k,
        {
            let mut cm = self.moves_for_card(player, cards[k]);
            let ghost m0 = moves@;
            let ghost c0 = cm@;
            moves.append(&mut cm);
            proof {
                assert forall|i: int| 0 <= i < moves.len() implies hs.contains((#[trigger] moves[i]).card) && card_move_ok(
                    b,
                    moves[i],
                    moves[i].card,
                    player,
                ) by {
                    if i < m0.len() {
                        assert(moves[i] == m0[i]);
                    } else {
                        assert(moves[i] == c0[i - m0.len()]);
                    }
                }
                assert forall|x: TacMove| m0.contains(x) implies moves@.contains(x) by {
                    let w = choose|w: int| 0 <= w < m0.len() && m0[w] == x;
                    assert(moves@[w] == m0[w]);
                }
                assert forall|x: TacMove| c0.contains(x) implies moves@.contains(x) by {
                    let w = choose|w: int| 0 <= w < c0.len() && c0[w] == x;
                    assert(moves@[m0.len() + w] == c0[w]);
                }
                assert forall|j: int| 0 <= j < k + 1 implies #[trigger] card_offers(b, cards[j], player, moves@) by {
                    if j < k {
                        lemma_card_offers_grow(b, cards[j], player, m0, moves@);
                    } else {
                        lemma_card_offers_grow(b, cards[j], player, c0, moves@);
                    }
                }
                if moves@.len() == 0 {
                    assert(m0.len() == 0 && c0.len() == 0);
                    assert(c0 =~= Seq::<TacMove>::empty());
                }
            }
            k = k + 1;
        }
        let ghost mids = moves@;
        if moves.len() == 0 {
            let mut k: usize = 0;
            while k < cards.len()
                invariant
                    k <= cards.len(),
                    moves.len() == k,
                    forall|i: int| 0 <= i < cards.len() ==> hs.contains(#[trigger] cards[i]),
                    forall|i: int|
                        0 <= i < k ==> (#[trigger] moves[i]).card == cards[i] && moves[i].played_by == player
                            && moves[i].action is Discard,
                decreases cards.len() - k,
            {
                moves.push(TacMove::new(cards[k], TacAction::Discard, player, player));
                k = k + 1;
            }
            proof {
                if hs.len() > 0 {
                    assert(hs.contains(hs[0]));
                    assert(cards@.contains(hs[0]));
                }
            }
        }
        proof {
            lemma_all_playable(b, moves@, player);
            assert forall|c: Card| hs.contains(c) implies #[trigger] card_offers(b, c, player, moves@) by {
                assert(cards@.contains(c));
                let j = choose|j: int| 0 <= j < cards.len() && cards@[j] == c;
                assert(card_offers(b, cards[j], player, mids));
                lemma_card_offers_grow(b, c, player, mids, moves@);
            }
            if exists|i: int| 0 <= i < moves.len() && (#[trigger] moves@[i]).action is Discard {
                let i = choose|i: int| 0 <= i < moves.len() && (#[trigger] moves@[i]).action is Discard;
                if mids.len() > 0 {
                    assert(moves@[i] == mids[i]);
                    assert(card_move_ok(b, mids[i], mids[i].card, player));
                }
                assert forall|c: Card| hs.contains(c) implies #[trigger] card_offers(b, c, player, Seq::empty()) by {
                    assert(cards@.contains(c));
                    let j = choose|j: int| 0 <= j < cards.len() && cards@[j] == c;
                    assert(card_offers(b, cards[j], player, Seq::empty()));
                }
            }
        }
        moves
    }

    /// The moves of a tac for `player`: the moves of the last card played, on the
    /// position before it was played.
    pub fn tac_moves(&self, player: Color) -> (r: Vec<TacMove>)
        requires
            self.wf(),
        ensures
            all_card_moves_ok(*self, r@, Card::Tac, player),
            last_played_spec(self.last_cards().0, self.last_cards().1) is None ==> r@.len() == 0,
            last_played_spec(self.last_cards().0, self.last_cards().1) matches Some(last) ==> has_ring_moves(
                self.prev_pos(),
                play_for_spec(self.prev_pos(), player),
                last,
                Card::Tac,
                player,
                r@,
            ),
            last_played_spec(self.last_cards().0, self.last_cards().1) == Some(Card::Seven)
                && !self.prev_pos().balls[play_for_spec(self.prev_pos(), player).idx()].is_empty() ==> ring_splits_offered(
                r@,
                self.prev_pos().balls[play_for_spec(self.prev_pos(), player).idx()],
            ),
            last_played_spec(self.last_cards().0, self.last_cards().1) is Some && exact_kind(
                self.prev_pos(),
                last_played_spec(self.last_cards().0, self.last_cards().1)->0,
                player,
            ) ==> exists|s: Board, bl: Seq<Square>|
                s.pos() == self.prev_pos() && s.hands_spec() == self.hands_spec() && lists(
                    bl,
                    self.prev_pos().balls[play_for_spec(self.prev_pos(), player).idx()],
                ) && r@ == relabel_all(
                    #[trigger] card_seq(s, last_played_spec(self.last_cards().0, self.last_cards().1)->0, player, bl),
                    Card::Tac,
                    player,
                ),
        decreases 1int,
    {
        let ghost b = *self;
        let mut moves: Vec<TacMove> = Vec::new();
        proof {
            self.lemma_wf();
        }
        if let Some(last) = self.last_played() {
            let mut state = self.duplicate();
            state.tac_undo();
            let inner = state.moves_for_card(player, last);
            append_as(&mut moves, &inner, Card::Tac, player);
            proof {
                let pp = b.prev_pos();
                let pf = play_for_spec(pp, player);
                assert forall|sq: int, t: int|
                    #![trigger square_moves(pp, sq, pf, last)[t]]
                    pp.balls[pf.idx()].contains(sq) && 0 <= t < square_moves(pp, sq, pf, last).len() implies moves@.contains(
                        relabel(square_moves(pp, sq, pf, last)[t], Card::Tac, player),
                    ) by {
                    let x = relabel(square_moves(pp, sq, pf, last)[t], last, player);
                    assert(inner@.contains(x));
                    let w = choose|w: int| 0 <= w < inner@.len() && inner@[w] == x;
                    lemma_square_moves_shape(pp, sq, pf, last);
                    assert(moves@[0 + w] == moves[w]);
                    assert(moves@[w] == relabel(square_moves(pp, sq, pf, last)[t], Card::Tac, player));
                }
                assert forall|j: int| 0 <= j < inner.len() implies offered_action(b, (#[trigger] inner[j]).action, inner[j].played_for, Card::Tac, player) by {
                    assert(card_move_ok(state, inner[j], last, player));
                }
                lemma_append_ok(b, Seq::empty(), moves@, inner@, Card::Tac, player);
                if exact_kind(pp, last, player) {
                    let bl = choose|bl: Seq<Square>| lists(bl, pp.balls[pf.idx()]) && inner@ == #[trigger] card_seq(state, last, player, bl);
                    lemma_card_seq_shape(state, last, player, bl);
                    assert forall|i: int| 0 <= i < 0 implies moves@[i] == Seq::<TacMove>::empty()[i] by {}
                    lemma_append_relabel(moves@, Seq::empty(), inner@, Card::Tac, player);
                    assert(moves@ =~= relabel_all(card_seq(state, last, player, bl), Card::Tac, player));
                }
                if last == Card::Seven && !pp.balls[pf.idx()].is_empty() {
                    let bl = choose|bl: Seq<Square>|
                        lists(bl, pp.balls[pf.idx()]) && forall|k: int|
                            0 <= k < splits(Seq::empty(), bl, 7).len() ==> offers(inner@, #[trigger] splits(Seq::empty(), bl, 7)[k]);
                    assert forall|k: int| 0 <= k < splits(Seq::empty(), bl, 7).len() implies offers(
                        moves@,
                        #[trigger] splits(Seq::empty(), bl, 7)[k],
                    ) by {
                        let x = choose|x: int| 0 <= x < inner@.len() && steps_of(#[trigger] inner@[x]) == splits(Seq::empty(), bl, 7)[k];
                        assert(moves@[0 + x] == moves[x]);
                        assert(same_action(moves@[x].action, inner@[x].action));
                        assert(steps_of(moves@[x]) == steps_of(inner@[x]));
                    }
                }
            }
        }
        moves
    }

    /// The moves of `card` for the ball of color `color` on `start`.
    pub fn moves_for_card_square(&self, start: Square, color: Color, card: Card) -> (r: Vec<TacMove>)
        requires
            self.wf(),
            start.0 < 64,
            card == Card::Warrior ==> self.pos().balls[color.idx()].contains(start.0 as int),
        ensures
            r@ == square_moves(self.pos(), start.0 as int, color, card),
            self.pos().balls[color.idx()].contains(start.0 as int) ==> forall|i: int|
                0 <= i < r.len() ==> degenerate(#[trigger] r[i].action) || action_ok(self.pos(), r[i].action, color),
            forall|i: int|
                0 <= i < r.len() ==> (#[trigger] r[i]).card == card && r[i].played_for == color && (r[i].action is Step
                    || r[i].action is StepInHome),
    {
        let ghost p = self.pos();
        let ghost s = start.0 as int;
        proof {
            self.lemma_wf();
        }
        let mut moves: Vec<TacMove> = Vec::new();
        if let Some(amount) = card.is_simple() {
            let to = start.add(amount);
            if self.can_move(start, to) {
                moves.push(TacMove::new(card, TacAction::Step { from: start, to }, color, color));
            }
            let ghost after_step = moves@;
            let dist_home = start.distance_to_home(color);
            if dist_home < amount && self.can_move(start, color.home().add(1)) {
                if let Some(goal_pos) = self.position_in_home(start, amount, color) {
                    moves.push(TacMove::new(card, TacAction::StepInHome { from: start, to: goal_pos }, color, color));
                    proof {
                        lemma_free_goal(p.homes[color.idx()], goal_pos as int);
                    }
                }
            }
            assert(moves@ == simple_moves(p, s, color, card));
        } else {
            assert(moves@ == simple_moves(p, s, color, card));
        }
        let ghost simple = moves@;
        match card {
            Card::Four => {
                let ghost before = moves@;
                let free_back = !self.occupied(start.sub(1)) && !self.occupied(start.sub(2)) && !self.occupied(
                    start.sub(3),
                ) && !self.occupied(start.sub(4));
                proof {
                    assert(free_back == free_behind(p, s)) by {
                        if free_back {
                            assert forall|i: int| 1 <= i < 5 implies !occupied_spec(p, #[trigger] ((s + 64 - i) % 64)) by {
                                assert(i == 1 || i == 2 || i == 3 || i == 4);
                            }
                        } else {
                            assert(occupied_spec(p, (s + 64 - 1) % 64) || occupied_spec(p, (s + 64 - 2) % 64)
                                || occupied_spec(p, (s + 64 - 3) % 64) || occupied_spec(p, (s + 64 - 4) % 64));
                        }
                    }
                }
                if free_back {
                    moves.push(TacMove::new(card, TacAction::Step { from: start, to: start.add(60) }, color, color));
                }
                let ghost after_back = moves@;
                let min_rev_dist: u8 = 64 - start.distance_to_home(color) + 1;
                let free = self.home(color).free();
                if min_rev_dist == 65 && free == 4 && !self.fresh(color) {
                    moves.push(TacMove::new(card, TacAction::StepInHome { from: start, to: 4 }, color, color));
                } else if free > 0 && min_rev_dist + free > 4 && 2 <= min_rev_dist && min_rev_dist <= 4 {
                    let entry = color.home();
                    let mut all_free = true;
                    let mut i: u8 = 0;
                    while i < min_rev_dist - 1
                        invariant
                            2 <= min_rev_dist <= 4,
                            i <= min_rev_dist - 1,
                            entry.0 as int == color.home_sq(),
                            self.wf(),
                            p == self.pos(),
                            all_free == free_from_entry(p, color, i as int),
                        decreases min_rev_dist - 1 - i,
                    {
                        let ghost prev = all_free;
                        if self.occupied(entry.add(i)) {
                            all_free = false;
                        }
                        proof {
                            if all_free {
                                assert forall|j: int| 0 <= j < i + 1 implies !occupied_spec(
                                    p,
                                    #[trigger] ((color.home_sq() + j) % 64),
                                ) by {
                                    if j < i {
                                        assert(free_from_entry(p, color, i as int));
                                    }
                                }
                            } else if prev {
                                assert(occupied_spec(p, (color.home_sq() + i) % 64));
                            }
                        }
                        i = i + 1;
                    }
                    if all_free {
                        let goal = 4 - min_rev_dist;
                        moves.push(TacMove::new(card, TacAction::StepInHome { from: start, to: goal }, color, color));
                        proof {
                            lemma_free_goal(p.homes[color.idx()], goal as int);
                        }
                    }
                }
                proof {
                    assert(moves@ == simple + four_moves(p, s, color));
                }
            },
            Card::Warrior => {
                let target = self.warrior_target(start, color);
                moves.push(TacMove::new(card, TacAction::Step { from: start, to: target }, color, color));
            },
            _ => {},
        }
        proof {
            lemma_square_moves_shape(p, s, color, card);
            if p.balls[color.idx()].contains(s) {
                lemma_square_moves_ok(p, s, color, card);
            }
        }
        moves
    }
}

} // verus!
