//! A static evaluation of a board, from the side of the player to move.
use crate::bitboard::{lemma_view_bounded, BitBoard};
use crate::bits::ones8;
use crate::board::{dist_next_spec, pos_wf, Board, Position};
use crate::card::Card;
use crate::color::{color_of, Color};
use crate::home::{first_set_from, lemma_home_bits, locked_spec, unlocked_upto};
use crate::movegen::{can_move_spec, square_moves};
use crate::seven::lemma_unlocked_le_amount;
use crate::square::{dist_home_spec, forward_dist, Square};
use crate::tacmove::TacAction;
use vstd::prelude::*;

verus! {

/// Worth of a won game.
pub const WIN: i64 = 10000;
/// Worth of each ball in the goals of a side, over the other side's.
pub const IN_HOME: i64 = 500;
/// Worth of each goal of a side that has a ball and room at its entry.
pub const HOME_FREE: i64 = 13;
/// Worth of each goal of a side with at most one ball that can still move.
pub const HOME_CLEAN: i64 = 4;
/// Worth of each color of a side with a ball on the ring.
pub const IN_PLAY: i64 = 28;
/// Most a ball earns for being near its goal.
pub const FWD_DIST_MAX: i64 = 17;
/// What a ball earns for being less than 13 steps from its goal.
pub const FWD_IN_HOME: i64 = 21;
/// Worth of each step a ball can move freely.
pub const MOBILITY: i64 = 2;
/// Worth of each enemy ball that threatens a ball.
pub const CAPTURABILITY: i64 = 12;
/// Worth of a ball that a four takes backwards into the goal.
pub const FOUR_PROXIMITY: i64 = 23;
/// Worth of each ball of a side on the ring, over the other side's.
pub const BACKUP: i64 = 12;

/// The sum of `f` over the squares of `s` below `n`.
pub open spec fn ring_sum(s: Set<int>, f: spec_fn(int) -> int, n: int) -> int
    decreases n,
{
    if n <= 0 {
        0
    } else {
        ring_sum(s, f, n - 1) + if s.contains(n - 1) {
            f(n - 1)
        } else {
            0
        }
    }
}

/// The sum of `f` over the first `k` squares of `l`.
pub open spec fn list_sum(l: Seq<Square>, f: spec_fn(int) -> int, k: int) -> int
    decreases k,
{
    if k <= 0 {
        0
    } else {
        list_sum(l, f, k - 1) + f(l[k - 1].0 as int)
    }
}

/// `l` lists the squares of `s`, in increasing order.
pub open spec fn lists(l: Seq<Square>, s: Set<int>) -> bool {
    &&& forall|i: int| 0 <= i < l.len() ==> s.contains(#[trigger] l[i].0 as int)
    &&& forall|x: int| s.contains(x) ==> exists|i: int| 0 <= i < l.len() && #[trigger] l[i].0 as int == x
    &&& forall|i: int, j: int| 0 <= i < j < l.len() ==> (#[trigger] l[i]).0 < (#[trigger] l[j]).0
    &&& forall|x: int| s.contains(x) ==> 0 <= x < 64
}

/// Squares without a member of `s` add nothing.
proof fn lemma_ring_sum_gap(s: Set<int>, f: spec_fn(int) -> int, a: int, b: int)
    requires
        0 <= a <= b,
        forall|x: int| a <= x < b ==> !s.contains(x),
    ensures
        ring_sum(s, f, b) == ring_sum(s, f, a),
    decreases b - a,
{
    if a < b {
        lemma_ring_sum_gap(s, f, a, b - 1);
    }
}

/// Summing over a list of the squares of a set sums over the set.
proof fn lemma_list_sum(s: Set<int>, f: spec_fn(int) -> int, l: Seq<Square>, k: int)
    requires
        lists(l, s),
        0 <= k <= l.len(),
    ensures
        list_sum(l, f, k) == ring_sum(s, f, if k < l.len() { l[k].0 as int } else { 64 }),
    decreases k,
{
    let next = if k < l.len() { l[k].0 as int } else { 64 };
    if k == 0 {
        assert forall|x: int| 0 <= x < next implies !s.contains(x) by {
            if s.contains(x) {
                let i = choose|i: int| 0 <= i < l.len() && #[trigger] l[i].0 as int == x;
                if i > 0 {
                    assert(l[0].0 < l[i].0);
                }
            }
        }
        lemma_ring_sum_gap(s, f, 0, next);
    } else {
        lemma_list_sum(s, f, l, k - 1);
        let cur = l[k - 1].0 as int;
        assert(s.contains(cur));
        assert(0 <= cur < 64);
        assert forall|x: int| cur + 1 <= x < next implies !s.contains(x) by {
            if s.contains(x) {
                let i = choose|i: int| 0 <= i < l.len() && #[trigger] l[i].0 as int == x;
                if i < k {
                    if i < k - 1 {
                        assert(l[i].0 < l[k - 1].0);
                    }
                } else if i > k {
                    assert(l[k].0 < l[i].0);
                }
            }
        }
        if k < l.len() {
            assert(l[k - 1].0 < l[k].0);
        }
        assert(ring_sum(s, f, cur + 1) == ring_sum(s, f, cur) + f(cur));
        lemma_ring_sum_gap(s, f, cur + 1, next);
    }
}

/// What a ball of `c` on `sq` earns for its nearness to the goal.
pub open spec fn fwd_value(p: Position, c: Color, sq: int) -> int {
    let d = dist_home_spec(sq, c);
    let d2 = if d == 0 && p.fresh[c.idx()] {
        64
    } else {
        d
    };
    17 * ((64 - d2) * (64 - d2)) / 4096 + if d2 < 13 {
        21int
    } else {
        0
    }
}

/// Some ball of `c` can go backwards into its goal with a four.
pub open spec fn four_near(p: Position, c: Color) -> bool {
    exists|b: int, i: int|
        p.balls[c.idx()].contains(b) && 0 <= i < square_moves(p, b, c, Card::Four).len() && (#[trigger] square_moves(
            p,
            b,
            c,
            Card::Four,
        )[i]).action is StepInHome
}

/// How near the balls of `c` are to their goal.
pub open spec fn near_goal_spec(p: Position, c: Color) -> int {
    ring_sum(p.balls[c.idx()], |sq: int| fwd_value(p, c, sq), 64) + if four_near(p, c) {
        23int
    } else {
        0
    }
}

/// The enemy ball on `e` threatens the ball on `m`.
pub open spec fn threatens(p: Position, e: int, m: int) -> bool {
    let enemy_me = forward_dist(e, m);
    let me_enemy = forward_dist(m, e);
    let can_reach = enemy_me < 14 && can_move_spec(p, e, m);
    let can_reach_four = me_enemy == 4 && can_move_spec(p, m, e);
    let can_reach_seven = enemy_me < 8;
    let eleven = enemy_me == 11;
    can_reach || can_reach_four || (can_reach_seven && !eleven)
}

/// The balls of the players before and after `c`.
pub open spec fn enemies_of(p: Position, c: Color) -> Set<int> {
    p.balls[color_of(c.idx() + 3).idx()].union(p.balls[color_of(c.idx() + 1).idx()])
}

/// How many enemy balls threaten the ball on `m`.
pub open spec fn threats(p: Position, c: Color, m: int) -> int {
    ring_sum(enemies_of(p, c), |e: int| if threatens(p, e, m) { 1int } else { 0int }, 64)
}

/// How exposed the balls of `c` are to capture.
pub open spec fn capturability_spec(p: Position, c: Color) -> int {
    12 * ring_sum(p.balls[c.idx()], |m: int| threats(p, c, m), 64)
}

/// How far the ball of `c` on `m` can move before it reaches the next ball.
pub open spec fn ball_mobility(p: Position, c: Color, m: int) -> int {
    dist_next_spec(p, m)
}

/// How freely the balls of `c` can move: the sum over its balls of the distance to
/// the next ball.
pub open spec fn mobility_spec(p: Position, c: Color) -> int {
    ring_sum(p.balls[c.idx()], |m: int| ball_mobility(p, c, m), 64)
}

/// The goal of `c` has a ball and room at its entry.
pub open spec fn home_free_spec(p: Position, c: Color) -> bool {
    ones8(p.homes[c.idx()], 8) > 0 && first_set_from(p.homes[c.idx()], 0) > 0
}

/// The goal of `c` is locked, or has exactly one ball that cannot move.
pub open spec fn home_clean_spec(p: Position, c: Color) -> bool {
    locked_spec(p.homes[c.idx()]) || ones8(p.homes[c.idx()], 8) - unlocked_upto(p.homes[c.idx()], 4).len() == 1
}

/// `1` when `b` holds, else `0`.
pub open spec fn ind(b: bool) -> int {
    if b {
        1
    } else {
        0
    }
}

/// What the side of `pl` has of `f` over the other side.
pub open spec fn side_diff(f: spec_fn(Color) -> int, pl: Color) -> int {
    (f(pl) + f(color_of(pl.idx() + 2))) - (f(color_of(pl.idx() + 1)) + f(color_of(pl.idx() + 3)))
}

/// The goal of `c` is full.
pub open spec fn full_spec(p: Position, c: Color) -> bool {
    p.homes[c.idx()] == 15
}

/// The weighted sum of the evaluation, for a game not yet decided.
pub open spec fn eval_sum(p: Position, pl: Color) -> int {
    side_diff(|c: Color| ones8(p.homes[c.idx()], 8) as int, pl) * 500 + side_diff(
        |c: Color| ind(home_free_spec(p, c)),
        pl,
    ) * 13 + side_diff(|c: Color| ind(home_clean_spec(p, c)), pl) * 4 + side_diff(|c: Color| near_goal_spec(p, c), pl)
        + side_diff(|c: Color| ind(!p.balls[c.idx()].is_empty()), pl) * 28 - side_diff(
        |c: Color| capturability_spec(p, c),
        pl,
    ) + MOBILITY * side_diff(|c: Color| mobility_spec(p, c), pl) + side_diff(|c: Color| p.balls[c.idx()].len() as int, pl) * 12
}

/// The evaluation of a position for the side of `pl`: positive when it stands better.
pub open spec fn eval_spec(p: Position, pl: Color) -> int {
    if full_spec(p, pl) && full_spec(p, color_of(pl.idx() + 2)) {
        10000
    } else if full_spec(p, color_of(pl.idx() + 1)) && full_spec(p, color_of(pl.idx() + 3)) {
        -10000
    } else {
        eval_sum(p, pl)
    }
}

/// Nothing on the ring sums to nothing.
proof fn lemma_ring_sum_empty(f: spec_fn(int) -> int, n: int)
    ensures
        ring_sum(Set::<int>::empty(), f, n) == 0,
    decreases n,
{
    if n > 0 {
        lemma_ring_sum_empty(f, n - 1);
    }
}

/// With no ball on the ring, all the ring terms of a color are nothing.
proof fn lemma_no_ring_terms(p: Position, c: Color)
    requires
        p.balls[c.idx()] == Set::<int>::empty(),
    ensures
        near_goal_spec(p, c) == 0,
        capturability_spec(p, c) == 0,
        mobility_spec(p, c) == 0,
        ind(!p.balls[c.idx()].is_empty()) == 0,
        p.balls[c.idx()].len() == 0,
{
    lemma_ring_sum_empty(|sq: int| fwd_value(p, c, sq), 64);
    lemma_ring_sum_empty(|m: int| threats(p, c, m), 64);
    lemma_ring_sum_empty(|m: int| ball_mobility(p, c, m), 64);
    assert(!four_near(p, c));
    assert(p.balls[c.idx()].is_empty());
}

/// With no ball on the ring, only the goals count: their balls, whether they are free
/// to enter and whether they are clean.
proof fn lemma_eval_no_ring(p: Position, pl: Color)
    requires
        p.balls.len() == 4,
        forall|i: int| #![trigger p.balls[i]] 0 <= i < 4 ==> p.balls[i] == Set::<int>::empty(),
    ensures
        eval_sum(p, pl) == side_diff(|c: Color| ones8(p.homes[c.idx()], 8) as int, pl) * 500 + side_diff(
            |c: Color| ind(home_free_spec(p, c)),
            pl,
        ) * 13 + side_diff(|c: Color| ind(home_clean_spec(p, c)), pl) * 4,
{
    assert(p.balls[0] == Set::<int>::empty());
    assert(p.balls[1] == Set::<int>::empty());
    assert(p.balls[2] == Set::<int>::empty());
    assert(p.balls[3] == Set::<int>::empty());
    lemma_no_ring_terms(p, Color::Black);
    lemma_no_ring_terms(p, Color::Blue);
    lemma_no_ring_terms(p, Color::Green);
    lemma_no_ring_terms(p, Color::Red);
    let ng = |c: Color| near_goal_spec(p, c);
    let pg = |c: Color| ind(!p.balls[c.idx()].is_empty());
    let cp = |c: Color| capturability_spec(p, c);
    let mb = |c: Color| mobility_spec(p, c);
    let bk = |c: Color| p.balls[c.idx()].len() as int;
    assert(side_diff(ng, pl) == 0 && side_diff(pg, pl) == 0 && side_diff(cp, pl) == 0 && side_diff(mb, pl) == 0
        && side_diff(bk, pl) == 0) by {
        match pl {
            Color::Black => {},
            Color::Blue => {},
            Color::Green => {},
            Color::Red => {},
        }
    }
}

/// A ball in a goal counts for the side whose goal it is: with no ball on the ring and
/// all else equal, one more ball in the goal of the player to move raises its
/// evaluation by the worth of a ball in the goal (500), give or take the goal being
/// free to enter (13) and clean (4), so it never lowers it.
#[verifier::rlimit(40)]
pub proof fn law_goal_ball_counts_for_the_mover(p: Position, q: Position, pl: Color)
    requires
        p.balls.len() == 4,
        q.balls.len() == 4,
        p.homes.len() == 4,
        q.homes.len() == 4,
        forall|i: int| #![trigger p.balls[i]] 0 <= i < 4 ==> p.balls[i] == Set::<int>::empty(),
        forall|i: int| #![trigger q.balls[i]] 0 <= i < 4 ==> q.balls[i] == Set::<int>::empty(),
        forall|c: Color| c != pl ==> #[trigger] q.homes[c.idx()] == p.homes[c.idx()],
        ones8(q.homes[pl.idx()], 8) == ones8(p.homes[pl.idx()], 8) + 1,
        !(full_spec(p, pl) && full_spec(p, color_of(pl.idx() + 2))),
        !(full_spec(p, color_of(pl.idx() + 1)) && full_spec(p, color_of(pl.idx() + 3))),
        !(full_spec(q, pl) && full_spec(q, color_of(pl.idx() + 2))),
    ensures
        eval_spec(q, pl) == eval_spec(p, pl) + 500 + 13 * (ind(home_free_spec(q, pl)) - ind(home_free_spec(p, pl))) + 4 * (ind(
            home_clean_spec(q, pl),
        ) - ind(home_clean_spec(p, pl))),
        eval_spec(q, pl) >= eval_spec(p, pl) + 483,
{
    lemma_eval_no_ring(p, pl);
    lemma_eval_no_ring(q, pl);
    let gp = |c: Color| ones8(p.homes[c.idx()], 8) as int;
    let gq = |c: Color| ones8(q.homes[c.idx()], 8) as int;
    let fp = |c: Color| ind(home_free_spec(p, c));
    let fq = |c: Color| ind(home_free_spec(q, c));
    let cp = |c: Color| ind(home_clean_spec(p, c));
    let cq = |c: Color| ind(home_clean_spec(q, c));
    assert forall|c: Color| c != pl implies #[trigger] gq(c) == gp(c) && fq(c) == fp(c) && cq(c) == cp(c) by {
        assert(q.homes[c.idx()] == p.homes[c.idx()]);
    }
    lemma_side_diff_one(gp, gq, pl);
    lemma_side_diff_one(fp, fq, pl);
    lemma_side_diff_one(cp, cq, pl);
    let a = color_of(pl.idx() + 1);
    let d = color_of(pl.idx() + 3);
    assert(a != pl && d != pl) by {
        match pl {
            Color::Black => {},
            Color::Blue => {},
            Color::Green => {},
            Color::Red => {},
        }
    }
    assert(q.homes[a.idx()] == p.homes[a.idx()]);
    assert(q.homes[d.idx()] == p.homes[d.idx()]);
    assert(!(full_spec(q, a) && full_spec(q, d)));
}

/// Changing `f` for `pl` alone changes what the side of `pl` has over the other side
/// by just as much.
proof fn lemma_side_diff_one(f: spec_fn(Color) -> int, g: spec_fn(Color) -> int, pl: Color)
    requires
        forall|c: Color| c != pl ==> #[trigger] g(c) == f(c),
    ensures
        side_diff(g, pl) - side_diff(f, pl) == g(pl) - f(pl),
{
    let a = color_of(pl.idx() + 1);
    let b = color_of(pl.idx() + 2);
    let d = color_of(pl.idx() + 3);
    assert(a != pl && b != pl && d != pl) by {
        match pl {
            Color::Black => {},
            Color::Blue => {},
            Color::Green => {},
            Color::Red => {},
        }
    }
    assert(g(a) == f(a) && g(b) == f(b) && g(d) == f(d));
}

impl Board {
    /// The evaluation of the board from the side of the player to move: the game won
    /// or lost, else a weighted sum of balls in the goals, goals free to enter and
    /// clean, nearness to the goals, balls in play, exposure to capture, freedom to
    /// move and balls on the ring, the side's over the other side's.
    pub fn eval(&self) -> (r: i64)
        requires
            self.wf(),
        ensures
            r == eval_spec(self.pos(), self.to_move()),
    {
        proof {
            self.lemma_wf();
        }
        let p = self.current_player();
        let e = p.next();
        if self.won(p) {
            return WIN;
        } else if self.won(e) {
            proof {
                assert(color_of(e.idx() + 2) == color_of(p.idx() + 3));
            }
            return -WIN;
        }
        proof {
            assert(color_of(e.idx() + 2) == color_of(p.idx() + 3));
        }
        let mut eval: i64 = 0;
        eval = eval + self.goal_diff(p) * IN_HOME;
        eval = eval + self.free_diff(p) * HOME_FREE;
        eval = eval + self.clean_diff(p) * HOME_CLEAN;
        eval = eval + self.near_diff(p);
        eval = eval + self.play_diff(p) * IN_PLAY;
        eval = eval - self.capt_diff(p);
        eval = eval + self.mob_diff(p);
        eval = eval + self.backup_diff(p) * BACKUP;
        eval
    }

    /// Balls in the goals of the side of `p`, over the other side's.
    fn goal_diff(&self, p: Color) -> (r: i64)
        requires
            self.wf(),
        ensures
            r == side_diff(|c: Color| ones8(self.pos().homes[c.idx()], 8) as int, p),
            -16 <= r <= 16,
    {
        let e = p.next();
        proof {
            assert(color_of(e.idx() + 2) == color_of(p.idx() + 3));
        }
        self.balls_in_home(p) as i64 - self.balls_in_home(e) as i64
    }

    /// Goals free to enter of the side of `p`, over the other side's.
    fn free_diff(&self, p: Color) -> (r: i64)
        ensures
            r == side_diff(|c: Color| ind(home_free_spec(self.pos(), c)), p),
            -2 <= r <= 2,
    {
        let e = p.next();
        let p_p = p.partner();
        let e_p = e.partner();
        proof {
            assert(e_p == color_of(p.idx() + 3));
        }
        (self.home_free(p) as i64 + self.home_free(p_p) as i64) - (self.home_free(e) as i64 + self.home_free(e_p) as i64)
    }

    /// Clean goals of the side of `p`, over the other side's.
    fn clean_diff(&self, p: Color) -> (r: i64)
        requires
            self.wf(),
        ensures
            r == side_diff(|c: Color| ind(home_clean_spec(self.pos(), c)), p),
            -2 <= r <= 2,
    {
        let e = p.next();
        let p_p = p.partner();
        let e_p = e.partner();
        proof {
            assert(e_p == color_of(p.idx() + 3));
        }
        (self.home_clean(p) as i64 + self.home_clean(p_p) as i64) - (self.home_clean(e) as i64 + self.home_clean(e_p) as i64)
    }

    /// Nearness to the goals of the side of `p`, over the other side's.
    fn near_diff(&self, p: Color) -> (r: i64)
        requires
            self.wf(),
        ensures
            r == side_diff(|c: Color| near_goal_spec(self.pos(), c), p),
            -2 * (64 * 38 + 23) <= r <= 2 * (64 * 38 + 23),
    {
        let e = p.next();
        let p_p = p.partner();
        let e_p = e.partner();
        proof {
            assert(e_p == color_of(p.idx() + 3));
        }
        (self.near_goal(p) + self.near_goal(p_p)) - (self.near_goal(e) + self.near_goal(e_p))
    }

    /// Colors with balls in play of the side of `p`, over the other side's.
    fn play_diff(&self, p: Color) -> (r: i64)
        ensures
            r == side_diff(|c: Color| ind(!self.pos().balls[c.idx()].is_empty()), p),
            -2 <= r <= 2,
    {
        let e = p.next();
        let p_p = p.partner();
        let e_p = e.partner();
        proof {
            assert(e_p == color_of(p.idx() + 3));
        }
        (self.ball_in_play(p) as i64 + self.ball_in_play(p_p) as i64) - (self.ball_in_play(e) as i64 + self.ball_in_play(
            e_p,
        ) as i64)
    }

    /// Exposure to capture of the side of `p`, over the other side's.
    fn capt_diff(&self, p: Color) -> (r: i64)
        requires
            self.wf(),
        ensures
            r == side_diff(|c: Color| capturability_spec(self.pos(), c), p),
            -2 * 12 * 64 * 64 <= r <= 2 * 12 * 64 * 64,
    {
        let e = p.next();
        let p_p = p.partner();
        let e_p = e.partner();
        proof {
            assert(e_p == color_of(p.idx() + 3));
        }
        (self.capturability(p) + self.capturability(p_p)) - (self.capturability(e) + self.capturability(e_p))
    }

    /// Freedom to move of the side of `p`, over the other side's, at `MOBILITY` a step.
    fn mob_diff(&self, p: Color) -> (r: i64)
        requires
            self.wf(),
        ensures
            r == MOBILITY * side_diff(|c: Color| mobility_spec(self.pos(), c), p),
            -4 * 64 * 64 <= r <= 4 * 64 * 64,
    {
        let e = p.next();
        let p_p = p.partner();
        let e_p = e.partner();
        proof {
            assert(e_p == color_of(p.idx() + 3));
        }
        ((self.mobility(p) + self.mobility(p_p)) - (self.mobility(e) + self.mobility(e_p))) * MOBILITY
    }

    /// Balls on the ring of the side of `p`, over the other side's.
    fn backup_diff(&self, p: Color) -> (r: i64)
        ensures
            r == side_diff(|c: Color| self.pos().balls[c.idx()].len() as int, p),
            -128 <= r <= 128,
    {
        let e = p.next();
        let p_p = p.partner();
        let e_p = e.partner();
        proof {
            assert(e_p == color_of(p.idx() + 3));
        }
        (self.balls_with(p).len() + self.balls_with(p_p).len()) as i64 - (self.balls_with(e).len() + self.balls_with(
            e_p,
        ).len()) as i64
    }

    /// The player has a ball on the ring.
    fn ball_in_play(&self, player: Color) -> (r: bool)
        ensures
            r == !self.pos().balls[player.idx()].is_empty(),
    {
        !self.balls_with(player).is_empty()
    }

    /// The player's goal has a ball and room at its entry.
    fn home_free(&self, player: Color) -> (r: bool)
        ensures
            r == home_free_spec(self.pos(), player),
    {
        self.home(player).amount() > 0 && self.home(player).free() > 0
    }

    /// The player's goal is locked, or has exactly one ball that cannot move.
    fn home_clean(&self, player: Color) -> (r: bool)
        requires
            self.wf(),
        ensures
            r == home_clean_spec(self.pos(), player),
    {
        proof {
            self.lemma_wf();
        }
        let home = self.home(player);
        if home.is_locked() {
            return true;
        }
        let unlocked = home.get_all_unlocked();
        proof {
            lemma_unlocked_le_amount(home.0);
        }
        home.amount() - unlocked.len() as u8 == 1
    }

    /// The balls in the goals of the player and its partner.
    fn balls_in_home(&self, player: Color) -> (r: u8)
        ensures
            r == ones8(self.pos().homes[player.idx()], 8) + ones8(self.pos().homes[color_of(player.idx() + 2).idx()], 8),
            r <= 16,
    {
        self.home(player).amount() + self.home(player.partner()).amount()
    }

    /// What the ball of `player` on `start` earns for its nearness to the goal: up to
    /// 17 as the square of the part of the ring it has covered, and 21 more within 13
    /// steps of the goal. A fresh ball on its entry square has covered nothing.
    fn fwd(&self, start: Square, player: Color) -> (r: i64)
        requires
            start.0 < 64,
        ensures
            r == fwd_value(self.pos(), player, start.0 as int),
            0 <= r <= 38,
    {
        let dist = start.distance_to_home(player);
        let dist: u8 = if dist == 0 && self.fresh(player) {
            64
        } else {
            dist
        };
        let left = (64 - dist) as i64;
        assert(0 <= left * left <= 4096) by (nonlinear_arith)
            requires
                0 <= left <= 64,
        ;
        FWD_DIST_MAX * (left * left) / 4096 + if dist < 13 {
            FWD_IN_HOME
        } else {
            0
        }
    }

    /// How near the balls of `player` are to their goal.
    fn near_goal(&self, player: Color) -> (r: i64)
        requires
            self.wf(),
        ensures
            r == near_goal_spec(self.pos(), player),
            0 <= r <= 64 * 38 + 23,
    {
        let ghost p = self.pos();
        proof {
            self.lemma_wf();
        }
        let mine = self.balls_with(player);
        let balls = mine.squares();
        proof {
            lemma_view_bounded(mine);
            crate::bitboard::lemma_view_len(mine);
        }
        let ghost f = |sq: int| fwd_value(p, player, sq);
        let mut in_four_proximity = false;
        let mut sum: i64 = 0;
        let mut k: usize = 0;
        while k < balls.len()
            invariant
                k <= balls.len(),
                balls.len() <= 64,
                p == self.pos(),
                self.wf(),
                lists(balls@, p.balls[player.idx()]),
                f == (|sq: int| fwd_value(p, player, sq)),
                sum == list_sum(balls@, f, k as int),
                0 <= sum <= k * 38,
                in_four_proximity <==> exists|b: int, i: int|
                    (exists|j: int| 0 <= j < k && balls[j].0 as int == b) && 0 <= i < square_moves(p, b, player, Card::Four).len()
                        && (#[trigger] square_moves(p, b, player, Card::Four)[i]).action is StepInHome,
            decreases balls.len() - k,
        {
            let ball = balls[k];
            proof {
                assert(p.balls[player.idx()].contains(ball.0 as int));
            }
            let v = self.fwd(ball, player);
            proof {
                assert(list_sum(balls@, f, k + 1) == list_sum(balls@, f, k as int) + f(balls@[k as int].0 as int));
                assert(f(ball.0 as int) == v);
            }
            sum = sum + v;
            let fours = self.moves_for_card_square(ball, player, Card::Four);
            let mut t: usize = 0;
            let ghost before = in_four_proximity;
            while t < fours.len()
                invariant
                    t <= fours.len(),
                    fours@ == square_moves(p, ball.0 as int, player, Card::Four),
                    in_four_proximity <==> (before || exists|i: int|
                        0 <= i < t && (#[trigger] square_moves(p, ball.0 as int, player, Card::Four)[i]).action is StepInHome),
                decreases fours.len() - t,
            {
                if matches!(fours[t].action, TacAction::StepInHome { .. }) {
                    in_four_proximity = true;
                }
                t = t + 1;
            }
            proof {
                let b = ball.0 as int;
                if in_four_proximity {
                    if !before {
                        let i = choose|i: int|
                            0 <= i < fours.len() && (#[trigger] square_moves(p, b, player, Card::Four)[i]).action is StepInHome;
                        assert(balls[k as int].0 as int == b);
                    }
                }
            }
            k = k + 1;
        }
        proof {
            lemma_list_sum(p.balls[player.idx()], f, balls@, balls.len() as int);
            assert(in_four_proximity == four_near(p, player)) by {
                if four_near(p, player) {
                    let (b, i) = choose|b: int, i: int|
                        p.balls[player.idx()].contains(b) && 0 <= i < square_moves(p, b, player, Card::Four).len()
                            && (#[trigger] square_moves(p, b, player, Card::Four)[i]).action is StepInHome;
                    let j = choose|j: int| 0 <= j < balls.len() && #[trigger] balls[j].0 as int == b;
                    assert(balls[j].0 as int == b);
                }
            }
        }
        sum + if in_four_proximity {
            FOUR_PROXIMITY
        } else {
            0
        }
    }

    /// How exposed the balls of `player` are to capture: 12 for each enemy ball that
    /// threatens one of them.
    fn capturability(&self, player: Color) -> (r: i64)
        requires
            self.wf(),
        ensures
            r == capturability_spec(self.pos(), player),
            0 <= r <= 12 * 64 * 64,
    {
        let ghost p = self.pos();
        proof {
            self.lemma_wf();
        }
        let enemies_bb = self.balls_with(player.prev()).or(self.balls_with(player.next()));
        let enemies = enemies_bb.squares();
        let mine_bb = self.balls_with(player);
        let mine = mine_bb.squares();
        proof {
            lemma_view_bounded(enemies_bb);
            lemma_view_bounded(mine_bb);
            crate::bitboard::lemma_view_len(enemies_bb);
            crate::bitboard::lemma_view_len(mine_bb);
            assert(enemies_bb@ == enemies_of(p, player));
        }
        let ghost outer = |m: int| threats(p, player, m);
        let mut total: i64 = 0;
        let mut k: usize = 0;
        while k < mine.len()
            invariant
                k <= mine.len(),
                mine.len() <= 64,
                enemies.len() <= 64,
                p == self.pos(),
                self.wf(),
                lists(mine@, p.balls[player.idx()]),
                lists(enemies@, enemies_of(p, player)),
                outer == (|m: int| threats(p, player, m)),
                total == list_sum(mine@, outer, k as int),
                0 <= total <= k * 64,
            decreases mine.len() - k,
        {
            let m = mine[k];
            proof {
                assert(p.balls[player.idx()].contains(m.0 as int));
            }
            let ghost inner = |e: int| if threatens(p, e, m.0 as int) { 1int } else { 0int };
            let mut count: i64 = 0;
            let mut t: usize = 0;
            while t < enemies.len()
                invariant
                    t <= enemies.len(),
                    enemies.len() <= 64,
                    p == self.pos(),
                    self.wf(),
                    m.0 < 64,
                    lists(enemies@, enemies_of(p, player)),
                    inner == (|e: int| if threatens(p, e, m.0 as int) { 1int } else { 0int }),
                    count == list_sum(enemies@, inner, t as int),
                    0 <= count <= t,
                decreases enemies.len() - t,
            {
                let enemy = enemies[t];
                proof {
                    assert(enemies_of(p, player).contains(enemy.0 as int));
                }
                let enemy_me = enemy.distance_to(m);
                let me_enemy = m.distance_to(enemy);
                let can_reach = enemy_me < 14 && self.can_move(enemy, m);
                let can_reach_four = me_enemy == 4 && self.can_move(m, enemy);
                let can_reach_seven = enemy_me < 8;
                let eleven = enemy_me == 11;
                let hit = can_reach || can_reach_four || (can_reach_seven && !eleven);
                proof {
                    assert(list_sum(enemies@, inner, t + 1) == list_sum(enemies@, inner, t as int) + inner(enemies@[t as int].0 as int));
                    assert(hit == threatens(p, enemy.0 as int, m.0 as int));
                }
                if hit {
                    count = count + 1;
                }
                t = t + 1;
            }
            proof {
                lemma_list_sum(enemies_of(p, player), inner, enemies@, enemies.len() as int);
                assert(list_sum(mine@, outer, k + 1) == list_sum(mine@, outer, k as int) + outer(mine@[k as int].0 as int));
                assert(outer(m.0 as int) == count);
            }
            total = total + count;
            k = k + 1;
        }
        proof {
            lemma_list_sum(p.balls[player.idx()], outer, mine@, mine.len() as int);
        }
        total * CAPTURABILITY
    }

    /// A measure of the amount of cards `player` can play: the sum of the distances
    /// to the next ball for each ball of `player`.
    fn mobility(&self, player: Color) -> (r: i64)
        requires
            self.wf(),
        ensures
            r == mobility_spec(self.pos(), player),
            0 <= r <= 64 * 64,
    {
        let ghost p = self.pos();
        proof {
            self.lemma_wf();
        }
        let mine_bb = self.balls_with(player);
        let mine = mine_bb.squares();
        proof {
            lemma_view_bounded(mine_bb);
            crate::bitboard::lemma_view_len(mine_bb);
        }
        let ghost f = |m: int| ball_mobility(p, player, m);
        let mut total: i64 = 0;
        let mut k: usize = 0;
        while k < mine.len()
            invariant
                k <= mine.len(),
                mine.len() <= 64,
                p == self.pos(),
                self.wf(),
                lists(mine@, p.balls[player.idx()]),
                f == (|m: int| ball_mobility(p, player, m)),
                total == list_sum(mine@, f, k as int),
                0 <= total <= k * 64,
            decreases mine.len() - k,
        {
            let m = mine[k];
            proof {
                assert(p.balls[player.idx()].contains(m.0 as int));
            }
            let dist = self.distance_to_next(m);
            proof {
                assert(list_sum(mine@, f, k + 1) == list_sum(mine@, f, k as int) + f(mine@[k as int].0 as int));
                assert(f(m.0 as int) == dist);
            }
            total = total + dist as i64;
            k = k + 1;
        }
        proof {
            lemma_list_sum(p.balls[player.idx()], f, mine@, mine.len() as int);
        }
        total
    }
}

/// Scores boards for the search; the score is taken as that of black and green.
pub struct TacEval;

impl TacEval {
    /// The score of a board.
    pub fn eval_new(&self, state: &Board) -> (r: i64)
        requires
            state.wf(),
        ensures
            r == eval_spec(state.pos(), state.to_move()),
    {
        state.eval()
    }

    /// The score as `player` sees it: as it is for black and green, negated for blue
    /// and red.
    pub fn make_relative(&self, eval: i64, player: Color) -> (r: i64)
        requires
            eval > i64::MIN,
        ensures
            r == if player == Color::Black || player == Color::Green { eval as int } else { -eval },
    {
        match player {
            Color::Black | Color::Green => eval,
            Color::Blue | Color::Red => -eval,
        }
    }
}

} // verus!
