//! The split seven: seven steps shared between balls on the ring and in the goal.
use crate::bits::{bit8, lemma_bit8_xor, ones8};
use crate::board::{
    action_ok, contained_in_other, in_goal_spec, kept_upto, lemma_home_toggle, pos_wf, seven_entries, seven_ok, seven_owner,
    seven_phase1, seven_phase1_ok, seven_step, seven_step_ok, with_home, Board, Position, SevenEntry,
};
use crate::card::Card;
use crate::color::{color_of, Color};

use crate::bitboard::BitBoard;
use crate::home::{all_set_from, first_set_from, lemma_first_set_props, locked_spec, unlocked_upto, Home};
use crate::square::{dist_home_spec, in_range_spec, Square};
use crate::tacmove::{SevenAction, TacAction, TacMove};
use vstd::prelude::*;

verus! {

/// The goal word after the first `n` parts of a sequence of goal moves.
pub open spec fn goal_after(h: u8, s: Seq<SevenAction>, n: int) -> u8
    decreases n,
{
    if n <= 0 {
        h
    } else {
        match s[n - 1] {
            SevenAction::StepHome { from, to } => (goal_after(h, s, n - 1) ^ (1u8 << from)) ^ (1u8 << to),
            _ => goal_after(h, s, n - 1),
        }
    }
}

/// The first `n` parts are goal moves, each from a goal square holding a ball to a
/// free one.
pub open spec fn goal_moves_ok(h: u8, s: Seq<SevenAction>, n: int) -> bool
    decreases n,
{
    if n <= 0 {
        true
    } else {
        &&& goal_moves_ok(h, s, n - 1)
        &&& s[n - 1] matches SevenAction::StepHome { from, to } && from < 4 && to < 4 && bit8(
            goal_after(h, s, n - 1),
            from as int,
        ) && (from == to || !bit8(goal_after(h, s, n - 1), to as int))
    }
}

/// A whole sequence of goal moves can be carried out on the goal `h`.
pub open spec fn goal_seq_ok(h: u8, s: Seq<SevenAction>) -> bool {
    1 <= s.len() <= 3 && goal_moves_ok(h, s, s.len() as int)
}

/// The first phase of a split seven whose parts all move balls of `c`.
pub open spec fn own_pos(p: Position, s: Seq<SevenAction>, c: Color) -> Position {
    seven_phase1(p, s, c, s.len() as int, s.len() as int)
}

/// Every part of a split seven of `c` alone can be carried out in turn.
pub open spec fn own_ok(p: Position, s: Seq<SevenAction>, c: Color) -> bool {
    seven_phase1_ok(p, s, c, s.len() as int, s.len() as int)
}

/// The first phase of the first `n` parts depends on those parts alone, as long as
/// they all move balls of the player.
proof fn lemma_phase1_prefix(p: Position, s: Seq<SevenAction>, c: Color, pidx: int, n: int)
    requires
        0 <= n <= s.len(),
        pidx >= n,
    ensures
        seven_phase1(p, s, c, pidx, n) == own_pos(p, s.take(n), c),
        seven_phase1_ok(p, s, c, pidx, n) == own_ok(p, s.take(n), c),
    decreases n,
{
    if n > 0 {
        let t = s.take(n);
        lemma_phase1_prefix(p, s, c, pidx, n - 1);
        lemma_phase1_prefix(p, t, c, n, n - 1);
        assert(t.take(n - 1) == s.take(n - 1));
        assert(t[n - 1] == s[n - 1]);
    }
}

/// Adding a part to a split seven of `c` alone: it is carried out on the position
/// the earlier parts leave.
proof fn lemma_own_push(p: Position, s: Seq<SevenAction>, a: SevenAction, c: Color)
    ensures
        own_pos(p, s.push(a), c) == seven_step(own_pos(p, s, c), a, c),
        own_ok(p, s.push(a), c) == (own_ok(p, s, c) && seven_step_ok(own_pos(p, s, c), a, c)),
{
    let t = s.push(a);
    lemma_phase1_prefix(p, t, c, t.len() as int, s.len() as int);
    assert(t.take(s.len() as int) == s);
}

/// A valid sequence of goal moves for `c` changes the goal of `c` alone.
proof fn lemma_goal_phase1(p: Position, s: Seq<SevenAction>, c: Color, pidx: int, n: int)
    requires
        0 <= n <= s.len(),
        pidx >= n,
        goal_moves_ok(p.homes[c.idx()], s, n),
        pos_wf(p),
    ensures
        seven_phase1_ok(p, s, c, pidx, n),
        seven_phase1(p, s, c, pidx, n) == with_home(p, c, goal_after(p.homes[c.idx()], s, n)),
        goal_after(p.homes[c.idx()], s, n) < 16,
    decreases n,
{
    let h = p.homes[c.idx()];
    if n > 0 {
        lemma_goal_phase1(p, s, c, pidx, n - 1);
        let g = goal_after(h, s, n - 1);
        let q = with_home(p, c, g);
        assert(q.homes[c.idx()] == g);
        if let SevenAction::StepHome { from, to } = s[n - 1] {
            lemma_home_toggle(g, from);
            lemma_home_toggle(g ^ (1u8 << from), to);
            let r1 = in_goal_spec(q, from, to, c);
            let r2 = with_home(p, c, goal_after(h, s, n));
            assert(r1.homes =~= r2.homes);
            assert(r1.balls == r2.balls);
            assert(r1.fresh == r2.fresh);
        }
    } else {
        let r = with_home(p, c, h);
        assert(r.homes =~= p.homes);
        assert(r.balls == p.balls);
        assert(r.fresh == p.fresh);
    }
}

/// The ring movements of a split seven whose parts can all be carried out stay on
/// the ring.
proof fn lemma_entries_on_ring(p: Position, s: Seq<SevenAction>, c: Color, pidx: int, n: int)
    requires
        0 <= n <= s.len(),
        seven_phase1_ok(p, s, c, pidx, n),
    ensures
        forall|k: int|
            0 <= k < seven_entries(s, c, pidx, n).len() ==> (#[trigger] seven_entries(s, c, pidx, n)[k]).0.0 < 64
                && seven_entries(s, c, pidx, n)[k].1.0 < 64,
    decreases n,
{
    if n > 0 {
        lemma_entries_on_ring(p, s, c, pidx, n - 1);
        let o = seven_owner(c, pidx, n - 1);
        assert(0 <= o.home_sq() < 64);
        let prev = seven_entries(s, c, pidx, n - 1);
        let cur = seven_entries(s, c, pidx, n);
        assert forall|k: int| 0 <= k < cur.len() implies (#[trigger] cur[k]).0.0 < 64 && cur[k].1.0 < 64 by {
            if k < prev.len() {
                assert(cur[k] == prev[k]);
            }
        }
    }
}

/// Two ring stretches that end on the same square are nested: one of them starts on
/// the other.
proof fn lemma_nested(s1: int, s2: int, e: int)
    requires
        0 <= s1 < 64,
        0 <= s2 < 64,
        0 <= e < 64,
    ensures
        in_range_spec(e, s1, e),
        in_range_spec(e, s2, e),
        in_range_spec(s2, s1, e) || in_range_spec(s1, s2, e),
{
}

/// The kept movements come from the movements, in order, each kept for a reason.
proof fn lemma_kept_source(es: Seq<SevenEntry>, n: int)
    requires
        0 <= n <= es.len(),
    ensures
        forall|k: int|
            #![trigger kept_upto(es, n)[k]]
            0 <= k < kept_upto(es, n).len() ==> exists|i: int|
                0 <= i < n && kept_upto(es, n)[k] == #[trigger] es[i] && (es[i].2 || !contained_in_other(es, i)),
        kept_upto(es, n).len() <= n,
    decreases n,
{
    if n > 0 {
        lemma_kept_source(es, n - 1);
        let prev = kept_upto(es, n - 1);
        let cur = kept_upto(es, n);
        let kept = es[n - 1].2 || !contained_in_other(es, n - 1);
        if kept {
            assert(cur == prev.push(es[n - 1]));
        } else {
            assert(cur == prev);
        }
        assert forall|k: int| #![trigger cur[k]] 0 <= k < cur.len() implies exists|i: int|
            0 <= i < n && cur[k] == #[trigger] es[i] && (es[i].2 || !contained_in_other(es, i)) by {
            if k < prev.len() {
                assert(cur[k] == prev[k]);
                let i = choose|i: int| 0 <= i < n - 1 && prev[k] == #[trigger] es[i] && (es[i].2 || !contained_in_other(es, i));
                assert(cur[k] == es[i]);
            } else {
                assert(kept);
                assert(cur[k] == es[n - 1]);
            }
        }
    }
}

/// No two kept movements that end on the ring end on the same square.
proof fn lemma_kept_distinct_ends(es: Seq<SevenEntry>, n: int)
    requires
        0 <= n <= es.len(),
        forall|k: int| 0 <= k < es.len() ==> (#[trigger] es[k]).0.0 < 64 && es[k].1.0 < 64,
    ensures
        forall|a: int, b: int|
            0 <= a < b < kept_upto(es, n).len() && !kept_upto(es, n)[a].2 && !kept_upto(es, n)[b].2 ==> #[trigger] kept_upto(
                es,
                n,
            )[a].1 != #[trigger] kept_upto(es, n)[b].1,
    decreases n,
{
    if n > 0 {
        lemma_kept_distinct_ends(es, n - 1);
        lemma_kept_source(es, n - 1);
        let prev = kept_upto(es, n - 1);
        let cur = kept_upto(es, n);
        assert forall|a: int, b: int|
            0 <= a < b < cur.len() && !cur[a].2 && !cur[b].2 implies #[trigger] cur[a].1 != #[trigger] cur[b].1 by {
            if b < prev.len() {
                assert(cur[a] == prev[a]);
                assert(cur[b] == prev[b]);
            } else {
                assert(cur[b] == es[n - 1]);
                assert(cur[a] == prev[a]);
                let i = choose|i: int| 0 <= i < n - 1 && prev[a] == #[trigger] es[i] && (es[i].2 || !contained_in_other(es, i));
                assert(es[n - 1].2 || !contained_in_other(es, n - 1));
                if cur[a].1 == cur[b].1 {
                    let x = es[i];
                    let y = es[n - 1];
                    lemma_nested(x.0.0 as int, y.0.0 as int, x.1.0 as int);
                    if in_range_spec(y.0.0 as int, x.0.0 as int, x.1.0 as int) {
                        assert(contained_in_other(es, n - 1));
                    } else {
                        assert(contained_in_other(es, i));
                    }
                }
            }
        }
    }
}

/// A split seven of `c` alone whose parts can all be carried out in turn is playable.
pub proof fn lemma_own_seven_ok(p: Position, s: Seq<SevenAction>, c: Color)
    requires
        own_ok(p, s, c),
    ensures
        seven_ok(p, s, c, s.len() as int),
{
    let n = s.len() as int;
    lemma_entries_on_ring(p, s, c, n, n);
    let es = seven_entries(s, c, n, n);
    lemma_kept_distinct_ends(es, es.len() as int);
}

/// The four bits of a goal word, as numbers.
proof fn lemma_word_bits(x: u8)
    by (bit_vector)
    requires
        x < 16,
    ensures
        ((x >> 0u8) & 1u8 == 1u8) == (x % 2 == 1),
        ((x >> 1u8) & 1u8 == 1u8) == ((x / 2) % 2 == 1),
        ((x >> 2u8) & 1u8 == 1u8) == ((x / 4) % 2 == 1),
        ((x >> 3u8) & 1u8 == 1u8) == ((x / 8) % 2 == 1),
{
}

/// The bits of a goal word below 16, by position.
pub proof fn lemma_bits_of(x: u8)
    requires
        x < 16,
    ensures
        bit8(x, 0) == (x % 2 == 1),
        bit8(x, 1) == ((x / 2) % 2 == 1),
        bit8(x, 2) == ((x / 4) % 2 == 1),
        bit8(x, 3) == ((x / 8) % 2 == 1),
{
    lemma_word_bits(x);
}

/// Toggling bit `s` of a word flips that bit alone.
proof fn lemma_toggle_bits()
    ensures
        forall|a: u8, s: u8, i: int|
            s < 8 && 0 <= i < 8 ==> #[trigger] bit8(a ^ (1u8 << s), i) == (bit8(a, i) != (i == s as int)),
{
    assert forall|a: u8, s: u8, i: int| s < 8 && 0 <= i < 8 implies #[trigger] bit8(a ^ (1u8 << s), i) == (bit8(
        a,
        i,
    ) != (i == s as int)) by {
        lemma_bit8_xor(a, s, i as u8);
    }
}

/// Which balls of a goal word below 16 can still move.
pub proof fn lemma_unlocked_len(x: u8)
    requires
        x < 16,
    ensures
        unlocked_upto(x, 4).len() == (if bit8(x, 0) && !(bit8(x, 1) && bit8(x, 2) && bit8(x, 3)) {
            1int
        } else {
            0
        }) + (if bit8(x, 1) && !(bit8(x, 2) && bit8(x, 3)) {
            1int
        } else {
            0
        }) + (if bit8(x, 2) && !bit8(x, 3) {
            1int
        } else {
            0
        }),
{
    assert(all_set_from(x, 4));
    assert(all_set_from(x, 3) == bit8(x, 3)) by {
        if bit8(x, 3) {
            assert forall|j: int| 3 <= j < 4 implies #[trigger] bit8(x, j) by {
                assert(j == 3);
            }
        }
    }
    assert(all_set_from(x, 2) == (bit8(x, 2) && bit8(x, 3))) by {
        if bit8(x, 2) && bit8(x, 3) {
            assert forall|j: int| 2 <= j < 4 implies #[trigger] bit8(x, j) by {
                assert(j == 2 || j == 3);
            }
        }
    }
    assert(all_set_from(x, 1) == (bit8(x, 1) && bit8(x, 2) && bit8(x, 3))) by {
        if bit8(x, 1) && bit8(x, 2) && bit8(x, 3) {
            assert forall|j: int| 1 <= j < 4 implies #[trigger] bit8(x, j) by {
                assert(j == 1 || j == 2 || j == 3);
            }
        }
    }
    reveal_with_fuel(unlocked_upto, 5);
}

/// A goal has no more balls that can move than balls.
pub proof fn lemma_unlocked_le_amount(x: u8)
    requires
        x < 16,
    ensures
        unlocked_upto(x, 4).len() <= ones8(x, 8),
{
    lemma_unlocked_len(x);
    crate::home::lemma_home_bits(x);
    assert(ones8(x, 4) == ones8(x, 3) + (if bit8(x, 3) { 1nat } else { 0nat })) by {
        reveal_with_fuel(ones8, 2);
    }
    assert(ones8(x, 3) == ones8(x, 2) + (if bit8(x, 2) { 1nat } else { 0nat })) by {
        reveal_with_fuel(ones8, 2);
    }
    assert(ones8(x, 2) == ones8(x, 1) + (if bit8(x, 1) { 1nat } else { 0nat })) by {
        reveal_with_fuel(ones8, 2);
    }
    assert(ones8(x, 1) == (if bit8(x, 0) { 1nat } else { 0nat })) by {
        reveal_with_fuel(ones8, 2);
    }
}

/// A goal move.
fn goal_step(from: u8, to: u8) -> (r: SevenAction)
    ensures
        r == (SevenAction::StepHome { from, to }),
{
    SevenAction::StepHome { from, to }
}

/// A sequence of one goal move.
fn one_step(a: u8, b: u8) -> (r: Vec<SevenAction>)
    ensures
        r@ == seq![SevenAction::StepHome { from: a, to: b }],
{
    let mut r: Vec<SevenAction> = Vec::new();
    r.push(goal_step(a, b));
    r
}

/// A sequence of two goal moves.
fn two_steps(a: u8, b: u8, c: u8, d: u8) -> (r: Vec<SevenAction>)
    ensures
        r@ == seq![SevenAction::StepHome { from: a, to: b }, SevenAction::StepHome { from: c, to: d }],
{
    let mut r: Vec<SevenAction> = Vec::new();
    r.push(goal_step(a, b));
    r.push(goal_step(c, d));
    r
}

/// A sequence of three goal moves.
fn three_steps(a: u8, b: u8, c: u8, d: u8, e: u8, f: u8) -> (r: Vec<SevenAction>)
    ensures
        r@ == seq![
            SevenAction::StepHome { from: a, to: b },
            SevenAction::StepHome { from: c, to: d },
            SevenAction::StepHome { from: e, to: f },
        ],
{
    let mut r: Vec<SevenAction> = Vec::new();
    r.push(goal_step(a, b));
    r.push(goal_step(c, d));
    r.push(goal_step(e, f));
    r
}

/// The goal move from `a` to `b`.
pub open spec fn hs(a: u8, b: u8) -> SevenAction {
    SevenAction::StepHome { from: a, to: b }
}

/// The goal moves a split seven can spend on goal `h` with `budget` steps: for each
/// goal with balls that can still move, the sequences that spend the budget, or an
/// amount of the same parity, listed case by case.
pub open spec fn home_moves_table(h: u8, budget: u8) -> Seq<Seq<SevenAction>> {
    let even = budget % 2 == 0;
    let n = unlocked_upto(h, 4).len();
    if budget == 0 || n == 0 {
        seq![]
    } else if n == 1 {
        if h == 0b0001 {
            if even { seq![seq![hs(0, 2)]] } else { seq![seq![hs(0, 1)], seq![hs(0, 3)]] }
        } else if h == 0b0010 {
            if even { seq![seq![hs(1, 3)]] } else { seq![seq![hs(1, 0)], seq![hs(1, 2)]] }
        } else if h == 0b0100 {
            if even { seq![seq![hs(2, 0)]] } else { seq![seq![hs(2, 1)], seq![hs(2, 3)]] }
        } else if h == 0b1001 {
            if even { seq![seq![hs(0, 2)]] } else { seq![seq![hs(0, 1)]] }
        } else if h == 0b1010 {
            if even { seq![] } else { seq![seq![hs(1, 0)], seq![hs(1, 2)]] }
        } else {
            if even { seq![] } else { seq![seq![hs(0, 1)]] }
        }
    } else if n == 2 {
        if h == 0b0110 {
            if even {
                seq![seq![hs(2, 3), hs(1, 2)], seq![hs(2, 3), hs(1, 0)], seq![hs(1, 0), hs(2, 1)]]
            } else {
                seq![seq![hs(2, 3)], seq![hs(1, 0)]]
            }
        } else if h == 0b0101 {
            if even {
                seq![seq![hs(2, 3), hs(0, 1)]]
            } else if budget > 1 {
                seq![seq![hs(0, 1)], seq![hs(2, 3)], seq![hs(2, 1)], seq![hs(2, 3), hs(0, 2)]]
            } else {
                seq![seq![hs(0, 1)], seq![hs(2, 3)], seq![hs(2, 1)]]
            }
        } else if h == 0b0011 {
            if even {
                if budget > 2 {
                    seq![seq![hs(1, 3)], seq![hs(1, 2), hs(0, 1)], seq![hs(1, 3), hs(0, 2)]]
                } else {
                    seq![seq![hs(1, 3)], seq![hs(1, 2), hs(0, 1)]]
                }
            } else if budget > 1 {
                seq![seq![hs(1, 2)], seq![hs(1, 3), hs(0, 1)]]
            } else {
                seq![seq![hs(1, 2)]]
            }
        } else {
            if even { seq![seq![hs(1, 2), hs(0, 1)]] } else { seq![seq![hs(1, 2)]] }
        }
    } else {
        if even {
            seq![seq![hs(2, 3), hs(1, 2)]]
        } else if budget > 2 {
            seq![seq![hs(2, 3)], seq![hs(2, 3), hs(1, 2), hs(0, 1)]]
        } else {
            seq![seq![hs(2, 3)]]
        }
    }
}

/// Goal moves of the balls in `home` that can still move, spending `budget` steps or
/// an amount of the same parity: each sequence can be carried out in turn on the goal.
pub fn get_home_moves_with_budget(home: Home, budget: u8) -> (r: Vec<Vec<SevenAction>>)
    requires
        home.0 < 16,
    ensures
        budget == 0 || unlocked_upto(home.0, 4).len() == 0 ==> r.len() == 0,
        forall|i: int| 0 <= i < r.len() ==> goal_seq_ok(home.0, #[trigger] r[i]@),
        r@.len() == home_moves_table(home.0, budget).len(),
        forall|i: int| 0 <= i < r.len() ==> #[trigger] r[i]@ == home_moves_table(home.0, budget)[i],
{
    let unlocked = home.get_all_unlocked();
    if budget == 0 || unlocked.len() == 0 {
        return Vec::new();
    }
    let h = home.0;
    proof {
        lemma_bits_of(h);
        lemma_unlocked_len(h);
        lemma_toggle_bits();
        reveal_with_fuel(goal_moves_ok, 4);
        reveal_with_fuel(goal_after, 4);
    }
    let num_unlocked = unlocked.len();
    let even_budget = budget % 2 == 0;
    let mut moves: Vec<Vec<SevenAction>> = Vec::new();
    if num_unlocked == 1 {
        if h == 0b0001 {
            if even_budget {
                moves.push(one_step(0, 2));
            } else {
                moves.push(one_step(0, 1));
                moves.push(one_step(0, 3));
            }
        } else if h == 0b0010 {
            if even_budget {
                moves.push(one_step(1, 3));
            } else {
                moves.push(one_step(1, 0));
                moves.push(one_step(1, 2));
            }
        } else if h == 0b0100 {
            if even_budget {
                moves.push(one_step(2, 0));
            } else {
                moves.push(one_step(2, 1));
                moves.push(one_step(2, 3));
            }
        } else if h == 0b1001 {
            if even_budget {
                moves.push(one_step(0, 2));
            } else {
                moves.push(one_step(0, 1));
            }
        } else if h == 0b1010 {
            if !even_budget {
                moves.push(one_step(1, 0));
                moves.push(one_step(1, 2));
            }
        } else {
            assert(h == 0b1101);
            if !even_budget {
                moves.push(one_step(0, 1));
            }
        }
    } else if num_unlocked == 2 {
        if h == 0b0110 {
            if even_budget {
                moves.push(two_steps(2, 3, 1, 2));
                moves.push(two_steps(2, 3, 1, 0));
                moves.push(two_steps(1, 0, 2, 1));
            } else {
                moves.push(one_step(2, 3));
                moves.push(one_step(1, 0));
            }
        } else if h == 0b0101 {
            if even_budget {
                moves.push(two_steps(2, 3, 0, 1));
            } else {
                moves.push(one_step(0, 1));
                moves.push(one_step(2, 3));
                moves.push(one_step(2, 1));
                if budget > 1 {
                    moves.push(two_steps(2, 3, 0, 2));
                }
            }
        } else if h == 0b0011 {
            if even_budget {
                moves.push(one_step(1, 3));
                moves.push(two_steps(1, 2, 0, 1));
                if budget > 2 {
                    moves.push(two_steps(1, 3, 0, 2));
                }
            } else {
                moves.push(one_step(1, 2));
                if budget > 1 {
                    moves.push(two_steps(1, 3, 0, 1));
                }
            }
        } else {
            assert(h == 0b1011);
            if even_budget {
                moves.push(two_steps(1, 2, 0, 1));
            } else {
                moves.push(one_step(1, 2));
            }
        }
    } else {
        assert(h == 0b0111);
        if even_budget {
            moves.push(two_steps(2, 3, 1, 2));
        } else {
            moves.push(one_step(2, 3));
            if budget > 2 {
                moves.push(three_steps(2, 3, 1, 2, 0, 1));
            }
        }
    }
    moves
}

/// A copy of a sequence of parts.
fn copy_steps(v: &Vec<SevenAction>) -> (r: Vec<SevenAction>)
    ensures
        r@ == v@,
{
    let mut r: Vec<SevenAction> = Vec::new();
    let mut i: usize = 0;
    while i < v.len()
        invariant
            i <= v.len(),
            r@ == v@.take(i as int),
        decreases v.len() - i,
    {
        r.push(v[i]);
        i = i + 1;
        proof {
            assert(r@ =~= v@.take(i as int));
        }
    }
    assert(v@.take(v.len() as int) =~= v@);
    r
}

/// The goal square `goal` is free in the goal `x` when it comes before its first ball.
proof fn lemma_goal_free(x: u8, goal: int)
    requires
        0 <= goal < first_set_from(x, 0),
    ensures
        !bit8(x, goal),
        goal < 4,
{
    lemma_first_set_props(x, 0);
}

/// A partial split seven of `c` alone: its parts can be carried out in turn, the balls
/// of `c` still on the ring are `left`, and at most seven steps are left to spend.
pub open spec fn partial_ok(p: Position, c: Color, acts: Seq<SevenAction>, rem: u8, left: Set<int>) -> bool {
    &&& own_ok(p, acts, c)
    &&& own_pos(p, acts, c).balls.len() == 4
    &&& own_pos(p, acts, c).homes.len() == 4
    &&& own_pos(p, acts, c).balls[c.idx()] == left
    &&& left.subset_of(p.balls[c.idx()])
    &&& rem <= 7
}

/// The balls among `balls` that can go into goal square `goal` with `budget` steps:
/// for each, the move, the ball and the steps left over; in increasing order of squares.
fn moves_for_budget(balls: BitBoard, budget: u8, goal: u8, player: Color, fresh: bool) -> (r: Vec<(SevenAction, Square, u8)>)
    requires
        goal + 1 <= budget <= 7,
    ensures
        forall|i: int|
            #![trigger r[i]]
            0 <= i < r.len() ==> {
                &&& r[i].0 == (SevenAction::StepInHome { from: r[i].1, to: goal })
                &&& balls@.contains(r[i].1.0 as int)
                &&& r[i].1.0 < 64
                &&& dist_home_spec(r[i].1.0 as int, player) + goal + 1 + r[i].2 == budget
                &&& !(r[i].1.0 == player.home_sq() && fresh)
            },
        forall|i: int, j: int| 0 <= i < j < r.len() ==> (#[trigger] r[i]).1.0 < (#[trigger] r[j]).1.0,
        forall|sq: int|
            balls@.contains(sq) && dist_home_spec(sq, player) + goal + 1 <= budget && !(sq == player.home_sq() && fresh)
                ==> exists|i: int| 0 <= i < r.len() && #[trigger] r[i].1.0 == sq,
{
    let limit = budget - (goal + 1);
    let sqs = balls.squares();
    let entry = player.home();
    let mut r: Vec<(SevenAction, Square, u8)> = Vec::new();
    let mut k: usize = 0;
    while k < sqs.len()
        invariant
            k <= sqs.len(),
            limit == budget - (goal + 1),
            goal + 1 <= budget <= 7,
            entry.0 as int == player.home_sq(),
            forall|i: int| 0 <= i < sqs.len() ==> balls@.contains(#[trigger] sqs[i].0 as int),
            forall|s: int| balls@.contains(s) ==> exists|i: int| 0 <= i < sqs.len() && #[trigger] sqs[i].0 as int == s,
            forall|i: int, j: int| 0 <= i < j < sqs.len() ==> sqs[i].0 < sqs[j].0,
            forall|i: int|
                #![trigger r[i]]
                0 <= i < r.len() ==> {
                    &&& r[i].0 == (SevenAction::StepInHome { from: r[i].1, to: goal })
                    &&& balls@.contains(r[i].1.0 as int)
                    &&& r[i].1.0 < 64
                    &&& dist_home_spec(r[i].1.0 as int, player) + goal + 1 + r[i].2 == budget
                    &&& !(r[i].1.0 == player.home_sq() && fresh)
                },
            forall|i: int, j: int| 0 <= i < j < r.len() ==> (#[trigger] r[i]).1.0 < (#[trigger] r[j]).1.0,
            forall|i: int| 0 <= i < r.len() ==> (k < sqs.len() ==> (#[trigger] r[i]).1.0 < sqs[k as int].0),
            forall|m: int|
                0 <= m < k && dist_home_spec(sqs[m].0 as int, player) + goal + 1 <= budget && !(sqs[m].0 == player.home_sq()
                    && fresh) ==> exists|i: int| 0 <= i < r.len() && #[trigger] r[i].1.0 == (#[trigger] sqs[m]).0,
        decreases sqs.len() - k,
    {
        let b = sqs[k];
        proof {
            crate::bitboard::lemma_view_bounded(balls);
        }
        let dist = b.distance_to_home(player);
        let need_fresh = if b == entry { fresh } else { false };
        if dist <= limit && !need_fresh {
            let ghost before = r@;
            r.push((SevenAction::StepInHome { from: b, to: goal }, b, budget - (dist + goal + 1)));
            proof {
                assert forall|m: int|
                    0 <= m < k + 1 && dist_home_spec(sqs[m].0 as int, player) + goal + 1 <= budget && !(sqs[m].0
                        == player.home_sq() && fresh) implies exists|i: int|
                    0 <= i < r.len() && #[trigger] r[i].1.0 == (#[trigger] sqs[m]).0 by {
                    if m < k {
                        let i = choose|i: int| 0 <= i < before.len() && #[trigger] before[i].1.0 == sqs[m].0;
                        assert(r[i] == before[i]);
                    } else {
                        assert(r[r.len() - 1].1.0 == sqs[m].0);
                    }
                }
            }
        }
        k = k + 1;
    }
    proof {
        assert forall|sq: int|
            balls@.contains(sq) && dist_home_spec(sq, player) + goal + 1 <= budget && !(sq == player.home_sq() && fresh)
                implies exists|i: int| 0 <= i < r.len() && #[trigger] r[i].1.0 == sq by {
            let m = choose|m: int| 0 <= m < sqs.len() && #[trigger] sqs[m].0 as int == sq;
            assert(sqs[m].0 == sq);
        }
    }
    r
}

/// Every entry of `es` is a partial split seven of `c` alone.
pub open spec fn entries_ok(p: Position, c: Color, es: Seq<(Vec<SevenAction>, u8, BitBoard)>) -> bool {
    forall|i: int| 0 <= i < es.len() ==> partial_ok(p, c, (#[trigger] es[i]).0@, es[i].1, es[i].2@)
}

/// A sequence of goal moves that can be carried out is so on every prefix too.
proof fn lemma_goal_ok_prefix(h: u8, s: Seq<SevenAction>, n: int, k: int)
    requires
        0 <= k <= n,
        goal_moves_ok(h, s, n),
    ensures
        goal_moves_ok(h, s, k),
    decreases n - k,
{
    if k < n {
        lemma_goal_ok_prefix(h, s, n - 1, k);
    }
}

/// The parts of `hm` followed by `a`.
fn extend_one(hm: &Vec<SevenAction>, a: SevenAction) -> (r: Vec<SevenAction>)
    ensures
        r@ == hm@.push(a),
{
    let mut r = copy_steps(hm);
    r.push(a);
    r
}

/// Adding a move into the goal of a ball of `c` that is on the ring, to a free goal
/// square, keeps a partial split seven valid.
proof fn lemma_enter_goal(p: Position, c: Color, acts: Seq<SevenAction>, b: Square, goal: u8)
    requires
        own_ok(p, acts, c),
        own_pos(p, acts, c).balls.len() == 4,
        own_pos(p, acts, c).homes.len() == 4,
        own_pos(p, acts, c).balls[c.idx()].contains(b.0 as int),
        b.0 < 64,
        goal < 4,
        !bit8(own_pos(p, acts, c).homes[c.idx()], goal as int),
    ensures
        own_pos(p, acts.push(SevenAction::StepInHome { from: b, to: goal }), c).balls.len() == 4,
        own_pos(p, acts.push(SevenAction::StepInHome { from: b, to: goal }), c).homes.len() == 4,
        own_ok(p, acts.push(SevenAction::StepInHome { from: b, to: goal }), c),
        own_pos(p, acts.push(SevenAction::StepInHome { from: b, to: goal }), c).balls[c.idx()] == own_pos(
            p,
            acts,
            c,
        ).balls[c.idx()].remove(b.0 as int),
        own_pos(p, acts.push(SevenAction::StepInHome { from: b, to: goal }), c).homes[c.idx()] == own_pos(
            p,
            acts,
            c,
        ).homes[c.idx()] ^ (1u8 << goal),
{
    lemma_own_push(p, acts, SevenAction::StepInHome { from: b, to: goal }, c);
}

/// The ball on `b` leaves the set `balls` that holds it.
proof fn lemma_take_ball(balls: BitBoard, b: Square, r: BitBoard)
    requires
        balls@.contains(b.0 as int),
        b.0 < 64,
        r@ == crate::bitboard::sym_diff(balls@, set![b.0 as int]),
    ensures
        r@ == balls@.remove(b.0 as int),
{
    assert(r@ =~= balls@.remove(b.0 as int));
}

/// Entries of `b` stand, in order, at the start of `a`.
spec fn extends(a: Seq<(Vec<SevenAction>, u8, BitBoard)>, b: Seq<(Vec<SevenAction>, u8, BitBoard)>) -> bool {
    &&& b.len() <= a.len()
    &&& forall|x: int| 0 <= x < b.len() ==> #[trigger] a[x] == b[x]
}

/// Some entry of `es` holds the actions `acts`, with `rem` steps left and the balls
/// `left` still on the ring.
spec fn has_entry(es: Seq<(Vec<SevenAction>, u8, BitBoard)>, acts: Seq<SevenAction>, rem: int, left: Set<int>) -> bool {
    exists|e: int| 0 <= e < es.len() && (#[trigger] es[e]).0@ == acts && es[e].1 == rem && es[e].2@ == left
}

/// Some entry of `es` has the ball on `b`, one of `balls`, enter the first goal
/// square after the goal moves `hm`, with the rest of `budget` left and the other
/// balls still on the ring.
spec fn entered(es: Seq<(Vec<SevenAction>, u8, BitBoard)>, hm: Seq<SevenAction>, b: Square, balls: BitBoard, c: Color, budget: u8) -> bool {
    has_entry(es, enter_first(hm, b), budget - dist_home_spec(b.0 as int, c) - 1, balls@.remove(b.0 as int))
}

/// The goal moves `hm` followed by the ball on `b` entering the first goal square.
pub open spec fn enter_first(hm: Seq<SevenAction>, b: Square) -> Seq<SevenAction> {
    hm.push(SevenAction::StepInHome { from: b, to: 0 })
}

/// The ball on `b`, one of `balls`, reaches the first goal square within `budget`
/// steps and is not held back by having just come out.
spec fn reaches_first(balls: BitBoard, b: Square, c: Color, budget: u8, fresh: bool) -> bool {
    &&& balls@.contains(b.0 as int)
    &&& dist_home_spec(b.0 as int, c) + 1 <= budget
    &&& !(b.0 == c.home_sq() && fresh)
}

proof fn lemma_extends_push(
    a: Seq<(Vec<SevenAction>, u8, BitBoard)>,
    b: Seq<(Vec<SevenAction>, u8, BitBoard)>,
    e: (Vec<SevenAction>, u8, BitBoard),
)
    requires
        extends(a, b),
    ensures
        extends(a.push(e), b),
        extends(a.push(e), a),
        has_entry(a.push(e), e.0@, e.1 as int, e.2@),
{
    assert(a.push(e)[a.len() as int] == e);
}

proof fn lemma_extends_trans(
    a: Seq<(Vec<SevenAction>, u8, BitBoard)>,
    b: Seq<(Vec<SevenAction>, u8, BitBoard)>,
    c: Seq<(Vec<SevenAction>, u8, BitBoard)>,
)
    requires
        extends(a, b),
        extends(b, c),
    ensures
        extends(a, c),
{
    assert forall|x: int| 0 <= x < c.len() implies #[trigger] a[x] == c[x] by {
        assert(a[x] == b[x]);
    }
}

proof fn lemma_has_entry_mono(
    a: Seq<(Vec<SevenAction>, u8, BitBoard)>,
    b: Seq<(Vec<SevenAction>, u8, BitBoard)>,
    acts: Seq<SevenAction>,
    rem: int,
    left: Set<int>,
)
    requires
        extends(a, b),
        has_entry(b, acts, rem, left),
    ensures
        has_entry(a, acts, rem, left),
{
    let e = choose|e: int| 0 <= e < b.len() && (#[trigger] b[e]).0@ == acts && b[e].1 == rem && b[e].2@ == left;
    assert(a[e] == b[e]);
}

/// For each sequence of goal moves, the ways to take one ball, or two, into the
/// goal with the steps left for the ring; each is added to `step_in_home_moves`
/// with the steps still left and the balls still on the ring.
fn get_step_in_home_moves(
    play_for: Color,
    home: Home,
    balls_bb: BitBoard,
    can_move_home: bool,
    home_moves: &Vec<Vec<SevenAction>>,
    board_budget: u8,
    fresh: bool,
    step_in_home_moves: &mut Vec<(Vec<SevenAction>, u8, BitBoard)>,
    Ghost(p): Ghost<Position>,
)
    requires
        pos_wf(p),
        p.homes[play_for.idx()] == home.0,
        p.balls[play_for.idx()] == balls_bb@,
        1 <= board_budget <= 7,
        forall|i: int| 0 <= i < home_moves.len() ==> goal_moves_ok(home.0, #[trigger] home_moves[i]@, home_moves[i]@.len() as int),
        entries_ok(p, play_for, old(step_in_home_moves)@),
    ensures
        entries_ok(p, play_for, final(step_in_home_moves)@),
        final(step_in_home_moves)@.len() >= old(step_in_home_moves)@.len(),
        forall|x: int| 0 <= x < old(step_in_home_moves)@.len() ==> #[trigger] final(step_in_home_moves)@[x] == old(step_in_home_moves)@[x],
        forall|i: int, b: Square|
            0 <= i < home_moves.len() && reaches_first(balls_bb, b, play_for, board_budget, fresh)
                && first_set_from(goal_after(home.0, home_moves[i]@, home_moves[i]@.len() as int), 0) >= 1
                ==> #[trigger] entered(final(step_in_home_moves)@, home_moves[i]@, b, balls_bb, play_for, board_budget),
{
    let ghost c = play_for;
    let ghost h = home.0;
    let mut hi: usize = 0;
    while hi < home_moves.len()
        invariant
            pos_wf(p),
            p.homes[c.idx()] == h,
            h == home.0,
            c == play_for,
            p.balls[c.idx()] == balls_bb@,
            1 <= board_budget <= 7,
            hi <= home_moves.len(),
            forall|i: int| 0 <= i < home_moves.len() ==> goal_moves_ok(h, #[trigger] home_moves[i]@, home_moves[i]@.len() as int),
            entries_ok(p, c, step_in_home_moves@),
            extends(step_in_home_moves@, old(step_in_home_moves)@),
            forall|i: int, b: Square|
                0 <= i < hi && reaches_first(balls_bb, b, play_for, board_budget, fresh)
                    && first_set_from(goal_after(h, home_moves[i]@, home_moves[i]@.len() as int), 0) >= 1
                    ==> #[trigger] entered(step_in_home_moves@, home_moves[i]@, b, balls_bb, play_for, board_budget),
        decreases home_moves.len() - hi,
    {
        let ghost start = step_in_home_moves@;
        let home_mvs = &home_moves[hi];
        let ghost hm = home_mvs@;
        let mut new_home = home;
        let mut t: usize = 0;
        while t < home_mvs.len()
            invariant
                t <= home_mvs.len(),
                hm == home_mvs@,
                goal_moves_ok(h, hm, hm.len() as int),
                new_home.0 == goal_after(h, hm, t as int),
            decreases home_mvs.len() - t,
        {
            proof {
                lemma_goal_ok_prefix(h, hm, hm.len() as int, t + 1);
            }
            if let SevenAction::StepHome { from, to } = home_mvs[t] {
                new_home.unset(from);
                new_home.set(to);
                proof {
                    assert(new_home.0 == goal_after(h, hm, t + 1));
                }
            }
            t = t + 1;
        }
        proof {
            lemma_goal_phase1(p, hm, c, hm.len() as int, hm.len() as int);
        }
        let ghost g = new_home.0;
        assert(own_ok(p, hm, c) && own_pos(p, hm, c) == with_home(p, c, g));
        let new_home_free = new_home.free();
        if new_home_free == 1 {
            let cands = moves_for_budget(balls_bb, board_budget, 0, play_for, fresh);
            let mut k: usize = 0;
            while k < cands.len()
                invariant
                    k <= cands.len(),
                    pos_wf(p),
                    c == play_for,
                    hm == home_mvs@,
                    own_ok(p, hm, c),
                    own_pos(p, hm, c) == with_home(p, c, g),
                    first_set_from(g, 0) == 1,
                    p.balls[c.idx()] == balls_bb@,
                    board_budget <= 7,
                    forall|i: int|
                        #![trigger cands[i]]
                        0 <= i < cands.len() ==> {
                            &&& cands[i].0 == (SevenAction::StepInHome { from: cands[i].1, to: 0 })
                            &&& balls_bb@.contains(cands[i].1.0 as int)
                            &&& cands[i].1.0 < 64
                            &&& dist_home_spec(cands[i].1.0 as int, play_for) + 1 + cands[i].2 == board_budget
                        },
                    entries_ok(p, c, step_in_home_moves@),
                    extends(step_in_home_moves@, start),
                    forall|j: int| 0 <= j < k ==> entered(step_in_home_moves@, hm, #[trigger] cands[j].1, balls_bb, play_for, board_budget),
                decreases cands.len() - k,
            {
                let (action, b, budget) = cands[k];
                let acts = extend_one(home_mvs, action);
                let left = balls_bb.xor(b.bitboard());
                proof {
                    lemma_goal_free(g, 0);
                    lemma_enter_goal(p, c, hm, b, 0);
                    lemma_take_ball(balls_bb, b, left);
                }
                let ghost before = step_in_home_moves@;
                let ghost entry = (acts, budget, left);
                step_in_home_moves.push((acts, budget, left));
                proof {
                    lemma_extends_push(before, start, entry);
                    assert(step_in_home_moves@ == before.push(entry));
                    assert forall|j: int| 0 <= j < k + 1 implies entered(step_in_home_moves@, hm, #[trigger] cands[j].1, balls_bb, play_for, board_budget) by {
                        if j < k {
                            lemma_has_entry_mono(step_in_home_moves@, before, enter_first(hm, cands[j].1), board_budget - dist_home_spec(cands[j].1.0 as int, play_for) - 1, balls_bb@.remove(cands[j].1.0 as int));
                        } else {
                            assert(entry.0@ == enter_first(hm, cands[j].1));
                        }
                    }
                    assert forall|i: int| 0 <= i < step_in_home_moves@.len() implies partial_ok(
                        p,
                        c,
                        (#[trigger] step_in_home_moves@[i]).0@,
                        step_in_home_moves@[i].1,
                        step_in_home_moves@[i].2@,
                    ) by {
                        if i < before.len() {
                            assert(step_in_home_moves@[i] == before[i]);
                        }
                    }
                }
                k = k + 1;
            }
            proof {
                assert forall|b: Square| reaches_first(balls_bb, b, play_for, board_budget, fresh) implies entered(
                    step_in_home_moves@,
                    hm,
                    b,
                    balls_bb,
                    play_for,
                    board_budget,
                ) by {
                    let j = choose|j: int| 0 <= j < cands.len() && #[trigger] cands[j].1.0 == b.0 as int;
                    assert(cands[j].1 == b);
                }
            }
        } else if new_home_free >= 2 {
            let mut goal: u8 = 0;
            while goal < new_home_free
                invariant
                    new_home_free <= 4,
                    new_home_free as int == first_set_from(g, 0),
                    pos_wf(p),
                    c == play_for,
                    hm == home_mvs@,
                    own_ok(p, hm, c),
                    own_pos(p, hm, c) == with_home(p, c, g),
                    g < 16,
                    p.balls[c.idx()] == balls_bb@,
                    1 <= board_budget <= 7,
                    entries_ok(p, c, step_in_home_moves@),
                    extends(step_in_home_moves@, start),
                    goal > 0 ==> forall|b: Square|
                        reaches_first(balls_bb, b, play_for, board_budget, fresh) ==> #[trigger] entered(
                            step_in_home_moves@,
                            hm,
                            b,
                            balls_bb,
                            play_for,
                            board_budget,
                        ),
                decreases new_home_free - goal,
            {
                let ghost gstart = step_in_home_moves@;
                if goal + 1 <= board_budget {
                    proof {
                        lemma_goal_free(g, goal as int);
                    }
                    let cands = moves_for_budget(balls_bb, board_budget, goal, play_for, fresh);
                    let mut k: usize = 0;
                    while k < cands.len()
                        invariant
                            k <= cands.len(),
                            pos_wf(p),
                            c == play_for,
                            hm == home_mvs@,
                            own_ok(p, hm, c),
                            own_pos(p, hm, c) == with_home(p, c, g),
                            g < 16,
                            goal < new_home_free,
                            new_home_free as int == first_set_from(g, 0),
                            !bit8(g, goal as int),
                            goal < 4,
                            p.balls[c.idx()] == balls_bb@,
                            board_budget <= 7,
                            forall|i: int|
                                #![trigger cands[i]]
                                0 <= i < cands.len() ==> {
                                    &&& cands[i].0 == (SevenAction::StepInHome { from: cands[i].1, to: goal })
                                    &&& balls_bb@.contains(cands[i].1.0 as int)
                                    &&& cands[i].1.0 < 64
                                    &&& dist_home_spec(cands[i].1.0 as int, play_for) + goal + 1 + cands[i].2
                                        == board_budget
                                },
                            entries_ok(p, c, step_in_home_moves@),
                            extends(step_in_home_moves@, gstart),
                            goal == 0 ==> forall|j: int|
                                0 <= j < k ==> entered(step_in_home_moves@, hm, #[trigger] cands[j].1, balls_bb, play_for, board_budget),
                        decreases cands.len() - k,
                    {
                        let ghost kstart = step_in_home_moves@;
                        let (action1, b1, budget1) = cands[k];
                        let left1 = balls_bb.xor(b1.bitboard());
                        let ghost acts1 = hm.push(action1);
                        proof {
                            lemma_enter_goal(p, c, hm, b1, goal);
                            lemma_take_ball(balls_bb, b1, left1);
                            assert(left1@.subset_of(p.balls[c.idx()]));
                            lemma_toggle_bits();
                        }
                        let to_waste: u8 = if can_move_home { 0 } else { budget1 };
                        let mut wasted: u8 = 0;
                        while wasted <= to_waste
                            invariant
                                to_waste <= 7,
                                budget1 <= 7,
                                to_waste <= budget1,
                                wasted <= to_waste + 2,
                                pos_wf(p),
                                c == play_for,
                                acts1 == hm.push(action1),
                                hm == home_mvs@,
                                action1 == (SevenAction::StepInHome { from: b1, to: goal }),
                                own_ok(p, acts1, c),
                                own_pos(p, acts1, c).balls.len() == 4,
                                own_pos(p, acts1, c).homes.len() == 4,
                                own_pos(p, acts1, c).balls[c.idx()] == left1@,
                                left1@.subset_of(p.balls[c.idx()]),
                                own_pos(p, acts1, c).homes[c.idx()] == g ^ (1u8 << goal),
                                g < 16,
                                goal < new_home_free,
                                new_home_free as int == first_set_from(g, 0),
                                goal < 4,
                                forall|a: u8, s: u8, i: int|
                                    s < 8 && 0 <= i < 8 ==> #[trigger] bit8(a ^ (1u8 << s), i) == (bit8(a, i) != (i
                                        == s as int)),
                                entries_ok(p, c, step_in_home_moves@),
                                extends(step_in_home_moves@, kstart),
                                wasted > 0 ==> has_entry(step_in_home_moves@, acts1, budget1 as int, left1@),
                            decreases to_waste + 2 - wasted,
                        {
                            let remaining = budget1 - wasted;
                            let acts = extend_one(home_mvs, action1);
                            let ghost before = step_in_home_moves@;
                            let ghost entry = (acts, remaining, left1);
                            step_in_home_moves.push((acts, remaining, left1));
                            proof {
                                lemma_extends_push(before, kstart, entry);
                                assert(step_in_home_moves@ == before.push(entry));
                                assert forall|i: int| 0 <= i < step_in_home_moves@.len() implies partial_ok(
                                    p,
                                    c,
                                    (#[trigger] step_in_home_moves@[i]).0@,
                                    step_in_home_moves@[i].1,
                                    step_in_home_moves@[i].2@,
                                ) by {
                                    if i < before.len() {
                                        assert(step_in_home_moves@[i] == before[i]);
                                    }
                                }
                            }
                            let ghost wstart = step_in_home_moves@;
                            let mut goal2: u8 = 0;
                            while goal2 < goal
                                invariant
                                    goal2 <= goal,
                                    remaining <= 7,
                                    pos_wf(p),
                                    c == play_for,
                                    acts1 == hm.push(action1),
                                    hm == home_mvs@,
                                    own_ok(p, acts1, c),
                                    own_pos(p, acts1, c).balls.len() == 4,
                                    own_pos(p, acts1, c).homes.len() == 4,
                                    own_pos(p, acts1, c).balls[c.idx()] == left1@,
                                    left1@.subset_of(p.balls[c.idx()]),
                                    own_pos(p, acts1, c).homes[c.idx()] == g ^ (1u8 << goal),
                                    g < 16,
                                    goal < new_home_free,
                                    new_home_free as int == first_set_from(g, 0),
                                    goal < 4,
                                    forall|a: u8, s: u8, i: int|
                                        s < 8 && 0 <= i < 8 ==> #[trigger] bit8(a ^ (1u8 << s), i) == (bit8(a, i) != (i
                                            == s as int)),
                                    entries_ok(p, c, step_in_home_moves@),
                                    extends(step_in_home_moves@, wstart),
                                decreases goal - goal2,
                            {
                                let ghost g2start = step_in_home_moves@;
                                if goal2 + 1 <= remaining {
                                    let cands2 = moves_for_budget(left1, remaining, goal2, play_for, fresh);
                                    let mut k2: usize = 0;
                                    while k2 < cands2.len()
                                        invariant
                                            k2 <= cands2.len(),
                                            goal2 < goal,
                                            pos_wf(p),
                                            c == play_for,
                                            acts1 == hm.push(action1),
                                            hm == home_mvs@,
                                            own_ok(p, acts1, c),
                                            own_pos(p, acts1, c).balls.len() == 4,
                                            own_pos(p, acts1, c).homes.len() == 4,
                                            own_pos(p, acts1, c).balls[c.idx()] == left1@,
                                            left1@.subset_of(p.balls[c.idx()]),
                                            own_pos(p, acts1, c).homes[c.idx()] == g ^ (1u8 << goal),
                                            g < 16,
                                            goal < new_home_free,
                                            new_home_free as int == first_set_from(g, 0),
                                            goal < 4,
                                            forall|a: u8, s: u8, i: int|
                                                s < 8 && 0 <= i < 8 ==> #[trigger] bit8(a ^ (1u8 << s), i) == (bit8(a, i)
                                                    != (i == s as int)),
                                            remaining <= 7,
                                            forall|i: int|
                                                #![trigger cands2[i]]
                                                0 <= i < cands2.len() ==> {
                                                    &&& cands2[i].0 == (SevenAction::StepInHome { from: cands2[i].1, to: goal2 })
                                                    &&& left1@.contains(cands2[i].1.0 as int)
                                                    &&& cands2[i].1.0 < 64
                                                    &&& dist_home_spec(cands2[i].1.0 as int, play_for) + goal2 + 1 + cands2[i].2
                                                        == remaining
                                                },
                                            entries_ok(p, c, step_in_home_moves@),
                                            extends(step_in_home_moves@, g2start),
                                        decreases cands2.len() - k2,
                                    {
                                        let (action2, b2, budget2) = cands2[k2];
                                        let mut acts2 = extend_one(home_mvs, action1);
                                        acts2.push(action2);
                                        let left2 = left1.xor(b2.bitboard());
                                        proof {
                                            lemma_goal_free(g, goal2 as int);
                                            assert(!bit8(g ^ (1u8 << goal), goal2 as int));
                                            lemma_enter_goal(p, c, acts1, b2, goal2);
                                            lemma_take_ball(left1, b2, left2);
                                            assert(left2@.subset_of(p.balls[c.idx()]));
                                        }
                                        let ghost before = step_in_home_moves@;
                                        let ghost entry = (acts2, budget2, left2);
                                        step_in_home_moves.push((acts2, budget2, left2));
                                        proof {
                                            lemma_extends_push(before, g2start, entry);
                                            assert(step_in_home_moves@ == before.push(entry));
                                            assert forall|i: int| 0 <= i < step_in_home_moves@.len() implies partial_ok(
                                                p,
                                                c,
                                                (#[trigger] step_in_home_moves@[i]).0@,
                                                step_in_home_moves@[i].1,
                                                step_in_home_moves@[i].2@,
                                            ) by {
                                                if i < before.len() {
                                                    assert(step_in_home_moves@[i] == before[i]);
                                                }
                                            }
                                        }
                                        k2 = k2 + 1;
                                    }
                                }
                                proof {
                                    lemma_extends_trans(step_in_home_moves@, g2start, wstart);
                                }
                                goal2 = goal2 + 1;
                            }
                            proof {
                                lemma_extends_trans(step_in_home_moves@, wstart, before);
                                lemma_extends_trans(step_in_home_moves@, before, kstart);
                                if wasted == 0 {
                                    lemma_has_entry_mono(step_in_home_moves@, wstart, acts1, budget1 as int, left1@);
                                } else {
                                    lemma_has_entry_mono(step_in_home_moves@, before, acts1, budget1 as int, left1@);
                                }
                            }
                            wasted = wasted + 2;
                        }
                        proof {
                            lemma_extends_trans(step_in_home_moves@, kstart, gstart);
                            if goal == 0 {
                                assert(acts1 == enter_first(hm, cands[k as int].1));
                                assert forall|j: int| 0 <= j < k + 1 implies entered(
                                    step_in_home_moves@,
                                    hm,
                                    #[trigger] cands[j].1,
                                    balls_bb,
                                    play_for,
                                    board_budget,
                                ) by {
                                    if j < k {
                                        lemma_has_entry_mono(step_in_home_moves@, kstart, enter_first(hm, cands[j].1), board_budget - dist_home_spec(cands[j].1.0 as int, play_for) - 1, balls_bb@.remove(cands[j].1.0 as int));
                                    }
                                }
                            }
                        }
                        k = k + 1;
                    }
                    proof {
                        if goal == 0 {
                            assert forall|b: Square| reaches_first(balls_bb, b, play_for, board_budget, fresh) implies
                                #[trigger] entered(step_in_home_moves@, hm, b, balls_bb, play_for, board_budget) by {
                                let j = choose|j: int| 0 <= j < cands.len() && #[trigger] cands[j].1.0 == b.0 as int;
                                assert(cands[j].1 == b);
                            }
                        }
                    }
                }
                proof {
                    lemma_extends_trans(step_in_home_moves@, gstart, start);
                    if goal > 0 {
                        assert forall|b: Square| reaches_first(balls_bb, b, play_for, board_budget, fresh) implies
                            #[trigger] entered(step_in_home_moves@, hm, b, balls_bb, play_for, board_budget) by {
                            assert(entered(gstart, hm, b, balls_bb, play_for, board_budget));
                            lemma_has_entry_mono(step_in_home_moves@, gstart, enter_first(hm, b), board_budget - dist_home_spec(b.0 as int, play_for) - 1, balls_bb@.remove(b.0 as int));
                        }
                    }
                }
                goal = goal + 1;
            }
        }
        proof {
            lemma_extends_trans(step_in_home_moves@, start, old(step_in_home_moves)@);
            assert forall|i: int, b: Square|
                0 <= i < hi + 1 && reaches_first(balls_bb, b, play_for, board_budget, fresh)
                    && first_set_from(goal_after(h, home_moves[i]@, home_moves[i]@.len() as int), 0) >= 1
                    implies #[trigger] entered(step_in_home_moves@, home_moves[i]@, b, balls_bb, play_for, board_budget) by {
                if i < hi {
                    assert(entered(start, home_moves[i]@, b, balls_bb, play_for, board_budget));
                    lemma_has_entry_mono(step_in_home_moves@, start, enter_first(home_moves[i]@, b), board_budget - dist_home_spec(b.0 as int, play_for) - 1, balls_bb@.remove(b.0 as int));
                } else {
                    assert(home_moves[i]@ == hm);
                }
            }
        }
        hi = hi + 1;
    }
}

/// The player a card is played for: the partner once the player's own goal is full.
pub open spec fn play_for_spec(p: Position, player: Color) -> Color {
    if p.homes[player.idx()] == 15 {
        color_of(player.idx() + 2)
    } else {
        player
    }
}

/// A split seven played by `player` for the one it is played for, all its parts for
/// that one, that can be carried out.
pub open spec fn seven_move_ok(p: Position, m: TacMove, player: Color) -> bool {
    &&& m.card == Card::Seven
    &&& m.played_by == player
    &&& m.played_for == play_for_spec(p, player)
    &&& m.action matches TacAction::SevenSteps { partner_idx, .. } && partner_idx is None
    &&& action_ok(p, m.action, m.played_for)
}

/// Every move of `ms` is a split seven played by `player` that can be carried out.
pub open spec fn all_seven_ok(p: Position, ms: Seq<TacMove>, player: Color) -> bool {
    forall|i: int| 0 <= i < ms.len() ==> seven_move_ok(p, #[trigger] ms[i], player)
}

/// Adds a step of `amount` for the ball on `from`; a step of nothing is left out.
fn push_step(res: &mut Vec<SevenAction>, from: Square, amount: u8, Ghost(p): Ghost<Position>, Ghost(c): Ghost<Color>)
    requires
        own_ok(p, old(res)@, c),
        own_pos(p, old(res)@, c).balls.len() == 4,
        own_pos(p, old(res)@, c).balls[c.idx()].contains(from.0 as int),
        from.0 < 64,
        amount <= 7,
    ensures
        own_ok(p, final(res)@, c),
        own_pos(p, final(res)@, c).balls.len() == 4,
        forall|sq: int|
            own_pos(p, old(res)@, c).balls[c.idx()].contains(sq) && sq != from.0 ==> #[trigger] own_pos(
                p,
                final(res)@,
                c,
            ).balls[c.idx()].contains(sq),
        final(res)@ == if amount != 0 {
            old(res)@.push(SevenAction::Step { from, to: Square(((from.0 + amount) % 64) as u8) })
        } else {
            old(res)@
        },
{
    if amount != 0 {
        let a = SevenAction::Step { from, to: from.add(amount) };
        proof {
            lemma_own_push(p, old(res)@, a, c);
        }
        res.push(a);
    }
}

/// Finishes a split seven from its parts.
fn seven_move(steps: Vec<SevenAction>, play_for: Color, player: Color, Ghost(p): Ghost<Position>) -> (r: TacMove)
    requires
        own_ok(p, steps@, play_for),
        play_for == play_for_spec(p, player),
    ensures
        seven_move_ok(p, r, player),
        steps_of(r) == steps@,
{
    proof {
        lemma_own_seven_ok(p, steps@, play_for);
    }
    TacMove::new(Card::Seven, TacAction::SevenSteps { steps, partner_idx: None }, play_for, player)
}

/// The parts of a split seven.
pub open spec fn steps_of(m: TacMove) -> Seq<SevenAction> {
    match m.action {
        TacAction::SevenSteps { steps, .. } => steps@,
        _ => Seq::empty(),
    }
}

/// `acts` followed by a step of `amount` for the ball on `b`; a step of nothing is left out.
pub open spec fn step_on(acts: Seq<SevenAction>, b: Square, amount: int) -> Seq<SevenAction> {
    if amount != 0 {
        acts.push(SevenAction::Step { from: b, to: Square(((b.0 + amount) % 64) as u8) })
    } else {
        acts
    }
}

/// Every way to share `rem` steps between the balls on `bl`, each added to `acts`:
/// the first ball's share counts up from nothing, the last ball takes what is left.
pub open spec fn splits(acts: Seq<SevenAction>, bl: Seq<Square>, rem: int) -> Seq<Seq<SevenAction>>
    decreases bl.len(), rem + 2,
{
    if rem < 0 {
        Seq::empty()
    } else if bl.len() == 0 {
        if rem == 0 {
            seq![acts]
        } else {
            Seq::empty()
        }
    } else if bl.len() == 1 {
        seq![step_on(acts, bl[0], rem)]
    } else {
        splits_upto(acts, bl, rem, rem + 1)
    }
}

/// The ways of `splits` in which the first ball's share is below `n`.
pub open spec fn splits_upto(acts: Seq<SevenAction>, bl: Seq<Square>, rem: int, n: int) -> Seq<Seq<SevenAction>>
    decreases bl.len(), n,
{
    if n <= 0 || bl.len() == 0 {
        Seq::empty()
    } else {
        splits_upto(acts, bl, rem, n - 1) + splits(step_on(acts, bl[0], n - 1), bl.drop_first(), rem - (n - 1))
    }
}

/// The number of ways to share `rem` steps between `n` balls.
pub open spec fn split_count(n: nat, rem: int) -> nat
    decreases n, rem + 2,
{
    if rem < 0 {
        0
    } else if n == 0 {
        if rem == 0 {
            1
        } else {
            0
        }
    } else if n == 1 {
        1
    } else {
        split_count_upto(n, rem, rem + 1)
    }
}

/// The ways of `split_count` in which the first ball's share is below `k`.
pub open spec fn split_count_upto(n: nat, rem: int, k: int) -> nat
    decreases n, k,
{
    if k <= 0 || n == 0 {
        0
    } else {
        split_count_upto(n, rem, k - 1) + split_count((n - 1) as nat, rem - (k - 1))
    }
}

/// With no steps to share, the one way adds nothing.
pub proof fn lemma_splits_zero(acts: Seq<SevenAction>, bl: Seq<Square>)
    ensures
        splits(acts, bl, 0) == seq![acts],
    decreases bl.len(),
{
    if bl.len() >= 2 {
        lemma_splits_zero(acts, bl.drop_first());
        assert(step_on(acts, bl[0], 0) == acts);
        assert(splits_upto(acts, bl, 0, 0) == Seq::<Seq<SevenAction>>::empty());
        assert(splits_upto(acts, bl, 0, 1) =~= seq![acts]);
    } else if bl.len() == 1 {
        assert(step_on(acts, bl[0], 0) == acts);
    }
}

/// `splits` gives `split_count` ways.
pub proof fn lemma_splits_len(acts: Seq<SevenAction>, bl: Seq<Square>, rem: int)
    ensures
        splits(acts, bl, rem).len() == split_count(bl.len(), rem),
    decreases bl.len(), rem + 2,
{
    if rem >= 0 && bl.len() >= 2 {
        lemma_splits_upto_len(acts, bl, rem, rem + 1);
    }
}

/// `splits_upto` gives `split_count_upto` ways.
pub proof fn lemma_splits_upto_len(acts: Seq<SevenAction>, bl: Seq<Square>, rem: int, k: int)
    ensures
        splits_upto(acts, bl, rem, k).len() == split_count_upto(bl.len(), rem, k),
    decreases bl.len(), k,
{
    if k > 0 && bl.len() > 0 {
        lemma_splits_upto_len(acts, bl, rem, k - 1);
        lemma_splits_len(step_on(acts, bl[0], k - 1), bl.drop_first(), rem - (k - 1));
    }
}

proof fn lemma_count2_upto(m: int, k: int)
    requires
        0 <= k <= m + 1,
    ensures
        split_count_upto(2, m, k) == k,
    decreases k,
{
    if k > 0 {
        lemma_count2_upto(m, k - 1);
        assert(split_count(1, m - (k - 1)) == 1);
        assert(split_count_upto(2, m, k) == split_count_upto(2, m, k - 1) + split_count(1, m - (k - 1)));
    }
}

proof fn lemma_count3_upto(m: int, k: int)
    requires
        0 <= k <= m + 1,
    ensures
        2 * split_count_upto(3, m, k) == 2 * k * (m + 1) - k * (k - 1),
    decreases k,
{
    if k > 0 {
        lemma_count3_upto(m, k - 1);
        lemma_count2_upto(m - (k - 1), m - (k - 1) + 1);
        assert(split_count(2, m - (k - 1)) == split_count_upto(2, m - (k - 1), m - (k - 1) + 1));
        assert(split_count_upto(3, m, k) == split_count_upto(3, m, k - 1) + split_count(2, m - (k - 1)));
        assert(split_count(2, m - (k - 1)) == m - (k - 1) + 1);
        assert(2 * k * (m + 1) - k * (k - 1) == 2 * (k - 1) * (m + 1) - (k - 1) * (k - 2) + 2 * (m - (k - 1) + 1))
            by (nonlinear_arith);
        assert(2 * split_count_upto(3, m, k) == 2 * split_count_upto(3, m, k - 1) + 2 * (m - (k - 1) + 1));
        assert(2 * split_count_upto(3, m, k - 1) == 2 * (k - 1) * (m + 1) - (k - 1) * (k - 2));
        assert(2 * split_count_upto(3, m, k) == 2 * k * (m + 1) - k * (k - 1));
    } else {
        assert(split_count_upto(3, m, k) == 0);
        assert(k * (k - 1) == 0 && 2 * k * (m + 1) == 0) by (nonlinear_arith) requires k == 0;
    }
}

/// Three balls share `m` steps in (m + 1)(m + 2) / 2 ways.
proof fn lemma_count3(m: int)
    requires
        m >= 0,
    ensures
        2 * split_count(3, m) == (m + 1) * (m + 2),
{
    lemma_count3_upto(m, m + 1);
    assert(split_count(3, m) == split_count_upto(3, m, m + 1));
    assert(2 * (m + 1) * (m + 1) - (m + 1) * m == (m + 1) * (m + 2)) by (nonlinear_arith);
}

/// One, two, three or four balls share the seven steps of a seven in 1, 8, 36 and
/// 120 ways.
pub proof fn law_seven_split_counts()
    ensures
        split_count(1, 7) == 1,
        split_count(2, 7) == 8,
        split_count(3, 7) == 36,
        split_count(4, 7) == 120,
{
    lemma_count2_upto(7, 8);
    assert(split_count(2, 7) == split_count_upto(2, 7, 8));
    lemma_count3(7);
    lemma_count3(0);
    lemma_count3(1);
    lemma_count3(2);
    lemma_count3(3);
    lemma_count3(4);
    lemma_count3(5);
    lemma_count3(6);
    assert(split_count_upto(4, 7, 1) == split_count_upto(4, 7, 0) + split_count(3, 7));
    assert(split_count_upto(4, 7, 1) == 36);
    assert(split_count_upto(4, 7, 2) == split_count_upto(4, 7, 1) + split_count(3, 6));
    assert(split_count_upto(4, 7, 2) == 64);
    assert(split_count_upto(4, 7, 3) == split_count_upto(4, 7, 2) + split_count(3, 5));
    assert(split_count_upto(4, 7, 3) == 85);
    assert(split_count_upto(4, 7, 4) == split_count_upto(4, 7, 3) + split_count(3, 4));
    assert(split_count_upto(4, 7, 4) == 100);
    assert(split_count_upto(4, 7, 5) == split_count_upto(4, 7, 4) + split_count(3, 3));
    assert(split_count_upto(4, 7, 5) == 110);
    assert(split_count_upto(4, 7, 6) == split_count_upto(4, 7, 5) + split_count(3, 2));
    assert(split_count_upto(4, 7, 6) == 116);
    assert(split_count_upto(4, 7, 7) == split_count_upto(4, 7, 6) + split_count(3, 1));
    assert(split_count_upto(4, 7, 7) == 119);
    assert(split_count_upto(4, 7, 8) == split_count_upto(4, 7, 7) + split_count(3, 0));
    assert(split_count_upto(4, 7, 8) == 120);
    assert(split_count(4, 7) == split_count_upto(4, 7, 8));
}

/// `bl` lists the squares of `s` in increasing order.
pub open spec fn lists(bl: Seq<Square>, s: Set<int>) -> bool {
    &&& bl.len() == s.len()
    &&& forall|i: int| 0 <= i < bl.len() ==> s.contains(#[trigger] bl[i].0 as int)
    &&& forall|x: int| s.contains(x) ==> exists|i: int| 0 <= i < bl.len() && #[trigger] bl[i].0 as int == x
    &&& forall|i: int, j: int| 0 <= i < j < bl.len() ==> (#[trigger] bl[i]).0 < (#[trigger] bl[j]).0
}

/// A finite set of squares has one listing in increasing order.
pub proof fn lemma_lists_unique(a: Seq<Square>, b: Seq<Square>, s: Set<int>)
    requires
        s.finite(),
        lists(a, s),
        lists(b, s),
    ensures
        a == b,
    decreases a.len(),
{
    if a.len() == 0 {
        assert(a =~= b);
    } else {
        assert(b.len() > 0);
        let x = a[0].0 as int;
        let y = b[0].0 as int;
        assert(s.contains(x) && s.contains(y));
        let i = choose|i: int| 0 <= i < a.len() && #[trigger] a[i].0 as int == y;
        let j = choose|j: int| 0 <= j < b.len() && #[trigger] b[j].0 as int == x;
        if i > 0 {
            assert(a[0].0 < a[i].0);
        }
        if j > 0 {
            assert(b[0].0 < b[j].0);
        }
        assert(x == y);
        assert(a[0] == b[0]);
        let s2 = s.remove(x);
        let a2 = a.drop_first();
        let b2 = b.drop_first();
        assert(s2.len() == s.len() - 1);
        assert forall|k: int| 0 <= k < a2.len() implies s2.contains(#[trigger] a2[k].0 as int) by {
            assert(a2[k] == a[k + 1]);
            assert(a[0].0 < a[k + 1].0);
        }
        assert forall|z: int| s2.contains(z) implies exists|k: int| 0 <= k < a2.len() && #[trigger] a2[k].0 as int == z by {
            let k = choose|k: int| 0 <= k < a.len() && #[trigger] a[k].0 as int == z;
            assert(k != 0);
            assert(a2[k - 1] == a[k]);
        }
        assert forall|k: int, l: int| 0 <= k < l < a2.len() implies (#[trigger] a2[k]).0 < (#[trigger] a2[l]).0 by {
            assert(a2[k] == a[k + 1] && a2[l] == a[l + 1]);
        }
        assert forall|k: int| 0 <= k < b2.len() implies s2.contains(#[trigger] b2[k].0 as int) by {
            assert(b2[k] == b[k + 1]);
            assert(b[0].0 < b[k + 1].0);
        }
        assert forall|z: int| s2.contains(z) implies exists|k: int| 0 <= k < b2.len() && #[trigger] b2[k].0 as int == z by {
            let k = choose|k: int| 0 <= k < b.len() && #[trigger] b[k].0 as int == z;
            assert(k != 0);
            assert(b2[k - 1] == b[k]);
        }
        assert forall|k: int, l: int| 0 <= k < l < b2.len() implies (#[trigger] b2[k]).0 < (#[trigger] b2[l]).0 by {
            assert(b2[k] == b[k + 1] && b2[l] == b[l + 1]);
        }
        lemma_lists_unique(a2, b2, s2);
        assert(a =~= b) by {
            assert forall|k: int| 0 <= k < a.len() implies a[k] == b[k] by {
                if k > 0 {
                    assert(a[k] == a2[k - 1] && b[k] == b2[k - 1]);
                }
            }
        }
    }
}

/// From index `start` on, `now` holds moves whose parts are those of `x`, in order.
pub open spec fn added(now: Seq<TacMove>, start: int, x: Seq<Seq<SevenAction>>) -> bool {
    &&& 0 <= start
    &&& now.len() == start + x.len()
    &&& forall|k: int| 0 <= k < x.len() ==> steps_of(now[start + k]) == #[trigger] x[k]
}

proof fn lemma_added_push(now: Seq<TacMove>, start: int, x: Seq<Seq<SevenAction>>, m: TacMove)
    requires
        added(now, start, x),
    ensures
        added(now.push(m), start, x.push(steps_of(m))),
{
    assert forall|k: int| 0 <= k < x.len() + 1 implies steps_of(now.push(m)[start + k]) == #[trigger] x.push(steps_of(m))[k] by {
        if k < x.len() {
            assert(now.push(m)[start + k] == now[start + k]);
        }
    }
}

/// Every way to share the steps left over between the balls still on the ring,
/// each finished into a move and added to `moves`.
fn combinations(
    actions: &Vec<SevenAction>,
    remaining: u8,
    balls: BitBoard,
    play_for: Color,
    player: Color,
    moves: &mut Vec<TacMove>,
    Ghost(p): Ghost<Position>,
)
    requires
        pos_wf(p),
        play_for == play_for_spec(p, player),
        partial_ok(p, play_for, actions@, remaining, balls@),
        all_seven_ok(p, old(moves)@, player),
    ensures
        all_seven_ok(p, final(moves)@, player),
        forall|x: int| 0 <= x < old(moves)@.len() ==> #[trigger] final(moves)@[x] == old(moves)@[x],
        final(moves)@.len() >= old(moves)@.len(),
        final(moves)@.len() > old(moves)@.len() <==> (balls@.len() > 0 || remaining == 0),
        exists|bl: Seq<Square>|
            lists(bl, balls@) && added(final(moves)@, old(moves)@.len() as int, #[trigger] splits(actions@, bl, remaining as int)),
{
    let ghost c = play_for;
    let ghost q = own_pos(p, actions@, c);
    let ghost o = old(moves)@.len() as int;
    let ghost a = actions@;
    let ghost rr = remaining as int;
    let bl = balls.squares();
    proof {
        vstd::set_lib::lemma_len_subset(balls@, p.balls[c.idx()]);
        assert(lists(bl@, balls@));
        assert(added(moves@, o, Seq::empty()));
    }
    let nb = bl.len();
    if nb == 0 {
        if remaining == 0 {
            let ghost before = moves@;
            let m = seven_move(copy_steps(actions), play_for, player, Ghost(p));
            moves.push(m);
            proof {
                assert forall|i: int| 0 <= i < moves@.len() implies seven_move_ok(p, #[trigger] moves@[i], player) by {
                    if i < before.len() {
                        assert(moves@[i] == before[i]);
                    }
                }
                lemma_added_push(before, o, Seq::empty(), m);
                assert(Seq::<Seq<SevenAction>>::empty().push(a) =~= splits(a, bl@, rr));
            }
        } else {
            assert(splits(a, bl@, rr) =~= Seq::<Seq<SevenAction>>::empty());
        }
    } else if nb == 1 {
        let mut res = copy_steps(actions);
        push_step(&mut res, bl[0], remaining, Ghost(p), Ghost(c));
        let ghost before = moves@;
        let m = seven_move(res, play_for, player, Ghost(p));
        moves.push(m);
        proof {
            assert forall|i: int| 0 <= i < moves@.len() implies seven_move_ok(p, #[trigger] moves@[i], player) by {
                if i < before.len() {
                    assert(moves@[i] == before[i]);
                }
            }
            lemma_added_push(before, o, Seq::empty(), m);
            assert(Seq::<Seq<SevenAction>>::empty().push(steps_of(m)) =~= splits(a, bl@, rr));
        }
    } else if nb == 2 {
        let mut i: u8 = 0;
        while i <= remaining
            invariant
                i <= remaining + 1,
                remaining <= 7,
                bl.len() == 2,
                bl[0].0 < bl[1].0,
                pos_wf(p),
                play_for == play_for_spec(p, player),
                c == play_for,
                q == own_pos(p, actions@, c),
                partial_ok(p, c, actions@, remaining, balls@),
                forall|k: int| 0 <= k < bl.len() ==> balls@.contains(#[trigger] bl[k].0 as int),
                all_seven_ok(p, moves@, player),
                moves@.len() >= old(moves)@.len() + i,
                forall|x: int| 0 <= x < old(moves)@.len() ==> #[trigger] moves@[x] == old(moves)@[x],
                o == old(moves)@.len(),
                a == actions@,
                rr == remaining,
                added(moves@, o, splits_upto(a, bl@, rr, i as int)),
            decreases remaining + 1 - i,
        {
            let j = remaining - i;
            let mut res = copy_steps(actions);
            proof { crate::bitboard::lemma_view_bounded(balls); }
            push_step(&mut res, bl[0], i, Ghost(p), Ghost(c));
            push_step(&mut res, bl[1], j, Ghost(p), Ghost(c));
            let ghost before = moves@;
            let m = seven_move(res, play_for, player, Ghost(p));
            moves.push(m);
            proof {
                assert forall|x: int| 0 <= x < old(moves)@.len() implies #[trigger] moves@[x] == old(moves)@[x] by {
                    assert(moves@[x] == before[x]);
                }
                assert forall|k: int| 0 <= k < moves@.len() implies seven_move_ok(p, #[trigger] moves@[k], player) by {
                    if k < before.len() {
                        assert(moves@[k] == before[k]);
                    }
                }
                let tail = bl@.drop_first();
                assert(tail.len() == 1 && tail[0] == bl@[1]);
                assert(splits(step_on(a, bl@[0], i as int), tail, rr - i) =~= seq![steps_of(m)]);
                assert(splits_upto(a, bl@, rr, i + 1) =~= splits_upto(a, bl@, rr, i as int).push(steps_of(m)));
                lemma_added_push(before, o, splits_upto(a, bl@, rr, i as int), m);
            }
            i = i + 1;
        }
        assert(splits(a, bl@, rr) == splits_upto(a, bl@, rr, rr + 1));
    } else if nb == 3 {
        let mut i: u8 = 0;
        while i <= remaining
            invariant
                i <= remaining + 1,
                remaining <= 7,
                bl.len() == 3,
                bl[0].0 < bl[1].0 < bl[2].0,
                pos_wf(p),
                play_for == play_for_spec(p, player),
                c == play_for,
                partial_ok(p, c, actions@, remaining, balls@),
                forall|k: int| 0 <= k < bl.len() ==> balls@.contains(#[trigger] bl[k].0 as int),
                all_seven_ok(p, moves@, player),
                moves@.len() >= old(moves)@.len() + i,
                forall|x: int| 0 <= x < old(moves)@.len() ==> #[trigger] moves@[x] == old(moves)@[x],
                o == old(moves)@.len(),
                a == actions@,
                rr == remaining,
                added(moves@, o, splits_upto(a, bl@, rr, i as int)),
            decreases remaining + 1 - i,
        {
            let ghost x1 = step_on(a, bl@[0], i as int);
            let ghost t1 = bl@.drop_first();
            let ghost u = splits_upto(a, bl@, rr, i as int);
            let mut j: u8 = 0;
            while j <= remaining - i
                invariant
                    i <= remaining,
                    j <= remaining - i + 1,
                    remaining <= 7,
                    bl.len() == 3,
                    bl[0].0 < bl[1].0 < bl[2].0,
                    pos_wf(p),
                    play_for == play_for_spec(p, player),
                    c == play_for,
                    partial_ok(p, c, actions@, remaining, balls@),
                    forall|k: int| 0 <= k < bl.len() ==> balls@.contains(#[trigger] bl[k].0 as int),
                    all_seven_ok(p, moves@, player),
                moves@.len() >= old(moves)@.len() + i + j,
                forall|x: int| 0 <= x < old(moves)@.len() ==> #[trigger] moves@[x] == old(moves)@[x],
                    o == old(moves)@.len(),
                    a == actions@,
                    rr == remaining,
                    x1 == step_on(a, bl@[0], i as int),
                    t1 == bl@.drop_first(),
                    u == splits_upto(a, bl@, rr, i as int),
                    added(moves@, o, u + splits_upto(x1, t1, rr - i, j as int)),
                decreases remaining - i + 1 - j,
            {
                let k = remaining - i - j;
                let mut res = copy_steps(actions);
                proof { crate::bitboard::lemma_view_bounded(balls); }
                push_step(&mut res, bl[0], i, Ghost(p), Ghost(c));
                push_step(&mut res, bl[1], j, Ghost(p), Ghost(c));
                push_step(&mut res, bl[2], k, Ghost(p), Ghost(c));
                let ghost before = moves@;
                let m = seven_move(res, play_for, player, Ghost(p));
                moves.push(m);
                proof {
                    assert forall|x: int| 0 <= x < old(moves)@.len() implies #[trigger] moves@[x] == old(moves)@[x] by {
                        assert(moves@[x] == before[x]);
                    }
                    assert forall|x: int| 0 <= x < moves@.len() implies seven_move_ok(p, #[trigger] moves@[x], player) by {
                        if x < before.len() {
                            assert(moves@[x] == before[x]);
                        }
                    }
                    let t2 = t1.drop_first();
                    assert(t1.len() == 2 && t1[0] == bl@[1] && t2.len() == 1 && t2[0] == bl@[2]);
                    assert(splits(step_on(x1, t1[0], j as int), t2, rr - i - j) =~= seq![steps_of(m)]);
                    assert(splits_upto(x1, t1, rr - i, j + 1) =~= splits_upto(x1, t1, rr - i, j as int).push(steps_of(m)));
                    assert(u + splits_upto(x1, t1, rr - i, j + 1) =~= (u + splits_upto(x1, t1, rr - i, j as int)).push(steps_of(m)));
                    lemma_added_push(before, o, u + splits_upto(x1, t1, rr - i, j as int), m);
                }
                j = j + 1;
            }
            proof {
                assert(splits(x1, t1, rr - i) == splits_upto(x1, t1, rr - i, rr - i + 1));
                assert(splits_upto(a, bl@, rr, i + 1) =~= u + splits(x1, t1, rr - i));
            }
            i = i + 1;
        }
        assert(splits(a, bl@, rr) == splits_upto(a, bl@, rr, rr + 1));
    } else {
        assert(nb == 4) by {
            lemma_wf_count(p, c);
        }
        let mut i: u8 = 0;
        while i <= remaining
            invariant
                i <= remaining + 1,
                remaining <= 7,
                bl.len() == 4,
                bl[0].0 < bl[1].0 < bl[2].0 < bl[3].0,
                pos_wf(p),
                play_for == play_for_spec(p, player),
                c == play_for,
                partial_ok(p, c, actions@, remaining, balls@),
                forall|k: int| 0 <= k < bl.len() ==> balls@.contains(#[trigger] bl[k].0 as int),
                all_seven_ok(p, moves@, player),
                moves@.len() >= old(moves)@.len() + i,
                forall|x: int| 0 <= x < old(moves)@.len() ==> #[trigger] moves@[x] == old(moves)@[x],
                o == old(moves)@.len(),
                a == actions@,
                rr == remaining,
                added(moves@, o, splits_upto(a, bl@, rr, i as int)),
            decreases remaining + 1 - i,
        {
            let ghost x1 = step_on(a, bl@[0], i as int);
            let ghost t1 = bl@.drop_first();
            let ghost u = splits_upto(a, bl@, rr, i as int);
            let mut j: u8 = 0;
            while j <= remaining - i
                invariant
                    i <= remaining,
                    j <= remaining - i + 1,
                    remaining <= 7,
                    bl.len() == 4,
                    bl[0].0 < bl[1].0 < bl[2].0 < bl[3].0,
                    pos_wf(p),
                    play_for == play_for_spec(p, player),
                    c == play_for,
                    partial_ok(p, c, actions@, remaining, balls@),
                    forall|k: int| 0 <= k < bl.len() ==> balls@.contains(#[trigger] bl[k].0 as int),
                    all_seven_ok(p, moves@, player),
                moves@.len() >= old(moves)@.len() + i + j,
                forall|x: int| 0 <= x < old(moves)@.len() ==> #[trigger] moves@[x] == old(moves)@[x],
                    o == old(moves)@.len(),
                    a == actions@,
                    rr == remaining,
                    x1 == step_on(a, bl@[0], i as int),
                    t1 == bl@.drop_first(),
                    u == splits_upto(a, bl@, rr, i as int),
                    added(moves@, o, u + splits_upto(x1, t1, rr - i, j as int)),
                decreases remaining - i + 1 - j,
            {
                let ghost x2 = step_on(x1, t1[0], j as int);
                let ghost t2 = t1.drop_first();
                let ghost v = u + splits_upto(x1, t1, rr - i, j as int);
                let mut k: u8 = 0;
                while k <= remaining - i - j
                    invariant
                        i <= remaining,
                        j <= remaining - i,
                        k <= remaining - i - j + 1,
                        remaining <= 7,
                        bl.len() == 4,
                        bl[0].0 < bl[1].0 < bl[2].0 < bl[3].0,
                        pos_wf(p),
                        play_for == play_for_spec(p, player),
                        c == play_for,
                        partial_ok(p, c, actions@, remaining, balls@),
                        forall|x: int| 0 <= x < bl.len() ==> balls@.contains(#[trigger] bl[x].0 as int),
                        all_seven_ok(p, moves@, player),
                moves@.len() >= old(moves)@.len() + i + j + k,
                forall|x: int| 0 <= x < old(moves)@.len() ==> #[trigger] moves@[x] == old(moves)@[x],
                        o == old(moves)@.len(),
                        a == actions@,
                        rr == remaining,
                        x1 == step_on(a, bl@[0], i as int),
                        t1 == bl@.drop_first(),
                        x2 == step_on(x1, t1[0], j as int),
                        t2 == t1.drop_first(),
                        v == u + splits_upto(x1, t1, rr - i, j as int),
                        added(moves@, o, v + splits_upto(x2, t2, rr - i - j, k as int)),
                    decreases remaining - i - j + 1 - k,
                {
                    let l = remaining - i - j - k;
                    let mut res = copy_steps(actions);
                    proof { crate::bitboard::lemma_view_bounded(balls); }
                    push_step(&mut res, bl[0], i, Ghost(p), Ghost(c));
                    push_step(&mut res, bl[1], j, Ghost(p), Ghost(c));
                    push_step(&mut res, bl[2], k, Ghost(p), Ghost(c));
                    push_step(&mut res, bl[3], l, Ghost(p), Ghost(c));
                    let ghost before = moves@;
                    let m = seven_move(res, play_for, player, Ghost(p));
                    moves.push(m);
                    proof {
                        assert forall|x: int| 0 <= x < old(moves)@.len() implies #[trigger] moves@[x] == old(moves)@[x] by {
                            assert(moves@[x] == before[x]);
                        }
                        assert forall|x: int| 0 <= x < moves@.len() implies seven_move_ok(p, #[trigger] moves@[x], player) by {
                            if x < before.len() {
                                assert(moves@[x] == before[x]);
                            }
                        }
                        let t3 = t2.drop_first();
                        assert(t1[0] == bl@[1] && t2.len() == 2 && t2[0] == bl@[2] && t3.len() == 1 && t3[0] == bl@[3]);
                        assert(splits(step_on(x2, t2[0], k as int), t3, rr - i - j - k) =~= seq![steps_of(m)]);
                        assert(splits_upto(x2, t2, rr - i - j, k + 1) =~= splits_upto(x2, t2, rr - i - j, k as int).push(steps_of(m)));
                        assert(v + splits_upto(x2, t2, rr - i - j, k + 1) =~= (v + splits_upto(x2, t2, rr - i - j, k as int)).push(steps_of(m)));
                        lemma_added_push(before, o, v + splits_upto(x2, t2, rr - i - j, k as int), m);
                    }
                    k = k + 1;
                }
                proof {
                    assert(splits(x2, t2, rr - i - j) == splits_upto(x2, t2, rr - i - j, rr - i - j + 1));
                    assert(splits_upto(x1, t1, rr - i, j + 1) =~= splits_upto(x1, t1, rr - i, j as int) + splits(x2, t2, rr - i - j));
                    assert(u + splits_upto(x1, t1, rr - i, j + 1) =~= v + splits(x2, t2, rr - i - j));
                }
                j = j + 1;
            }
            proof {
                assert(splits(x1, t1, rr - i) == splits_upto(x1, t1, rr - i, rr - i + 1));
                assert(splits_upto(a, bl@, rr, i + 1) =~= u + splits(x1, t1, rr - i));
            }
            i = i + 1;
        }
        assert(splits(a, bl@, rr) == splits_upto(a, bl@, rr, rr + 1));
    }
}

/// A color has at most four balls on the ring.
proof fn lemma_wf_count(p: Position, c: Color)
    requires
        pos_wf(p),
    ensures
        p.balls[c.idx()].finite(),
        p.balls[c.idx()].len() <= 4,
{
    assert(p.balls[c.idx()].len() + ones8(p.homes[c.idx()], 8) <= 4);
}

/// Some move of `ms` is the split seven with parts `acts`.
pub open spec fn offers(ms: Seq<TacMove>, acts: Seq<SevenAction>) -> bool {
    exists|x: int| 0 <= x < ms.len() && steps_of(#[trigger] ms[x]) == acts
}

/// Every way to share `rem` steps between the balls on the squares `balls`, each
/// after the parts `acts`, is a move of `ms`.
pub open spec fn splits_offered(ms: Seq<TacMove>, acts: Seq<SevenAction>, rem: int, balls: Set<int>) -> bool {
    exists|bl: Seq<Square>|
        lists(bl, balls) && forall|k: int|
            0 <= k < splits(acts, bl, rem).len() ==> offers(ms, #[trigger] splits(acts, bl, rem)[k])
}

/// Every way to share the seven steps between the balls on the squares `balls` is a
/// move of `ms`.
pub open spec fn ring_splits_offered(ms: Seq<TacMove>, balls: Set<int>) -> bool {
    splits_offered(ms, Seq::empty(), 7, balls)
}

/// The moves of `b` stand, in order, at the start of `a`.
pub open spec fn moves_extend(a: Seq<TacMove>, b: Seq<TacMove>) -> bool {
    &&& b.len() <= a.len()
    &&& forall|x: int| 0 <= x < b.len() ==> #[trigger] a[x] == b[x]
}

pub proof fn lemma_splits_offered_mono(a: Seq<TacMove>, b: Seq<TacMove>, acts: Seq<SevenAction>, rem: int, balls: Set<int>)
    requires
        moves_extend(a, b),
        splits_offered(b, acts, rem, balls),
    ensures
        splits_offered(a, acts, rem, balls),
{
    let bl = choose|bl: Seq<Square>|
        lists(bl, balls) && forall|k: int|
            0 <= k < splits(acts, bl, rem).len() ==> offers(b, #[trigger] splits(acts, bl, rem)[k]);
    assert forall|k: int| 0 <= k < splits(acts, bl, rem).len() implies offers(
        a,
        #[trigger] splits(acts, bl, rem)[k],
    ) by {
        let x = choose|x: int| 0 <= x < b.len() && steps_of(#[trigger] b[x]) == splits(acts, bl, rem)[k];
        assert(a[x] == b[x]);
    }
}

pub proof fn lemma_offered_mono(a: Seq<TacMove>, b: Seq<TacMove>, balls: Set<int>)
    requires
        moves_extend(a, b),
        ring_splits_offered(b, balls),
    ensures
        ring_splits_offered(a, balls),
{
    lemma_splits_offered_mono(a, b, Seq::empty(), 7, balls);
}

proof fn lemma_added_offered(ms: Seq<TacMove>, start: int, acts: Seq<SevenAction>, rem: int, bl: Seq<Square>, balls: Set<int>)
    requires
        lists(bl, balls),
        added(ms, start, splits(acts, bl, rem)),
    ensures
        splits_offered(ms, acts, rem, balls),
{
    assert forall|k: int| 0 <= k < splits(acts, bl, rem).len() implies offers(
        ms,
        #[trigger] splits(acts, bl, rem)[k],
    ) by {
        assert(steps_of(ms[start + k]) == splits(acts, bl, rem)[k]);
    }
}

/// What `ms` offers for one partial split seven `ent`: every way to share its steps
/// left between its balls left.
pub open spec fn entry_offered(ms: Seq<TacMove>, ent: (Vec<SevenAction>, u8, BitBoard)) -> bool {
    splits_offered(ms, ent.0@, ent.1 as int, ent.2@)
}

/// Only ring moves can make up a split seven of `player`: it plays for itself, no ball
/// can move inside or into its goal (the goal is empty or locked, and its balls on the
/// ring are all too far from the goal or the one on its entry square has just come
/// out), and it has a ball on the ring.
pub open spec fn only_ring_splits(p: Position, player: Color) -> bool {
    &&& play_for_spec(p, player) == player
    &&& p.homes[player.idx()] == 0 || locked_spec(p.homes[player.idx()])
    &&& p.fresh[player.idx()] || forall|x: int| p.balls[player.idx()].contains(x) ==> dist_home_spec(x, player) + 1 > 7
    &&& exists|x: int| p.balls[player.idx()].contains(x)
}

/// The ball on `b` is one of those of `c` on the ring, close enough to the goal to
/// enter it with a split seven.
pub open spec fn goal_entry_ok(p: Position, c: Color, b: Square) -> bool {
    &&& p.balls[c.idx()].contains(b.0 as int)
    &&& dist_home_spec(b.0 as int, c) + 1 <= 7
}

/// Every split seven in which the ball on `b` enters the first goal square and the
/// steps left are shared between the other balls of `c` on the ring is a move of `ms`.
pub open spec fn first_entry_offered(ms: Seq<TacMove>, p: Position, c: Color, b: Square) -> bool {
    splits_offered(
        ms,
        enter_first(Seq::empty(), b),
        6 - dist_home_spec(b.0 as int, c),
        p.balls[c.idx()].remove(b.0 as int),
    )
}

/// A split seven of `c` can spend `hb` of its steps on the goal: from none up to all
/// seven with a ball on the ring, all seven without one, and none on a goal that is
/// empty or locked.
pub open spec fn seven_budget_ok(p: Position, c: Color, hb: u8) -> bool {
    &&& (if p.balls[c.idx()].len() == 0 { 7u8 } else { 0u8 }) <= hb
    &&& hb < (if p.homes[c.idx()] == 0 || locked_spec(p.homes[c.idx()]) { 1u8 } else { 8u8 })
}

/// Every split seven of `c` that spends `hb` steps on its goal is a move of `ms`: each
/// goal sequence for that budget and, for an even budget below seven, no goal move at
/// all, followed by every way to share the steps left between its balls on the ring.
pub open spec fn budget_offered(ms: Seq<TacMove>, p: Position, c: Color, hb: u8) -> bool {
    &&& forall|t: int|
        0 <= t < home_moves_table(p.homes[c.idx()], hb).len() ==> splits_offered(
            ms,
            #[trigger] home_moves_table(p.homes[c.idx()], hb)[t],
            7 - hb,
            p.balls[c.idx()],
        )
    &&& hb % 2 == 0 && hb < 7 ==> splits_offered(ms, Seq::empty(), 7 - hb, p.balls[c.idx()])
}

proof fn lemma_budget_offered_mono(a: Seq<TacMove>, b: Seq<TacMove>, p: Position, c: Color, hb: u8)
    requires
        moves_extend(a, b),
        budget_offered(b, p, c, hb),
    ensures
        budget_offered(a, p, c, hb),
{
    let h = p.homes[c.idx()];
    assert forall|t: int| 0 <= t < home_moves_table(h, hb).len() implies splits_offered(
        a,
        #[trigger] home_moves_table(h, hb)[t],
        7 - hb,
        p.balls[c.idx()],
    ) by {
        lemma_splits_offered_mono(a, b, home_moves_table(h, hb)[t], 7 - hb, p.balls[c.idx()]);
    }
    if hb % 2 == 0 && hb < 7 {
        lemma_splits_offered_mono(a, b, Seq::empty(), 7 - hb, p.balls[c.idx()]);
    }
}

/// What the split sevens of `ms` offer `player` keeps when more moves follow them.
pub proof fn lemma_seven_offers_mono(a: Seq<TacMove>, b: Seq<TacMove>, p: Position, player: Color)
    requires
        moves_extend(a, b),
        !p.balls[play_for_spec(p, player).idx()].is_empty() ==> ring_splits_offered(b, p.balls[play_for_spec(p, player).idx()]),
        play_for_spec(p, player) == player && !p.fresh[player.idx()] && first_set_from(p.homes[player.idx()], 0) >= 1
            ==> forall|x: Square| goal_entry_ok(p, player, x) ==> #[trigger] first_entry_offered(b, p, player, x),
        forall|hb: u8| seven_budget_ok(p, play_for_spec(p, player), hb) ==> #[trigger] budget_offered(b, p, play_for_spec(p, player), hb),
    ensures
        !p.balls[play_for_spec(p, player).idx()].is_empty() ==> ring_splits_offered(a, p.balls[play_for_spec(p, player).idx()]),
        play_for_spec(p, player) == player && !p.fresh[player.idx()] && first_set_from(p.homes[player.idx()], 0) >= 1
            ==> forall|x: Square| goal_entry_ok(p, player, x) ==> #[trigger] first_entry_offered(a, p, player, x),
        forall|hb: u8| seven_budget_ok(p, play_for_spec(p, player), hb) ==> #[trigger] budget_offered(a, p, play_for_spec(p, player), hb),
{
    let pf = play_for_spec(p, player);
    if !p.balls[pf.idx()].is_empty() {
        lemma_offered_mono(a, b, p.balls[pf.idx()]);
    }
    assert forall|x: Square| pf == player && !p.fresh[player.idx()] && first_set_from(p.homes[player.idx()], 0) >= 1
        && goal_entry_ok(p, player, x) implies #[trigger] first_entry_offered(a, p, player, x) by {
        assert(first_entry_offered(b, p, player, x));
        lemma_splits_offered_mono(
            a,
            b,
            enter_first(Seq::empty(), x),
            6 - dist_home_spec(x.0 as int, player),
            p.balls[player.idx()].remove(x.0 as int),
        );
    }
    assert forall|hb: u8| seven_budget_ok(p, pf, hb) implies #[trigger] budget_offered(a, p, pf, hb) by {
        lemma_budget_offered_mono(a, b, p, pf, hb);
    }
}

impl Board {
    /// The split sevens for the player played for: every way to spend the seven steps
    /// on its balls in the goal, into the goal and on the ring. Each can be carried out.
    pub fn seven_moves(&self, player: Color) -> (r: Vec<TacMove>)
        requires
            self.wf(),
        ensures
            all_seven_ok(self.pos(), r@, player),
            !self.pos().balls[play_for_spec(self.pos(), player).idx()].is_empty() ==> r@.len() > 0,
            !self.pos().balls[play_for_spec(self.pos(), player).idx()].is_empty() ==> ring_splits_offered(
                r@,
                self.pos().balls[play_for_spec(self.pos(), player).idx()],
            ),
            play_for_spec(self.pos(), player) == player && !self.pos().fresh[player.idx()] && first_set_from(
                self.pos().homes[player.idx()],
                0,
            ) >= 1 ==> forall|b: Square|
                goal_entry_ok(self.pos(), player, b) ==> #[trigger] first_entry_offered(r@, self.pos(), player, b),
            only_ring_splits(self.pos(), player) ==> exists|bl: Seq<Square>|
                lists(bl, self.pos().balls[play_for_spec(self.pos(), player).idx()]) && added(
                    r@,
                    0,
                    #[trigger] splits(Seq::empty(), bl, 7),
                ),
            only_ring_splits(self.pos(), player) ==> r@.len() == split_count(
                self.pos().balls[play_for_spec(self.pos(), player).idx()].len(),
                7,
            ),
            forall|hb: u8|
                seven_budget_ok(self.pos(), play_for_spec(self.pos(), player), hb) ==> #[trigger] budget_offered(
                    r@,
                    self.pos(),
                    play_for_spec(self.pos(), player),
                    hb,
                ),
    {
        let ghost p = self.pos();
        proof {
            self.lemma_wf();
        }
        let play_for = self.play_for(player);
        let mut moves: Vec<TacMove> = Vec::new();
        let balls_bb = self.balls_with(play_for);
        let num_balls = balls_bb.len();
        let home = self.home(play_for);
        let can_move_home = !(home.is_locked() || home.is_empty());
        let max_home: u8 = if can_move_home { 8 } else { 1 };
        let budget_start: u8 = if num_balls > 0 { 0 } else { 7 };
        let fresh = self.fresh(play_for);
        let sqs = balls_bb.squares();
        proof {
            crate::bitboard::lemma_view_bounded(balls_bb);
        }
        let ghost goal_case = play_for == player && !fresh && first_set_from(home.0, 0) >= 1;
        let ghost far = fresh || forall|i: int| 0 <= i < sqs.len() ==> dist_home_spec(#[trigger] sqs[i].0 as int, player) + 1 > 7;
        let ghost simple = !can_move_home && far && num_balls > 0;
        proof {
            if only_ring_splits(p, player) {
                assert forall|i: int| 0 <= i < sqs.len() && !fresh implies dist_home_spec(#[trigger] sqs[i].0 as int, player) + 1 > 7 by {
                    assert(p.balls[play_for.idx()].contains(sqs[i].0 as int));
                }
                assert(balls_bb@.len() > 0) by {
                    let x = choose|x: int| p.balls[play_for.idx()].contains(x);
                    vstd::set_lib::lemma_len_subset(set![x], balls_bb@);
                }
                assert(simple);
            }
        }
        let mut min_board_budget: u8 = 8;
        let mut budget: u8 = 1;
        while budget < 8 && min_board_budget == 8
            invariant
                1 <= budget <= 8,
                1 <= min_board_budget <= 8,
                forall|i: int| 0 <= i < sqs.len() ==> #[trigger] sqs[i].0 < 64,
                min_board_budget == 8 ==> forall|i: int|
                    0 <= i < sqs.len() ==> fresh || dist_home_spec(#[trigger] sqs[i].0 as int, player) + 1 >= budget,
                far == (fresh || forall|i: int| 0 <= i < sqs.len() ==> dist_home_spec(#[trigger] sqs[i].0 as int, player) + 1 > 7),
                far ==> min_board_budget == 8,
            decreases 8 - budget,
        {
            let mut found = false;
            let mut k: usize = 0;
            while k < sqs.len()
                invariant
                    k <= sqs.len(),
                    1 <= budget < 8,
                    forall|i: int| 0 <= i < sqs.len() ==> #[trigger] sqs[i].0 < 64,
                    !found ==> forall|i: int|
                        0 <= i < k ==> fresh || dist_home_spec(#[trigger] sqs[i].0 as int, player) + 1 > budget,
                    far == (fresh || forall|i: int| 0 <= i < sqs.len() ==> dist_home_spec(#[trigger] sqs[i].0 as int, player) + 1 > 7),
                    far ==> !found,
                decreases sqs.len() - k,
            {
                let dist = sqs[k].distance_to_home(player);
                if dist <= budget - 1 && !fresh {
                    found = true;
                }
                k = k + 1;
            }
            if found {
                min_board_budget = budget;
            }
            budget = budget + 1;
        }
        proof {
            assert forall|b: Square| goal_case && goal_entry_ok(p, play_for, b) implies min_board_budget <= 7 by {
                if min_board_budget == 8 {
                    let i = choose|i: int| 0 <= i < sqs.len() && #[trigger] sqs[i].0 as int == b.0 as int;
                    assert(fresh || dist_home_spec(sqs[i].0 as int, player) + 1 >= 8);
                }
            }
        }
        let mut home_budget: u8 = budget_start;
        while home_budget < max_home
            invariant
                self.wf(),
                p == self.pos(),
                pos_wf(p),
                play_for == play_for_spec(p, player),
                p.homes[play_for.idx()] == home.0,
                p.balls[play_for.idx()] == balls_bb@,
                fresh == p.fresh[play_for.idx()],
                goal_case == (play_for == player && !fresh && first_set_from(home.0, 0) >= 1),
                home.0 < 16,
                max_home <= 8,
                1 <= min_board_budget <= 8,
                all_seven_ok(p, moves@, player),
                num_balls as int == balls_bb@.len(),
                budget_start == if num_balls > 0 { 0u8 } else { 7u8 },
                home_budget >= budget_start,
                num_balls > 0 && home_budget > 0 ==> moves@.len() > 0,
                num_balls > 0 && home_budget > 0 ==> ring_splits_offered(moves@, balls_bb@),
                forall|b: Square| goal_case && goal_entry_ok(p, play_for, b) ==> #[trigger] goal_entry_ok(p, play_for, b) && min_board_budget <= 7,
                goal_case && home_budget > 0 ==> forall|b: Square|
                    goal_entry_ok(p, play_for, b) ==> #[trigger] first_entry_offered(moves@, p, play_for, b),
                simple ==> max_home == 1 && min_board_budget == 8 && num_balls > 0,
                only_ring_splits(p, player) ==> simple,
                simple && home_budget == 0 ==> moves@.len() == 0,
                simple && home_budget > 0 ==> exists|bl: Seq<Square>|
                    lists(bl, balls_bb@) && added(moves@, 0, #[trigger] splits(Seq::empty(), bl, 7)),
                max_home == (if home.0 == 0 || locked_spec(home.0) { 1u8 } else { 8u8 }),
                lists(sqs@, balls_bb@),
                forall|hb: u8|
                    seven_budget_ok(p, play_for, hb) && hb < home_budget ==> #[trigger] budget_offered(moves@, p, play_for, hb),
            decreases max_home - home_budget,
        {
            let mut home_moves = get_home_moves_with_budget(home, home_budget);
            if home_budget == 7 {
                let mut t: usize = 0;
                while t < home_moves.len()
                    invariant
                        t <= home_moves.len(),
                        home_budget == 7,
                        home_moves@.len() == home_moves_table(home.0, 7).len(),
                        forall|i: int| 0 <= i < home_moves.len() ==> #[trigger] home_moves[i]@ == home_moves_table(home.0, 7)[i],
                        lists(sqs@, balls_bb@),
                        p.balls[play_for.idx()] == balls_bb@,
                        forall|hb: u8|
                            seven_budget_ok(p, play_for, hb) && hb < home_budget ==> #[trigger] budget_offered(moves@, p, play_for, hb),
                        forall|t2: int|
                            0 <= t2 < t ==> splits_offered(moves@, #[trigger] home_moves_table(home.0, 7)[t2], 0, balls_bb@),
                        pos_wf(p),
                        play_for == play_for_spec(p, player),
                        p.homes[play_for.idx()] == home.0,
                        forall|i: int| 0 <= i < home_moves.len() ==> goal_seq_ok(home.0, #[trigger] home_moves[i]@),
                        all_seven_ok(p, moves@, player),
                        num_balls > 0 && home_budget > 0 ==> moves@.len() > 0,
                        num_balls > 0 && home_budget > 0 ==> ring_splits_offered(moves@, balls_bb@),
                        goal_case && home_budget > 0 ==> forall|b: Square|
                            goal_entry_ok(p, play_for, b) ==> #[trigger] first_entry_offered(moves@, p, play_for, b),
                    decreases home_moves.len() - t,
                {
                    let steps = copy_steps(&home_moves[t]);
                    proof {
                        lemma_goal_phase1(p, steps@, play_for, steps@.len() as int, steps@.len() as int);
                    }
                    let ghost before = moves@;
                    moves.push(seven_move(steps, play_for, player, Ghost(p)));
                    proof {
                        assert forall|i: int| 0 <= i < moves@.len() implies seven_move_ok(p, #[trigger] moves@[i], player) by {
                            if i < before.len() {
                                assert(moves@[i] == before[i]);
                            }
                        }
                        assert(moves_extend(moves@, before));
                        let cur = home_moves_table(home.0, 7)[t as int];
                        lemma_splits_zero(cur, sqs@);
                        assert(steps_of(moves@[before.len() as int]) == cur);
                        assert(offers(moves@, splits(cur, sqs@, 0)[0]));
                        assert(splits_offered(moves@, cur, 0, balls_bb@));
                        assert forall|t2: int| 0 <= t2 < t + 1 implies splits_offered(
                            moves@,
                            #[trigger] home_moves_table(home.0, 7)[t2],
                            0,
                            balls_bb@,
                        ) by {
                            if t2 < t {
                                lemma_splits_offered_mono(moves@, before, home_moves_table(home.0, 7)[t2], 0, balls_bb@);
                            }
                        }
                        assert forall|hb: u8| seven_budget_ok(p, play_for, hb) && hb < home_budget implies #[trigger] budget_offered(
                            moves@,
                            p,
                            play_for,
                            hb,
                        ) by {
                            lemma_budget_offered_mono(moves@, before, p, play_for, hb);
                        }
                        if num_balls > 0 && home_budget > 0 {
                            lemma_offered_mono(moves@, before, balls_bb@);
                        }
                        if goal_case && home_budget > 0 {
                            assert forall|b: Square| goal_entry_ok(p, play_for, b) implies #[trigger] first_entry_offered(
                                moves@,
                                p,
                                play_for,
                                b,
                            ) by {
                                assert(first_entry_offered(before, p, play_for, b));
                                lemma_splits_offered_mono(
                                    moves@,
                                    before,
                                    enter_first(Seq::empty(), b),
                                    6 - dist_home_spec(b.0 as int, play_for),
                                    p.balls[play_for.idx()].remove(b.0 as int),
                                );
                            }
                        }
                    }
                    t = t + 1;
                }
                proof {
                    assert forall|hb: u8| seven_budget_ok(p, play_for, hb) implies #[trigger] budget_offered(
                        moves@,
                        p,
                        play_for,
                        hb,
                    ) by {
                        if hb == 7 {
                            assert forall|t2: int| 0 <= t2 < home_moves_table(home.0, 7).len() implies splits_offered(
                                moves@,
                                #[trigger] home_moves_table(home.0, 7)[t2],
                                7 - hb,
                                p.balls[play_for.idx()],
                            ) by {
                                assert(splits_offered(moves@, home_moves_table(home.0, 7)[t2], 0, balls_bb@));
                            }
                        }
                    }
                }
                return moves;
            }
            let board_budget = 7 - home_budget;
            let mut step_in_home_moves: Vec<(Vec<SevenAction>, u8, BitBoard)> = Vec::new();
            let ghost listed = home_moves@;
            if home_budget % 2 == 0 {
                home_moves.push(Vec::new());
            }
            proof {
                assert forall|i: int| 0 <= i < home_moves.len() implies goal_moves_ok(
                    home.0,
                    #[trigger] home_moves[i]@,
                    home_moves[i]@.len() as int,
                ) by {
                    if i < listed.len() {
                        assert(home_moves[i] == listed[i]);
                    }
                }
            }
            let mut t: usize = 0;
            while t < home_moves.len()
                invariant
                    t <= home_moves.len(),
                    pos_wf(p),
                    p.homes[play_for.idx()] == home.0,
                    p.balls[play_for.idx()] == balls_bb@,
                    1 <= board_budget <= 7,
                    forall|i: int| 0 <= i < home_moves.len() ==> goal_moves_ok(home.0, #[trigger] home_moves[i]@, home_moves[i]@.len() as int),
                    entries_ok(p, play_for, step_in_home_moves@),
                    step_in_home_moves@.len() == t,
                    forall|x: int| 0 <= x < t ==> (#[trigger] step_in_home_moves@[x]).2 == balls_bb,
                    forall|x: int| 0 <= x < t ==> (#[trigger] step_in_home_moves@[x]).0@ == home_moves@[x]@,
                    forall|x: int| 0 <= x < t ==> (#[trigger] step_in_home_moves@[x]).1 == board_budget,
                decreases home_moves.len() - t,
            {
                let steps = copy_steps(&home_moves[t]);
                proof {
                    lemma_goal_phase1(p, steps@, play_for, steps@.len() as int, steps@.len() as int);
                    let q = own_pos(p, steps@, play_for);
                    assert(q.balls == p.balls);
                }
                let ghost before = step_in_home_moves@;
                step_in_home_moves.push((steps, board_budget, balls_bb));
                proof {
                    assert forall|i: int| 0 <= i < step_in_home_moves@.len() implies partial_ok(
                        p,
                        play_for,
                        (#[trigger] step_in_home_moves@[i]).0@,
                        step_in_home_moves@[i].1,
                        step_in_home_moves@[i].2@,
                    ) by {
                        if i < before.len() {
                            assert(step_in_home_moves@[i] == before[i]);
                        }
                    }
                }
                t = t + 1;
            }
            proof {
                if home_budget == 0 && num_balls > 0 {
                    assert(home_moves@.len() >= 1);
                    assert(step_in_home_moves@[0].0@ == home_moves@[0]@);
                    assert(home_moves@[0]@ =~= Seq::<SevenAction>::empty());
                }
            }
            let ghost before_goal = step_in_home_moves@;
            if board_budget >= min_board_budget {
                get_step_in_home_moves(
                    play_for,
                    home,
                    balls_bb,
                    can_move_home,
                    &home_moves,
                    board_budget,
                    fresh,
                    &mut step_in_home_moves,
                    Ghost(p),
                );
                proof {
                    if goal_case && home_budget == 0 {
                        assert forall|b: Square| goal_entry_ok(p, play_for, b) implies #[trigger] entered(
                            step_in_home_moves@,
                            Seq::empty(),
                            b,
                            balls_bb,
                            play_for,
                            7,
                        ) by {
                            assert(home_moves@[0]@ == Seq::<SevenAction>::empty());
                            assert(goal_after(home.0, home_moves[0]@, home_moves[0]@.len() as int) == home.0);
                            assert(reaches_first(balls_bb, b, play_for, board_budget, fresh));
                            assert(entered(step_in_home_moves@, home_moves[0]@, b, balls_bb, play_for, board_budget));
                        }
                    }
                }
            }
            proof {
                if goal_case && home_budget == 0 {
                    assert forall|b: Square| goal_entry_ok(p, play_for, b) implies #[trigger] entered(
                        step_in_home_moves@,
                        Seq::empty(),
                        b,
                        balls_bb,
                        play_for,
                        7,
                    ) by {
                        assert(goal_entry_ok(p, play_for, b) && min_board_budget <= 7);
                    }
                }
            }
            let ghost moves0 = moves@;
            proof {
                if simple {
                    assert(home_moves@.len() == 1);
                    assert(step_in_home_moves@.len() == 1);
                }
            }
            let mut e: usize = 0;
            while e < step_in_home_moves.len()
                invariant
                    e <= step_in_home_moves.len(),
                    pos_wf(p),
                    play_for == play_for_spec(p, player),
                    entries_ok(p, play_for, step_in_home_moves@),
                    all_seven_ok(p, moves@, player),
                    moves@.len() >= moves0.len(),
                    e > 0 && step_in_home_moves@[0].2@.len() > 0 ==> moves@.len() > 0,
                    moves_extend(moves@, moves0),
                    forall|e2: int| 0 <= e2 < e ==> #[trigger] entry_offered(moves@, step_in_home_moves@[e2]),
                    simple ==> step_in_home_moves@.len() == 1 && home_budget == 0 && num_balls > 0,
                    simple ==> step_in_home_moves@[0].0@ == Seq::<SevenAction>::empty() && step_in_home_moves@[0].1 == 7
                        && step_in_home_moves@[0].2 == balls_bb,
                    simple && e == 0 ==> moves@.len() == 0,
                    simple && e > 0 ==> exists|bl: Seq<Square>|
                        lists(bl, balls_bb@) && added(moves@, 0, #[trigger] splits(Seq::empty(), bl, 7)),
                decreases step_in_home_moves.len() - e,
            {
                let entry = &step_in_home_moves[e];
                proof {
                    assert(partial_ok(p, play_for, step_in_home_moves@[e as int].0@, step_in_home_moves@[e as int].1, step_in_home_moves@[e as int].2@));
                }
                let ghost mb = moves@;
                combinations(&entry.0, entry.1, entry.2, play_for, player, &mut moves, Ghost(p));
                proof {
                    assert forall|x: int| 0 <= x < moves0.len() implies #[trigger] moves@[x] == moves0[x] by {
                        assert(moves@[x] == mb[x]);
                    }
                    assert(moves_extend(moves@, mb));
                    if simple {
                        let bl = choose|bl: Seq<Square>|
                            lists(bl, entry.2@) && added(moves@, mb.len() as int, #[trigger] splits(entry.0@, bl, entry.1 as int));
                        assert(added(moves@, 0, splits(Seq::empty(), bl, 7)));
                    }
                    assert forall|e2: int| 0 <= e2 < e + 1 implies #[trigger] entry_offered(moves@, step_in_home_moves@[e2]) by {
                        let ent = step_in_home_moves@[e2];
                        if e2 < e {
                            assert(entry_offered(mb, step_in_home_moves@[e2]));
                            lemma_splits_offered_mono(moves@, mb, ent.0@, ent.1 as int, ent.2@);
                        } else {
                            let bl = choose|bl: Seq<Square>|
                                lists(bl, entry.2@) && added(moves@, mb.len() as int, #[trigger] splits(entry.0@, bl, entry.1 as int));
                            lemma_added_offered(moves@, mb.len() as int, ent.0@, ent.1 as int, bl, ent.2@);
                        }
                    }
                }
                e = e + 1;
            }
            proof {
                let tab = home_moves_table(home.0, home_budget);
                assert forall|t2: int| 0 <= t2 < tab.len() implies splits_offered(
                    moves@,
                    #[trigger] tab[t2],
                    7 - home_budget,
                    p.balls[play_for.idx()],
                ) by {
                    assert(step_in_home_moves@[t2] == before_goal[t2]);
                    assert(entry_offered(moves@, step_in_home_moves@[t2]));
                    assert(home_moves@[t2] == listed[t2]);
                    assert(before_goal[t2].0@ == tab[t2]);
                }
                if home_budget % 2 == 0 {
                    let k = listed.len() as int;
                    assert(step_in_home_moves@[k] == before_goal[k]);
                    assert(entry_offered(moves@, step_in_home_moves@[k]));
                    assert(before_goal[k].0@ =~= Seq::<SevenAction>::empty());
                }
                assert(budget_offered(moves@, p, play_for, home_budget));
                assert forall|hb: u8| seven_budget_ok(p, play_for, hb) && hb < home_budget + 1 implies #[trigger] budget_offered(
                    moves@,
                    p,
                    play_for,
                    hb,
                ) by {
                    if hb < home_budget {
                        assert(budget_offered(moves0, p, play_for, hb));
                        lemma_budget_offered_mono(moves@, moves0, p, play_for, hb);
                    }
                }
                if num_balls > 0 {
                    assert(home_budget == 0 ==> home_moves@.len() > 0);
                    if home_budget > 0 {
                        lemma_offered_mono(moves@, moves0, balls_bb@);
                    } else {
                        assert(entry_offered(moves@, step_in_home_moves@[0]));
                        assert(ring_splits_offered(moves@, balls_bb@));
                    }
                }
                if goal_case {
                    assert forall|b: Square| goal_entry_ok(p, play_for, b) implies #[trigger] first_entry_offered(
                        moves@,
                        p,
                        play_for,
                        b,
                    ) by {
                        if home_budget > 0 {
                            assert(first_entry_offered(moves0, p, play_for, b));
                            lemma_splits_offered_mono(
                                moves@,
                                moves0,
                                enter_first(Seq::empty(), b),
                                6 - dist_home_spec(b.0 as int, play_for),
                                p.balls[play_for.idx()].remove(b.0 as int),
                            );
                        } else {
                            assert(entered(step_in_home_moves@, Seq::empty(), b, balls_bb, play_for, 7));
                            let x = choose|x: int|
                                0 <= x < step_in_home_moves@.len() && (#[trigger] step_in_home_moves@[x]).0@ == enter_first(
                                    Seq::empty(),
                                    b,
                                ) && step_in_home_moves@[x].1 == 7 - dist_home_spec(b.0 as int, play_for) - 1
                                    && step_in_home_moves@[x].2@ == balls_bb@.remove(b.0 as int);
                            assert(entry_offered(moves@, step_in_home_moves@[x]));
                        }
                    }
                }
            }
            home_budget = home_budget + 1;
        }
        proof {
            if only_ring_splits(p, player) {
                let bl = choose|bl: Seq<Square>| lists(bl, balls_bb@) && added(moves@, 0, #[trigger] splits(Seq::empty(), bl, 7));
                lemma_splits_len(Seq::empty(), bl, 7);
            }
        }
        moves
    }
}

} // verus!
