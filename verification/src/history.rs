//! A game recorded as its seed and the moves played.
use crate::board::Board;
use crate::movegen::{card_offers, degenerate};
use crate::tacmove::{same_action, TacAction, TacMove};
use vstd::prelude::*;

verus! {

/// A game: the seed it was dealt with and the moves played, in order.
#[derive(Debug, Clone)]
pub struct History {
    pub seed: u64,
    pub moves: Vec<TacMove>,
}

/// The action moves no ball although it names one.
fn is_degenerate(a: &TacAction) -> (r: bool)
    ensures
        r == degenerate(*a),
{
    match a {
        TacAction::StepInHome { to, .. } => *to == 4,
        TacAction::Step { from, to } => *from == *to,
        _ => false,
    }
}

/// `mv` is certainly among the moves the player to move is offered on `b`: it is that
/// player's move of a card in hand, outside the trade and a forced discard, moves a
/// ball where it names one, and every list holding what is promised for its card holds
/// it.
pub open spec fn surely_offered(b: Board, mv: TacMove) -> bool {
    &&& mv.played_by == b.to_move()
    &&& !(b.trade_spec() && b.traded_spec()[(b.to_move().idx() + 2) % 4] is None)
    &&& !b.discard_spec()
    &&& b.hands_spec()[mv.played_by.idx()].contains(mv.card)
    &&& !degenerate(mv.action)
    &&& forall|ms: Seq<TacMove>| #[trigger] card_offers(b, mv.card, mv.played_by, ms) ==> ms.contains(mv)
}

impl History {
    /// A game of the given seed with no move played yet.
    pub fn new(seed: u64) -> (r: Self)
        ensures
            r.seed == seed,
            r.moves@.len() == 0,
    {
        Self { seed, moves: Vec::new() }
    }

    /// The board of the seed after replaying the moves in order. The replay stops at
    /// the first move that is not among the moves the player to move may make.
    pub fn board_with_history(&self) -> (r: Board)
        ensures
            r.wf(),
            r.seed_spec() == self.seed,
            r.moves_made() <= self.moves@.len(),
            r.moves_made() < self.moves@.len() ==> r.moves_made() == u32::MAX || !surely_offered(
                r,
                self.moves@[r.moves_made() as int],
            ),
    {
        let mut board = Board::new_with_seed(self.seed);
        let mut i: usize = 0;
        while i < self.moves.len()
            invariant
                i <= self.moves.len(),
                board.wf(),
                board.seed_spec() == self.seed,
                board.moves_made() == i,
            ensures
                board.wf(),
                board.seed_spec() == self.seed,
                board.moves_made() <= self.moves@.len(),
                board.moves_made() < self.moves@.len() ==> board.moves_made() == u32::MAX || !surely_offered(
                    board,
                    self.moves@[board.moves_made() as int],
                ),
            decreases self.moves.len() - i,
        {
            let player = board.current_player();
            let legal = board.get_moves(player);
            let mut found: Option<usize> = None;
            let mut j: usize = 0;
            while j < legal.len()
                invariant
                    j <= legal.len(),
                    i < self.moves.len(),
                    found matches Some(k) ==> k < legal.len() && !degenerate(legal@[k as int].action),
                    found is None ==> forall|x: int|
                        0 <= x < j ==> !((#[trigger] legal@[x]).card == self.moves@[i as int].card && same_action(
                            legal@[x].action,
                            self.moves@[i as int].action,
                        ) && legal@[x].played_for == self.moves@[i as int].played_for && legal@[x].played_by
                            == self.moves@[i as int].played_by && !degenerate(legal@[x].action)),
                decreases legal.len() - j,
            {
                if found.is_none() && legal[j].same_as(&self.moves[i]) && !is_degenerate(&legal[j].action) {
                    found = Some(j);
                }
                j = j + 1;
            }
            match found {
                Some(k) => {
                    if board.move_count() == u32::MAX {
                        break;
                    }
                    board.play(&legal[k]);
                },
                None => {
                    proof {
                        let mv = self.moves@[i as int];
                        if surely_offered(board, mv) {
                            assert(board.hands_spec()[player.idx()].contains(mv.card));
                            assert(card_offers(board, mv.card, player, legal@));
                            assert(legal@.contains(mv));
                            let x = choose|x: int| 0 <= x < legal@.len() && legal@[x] == mv;
                            assert(same_action(mv.action, mv.action));
                        }
                    }
                    break;
                },
            }
            i = i + 1;
        }
        board
    }
}

} // verus!
