use rand::rngs::StdRng;
use rand::seq::IteratorRandom;
use rand::SeedableRng;
use robotac::eval::TacEval;
use robotac::history::History;
use robotac::knowledge::Knowledge;
use robotac::{Board, Color, TacAction, TacMove, ALL_COLORS};

/// Plays `n` random moves of the game of `seed`, keeping everyone's knowledge.
fn random_game(seed: u64, n: usize) -> (Board, [Knowledge; 4], Vec<TacMove>) {
    let mut board = Board::new_with_seed(seed);
    let mut rng = StdRng::seed_from_u64(seed);
    let mut know: [_; 4] = core::array::from_fn(|i| Knowledge::new_from_board(Color::from_index(i), &board));
    let mut played = Vec::new();
    for _ in 0..n {
        let moves = board.get_moves(board.current_player());
        let Some(mv) = moves.iter().choose(&mut rng) else {
            break;
        };
        for k in &mut know {
            k.update_with_move(mv, &board);
        }
        board.play(mv);
        played.push(mv.clone());
    }
    (board, know, played)
}

#[test]
fn generated_moves_belong_to_the_player() {
    for seed in 0..20 {
        let mut board = Board::new_with_seed(seed);
        let mut rng = StdRng::seed_from_u64(seed);
        for _ in 0..300 {
            let player = board.current_player();
            let moves = board.get_moves(player);
            if board.hand(player).amount() > 0 {
                assert!(!moves.is_empty());
            }
            for mv in &moves {
                assert_eq!(mv.played_by, player);
                assert!(board.hand(player).position(mv.card).is_some());
                assert_eq!(matches!(mv.action, TacAction::Trade), board.need_trade());
            }
            let Some(mv) = moves.iter().choose(&mut rng) else {
                break;
            };
            board.play(mv);
        }
    }
}

#[test]
fn a_move_counts_once() {
    let (board, _, played) = random_game(3, 40);
    assert_eq!(board.move_count() as usize, played.len());
}

#[test]
fn replayed_history_gives_the_same_board() {
    let (board, _, played) = random_game(7, 60);
    let history = History { seed: 7, moves: played };
    let replayed = history.board_with_history();
    assert_eq!(format!("{board:?}"), format!("{replayed:?}"));
    assert_eq!(History::new(7).board_with_history().move_count(), 0);
}

#[test]
fn redetermination_keeps_hand_sizes_and_own_hand() {
    let (board, know, _) = random_game(11, 37);
    for (i, c) in ALL_COLORS.into_iter().enumerate() {
        let mut b = board.duplicate();
        b.redetermine(c, &know[i]);
        for p in ALL_COLORS {
            assert_eq!(b.hand(p).amount(), board.hand(p).amount());
        }
        assert_eq!(format!("{:?}", b.hand(c)), format!("{:?}", board.hand(c)));
    }
}

#[test]
fn random_state_is_reproducible() {
    let a = Board::new_random_state(5);
    let b = Board::new_random_state(5);
    assert_eq!(format!("{a:?}"), format!("{b:?}"));
    for c in ALL_COLORS {
        assert!(a.num_base(c) <= 4);
    }
}

#[test]
fn relative_scores() {
    let e = TacEval;
    assert_eq!(e.make_relative(25, Color::Black), 25);
    assert_eq!(e.make_relative(25, Color::Green), 25);
    assert_eq!(e.make_relative(25, Color::Blue), -25);
    assert_eq!(e.make_relative(-7, Color::Red), 7);
    let board = Board::new();
    assert_eq!(e.eval_new(&board), board.eval());
}

#[test]
fn toggling_twice_restores() {
    let mut board = Board::new();
    let before = format!("{board:?}");
    board.xor(robotac::Square(17), Color::Green);
    assert_eq!(board.color_on(robotac::Square(17)), Some(Color::Green));
    board.xor(robotac::Square(17), Color::Green);
    assert_eq!(format!("{board:?}"), before);
}

#[test]
fn undoing_twice_restores() {
    let (mut board, _, _) = random_game(2, 25);
    let before = format!("{board:?}");
    board.tac_undo();
    board.tac_undo();
    assert_eq!(format!("{board:?}"), before.replace("discard_flag: true", "discard_flag: false"));
}

#[test]
fn put_back_undoes_take() {
    let mut deck = robotac::Deck::new();
    let before = format!("{deck:?}");
    deck.take(robotac::Card::Five);
    assert_eq!(deck.copies(robotac::Card::Five), robotac::Card::Five.amount() - 1);
    deck.put_back(robotac::Card::Five);
    assert_eq!(format!("{deck:?}"), before);
}

#[test]
fn undo_after_play_gives_the_position_back() {
    for seed in 0..5 {
        let (board, _, _) = random_game(seed, 40);
        let moves = board.get_moves(board.current_player());
        for mv in moves.iter() {
            if matches!(mv.action, TacAction::Trade | TacAction::Jester) {
                continue;
            }
            let mut after = board.duplicate();
            after.play(mv);
            after.tac_undo();
            for c in ALL_COLORS {
                assert_eq!(after.balls_with(c), board.balls_with(c));
                assert_eq!(after.home(c), board.home(c));
                assert_eq!(after.fresh(c), board.fresh(c));
            }
            assert!(!after.force_discard());
        }
    }
}
