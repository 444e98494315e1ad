use rand::rngs::StdRng;
use rand::seq::IteratorRandom;
use rand::SeedableRng;
use robotac::knowledge::Knowledge;
use robotac::{Board, Color, ALL_COLORS};

/// Whole games of up to 10000 random moves, every player's knowledge following each
/// move, on the first hundred seeds.
#[test]
fn announce() {
    for seed in 0..100 {
        println!("SEED {seed}");
        let mut board = Board::new_with_seed(seed);
        println!("{board:?}");
        let mut rng = StdRng::seed_from_u64(seed);
        let mut know: [_; 4] = core::array::from_fn(|i| Knowledge::new_from_board(Color::from_index(i), &board));
        for i in 0..10000 {
            let get_moves = &board.get_moves(board.current_player());
            let Some(mv) = get_moves.iter().choose(&mut rng) else {
                // Game over
                break;
            };
            println!("{i}: {mv:?}");
            for k in &mut know {
                k.update_with_move(mv, &board);
            }
            board.play(mv);
        }
    }
}

#[test]
fn redetermine() {
    let mut board = Board::new_with_seed(0);
    let mut rng = StdRng::seed_from_u64(0);
    println!("{board:?}");
    let mut know: [_; 4] = core::array::from_fn(|i| Knowledge::new_from_board(Color::from_index(i), &board));
    for _ in 0..123 {
        let get_moves = &board.get_moves(board.current_player());
        let Some(mv) = get_moves.iter().choose(&mut rng) else {
            // Game over
            break;
        };
        for k in &mut know {
            k.update_with_move(mv, &board);
        }
        board.play(mv);
    }
    println!("{board:?}");
    for k in &know {
        println!("{k:?}");
    }
    for (i, c) in ALL_COLORS.into_iter().enumerate() {
        let mut board = board.duplicate();
        board.redetermine(c, &know[i]);
    }
}

