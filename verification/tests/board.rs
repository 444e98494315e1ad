use robotac::{Board, Card, Color, SevenAction, Square, TacAction, TacMove};
use Color::{Black, Blue, Green, Red};

#[test]
fn can_move() {
    let mut board = Board::new();
    board.xor(Square(10), Color::Black);
    for i in 1..64u8 {
        assert!(board.can_move(Square(10), Square(10).add(i)));
    }
    board.xor(Square(12), Color::Blue);
    for i in 1..3u8 {
        assert!(board.can_move(Square(10), Square(10).add(i)));
    }
    for i in 3..13u8 {
        assert!(!board.can_move(Square(10), Square(10).add(i)));
    }
}

#[test]
fn selfcapture() {
    let mut board = Board::new();
    board.xor(Square(0), Black);
    board.xor(Square(7), Black);
    board.add_hand(Black, Card::Seven);
    board.add_hand(Blue, Card::Tac);
    let black_move = TacMove::new(
        Card::Seven,
        TacAction::SevenSteps {
            steps: vec![SevenAction::Step {
                from: Square(0),
                to: Square(7),
            }],
            partner_idx: None,
        },
        Black,
        Black,
    );
    board.play(&black_move);
    println!("{:?}", board.moves_for_card(Blue, Card::Tac));
    println!("{board:?}");
}

#[test]
fn seven_undo_bug() {
    let mut board = Board::new();
    board.xor(Square(0), Black);
    board.xor(Square(3), Green);
    board.xor(Square(10), Green);
    board.xor(Square(28), Red);
    board.xor(Square(34), Green);
    board.xor(Square(46), Green);
    board.xor(Square(60), Red);
    board.xor(Square(61), Red);
    board.xor(Square(62), Black);

    // A black ball on the first goal square.
    board.xor(Square(20), Black);
    board.move_ball_to_goal(Square(20), 0, Black);

    board.set_player(Green);

    board.add_hand(Green, Card::Seven);
    board.add_hand(Red, Card::Tac);
    board.add_hand(Black, Card::Tac);
    board.add_hand(Blue, Card::Tac);
    let green_move = TacMove::new(
        Card::Seven,
        TacAction::SevenSteps {
            steps: vec![
                SevenAction::Step {
                    from: Square(3),
                    to: Square(5),
                },
                SevenAction::Step {
                    from: Square(10),
                    to: Square(12),
                },
                SevenAction::Step {
                    from: Square(34),
                    to: Square(35),
                },
                SevenAction::Step {
                    from: Square(46),
                    to: Square(48),
                },
            ],
            partner_idx: None,
        },
        Green,
        Green,
    );
    let red_move = TacMove::new(
        Card::Tac,
        TacAction::SevenSteps {
            steps: vec![SevenAction::Step {
                from: Square(60),
                to: Square(3),
            }],
            partner_idx: None,
        },
        Red,
        Red,
    );
    let black_move = TacMove::new(
        Card::Tac,
        TacAction::SevenSteps {
            steps: vec![
                SevenAction::Step {
                    from: Square(0),
                    to: Square(1),
                },
                SevenAction::StepHome { from: 0, to: 1 },
                SevenAction::StepInHome {
                    from: Square(62),
                    to: 0,
                },
            ],
            partner_idx: None,
        },
        Black,
        Black,
    );

    board.play(&green_move);
    board.play(&red_move);
    board.play(&black_move);
    println!("{board:?}");
    println!("{:?}", board.moves_for_card(Blue, Card::Tac));
}

#[test]
fn swap_fresh() {
    let mut board = Board::new();
    board.put_ball_in_play(Black);
    board.put_ball_in_play(Green);
    assert!(board.fresh(Black));
    assert!(board.fresh(Green));
    board.swap_balls(Black.home(), Green.home());
    assert!(!board.fresh(Black));
    assert!(!board.fresh(Green));
    board.swap_balls(Black.home(), Green.home());
    assert!(!board.fresh(Black));
    assert!(!board.fresh(Green));
}

#[test]
fn can_move_from_an_empty_square() {
    let mut board = Board::new();
    board.xor(Square(20), Color::Black);
    assert!(board.can_move(Square(10), Square(15)));
    assert!(board.can_move(Square(10), Square(20)));
    assert!(!board.can_move(Square(10), Square(25)));
    assert!(!board.can_move(Square(10), Square(10)));
}
