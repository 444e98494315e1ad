use robotac::{Board, Card, Color, SevenAction, Square, TacAction, TacMove, ALL_COLORS};

fn count_seven_moves() -> Vec<usize> {
    let mut counts = Vec::new();
    let mut board = Board::new();
    let player = Color::Black;
    board.put_ball_in_play(player);
    counts.push(board.seven_moves(player).len());
    board.move_ball(Square(0), Square(7), player);
    board.put_ball_in_play(player);
    counts.push(board.seven_moves(player).len());
    board.move_ball(Square(7), Square(14), player);
    board.move_ball(Square(0), Square(7), player);
    board.put_ball_in_play(player);
    counts.push(board.seven_moves(player).len());
    board.move_ball(Square(14), Square(21), player);
    board.move_ball(Square(7), Square(14), player);
    board.move_ball(Square(0), Square(7), player);
    board.put_ball_in_play(player);
    counts.push(board.seven_moves(player).len());
    counts
}

#[test]
fn movegen_seven_moves() {
    let mut board = Board::new();
    let player = Color::Black;
    board.put_ball_in_play(player);
    let moves = board.seven_moves(player);

    assert_eq!(moves.len(), 1);
    board.move_ball(Square(0), Square(7), player);
    board.put_ball_in_play(player);
    let moves = board.seven_moves(player);

    assert_eq!(moves.len(), 8);
    board.move_ball(Square(7), Square(14), player);
    board.move_ball(Square(0), Square(7), player);
    board.put_ball_in_play(player);
    let moves = board.seven_moves(player);

    assert_eq!(moves.len(), 36);
    board.move_ball(Square(14), Square(21), player);
    board.move_ball(Square(7), Square(14), player);
    board.move_ball(Square(0), Square(7), player);
    board.put_ball_in_play(player);
    let moves = board.seven_moves(player);

    assert_eq!(moves.len(), 120);
}

#[test]
fn seven_seven_moves() {
    assert_eq!(count_seven_moves(), vec![1, 8, 36, 120]);
}

#[test]
fn switching_moves() {
    let mut board = Board::new();
    for color in ALL_COLORS {
        board.put_ball_in_play(color);
    }
    let moves = board.trickster_moves(Color::Black);
    assert_eq!(moves.len(), 6);
    board.move_ball(Square(0), Square(4), Color::Black);
    board.put_ball_in_play(Color::Black);
    board.move_ball(Square(0), Square(8), Color::Black);
    board.put_ball_in_play(Color::Black);
    // Of the pairs of balls of one color only one with a ball on the entry square and
    // one without are kept: same_color_cnt * (same_color_cnt - 1) / 2 - 2 are pruned.
    let moves = board.trickster_moves(Color::Black);
    // 3 * 2 / 2 - 2 = 1
    assert_eq!(moves.len(), 15 - 1);
    board.move_ball(Square(0), Square(12), Color::Black);
    board.put_ball_in_play(Color::Black);
    let moves = board.trickster_moves(Color::Black);
    // 4 * 3 / 2 - 2 = 4
    assert_eq!(moves.len(), 21 - 4);
    for c in [Color::Blue, Color::Green, Color::Red] {
        board.move_ball(c.home(), c.home().add(4), c);
        board.put_ball_in_play(c);
        board.move_ball(c.home(), c.home().add(8), c);
        board.put_ball_in_play(c);
        board.move_ball(c.home(), c.home().add(12), c);
        board.put_ball_in_play(c);
    }
    assert_eq!(board.all_balls().len(), 16);
    let moves = board.trickster_moves(Color::Black);
    assert_eq!(moves.len(), (16 * 15 / 2) - 4 * (4 * 3 / 2 - 2));
}

#[test]
fn four() {
    let mut board = Board::new();
    board.put_ball_in_play(Color::Black);
    let moves = board.moves_for_card_square(Square(0), Color::Black, Card::Four);
    assert_eq!(moves.len(), 1);
    assert_eq!(
        moves[0],
        TacMove::new(
            Card::Four,
            TacAction::Step {
                from: Square(0),
                to: Square(60)
            },
            Color::Black,
            Color::Black,
        )
    );
    board.move_ball(Square(0), Square(4), Color::Black);
    assert_eq!(board.color_on(Square(4)), Some(Color::Black));
    let moves = board.moves_for_card_square(Square(4), Color::Black, Card::Four);
    assert_eq!(moves.len(), 1);
    assert_eq!(
        moves[0],
        TacMove::new(
            Card::Four,
            TacAction::Step {
                from: Square(4),
                to: Square(0)
            },
            Color::Black,
            Color::Black,
        )
    );
}

#[test]
fn four_in_goal() {
    let mut board = Board::new();
    let black = Color::Black;
    board.put_ball_in_play(black);
    board.move_ball(Square(0), Square(1), black);
    let action = board.moves_for_card_square(Square(1), black, Card::Four)[1].action.clone();
    board.apply_action(&action, black);
    assert!(board.home(black).is_free(0));
    assert!(board.home(black).is_free(1));
    assert!(!board.home(black).is_free(2));
    assert!(board.home(black).is_free(3));
    board.put_ball_in_play(black);
    board.move_ball(Square(0), Square(1), black);
    assert_eq!(board.moves_for_card_square(Square(1), black, Card::Four).len(), 1);
    board.move_ball(Square(1), Square(3), black);
    let action = board.moves_for_card_square(Square(3), black, Card::Four)[1].action.clone();
    board.apply_action(&action, black);
    assert!(!board.home(black).is_free(0));
    assert!(board.home(black).is_free(1));
    assert!(!board.home(black).is_free(2));
    assert!(board.home(black).is_free(3));
}

#[test]
fn warrior() {
    let mut board = Board::new();
    board.put_ball_in_play(Color::Black);
    board.put_ball_in_play(Color::Red);

    let moves = board.moves_for_card(Color::Black, Card::Warrior);
    assert_eq!(moves.len(), 1);
    assert_eq!(
        moves[0],
        TacMove::new(
            Card::Warrior,
            TacAction::Step {
                from: Color::Black.home(),
                to: Color::Red.home()
            },
            Color::Black,
            Color::Black,
        ),
    );
    board.apply_action(&moves[0].action, Color::Black);
    board.set_player(Color::Black);
    let moves = board.moves_for_card(Color::Black, Card::Warrior);
    assert_eq!(moves.len(), 1);
    assert_eq!(
        moves[0],
        TacMove::new(
            Card::Warrior,
            TacAction::Step {
                from: Color::Red.home(),
                to: Color::Red.home()
            },
            Color::Black,
            Color::Black,
        )
    );
}

#[test]
fn tac() {
    let mut board = Board::new();
    ALL_COLORS.iter().for_each(|c| board.add_hand(*c, Card::Tac));
    board.add_hand(Color::Black, Card::One);
    let mv = TacMove::new(Card::One, TacAction::Enter, Color::Black, Color::Black);
    board.play(&mv);
    assert_eq!(board.color_on(Color::Black.home()).unwrap(), Color::Black);
    assert_eq!(board.current_player(), Color::Blue);
    let moves = board.moves_for_card(board.current_player(), Card::Tac);
    assert_eq!(moves.len(), 1);
    board.play(&moves[0]);
    assert_eq!(board.current_player(), Color::Green);
    assert_eq!(board.color_on(Color::Black.home()), None);
    assert_eq!(board.color_on(Color::Blue.home()).unwrap(), Color::Blue);
    let moves = board.moves_for_card(board.current_player(), Card::Tac);
    assert_eq!(moves.len(), 1);
    board.play(&moves[0]);
    assert_eq!(board.current_player(), Color::Red);
    assert_eq!(board.color_on(Color::Black.home()).unwrap(), Color::Black);
    assert_eq!(board.color_on(Color::Blue.home()), None);
    assert_eq!(board.color_on(Color::Green.home()).unwrap(), Color::Green);
    let moves = board.moves_for_card(board.current_player(), Card::Tac);
    assert_eq!(moves.len(), 1);
    board.play(&moves[0]);
    assert_eq!(board.current_player(), Color::Black);
    assert_eq!(board.color_on(Color::Black.home()), None);
    assert_eq!(board.color_on(Color::Blue.home()).unwrap(), Color::Blue);
    assert_eq!(board.color_on(Color::Green.home()), None);
    assert_eq!(board.color_on(Color::Red.home()).unwrap(), Color::Red);
}

#[test]
fn seven_moves_offer_every_split_of_the_steps() {
    let mut board = Board::new();
    let player = Color::Black;
    board.put_ball_in_play(player);
    board.move_ball(Square(0), Square(7), player);
    board.put_ball_in_play(player);
    let moves = board.seven_moves(player);
    for i in 0u8..=7 {
        let mut expected = Vec::new();
        if i > 0 {
            expected.push(SevenAction::Step { from: Square(0), to: Square(i) });
        }
        if i < 7 {
            expected.push(SevenAction::Step { from: Square(7), to: Square(14 - i) });
        }
        let found = moves.iter().any(|m| match &m.action {
            TacAction::SevenSteps { steps, .. } => *steps == expected,
            _ => false,
        });
        assert!(found, "split {} is missing", i);
    }
}

#[test]
fn seven_moves_offer_entering_the_goal() {
    let mut board = Board::new();
    let player = Color::Black;
    board.put_ball_in_play(player);
    board.move_ball(Square(0), Square(62), player);
    board.put_ball_in_play(player);
    board.move_ball(Square(0), Square(10), player);
    assert!(!board.fresh(player));
    let moves = board.seven_moves(player);
    let expected = vec![
        SevenAction::StepInHome { from: Square(62), to: 0 },
        SevenAction::Step { from: Square(10), to: Square(14) },
    ];
    let found = moves.iter().any(|m| match &m.action {
        TacAction::SevenSteps { steps, .. } => *steps == expected,
        _ => false,
    });
    assert!(found);
}

#[test]
fn seven_moves_in_the_goal_without_a_ball_on_the_ring() {
    let mut board = Board::new();
    let black = Color::Black;
    board.put_ball_in_play(black);
    board.move_ball(Square(0), Square(1), black);
    let action = board.moves_for_card_square(Square(1), black, Card::Four)[1].action.clone();
    board.apply_action(&action, black);
    assert!(!board.home(black).is_free(2));
    let moves = board.seven_moves(black);
    let steps: Vec<Vec<SevenAction>> = moves
        .iter()
        .map(|m| match &m.action {
            TacAction::SevenSteps { steps, .. } => steps.clone(),
            _ => Vec::new(),
        })
        .collect();
    assert_eq!(
        steps,
        vec![
            vec![SevenAction::StepHome { from: 2, to: 1 }],
            vec![SevenAction::StepHome { from: 2, to: 3 }],
        ]
    );
    let all = board.moves_for_card(black, Card::Seven);
    for m in &moves {
        assert!(all.contains(m));
    }
}
