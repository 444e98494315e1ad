use robotac::{Card, Color, Home, PackedTacMove, SevenAction, Square, TacAction};

#[test]
fn get_single_unlocked() {
    let mut home = Home::empty();

    assert_eq!(home.get_single_unlocked(), None);
    home.xor(0);
    assert_eq!(home.get_single_unlocked(), Some(0));
    home.xor(3);
    assert_eq!(home.get_single_unlocked(), Some(0));
    home.xor(0);
    assert_eq!(home.get_single_unlocked(), None);
    home.xor(2);
    assert_eq!(home.get_single_unlocked(), None);
    home.xor(1);
    home.xor(2);
    assert_eq!(home.get_single_unlocked(), Some(1));
}

#[test]
fn get_all_unlocked() {
    let mut home = Home::empty();
    home.xor(2);
    home.xor(0);
    assert_eq!(home.get_all_unlocked(), vec![0, 2]);
}

#[test]
fn packed() {
    let packed = PackedTacMove::new(
        Card::Three,
        TacAction::Step {
            from: 18.into(),
            to: 21.into(),
        },
        Color::Black,
        Color::Green,
    );
    if let PackedTacMove::Normal(p) = packed {
        println!("{:032b}", p);
    }
    assert_eq!(packed.card(), Card::Three);
    assert_eq!(packed.played_for(), Color::Black);
    assert_eq!(packed.played_by(), Color::Green);
    assert_eq!(
        packed.action(),
        TacAction::Step {
            from: 18.into(),
            to: 21.into()
        }
    );
}

#[test]
fn packed_seven() {
    let packed = PackedTacMove::new_seven(
        Card::Seven,
        vec![
            (SevenAction::Step { from: Square(3), to: Square(6) }, false),
            (SevenAction::Step { from: Square(3), to: Square(6) }, false),
        ],
        Color::Black,
        Color::Green,
    );
    assert!(matches!(packed, PackedTacMove::Seven(_)));
    assert_eq!(packed.card(), Card::Seven);
    assert_eq!(packed.played_for(), Color::Black);
    assert_eq!(packed.played_by(), Color::Green);
}

#[test]
fn packed_high_squares_round_trip() {
    let packed = PackedTacMove::new(
        Card::Four,
        TacAction::Step { from: Square(40), to: Square(63) },
        Color::Red,
        Color::Blue,
    );
    assert_eq!(packed.action(), TacAction::Step { from: Square(40), to: Square(63) });
    assert_eq!(packed.card(), Card::Four);
}
