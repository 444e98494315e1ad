use rand::rngs::StdRng;
use rand::SeedableRng;
use robotac::mcts::{Policy, PolicyRng, UCBPolicy};
use robotac::{BitBoard, Card, Deck, Hand, Home};

#[test]
fn counted_bits() {
    assert_eq!(BitBoard(0b1011).len(), 3);
    assert_eq!(BitBoard(u64::MAX).len(), 64);
    assert_eq!(Home(0b0110).amount(), 2);
    assert_eq!(Home(0b1111).amount(), 4);
}

#[test]
fn rotated_bits() {
    assert_eq!(BitBoard(1).rotate_right(1), BitBoard(1 << 63));
    assert_eq!(BitBoard(1 << 63).rotate_left(1), BitBoard(1));
    assert_eq!(BitBoard(0b110).rotate_right(1), BitBoard(0b11));
}

#[test]
fn drawn_card_was_in_the_pile() {
    let mut deck = Deck::new();
    for card in robotac::CARDS {
        while deck.copies(card) > 0 && card != Card::Devil {
            deck.take(card);
        }
    }
    let mut rng = StdRng::seed_from_u64(4);
    assert_eq!(deck.copies(Card::Devil), 1);
    assert_eq!(deck.draw_one(&mut rng), Card::Devil);
    assert_eq!(deck.copies(Card::Devil), 0);
}

#[test]
fn hand_keeps_order() {
    let mut hand = Hand::new(vec![Card::One, Card::Tac, Card::One]);
    assert_eq!(hand.amount(), 3);
    hand.push(Card::Seven);
    assert_eq!(hand.get(3), Card::Seven);
    hand.remove(Card::One);
    assert_eq!(hand.amount(), 3);
    assert_eq!(hand.get(0), Card::Tac);
    assert_eq!(hand.position(Card::One), Some(1));
}

#[test]
fn random_choice_is_a_candidate() {
    let policy = UCBPolicy;
    let mut data = PolicyRng::new();
    assert_eq!(policy.choose_move(&vec![(1, 1, 0)], &mut data), 0);
    for _ in 0..20 {
        assert!(policy.choose_move(&vec![(1, 1, 0), (2, 2, 5), (0, 0, 0)], &mut data) < 3);
    }
    assert_eq!(data.select_random(0), None);
    assert!(data.select_random(5).unwrap() < 5);
}
