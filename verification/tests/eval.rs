use robotac::{Board, ALL_COLORS};

#[test]
fn eval() {
    let mut rand_board = Board::new_random_state(0);
    println!("{:?}", rand_board);
    for color in ALL_COLORS.iter().step_by(3) {
        rand_board.set_player(*color);
        println!("{:?} {}", color, rand_board.eval());
    }
}
