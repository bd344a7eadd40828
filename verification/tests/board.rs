use chess_engine::board::{new_board, Board};

#[test]
fn new_board_layout() {
    let b = new_board();
    assert_eq!(b.len(), 8);
    assert_eq!(b[0], vec![4, 2, 3, 5, 6, 3, 2, 4]);
    assert_eq!(b[1], vec![1; 8]);
    for r in 2..6 {
        assert_eq!(b[r], vec![0; 8]);
    }
    assert_eq!(b[6], vec![-1; 8]);
    assert_eq!(b[7], vec![-4, -2, -3, -5, -6, -3, -2, -4]);
}

#[test]
fn starting_position() {
    let p = Board::new_board(-1);
    assert_eq!(p.turn, -1);
    assert_eq!(p.board, new_board());
    assert!(p.board_history.is_empty());
    assert!(p.castle_pieces.is_empty());
}
