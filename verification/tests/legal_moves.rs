use chess_engine::legal_moves::{
    get_all_legal_moves, get_legal_moves, in_check, legal_bishop_moves, legal_king_moves, legal_knight_moves,
    legal_pawn_moves, legal_queen_moves, legal_rook_moves,
};

fn get_new_board() -> Vec<Vec<i8>> {
    vec![
        vec![4, 2, 3, 5, 6, 3, 2, 4],
        vec![1, 1, 1, 1, 1, 1, 1, 1],
        vec![0, 0, 0, 0, 0, 0, 0, 0],
        vec![0, 0, 0, 0, 0, 0, 0, 0],
        vec![0, 0, 0, 0, 0, 0, 0, 0],
        vec![0, 0, 0, 0, 0, 0, 0, 0],
        vec![-1, -1, -1, -1, -1, -1, -1, -1],
        vec![-4, -2, -3, -5, -6, -3, -2, -4],
    ]
}

fn get_empty_board() -> Vec<Vec<i8>> {
    vec![vec![0; 8]; 8]
}

#[test]
fn get_all_legal_moves_1() {
    let board = get_new_board();
    let legal_moves = get_all_legal_moves(&board, vec![], 1);
    assert_eq!(legal_moves.len(), 20);
    let legal_moves = get_all_legal_moves(&board, vec![], -1);
    assert_eq!(legal_moves.len(), 20);
}

#[test]
fn get_all_legal_moves_2() {
    let mut board = get_new_board();
    board[1] = vec![0, 0, 0, 0, 0, 0, 0, 0];
    board[6] = vec![0, 0, 0, 0, 0, 0, 0, 0];
    let legal_moves = get_all_legal_moves(&board, vec![], 1);
    println!("{:?}", legal_moves);
    assert_eq!(legal_moves.len(), 50);
    let legal_moves = get_all_legal_moves(&board, vec![], -1);
    assert_eq!(legal_moves.len(), 50);
}

#[test]
fn moves_come_piece_by_piece_in_row_order() {
    let board = get_new_board();
    let legal_moves = get_all_legal_moves(&board, vec![], 1);
    // knight on (0, 1) first, then the knight on (0, 6), then the pawns
    assert_eq!(legal_moves[0], vec![0, 1, 2, 2]);
    assert_eq!(legal_moves[1], vec![0, 1, 2, 0]);
    assert_eq!(legal_moves[2], vec![0, 6, 2, 7]);
    assert_eq!(legal_moves[3], vec![0, 6, 2, 5]);
    assert_eq!(legal_moves[4], vec![1, 0, 2, 0]);
    assert_eq!(legal_moves[5], vec![1, 0, 3, 0]);
    for m in legal_moves.iter() {
        assert_eq!(m.len(), 4);
        assert!(board[m[0]][m[1]] > 0);
        assert!(board[m[2]][m[3]] <= 0);
    }
}

#[test]
fn in_check_finds_attacks() {
    let board = get_new_board();
    assert!(!in_check(&board, 1));
    assert!(!in_check(&board, -1));
    let mut b = get_empty_board();
    b[0][4] = 6;
    b[7][4] = -6;
    b[4][4] = -4;
    assert!(in_check(&b, 1));
    assert!(!in_check(&b, -1));
    // a side without a king is not in check
    let mut b = get_empty_board();
    b[4][4] = -4;
    b[4][0] = 4;
    assert!(!in_check(&b, 1));
    assert!(!in_check(&b, -1));
}

#[test]
fn moves_into_check_are_left_out() {
    // the white king may not step onto the file of the black rook
    let mut b = get_empty_board();
    b[0][4] = 6;
    b[7][3] = -4;
    b[7][7] = -6;
    let moves = legal_king_moves(&b, (0, 4), 1);
    assert_eq!(moves, vec![vec![0, 4, 0, 5], vec![0, 4, 1, 4], vec![0, 4, 1, 5]]);
    // a knight pinned in front of its king does not move
    let mut b = get_empty_board();
    b[0][4] = 6;
    b[1][4] = 2;
    b[7][4] = -5;
    b[7][0] = -6;
    assert_eq!(legal_knight_moves(&b, (1, 4), 1), Vec::<Vec<usize>>::new());
    let all = get_all_legal_moves(&b, vec![], 1);
    for m in all.iter() {
        assert_eq!(m[0], 0);
        assert_eq!(m[1], 4);
    }
    // a king in check has only the moves that end the check
    let mut b = get_empty_board();
    b[0][0] = 6;
    b[0][7] = -4;
    b[7][7] = -6;
    let all = get_all_legal_moves(&b, vec![], 1);
    assert_eq!(all, vec![vec![0, 0, 1, 0], vec![0, 0, 1, 1]]);
}

#[test]
fn king_in_the_middle() {
    let mut board = get_empty_board();
    board[3][3] = 6;
    board[4][4] = -1;
    board[2][2] = 1;
    let moves = legal_king_moves(&board, (3, 3), 1);
    assert_eq!(moves.len(), 7);
    assert!(moves.contains(&vec![3, 3, 4, 4]));
    assert!(!moves.contains(&vec![3, 3, 2, 2]));
}

#[test]
fn knight_in_the_corner() {
    let mut board = get_empty_board();
    board[0][0] = 2;
    board[1][2] = 1;
    let moves = legal_knight_moves(&board, (0, 0), 1);
    assert_eq!(moves, vec![vec![0, 0, 2, 1]]);
}

#[test]
fn sliding_pieces_stop_at_pieces() {
    let mut board = get_empty_board();
    board[0][0] = 4;
    board[0][3] = -1;
    board[2][0] = 1;
    let moves = legal_rook_moves(&board, (0, 0), 1);
    // three squares to the right (the last one takes), one square up
    assert_eq!(moves.len(), 4);
    assert!(moves.contains(&vec![0, 0, 0, 3]));
    assert!(!moves.contains(&vec![0, 0, 2, 0]));

    let mut board = get_empty_board();
    board[3][3] = 3;
    assert_eq!(legal_bishop_moves(&board, (3, 3), 1).len(), 13);
    board[3][3] = 5;
    assert_eq!(legal_queen_moves(&board, (3, 3), 1).len(), 27);
}

#[test]
fn pawn_first_step_and_takes() {
    let mut board = get_empty_board();
    board[1][4] = 1;
    board[2][3] = -2;
    let moves = legal_pawn_moves(&board, &vec![], (1, 4), 1);
    assert_eq!(moves.len(), 3);
    assert!(moves.contains(&vec![1, 4, 2, 4]));
    assert!(moves.contains(&vec![1, 4, 3, 4]));
    assert!(moves.contains(&vec![1, 4, 2, 3]));
    // blocked
    board[2][4] = -1;
    let moves = legal_pawn_moves(&board, &vec![], (1, 4), 1);
    assert_eq!(moves, vec![vec![1, 4, 2, 3]]);
}

#[test]
fn pawn_takes_en_passant() {
    // a black pawn went from (6, 5) to (4, 5), next to the white pawn on (4, 4)
    let mut before = get_empty_board();
    before[6][5] = -1;
    before[4][4] = 1;
    let mut board = get_empty_board();
    board[4][5] = -1;
    board[4][4] = 1;
    let moves = legal_pawn_moves(&board, &vec![before.clone()], (4, 4), 1);
    assert_eq!(moves, vec![vec![4, 4, 5, 5], vec![4, 4, 5, 4]]);
    // without a previous board there is no en passant
    let moves = legal_pawn_moves(&board, &vec![], (4, 4), 1);
    assert_eq!(moves, vec![vec![4, 4, 5, 4]]);
}

#[test]
fn pawn_takes_en_passant_to_the_left_and_from_the_edge() {
    // a black pawn went from (6, 3) to (4, 3), next to the white pawn on (4, 4)
    let mut before = get_empty_board();
    before[6][3] = -1;
    before[4][4] = 1;
    let mut board = get_empty_board();
    board[4][3] = -1;
    board[4][4] = 1;
    let moves = legal_pawn_moves(&board, &vec![before], (4, 4), 1);
    assert_eq!(moves, vec![vec![4, 4, 5, 3], vec![4, 4, 5, 4]]);
    // a pawn on the last column
    let mut before = get_empty_board();
    before[6][6] = -1;
    before[4][7] = 1;
    let mut board = get_empty_board();
    board[4][6] = -1;
    board[4][7] = 1;
    let moves = legal_pawn_moves(&board, &vec![before], (4, 7), 1);
    assert_eq!(moves, vec![vec![4, 7, 5, 6], vec![4, 7, 5, 7]]);
}

#[test]
fn get_legal_moves_by_piece() {
    let board = get_new_board();
    assert_eq!(get_legal_moves(&board, &vec![], (0, 1), 1).len(), 2);
    assert_eq!(get_legal_moves(&board, &vec![], (0, 0), 1).len(), 0);
    assert_eq!(get_legal_moves(&board, &vec![], (6, 0), -1).len(), 2);
}
