use chess_engine::ui::{clicked_squares, get_piece_name, num_to_pos, piece_names};

#[test]
fn piece_image_files() {
    assert_eq!(get_piece_name(1), "icons\\white-pawn.png");
    assert_eq!(get_piece_name(2), "icons\\white-knight.png");
    assert_eq!(get_piece_name(3), "icons\\white-bishop.png");
    assert_eq!(get_piece_name(4), "icons\\white-rook.png");
    assert_eq!(get_piece_name(5), "icons\\white-queen.png");
    assert_eq!(get_piece_name(6), "icons\\white-king.png");
    assert_eq!(get_piece_name(-1), "icons\\black-pawn.png");
    assert_eq!(get_piece_name(-2), "icons\\black-knight.png");
    assert_eq!(get_piece_name(-3), "icons\\black-bishop.png");
    assert_eq!(get_piece_name(-4), "icons\\black-rook.png");
    assert_eq!(get_piece_name(-5), "icons\\black-queen.png");
    assert_eq!(get_piece_name(-6), "icons\\black-king.png");
    assert_eq!(get_piece_name(0), "icons\\empty.png");
}

#[test]
fn button_to_square() {
    assert_eq!(num_to_pos(0), vec![7, 0]);
    assert_eq!(num_to_pos(7), vec![7, 7]);
    assert_eq!(num_to_pos(8), vec![6, 0]);
    assert_eq!(num_to_pos(63), vec![0, 7]);
    assert_eq!(num_to_pos(20), vec![5, 4]);
}

#[test]
fn images_in_display_order() {
    let mut board = vec![vec![0i8; 8]; 8];
    board[7][0] = -4;
    board[0][7] = 6;
    board[3][2] = 1;
    let names = piece_names(&board);
    assert_eq!(names.len(), 64);
    assert_eq!(names[0], "icons\\black-rook.png");
    assert_eq!(names[63], "icons\\white-king.png");
    assert_eq!(names[8 * 4 + 2], "icons\\white-pawn.png");
    assert_eq!(names[1], "icons\\empty.png");
}

#[test]
fn click_highlights_its_button() {
    for num in 0..64 {
        let pos = num_to_pos(num);
        let clicked = clicked_squares(&pos);
        assert_eq!(clicked.len(), 64);
        for k in 0..64 {
            assert_eq!(clicked[k], k == num);
        }
    }
}
