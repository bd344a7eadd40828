use vstd::prelude::*;

verus! {

/// The image file of a piece code: white pieces for 1..6, black ones for -1..-6,
/// the empty square otherwise.
pub open spec fn piece_file(num: i8) -> Seq<char> {
    if num == 1 {
        "icons\\white-pawn.png"@
    } else if num == 2 {
        "icons\\white-knight.png"@
    } else if num == 3 {
        "icons\\white-bishop.png"@
    } else if num == 4 {
        "icons\\white-rook.png"@
    } else if num == 5 {
        "icons\\white-queen.png"@
    } else if num == 6 {
        "icons\\white-king.png"@
    } else if num == -1 {
        "icons\\black-pawn.png"@
    } else if num == -2 {
        "icons\\black-knight.png"@
    } else if num == -3 {
        "icons\\black-bishop.png"@
    } else if num == -4 {
        "icons\\black-rook.png"@
    } else if num == -5 {
        "icons\\black-queen.png"@
    } else if num == -6 {
        "icons\\black-king.png"@
    } else {
        "icons\\empty.png"@
    }
}

pub fn get_piece_name(num: i8) -> (name: String)
    requires
        -7 < num < 7,
    ensures
        name@ == piece_file(num),
{
    match num {
        1 => "icons\\white-pawn.png".to_string(),
        2 => "icons\\white-knight.png".to_string(),
        3 => "icons\\white-bishop.png".to_string(),
        4 => "icons\\white-rook.png".to_string(),
        5 => "icons\\white-queen.png".to_string(),
        6 => "icons\\white-king.png".to_string(),
        -1 => "icons\\black-pawn.png".to_string(),
        -2 => "icons\\black-knight.png".to_string(),
        -3 => "icons\\black-bishop.png".to_string(),
        -4 => "icons\\black-rook.png".to_string(),
        -5 => "icons\\black-queen.png".to_string(),
        -6 => "icons\\black-king.png".to_string(),
        _ => "icons\\empty.png".to_string(),
    }
}

/// The square `[row, col]` of the button `num` of the displayed board, whose
/// buttons run from the top row (row 7) down, left to right.
pub fn num_to_pos(num: usize) -> (pos: Vec<usize>)
    requires
        num < 64,
    ensures
        pos@ == seq![(7 - num / 8) as usize, num % 8],
{
    let col = num % 8;
    let row = 7 - (num / 8);
    vec![row, col]
}

/// The row of the board shown at display position `k` (top row first).
pub open spec fn shown_row(k: int) -> int {
    7 - k / 8
}

/// The image files of the 64 squares in display order: rows from 7 down to 0,
/// each from column 0 to 7.
pub fn piece_names(board: &Vec<Vec<i8>>) -> (names: Vec<String>)
    requires
        board.len() == 8,
        forall|r: int| 0 <= r < 8 ==> #[trigger] board@[r].len() == 8,
        forall|r: int, c: int| 0 <= r < 8 && 0 <= c < 8 ==> -7 < #[trigger] board@[r]@[c] < 7,
    ensures
        names.len() == 64,
        forall|k: int| 0 <= k < 64 ==> #[trigger] names@[k]@ == piece_file(board@[shown_row(k)]@[k % 8]),
{
    let mut names: Vec<String> = Vec::new();
    let mut n: usize = 0;
    while n < 8
        invariant
            board.len() == 8,
            forall|r: int| 0 <= r < 8 ==> #[trigger] board@[r].len() == 8,
            forall|r: int, c: int| 0 <= r < 8 && 0 <= c < 8 ==> -7 < #[trigger] board@[r]@[c] < 7,
            n <= 8,
            names.len() == 8 * n,
            forall|k: int| 0 <= k < 8 * n ==> #[trigger] names@[k]@ == piece_file(board@[shown_row(k)]@[k % 8]),
        decreases 8 - n,
    {
        let i = 7 - n;
        let mut j: usize = 0;
        while j < 8
            invariant
                board.len() == 8,
                forall|r: int| 0 <= r < 8 ==> #[trigger] board@[r].len() == 8,
                forall|r: int, c: int| 0 <= r < 8 && 0 <= c < 8 ==> -7 < #[trigger] board@[r]@[c] < 7,
                n < 8,
                i == 7 - n,
                j <= 8,
                names.len() == 8 * n + j,
                forall|k: int| 0 <= k < 8 * n + j ==> #[trigger] names@[k]@ == piece_file(board@[shown_row(k)]@[k % 8]),
            decreases 8 - j,
        {
            assert(board@[i as int].len() == 8);
            let piece = board[i][j];
            let name = get_piece_name(piece);
            let ghost k = 8 * n + j;
            assert(k / 8 == n && k % 8 == j) by (nonlinear_arith)
                requires
                    k == 8 * n + j,
                    j < 8,
            ;
            names.push(name);
            j += 1;
        }
        n += 1;
    }
    names
}

/// The highlighted squares of the displayed board after a click on `pos`: in
/// display order, only the square `pos` is set.
pub fn clicked_squares(pos: &Vec<usize>) -> (clicked: Vec<bool>)
    requires
        pos.len() >= 2,
    ensures
        clicked.len() == 64,
        forall|k: int| 0 <= k < 64 ==> #[trigger] clicked@[k] == (shown_row(k) == pos@[0] && k % 8 == pos@[1]),
{
    let mut clicked: Vec<bool> = Vec::new();
    let mut n: usize = 0;
    while n < 8
        invariant
            pos.len() >= 2,
            n <= 8,
            clicked.len() == 8 * n,
            forall|k: int| 0 <= k < 8 * n ==> #[trigger] clicked@[k] == (shown_row(k) == pos@[0] && k % 8 == pos@[1]),
        decreases 8 - n,
    {
        let i = 7 - n;
        let mut j: usize = 0;
        while j < 8
            invariant
                pos.len() >= 2,
                n < 8,
                i == 7 - n,
                j <= 8,
                clicked.len() == 8 * n + j,
                forall|k: int| 0 <= k < 8 * n + j ==> #[trigger] clicked@[k] == (shown_row(k) == pos@[0] && k % 8 == pos@[1]),
            decreases 8 - j,
        {
            let ghost k = 8 * n + j;
            assert(k / 8 == n && k % 8 == j) by (nonlinear_arith)
                requires
                    k == 8 * n + j,
                    j < 8,
            ;
            if i == pos[0] && j == pos[1] {
                clicked.push(true);
            } else {
                clicked.push(false);
            }
            j += 1;
        }
        n += 1;
    }
    clicked
}

/// Clicking the button `num` highlights exactly that button (see `num_to_pos` and
/// `clicked_squares`), and the image shown there (see `piece_names`) is the one of
/// the clicked square.
pub proof fn lemma_click_shows_button(num: int)
    requires
        0 <= num < 64,
    ensures
        forall|k: int|
            0 <= k < 64 ==> ((shown_row(k) == 7 - num / 8 && k % 8 == num % 8) <==> k == num),
        shown_row(num) == 7 - num / 8,
{
    assert forall|k: int| 0 <= k < 64 implies ((shown_row(k) == 7 - num / 8 && k % 8 == num % 8) <==> k == num) by {
        if shown_row(k) == 7 - num / 8 && k % 8 == num % 8 {
            assert(k / 8 == num / 8);
            assert(k == 8 * (k / 8) + k % 8) by (nonlinear_arith);
            assert(num == 8 * (num / 8) + num % 8) by (nonlinear_arith);
        }
    }
}

} // verus!
