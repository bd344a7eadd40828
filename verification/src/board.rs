use std::collections::HashSet;
use vstd::prelude::*;

verus! {

/// A game position: the board (rows of piece codes, see `new_board`), the boards
/// before each move, the squares of pieces that have not moved yet (for castling;
/// the square in row `r` and column `c` is recorded as `8 * r + c`), and the side
/// to move.
pub struct Board {
    pub board: Vec<Vec<i8>>,
    pub board_history: Vec<Vec<Vec<i8>>>,
    pub castle_pieces: HashSet<usize>,
    pub turn: i8,
}

/// The starting board. Codes: 0 empty, 1 pawn, 2 knight, 3 bishop, 4 rook,
/// 5 queen, 6 king, positive for white and negative for black; row 0 holds
/// `[4, 2, 3, 5, 6, 3, 2, 4]`, row 1 white pawns, row 6 black pawns, row 7 the
/// black pieces of row 0.
pub open spec fn spec_new_board() -> Seq<Seq<i8>> {
    let back = seq![4i8, 2i8, 3i8, 5i8, 6i8, 3i8, 2i8, 4i8];
    let black_back = seq![-4i8, -2i8, -3i8, -5i8, -6i8, -3i8, -2i8, -4i8];
    let pawns = Seq::new(8, |j: int| 1i8);
    let black_pawns = Seq::new(8, |j: int| -1i8);
    let empty = Seq::new(8, |j: int| 0i8);
    seq![back, pawns, empty, empty, empty, empty, black_pawns, black_back]
}

pub fn new_board() -> (board: Vec<Vec<i8>>)
    ensures
        board.deep_view() == spec_new_board(),
{
    let mut board: Vec<Vec<i8>> = Vec::new();
    let mut i: usize = 0;
    while i < 8
        invariant
            i <= 8,
            board.len() == i,
            forall|k: int| 0 <= k < i ==> (#[trigger] board@[k])@ == Seq::new(8, |j: int| 0i8),
        decreases 8 - i,
    {
        let row: Vec<i8> = vec![0, 0, 0, 0, 0, 0, 0, 0];
        assert(row@ =~= Seq::new(8, |j: int| 0i8));
        board.push(row);
        i += 1;
    }
    board[0] = vec![4, 2, 3, 5, 6, 3, 2, 4];
    board[1] = vec![1, 1, 1, 1, 1, 1, 1, 1];
    board[6] = vec![-1, -1, -1, -1, -1, -1, -1, -1];
    board[7] = vec![-4, -2, -3, -5, -6, -3, -2, -4];
    assert(board.deep_view() =~= spec_new_board()) by {
        assert forall|k: int| 0 <= k < 8 implies #[trigger] board.deep_view()[k] =~= spec_new_board()[k] by {
            assert(board.deep_view()[k] == board@[k].deep_view());
        }
    }
    board
}

impl Board {
    /// The starting position with `turn` to move: the board of `new_board`, no
    /// earlier boards and no squares recorded for castling.
    pub fn new_board(turn: i8) -> (b: Board)
        ensures
            b.board.deep_view() == spec_new_board(),
            b.board_history.deep_view() == Seq::<Seq<Seq<i8>>>::empty(),
            b.castle_pieces@ == Set::<usize>::empty(),
            b.turn == turn,
    {
        let b = Board { board: new_board(), board_history: Vec::new(), castle_pieces: HashSet::new(), turn: turn };
        assert(b.board_history.deep_view() =~= Seq::<Seq<Seq<i8>>>::empty());
        b
    }
}

} // verus!
