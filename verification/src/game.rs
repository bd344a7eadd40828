use vstd::prelude::*;

use crate::board::Board;
use crate::legal_moves::copy_board;
use crate::players::Player;

verus! {

// ---------------------------------------------------------------------------
// Material
// ---------------------------------------------------------------------------

/// The weight of a piece in the material count: queen 7, rook 5, bishop and
/// knight 3, pawn 1, king and empty square 0, for either colour.
pub open spec fn spec_piece_score(piece: i8) -> int {
    let a = if piece < 0 {
        -piece
    } else {
        piece as int
    };
    if a == 5 {
        7
    } else if a == 4 {
        5
    } else if a == 3 || a == 2 {
        3
    } else if a == 1 {
        1
    } else {
        0
    }
}

pub fn piece_score(piece: i8) -> (r: i32)
    requires
        piece != i8::MIN,
    ensures
        r == spec_piece_score(piece),
{
    let a: i8 = if piece < 0 {
        -piece
    } else {
        piece
    };
    match a {
        5 => 7,
        4 => 5,
        3 => 3,
        2 => 3,
        1 => 1,
        _ => 0,
    }
}

/// A square counts for white when its code is positive, otherwise for black.
pub open spec fn counts_for(piece: i8, white: bool) -> bool {
    (piece > 0) == white
}

/// The material of the first `n` squares of `row` that count for `white`.
pub open spec fn row_material(row: Seq<i8>, n: int, white: bool) -> int
    decreases n,
{
    if n <= 0 {
        0
    } else {
        row_material(row, n - 1, white) + if counts_for(row[n - 1], white) {
            spec_piece_score(row[n - 1])
        } else {
            0
        }
    }
}

/// The material of the first `n` rows of `b` that counts for `white`.
pub open spec fn board_material(b: Seq<Seq<i8>>, n: int, white: bool) -> int
    decreases n,
{
    if n <= 0 {
        0
    } else {
        board_material(b, n - 1, white) + row_material(b[n - 1], b[n - 1].len() as int, white)
    }
}

/// The material of a whole board for one side, plus one (so that neither side has none).
pub open spec fn side_power(b: Seq<Seq<i8>>, white: bool) -> int {
    1 + board_material(b, b.len() as int, white)
}

/// No square holds the code `-128`, whose absolute value does not exist.
pub open spec fn no_min_code(b: Seq<Seq<i8>>) -> bool {
    forall|r: int, c: int| 0 <= r < b.len() && 0 <= c < b[r].len() ==> #[trigger] b[r][c] != i8::MIN
}

/// The material counts of both sides fit in an `i32`.
pub open spec fn power_fits(b: Seq<Seq<i8>>) -> bool {
    &&& no_min_code(b)
    &&& side_power(b, true) <= i32::MAX
    &&& side_power(b, false) <= i32::MAX
}

proof fn lemma_row_material_grows(row: Seq<i8>, n: int, m: int, white: bool)
    requires
        n <= m,
    ensures
        0 <= row_material(row, n, white) <= row_material(row, m, white),
    decreases m - n, n,
{
    if n < m {
        lemma_row_material_grows(row, n, m - 1, white);
    } else if n > 0 {
        lemma_row_material_grows(row, n - 1, n - 1, white);
    }
}

proof fn lemma_board_material_grows(b: Seq<Seq<i8>>, n: int, m: int, white: bool)
    requires
        n <= m,
    ensures
        0 <= board_material(b, n, white) <= board_material(b, m, white),
    decreases m - n, n,
{
    if n < m {
        lemma_board_material_grows(b, n, m - 1, white);
        if m > 0 {
            lemma_row_material_grows(b[m - 1], 0, b[m - 1].len() as int, white);
        }
    } else if n > 0 {
        lemma_board_material_grows(b, n - 1, n - 1, white);
        lemma_row_material_grows(b[n - 1], 0, b[n - 1].len() as int, white);
    }
}

/// The material of white (codes above zero) and of black (the other squares), each
/// plus one: `(white, black)`. The balance of power is `white / (white + black)`.
pub fn calculate_power_balance(board: &Vec<Vec<i8>>) -> (p: (i32, i32))
    requires
        power_fits(board.deep_view()),
    ensures
        p.0 == side_power(board.deep_view(), true),
        p.1 == side_power(board.deep_view(), false),
        p.0 >= 1 && p.1 >= 1,
{
    let ghost b = board.deep_view();
    let mut p1: i32 = 1;
    let mut p2: i32 = 1;
    let mut i: usize = 0;
    while i < board.len()
        invariant
            b == board.deep_view(),
            power_fits(b),
            i <= board.len(),
            p1 == 1 + board_material(b, i as int, true),
            p2 == 1 + board_material(b, i as int, false),
        decreases board.len() - i,
    {
        let row = &board[i];
        assert(b[i as int] =~= row@) by {
            assert(b[i as int] == board@[i as int].deep_view());
        }
        proof {
            lemma_board_material_grows(b, i + 1, b.len() as int, true);
            lemma_board_material_grows(b, i + 1, b.len() as int, false);
        }
        let mut j: usize = 0;
        while j < row.len()
            invariant
                b == board.deep_view(),
                power_fits(b),
                i < board.len(),
                b[i as int] == row@,
                j <= row.len(),
                1 + board_material(b, i as int + 1, true) <= i32::MAX,
                1 + board_material(b, i as int + 1, false) <= i32::MAX,
                p1 == 1 + board_material(b, i as int, true) + row_material(row@, j as int, true),
                p2 == 1 + board_material(b, i as int, false) + row_material(row@, j as int, false),
            decreases row.len() - j,
        {
            let piece = row[j];
            assert(piece == b[i as int][j as int]);
            proof {
                lemma_row_material_grows(row@, j + 1, row@.len() as int, true);
                lemma_row_material_grows(row@, j + 1, row@.len() as int, false);
            }
            if piece > 0 {
                p1 += piece_score(piece);
            } else {
                p2 += piece_score(piece);
            }
            j += 1;
        }
        i += 1;
    }
    proof {
        lemma_board_material_grows(b, 0, b.len() as int, true);
        lemma_board_material_grows(b, 0, b.len() as int, false);
    }
    (p1, p2)
}

// ---------------------------------------------------------------------------
// Game state
// ---------------------------------------------------------------------------

/// A game: the position, the two players, and the material counts of the two
/// sides from which the balance of power is read (see `calculate_power_balance`).
pub struct Game {
    board: Board,
    player_1: Player,
    player_2: Player,
    power_balance: (i32, i32),
}

/// What the side to move does next.
pub enum Request {
    /// An engine or a random player, of this kind, chooses its move itself.
    Engine(u8),
    /// A human has not clicked two squares yet.
    Wait,
    /// A human clicked these two squares (`[from row, from col, to row, to col]`)
    /// and chose this promotion.
    Human(Vec<usize>, usize),
}

impl Game {
    pub closed spec fn position(&self) -> Board {
        self.board
    }

    pub closed spec fn player_one(&self) -> Player {
        self.player_1
    }

    pub closed spec fn player_two(&self) -> Player {
        self.player_2
    }

    pub closed spec fn power(&self) -> (i32, i32) {
        self.power_balance
    }

    /// The player whose turn it is: the first one when `turn` is 1.
    pub open spec fn active(&self) -> Player {
        if self.position().turn == 1 {
            self.player_one()
        } else {
            self.player_two()
        }
    }

    /// A new game on `board`, both players of kind 0 on side 1, power evenly split.
    pub fn new_game(board: Board) -> (g: Game)
        ensures
            g.position() == board,
            g.player_one().side() == 1 && g.player_one().kind() == 0,
            g.player_two().side() == 1 && g.player_two().kind() == 0,
            g.player_one().clicks_view().len() == 0 && g.player_two().clicks_view().len() == 0,
            g.power() == (1i32, 1i32),
    {
        Game {
            board: board,
            player_1: Player::new(1, 0),
            player_2: Player::new(1, 0),
            power_balance: (1, 1),
        }
    }

    /// A copy of the board.
    pub fn get_board(&self) -> (b: Vec<Vec<i8>>)
        ensures
            b.deep_view() == self.position().board.deep_view(),
    {
        copy_board(&self.board.board)
    }

    /// The position, for a caller that copies it out.
    pub fn get_position(&self) -> (b: &Board)
        ensures
            *b == self.position(),
    {
        &self.board
    }

    fn get_active_player(&mut self) -> (p: &mut Player)
        ensures
            *p == old(self).active(),
            final(self).position() == old(self).position(),
            final(self).power() == old(self).power(),
            old(self).position().turn == 1 ==> final(self).player_one() == *final(p)
                && final(self).player_two() == old(self).player_two(),
            old(self).position().turn != 1 ==> final(self).player_two() == *final(p)
                && final(self).player_one() == old(self).player_one(),
    {
        if self.board.turn == 1 {
            &mut self.player_1
        } else {
            &mut self.player_2
        }
    }

    /// The two material counts `(white, black)`, see `calculate_power_balance`.
    pub fn get_power_balance(&self) -> (p: (i32, i32))
        ensures
            p == self.power(),
    {
        self.power_balance
    }

    /// A click of the side to move on the square `click`.
    pub fn clicked(&mut self, click: Vec<usize>)
        ensures
            final(self).position() == old(self).position(),
            final(self).power() == old(self).power(),
            final(self).active().clicks_view() == if old(self).active().clicks_view().len() == 2 {
                seq![old(self).active().clicks_view()[1], click@]
            } else {
                old(self).active().clicks_view().push(click@)
            },
            final(self).active().promotion() == old(self).active().promotion(),
            final(self).active().kind() == old(self).active().kind(),
            old(self).position().turn == 1 ==> final(self).player_two() == old(self).player_two(),
            old(self).position().turn != 1 ==> final(self).player_one() == old(self).player_one(),
    {
        self.get_active_player().clicked(click);
    }

    /// The promotion chosen by player 1 (`player == 1`) or by player 2 (any other value).
    pub fn set_promote(&mut self, player: i32, promote_to: usize)
        ensures
            final(self).position() == old(self).position(),
            final(self).power() == old(self).power(),
            player == 1 ==> final(self).player_one().promotion() == promote_to
                && final(self).player_one().clicks_view() == old(self).player_one().clicks_view()
                && final(self).player_one().kind() == old(self).player_one().kind()
                && final(self).player_two() == old(self).player_two(),
            player != 1 ==> final(self).player_two().promotion() == promote_to
                && final(self).player_two().clicks_view() == old(self).player_two().clicks_view()
                && final(self).player_two().kind() == old(self).player_two().kind()
                && final(self).player_one() == old(self).player_one(),
    {
        if player == 1 {
            self.player_1.set_promote_to(promote_to)
        } else {
            self.player_2.set_promote_to(promote_to)
        }
    }

    /// A new game between a player of kind `player_1` (side 1) and one of kind
    /// `player_2` (side -1), from the starting position with side 1 to move.
    pub fn restart(&mut self, player_1: i32, player_2: i32)
        ensures
            final(self).position().board.deep_view() == crate::board::spec_new_board(),
            final(self).position().board_history.deep_view() == Seq::<Seq<Seq<i8>>>::empty(),
            final(self).position().turn == 1,
            final(self).player_one().side() == 1,
            final(self).player_one().kind() == player_1 as u8,
            final(self).player_one().clicks_view().len() == 0,
            final(self).player_one().promotion() == 0,
            final(self).player_one().total() == 0,
            final(self).player_one().slowest() == 0,
            final(self).player_two().side() == -1,
            final(self).player_two().kind() == player_2 as u8,
            final(self).player_two().clicks_view().len() == 0,
            final(self).player_two().promotion() == 0,
            final(self).player_two().total() == 0,
            final(self).player_two().slowest() == 0,
            final(self).position().castle_pieces@ == Set::<usize>::empty(),
            final(self).power() == old(self).power(),
    {
        self.board = Board::new_board(1);
        self.player_1 = Player::new(1, player_1 as u8);
        self.player_2 = Player::new(-1, player_2 as u8);
    }

    /// The start of a turn: the clicks of the side to move are cleared and the
    /// material counts are taken from the board. Returns the side to move.
    pub fn start_turn(&mut self) -> (turn: i8)
        requires
            power_fits(old(self).position().board.deep_view()),
        ensures
            turn == old(self).position().turn,
            final(self).position() == old(self).position(),
            final(self).power() == (
                side_power(old(self).position().board.deep_view(), true) as i32,
                side_power(old(self).position().board.deep_view(), false) as i32,
            ),
            final(self).power().0 >= 1 && final(self).power().1 >= 1,
            final(self).active().clicks_view().len() == 0,
            final(self).active().kind() == old(self).active().kind(),
            final(self).active().promotion() == old(self).active().promotion(),
            old(self).position().turn == 1 ==> final(self).player_two() == old(self).player_two(),
            old(self).position().turn != 1 ==> final(self).player_one() == old(self).player_one(),
    {
        let turn = self.board.turn;
        self.get_active_player().clear_clicks();
        self.power_balance = calculate_power_balance(&self.board.board);
        turn
    }

    /// What the side to move does next: an engine or random player (any kind but
    /// 1) chooses itself; a human waits for two clicked squares, which then form
    /// the move, with the promotion it chose.
    pub fn move_request(&self) -> (r: Request)
        ensures
            self.active().kind() != 1 ==> r == Request::Engine(self.active().kind()),
            self.active().kind() == 1 && self.active().clicks_view().len() != 2 ==> r is Wait,
            self.active().kind() == 1 && self.active().clicks_view().len() == 2 ==> (r matches Request::Human(
                m,
                promote,
            ) && m@ == self.active().clicks_view()[0] + self.active().clicks_view()[1] && promote
                == self.active().promotion()),
    {
        let player = if self.board.turn == 1 {
            &self.player_1
        } else {
            &self.player_2
        };
        let kind = player.get_player_type();
        if kind != 1 {
            return Request::Engine(kind);
        }
        let clicks = player.get_clicks();
        if clicks.len() != 2 {
            return Request::Wait;
        }
        let ghost cv = clicks.deep_view();
        assert(clicks@[0]@ == cv[0] && clicks@[1]@ == cv[1]);
        let mut movee: Vec<usize> = Vec::new();
        let first = &clicks[0];
        let mut i: usize = 0;
        while i < first.len()
            invariant
                i <= first.len(),
                movee@ == first@.take(i as int),
            decreases first.len() - i,
        {
            movee.push(first[i]);
            assert(movee@ =~= first@.take(i + 1));
            i += 1;
        }
        assert(first@.take(first@.len() as int) =~= first@);
        let second = &clicks[1];
        let mut j: usize = 0;
        while j < second.len()
            invariant
                j <= second.len(),
                movee@ == first@ + second@.take(j as int),
            decreases second.len() - j,
        {
            movee.push(second[j]);
            assert(movee@ =~= first@ + second@.take(j + 1));
            j += 1;
        }
        assert(second@.take(second@.len() as int) =~= second@);
        Request::Human(movee, player.get_promote_to())
    }
}

} // verus!
