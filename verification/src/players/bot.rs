use std::collections::HashSet;
use vstd::prelude::*;

use crate::legal_moves::{
    all_shaped, copy_board, copy_history, get_all_legal_moves, is_side, lemma_moves_shaped, move_shape, own,
    pieces_movable, pieces_ok, spec_all_legal_moves, valid_board,
};

verus! {

broadcast use vstd::std_specs::hash::group_hash_axioms;

/// Material value of a piece code: queen 7, rook 5, bishop and knight 3, pawn 1,
/// the own (white) king 1000 and the opposing king -100.
pub open spec fn spec_piece_score(piece: i8) -> int {
    if piece == 6 {
        1000
    } else if piece == 5 {
        7
    } else if piece == 4 {
        5
    } else if piece == 3 {
        3
    } else if piece == 2 {
        3
    } else if piece == 1 {
        1
    } else if piece == -6 {
        -100
    } else if piece == -5 {
        -7
    } else if piece == -4 {
        -5
    } else if piece == -3 {
        -3
    } else if piece == -2 {
        -3
    } else if piece == -1 {
        -1
    } else {
        0
    }
}

pub fn piece_score(piece: i8) -> (r: i32)
    ensures
        r == spec_piece_score(piece),
{
    match piece {
        6 => 1000,
        5 => 7,
        4 => 5,
        3 => 3,
        2 => 3,
        1 => 1,
        -6 => -100,
        -5 => -7,
        -4 => -5,
        -3 => -3,
        -2 => -3,
        -1 => -1,
        _ => 0,
    }
}

/// Sum of the piece values of the first `n` entries of a row.
pub open spec fn row_score(row: Seq<i8>, n: int) -> int
    decreases n,
{
    if n <= 0 {
        0
    } else {
        row_score(row, n - 1) + spec_piece_score(row[n - 1])
    }
}

/// Sum of the piece values of the first `n` rows.
pub open spec fn board_score(b: Seq<Seq<i8>>, n: int) -> int
    decreases n,
{
    if n <= 0 {
        0
    } else {
        board_score(b, n - 1) + row_score(b[n - 1], b[n - 1].len() as int)
    }
}

/// The material score of a board: the sum of the values of all its pieces.
pub open spec fn spec_score(b: Seq<Seq<i8>>) -> int {
    board_score(b, b.len() as int)
}

proof fn lemma_row_score_bound(row: Seq<i8>, n: int)
    requires
        0 <= n <= row.len(),
    ensures
        -100 * n <= row_score(row, n) <= 1000 * n,
    decreases n,
{
    if n > 0 {
        lemma_row_score_bound(row, n - 1);
    }
}

proof fn lemma_board_score_bound(b: Seq<Seq<i8>>, n: int)
    requires
        valid_board(b),
        0 <= n <= 8,
    ensures
        -800 * n <= board_score(b, n) <= 8000 * n,
    decreases n,
{
    if n > 0 {
        lemma_board_score_bound(b, n - 1);
        lemma_row_score_bound(b[n - 1], 8);
    }
}

/// The score of an 8x8 board lies in `[-6400, 64000]`.
pub proof fn lemma_score_bound(b: Seq<Seq<i8>>)
    requires
        valid_board(b),
    ensures
        -6400 <= spec_score(b) <= 64000,
{
    lemma_board_score_bound(b, 8);
}

/// The running score after the rows before `i` and the first `j` entries of row `i`.
pub open spec fn prefix_score(b: Seq<Seq<i8>>, i: int, j: int) -> int {
    board_score(b, i) + row_score(b[i], j)
}

/// Every running score of the board, in row order, fits an `i32`.
pub open spec fn score_fits(b: Seq<Seq<i8>>) -> bool {
    forall|i: int, j: int|
        0 <= i < b.len() && 0 <= j <= b[i].len() ==> i32::MIN <= #[trigger] prefix_score(b, i, j) <= i32::MAX
}

/// The running scores of an 8x8 board stay small.
pub proof fn lemma_score_fits(b: Seq<Seq<i8>>)
    requires
        valid_board(b),
    ensures
        score_fits(b),
{
    assert forall|i: int, j: int| 0 <= i < b.len() && 0 <= j <= b[i].len() implies i32::MIN <= #[trigger] prefix_score(
        b,
        i,
        j,
    ) <= i32::MAX by {
        lemma_board_score_bound(b, i);
        lemma_row_score_bound(b[i], j);
    }
}

pub fn score(board: &Vec<Vec<i8>>) -> (r: i32)
    requires
        score_fits(board.deep_view()),
    ensures
        r == spec_score(board.deep_view()),
{
    let ghost b = board.deep_view();
    let mut score: i32 = 0;
    let mut i: usize = 0;
    while i < board.len()
        invariant
            b == board.deep_view(),
            score_fits(b),
            i <= board.len(),
            score == board_score(b, i as int),
        decreases board.len() - i,
    {
        let r = &board[i];
        assert(r@ == b[i as int]);
        let mut j: usize = 0;
        while j < r.len()
            invariant
                b == board.deep_view(),
                score_fits(b),
                i < board.len(),
                r@ == b[i as int],
                j <= r@.len(),
                score == prefix_score(b, i as int, j as int),
            decreases r@.len() - j,
        {
            assert(i32::MIN <= prefix_score(b, i as int, j + 1) <= i32::MAX);
            score += piece_score(r[j]);
            j += 1;
        }
        i += 1;
    }
    score
}


// ---------------------------------------------------------------------------
// Seeing the board from the side to move
// ---------------------------------------------------------------------------

/// The board as `player` sees it: unchanged for 1; for -1 the rows reversed and
/// every code negated, so that the side to move is always the positive one.
pub open spec fn spec_prep_board(b: Seq<Seq<i8>>, player: i8) -> Seq<Seq<i8>> {
    if player == 1 {
        b
    } else {
        Seq::new(b.len(), |r: int| Seq::new(b[b.len() - 1 - r].len(), |c: int| (-b[b.len() - 1 - r][c]) as i8))
    }
}

/// No square holds -128 (whose negation does not fit an `i8`).
pub open spec fn negatable(b: Seq<Seq<i8>>) -> bool {
    forall|r: int, c: int| 0 <= r < b.len() && 0 <= c < b[r].len() ==> #[trigger] b[r][c] != -128
}

pub fn prep_board(board: &Vec<Vec<i8>>, player: i8) -> (new_board: Vec<Vec<i8>>)
    requires
        player != 1 ==> negatable(board.deep_view()),
    ensures
        new_board.deep_view() == spec_prep_board(board.deep_view(), player),
{
    let ghost b = board.deep_view();
    if player == 1 {
        let mut copy: Vec<Vec<i8>> = Vec::new();
        let mut i: usize = 0;
        while i < board.len()
            invariant
                b == board.deep_view(),
                i <= board.len(),
                copy.deep_view() == b.take(i as int),
            decreases board.len() - i,
        {
            let row = &board[i];
            let mut new_row: Vec<i8> = Vec::new();
            let mut j: usize = 0;
            while j < row.len()
                invariant
                    row@ == b[i as int],
                    j <= row.len(),
                    new_row@ == row@.take(j as int),
                decreases row.len() - j,
            {
                new_row.push(row[j]);
                assert(new_row@ =~= row@.take(j + 1));
                j += 1;
            }
            assert(new_row@ =~= row@);
            let ghost before = copy.deep_view();
            let ghost before_v = copy@;
            assert(new_row.deep_view() =~= new_row@);
            let ghost rv = new_row@;
            copy.push(new_row);
            assert(copy.deep_view()[before.len() as int] == rv);
            assert forall|k: int| 0 <= k < before.len() implies copy.deep_view()[k] == before[k] by {
                assert(copy@[k] == before_v[k]);
            }
            assert(copy.deep_view() =~= b.take(i + 1));
            i += 1;
        }
        assert(b.take(board.len() as int) =~= b);
        return copy;
    }
    let mut new_board: Vec<Vec<i8>> = Vec::new();
    let n = board.len();
    let mut i: usize = 0;
    while i < n
        invariant
            b == board.deep_view(),
            n == b.len(),
            negatable(b),
            i <= n,
            new_board.deep_view() == spec_prep_board(b, player).take(i as int),
            player != 1,
        decreases n - i,
    {
        let r = &board[n - 1 - i];
        assert(r@ == b[n - 1 - i]);
        let mut row: Vec<i8> = Vec::new();
        let mut j: usize = 0;
        while j < r.len()
            invariant
                r@ == b[n - 1 - i],
                negatable(b),
                i < n,
                n == b.len(),
                j <= r.len(),
                row@ == spec_prep_board(b, player)[i as int].take(j as int),
                player != 1,
            decreases r.len() - j,
        {
            assert(r@[j as int] == b[n - 1 - i][j as int]);
            row.push(-r[j]);
            assert(row@ =~= spec_prep_board(b, player)[i as int].take(j + 1));
            j += 1;
        }
        assert(row@ =~= spec_prep_board(b, player)[i as int]);
        let ghost before = new_board.deep_view();
        let ghost before_v = new_board@;
        assert(row.deep_view() =~= row@);
        let ghost rv = row@;
        new_board.push(row);
        assert(new_board.deep_view()[before.len() as int] == rv);
        assert forall|k: int| 0 <= k < before.len() implies new_board.deep_view()[k] == before[k] by {
            assert(new_board@[k] == before_v[k]);
        }
        assert(new_board.deep_view() =~= spec_prep_board(b, player).take(i + 1));
        i += 1;
    }
    assert(spec_prep_board(b, player).take(n as int) =~= spec_prep_board(b, player));
    new_board
}

/// Seeing a board from the other side twice gives it back.
pub proof fn lemma_prep_board_twice(b: Seq<Seq<i8>>)
    requires
        negatable(b),
    ensures
        spec_prep_board(spec_prep_board(b, -1i8), -1i8) == b,
        negatable(spec_prep_board(b, -1i8)),
{
    let once = spec_prep_board(b, -1i8);
    assert forall|r: int, c: int| 0 <= r < once.len() && 0 <= c < once[r].len() implies #[trigger] once[r][c] != -128 by {
        assert(b[b.len() - 1 - r][c] != -128);
    }
    let twice = spec_prep_board(once, -1i8);
    assert(twice.len() == b.len());
    assert forall|r: int| 0 <= r < b.len() implies #[trigger] twice[r] =~= b[r] by {
        assert(once[b.len() - 1 - r] == Seq::new(b[r].len(), |c: int| (-b[r][c]) as i8));
    }
    assert(twice =~= b);
}

// ---------------------------------------------------------------------------
// Check
// ---------------------------------------------------------------------------

/// The first square `k < n` (row-major, square `k` is `(k / 8, k % 8)`) holding `king`.
pub open spec fn first_square_of(b: Seq<Seq<i8>>, king: i8, n: int) -> Option<(usize, usize)>
    decreases n,
{
    if n <= 0 {
        None
    } else {
        match first_square_of(b, king, n - 1) {
            Some(p) => Some(p),
            None => if b[(n - 1) / 8][(n - 1) % 8] == king {
                Some((((n - 1) / 8) as usize, ((n - 1) % 8) as usize))
            } else {
                None
            },
        }
    }
}

/// The square of `king` (first in row-major order).
pub open spec fn king_square(b: Seq<Seq<i8>>, king: i8) -> Option<(usize, usize)> {
    first_square_of(b, king, 64)
}

proof fn lemma_first_square_bounds(b: Seq<Seq<i8>>, king: i8, n: int)
    requires
        0 <= n <= 64,
    ensures
        first_square_of(b, king, n) matches Some(p) ==> p.0 < 8 && p.1 < 8 && b[p.0 as int][p.1 as int] == king,
    decreases n,
{
    if n > 0 {
        lemma_first_square_bounds(b, king, n - 1);
    }
}

pub fn find_king(king: i8, board: &Vec<Vec<i8>>) -> (pos: (usize, usize))
    requires
        valid_board(board.deep_view()),
        king_square(board.deep_view(), king) is Some,
    ensures
        king_square(board.deep_view(), king) == Some(pos),
        pos.0 < 8 && pos.1 < 8,
{
    let ghost b = board.deep_view();
    proof {
        lemma_first_square_bounds(b, king, 64);
    }
    let mut i: usize = 0;
    while i < 8
        invariant
            b == board.deep_view(),
            valid_board(b),
            i <= 8,
            first_square_of(b, king, 8 * i) is None,
            king_square(b, king) is Some,
            king_square(b, king) matches Some(p) ==> p.0 < 8 && p.1 < 8,
        decreases 8 - i,
    {
        let mut j: usize = 0;
        while j < 8
            invariant
                b == board.deep_view(),
                valid_board(b),
                i < 8,
                j <= 8,
                first_square_of(b, king, 8 * i + j) is None,
            decreases 8 - j,
        {
            assert(board@[i as int]@.len() == 8) by {
                assert(b[i as int].len() == 8);
            }
            assert((8 * i + j) / 8 == i as int && (8 * i + j) % 8 == j as int);
            if board[i][j] == king {
                proof {
                    lemma_first_square_some(b, king, 8 * i + j + 1, 64);
                }
                return (i, j);
            }
            j += 1;
        }
        i += 1;
    }
    (10, 10)
}

/// Whether `king` stands on the board (see `king_square`).
pub fn has_king(king: i8, board: &Vec<Vec<i8>>) -> (r: bool)
    requires
        valid_board(board.deep_view()),
    ensures
        r == (king_square(board.deep_view(), king) is Some),
{
    let ghost b = board.deep_view();
    let mut i: usize = 0;
    while i < 8
        invariant
            b == board.deep_view(),
            valid_board(b),
            i <= 8,
            first_square_of(b, king, 8 * i) is None,
        decreases 8 - i,
    {
        let mut j: usize = 0;
        while j < 8
            invariant
                b == board.deep_view(),
                valid_board(b),
                i < 8,
                j <= 8,
                first_square_of(b, king, 8 * i + j) is None,
            decreases 8 - j,
        {
            assert(board@[i as int]@.len() == 8) by {
                assert(b[i as int].len() == 8);
            }
            assert((8 * i + j) / 8 == i as int && (8 * i + j) % 8 == j as int);
            if board[i][j] == king {
                proof {
                    lemma_first_square_some(b, king, 8 * i + j + 1, 64);
                }
                return true;
            }
            j += 1;
        }
        i += 1;
    }
    false
}

/// Once a square holding `king` is found among the first `n`, looking further finds the same one.
pub proof fn lemma_first_square_some(b: Seq<Seq<i8>>, king: i8, n: int, m: int)
    requires
        0 <= n <= m,
        first_square_of(b, king, n) is Some,
    ensures
        first_square_of(b, king, m) == first_square_of(b, king, n),
    decreases m - n,
{
    if m > n {
        lemma_first_square_some(b, king, n, m - 1);
    }
}


/// An opposing pawn attacks the king on `kp`: diagonally in front of it
/// (row + 1 for white, row - 1 for black).
pub open spec fn spec_pawn_attack(player: i8, kp: (usize, usize), b: Seq<Seq<i8>>) -> bool {
    let r = kp.0 as int;
    let c = kp.1 as int;
    if player == 1 {
        r != 7 && ((c != 0 && b[r + 1][c - 1] == -1) || (c != 7 && b[r + 1][c + 1] == -1))
    } else {
        r != 0 && ((c != 0 && b[r - 1][c - 1] == 1) || (c != 7 && b[r - 1][c + 1] == 1))
    }
}

pub fn pawn_attack(player: i8, king_pos: (usize, usize), board: &Vec<Vec<i8>>) -> (r: bool)
    requires
        valid_board(board.deep_view()),
        king_pos.0 < 8 && king_pos.1 < 8,
    ensures
        r == spec_pawn_attack(player, king_pos, board.deep_view()),
{
    let ghost b = board.deep_view();
    assert forall|i: int| 0 <= i < 8 implies #[trigger] board@[i]@.len() == 8 by {
        assert(b[i].len() == 8);
    }
    if player == 1 {
        if king_pos.0 != 7 {
            if king_pos.1 != 0 {
                if board[king_pos.0 + 1][king_pos.1 - 1] == -1 {
                    return true;
                }
            }
            if king_pos.1 != 7 {
                if board[king_pos.0 + 1][king_pos.1 + 1] == -1 {
                    return true;
                }
            }
        }
    } else {
        if king_pos.0 != 0 {
            if king_pos.1 != 0 {
                if board[king_pos.0 - 1][king_pos.1 - 1] == 1 {
                    return true;
                }
            }
            if king_pos.1 != 7 {
                if board[king_pos.0 - 1][king_pos.1 + 1] == 1 {
                    return true;
                }
            }
        }
    }
    false
}

pub open spec fn knight_dirs() -> Seq<(i8, i8)> {
    seq![(2i8, 1i8), (-2i8, 1i8), (-2i8, -1i8), (2i8, -1i8), (1i8, 2i8), (-1i8, 2i8), (-1i8, -2i8), (1i8, -2i8)]
}

/// A piece coded `target` stands a knight's jump (one of the first `n` offsets) from `(r, c)`.
pub open spec fn knight_hits(b: Seq<Seq<i8>>, r: int, c: int, target: int, n: int) -> bool
    decreases n,
{
    if n <= 0 {
        false
    } else {
        let a = r + knight_dirs()[n - 1].0;
        let e = c + knight_dirs()[n - 1].1;
        knight_hits(b, r, c, target, n - 1) || (0 <= a <= 7 && 0 <= e <= 7 && b[a][e] == target)
    }
}

/// An opposing knight attacks the king on `kp`.
pub open spec fn spec_knight_attack(player: i8, kp: (usize, usize), b: Seq<Seq<i8>>) -> bool {
    knight_hits(b, kp.0 as int, kp.1 as int, -2 * player, 8)
}

proof fn lemma_knight_hits_grow(b: Seq<Seq<i8>>, r: int, c: int, target: int, n: int, m: int)
    requires
        0 <= n <= m,
        knight_hits(b, r, c, target, n),
    ensures
        knight_hits(b, r, c, target, m),
    decreases m - n,
{
    if m > n {
        lemma_knight_hits_grow(b, r, c, target, n, m - 1);
    }
}

proof fn lemma_ray_hits_grow(
    b: Seq<Seq<i8>>,
    r: int,
    c: int,
    targets: Set<i8>,
    dirs: Seq<(i8, i8)>,
    n: int,
    m: int,
)
    requires
        0 <= n <= m,
        any_ray_hits(b, r, c, targets, dirs, n),
    ensures
        any_ray_hits(b, r, c, targets, dirs, m),
    decreases m - n,
{
    if m > n {
        lemma_ray_hits_grow(b, r, c, targets, dirs, n, m - 1);
    }
}

pub fn knight_attack(player: i8, king_pos: (usize, usize), board: &Vec<Vec<i8>>) -> (r: bool)
    requires
        valid_board(board.deep_view()),
        king_pos.0 < 8 && king_pos.1 < 8,
        is_side(player),
    ensures
        r == spec_knight_attack(player, king_pos, board.deep_view()),
{
    let ghost b = board.deep_view();
    let dir: Vec<(i8, i8)> = vec![(2,1),(-2,1),(-2,-1),(2,-1), (1,2),(-1,2),(-1,-2),(1,-2)];
    assert(dir@ == knight_dirs());
    let s0 = king_pos.0 as i8;
    let s1 = king_pos.1 as i8;
    let target = 2 * player * -1;
    let mut k: usize = 0;
    while k < dir.len()
        invariant
            b == board.deep_view(),
            valid_board(b),
            king_pos.0 < 8 && king_pos.1 < 8,
            s0 == king_pos.0 && s1 == king_pos.1,
            is_side(player),
            target == -2 * player,
            dir@ == knight_dirs(),
            k <= 8,
            !knight_hits(b, king_pos.0 as int, king_pos.1 as int, -2 * player, k as int),
        decreases 8 - k,
    {
        let d = dir[k];
        assert(d == knight_dirs()[k as int]);
        let a = s0 + d.0;
        let e = s1 + d.1;
        if a < 0 || a > 7 || e < 0 || e > 7 {
        } else {
            assert(board@[a as int]@.len() == 8) by {
                assert(b[a as int].len() == 8);
            }
            if board[a as usize][e as usize] == target {
                proof {
                    lemma_knight_hits_grow(b, king_pos.0 as int, king_pos.1 as int, -2 * player, k + 1, 8);
                }
                return true;
            }
        }
        k += 1;
    }
    false
}

/// Looking from `(r, c)` along `d` from step `i` on: the first piece met is one of `targets`.
pub open spec fn ray_hits(b: Seq<Seq<i8>>, r: int, c: int, targets: Set<i8>, d: (i8, i8), i: int) -> bool
    decreases 8 - i,
{
    if i < 1 || i >= 8 {
        false
    } else {
        let a = r + d.0 * i;
        let e = c + d.1 * i;
        if !(0 <= a <= 7 && 0 <= e <= 7) {
            false
        } else if b[a][e] != 0 {
            targets.contains(b[a][e])
        } else {
            ray_hits(b, r, c, targets, d, i + 1)
        }
    }
}

/// Along one of the first `n` directions, the first piece met from `(r, c)` is one of `targets`.
pub open spec fn any_ray_hits(b: Seq<Seq<i8>>, r: int, c: int, targets: Set<i8>, dirs: Seq<(i8, i8)>, n: int) -> bool
    decreases n,
{
    if n <= 0 {
        false
    } else {
        any_ray_hits(b, r, c, targets, dirs, n - 1) || ray_hits(b, r, c, targets, dirs[n - 1], 1)
    }
}

/// The first step from `(r, c)` along each direction fits an `i8` (the later steps
/// are only taken after a step that stayed on the board).
pub open spec fn first_steps_fit(r: int, c: int, dirs: Seq<(i8, i8)>) -> bool {
    forall|k: int| 0 <= k < dirs.len() ==> r + (#[trigger] dirs[k]).0 <= 127 && c + dirs[k].1 <= 127
}

pub fn possible_direction_moves(
    board: &Vec<Vec<i8>>,
    start: (usize, usize),
    targets: HashSet<i8>,
    dir: Vec<(i8, i8)>,
) -> (r: bool)
    requires
        valid_board(board.deep_view()),
        start.0 < 8 && start.1 < 8,
        first_steps_fit(start.0 as int, start.1 as int, dir@),
    ensures
        r == any_ray_hits(board.deep_view(), start.0 as int, start.1 as int, targets@, dir@, dir@.len() as int),
{
    let ghost b = board.deep_view();
    let s0 = start.0 as i8;
    let s1 = start.1 as i8;
    let mut k: usize = 0;
    while k < dir.len()
        invariant
            b == board.deep_view(),
            valid_board(b),
            start.0 < 8 && start.1 < 8,
            s0 == start.0 && s1 == start.1,
            first_steps_fit(start.0 as int, start.1 as int, dir@),
            k <= dir.len(),
            !any_ray_hits(b, start.0 as int, start.1 as int, targets@, dir@, k as int),
        decreases dir.len() - k,
    {
        let d = dir[k];
        assert(s0 + d.0 <= 127 && s1 + d.1 <= 127);
        let mut i: i8 = 1;
        while i < 8
            invariant
                b == board.deep_view(),
                valid_board(b),
                start.0 < 8 && start.1 < 8,
                s0 == start.0 && s1 == start.1,
                s0 + d.0 <= 127 && s1 + d.1 <= 127,
                i >= 2 ==> 0 <= s0 + d.0 <= 7 && 0 <= s1 + d.1 <= 7,
                1 <= i <= 8,
                k < dir.len(),
                d == dir@[k as int],
                !any_ray_hits(b, start.0 as int, start.1 as int, targets@, dir@, k as int),
                ray_hits(b, start.0 as int, start.1 as int, targets@, d, 1) == ray_hits(
                    b,
                    start.0 as int,
                    start.1 as int,
                    targets@,
                    d,
                    i as int,
                ),
            ensures
                !ray_hits(b, start.0 as int, start.1 as int, targets@, d, 1),
            decreases 8 - i,
        {
            assert(-128 <= d.0 * i <= 127 && -128 <= d.1 * i <= 127 && -128 <= s0 + d.0 * i <= 127 && -128
                <= s1 + d.1 * i <= 127) by (nonlinear_arith)
                requires
                    0 <= s0 <= 7,
                    0 <= s1 <= 7,
                    -128 <= d.0 <= 127,
                    -128 <= d.1 <= 127,
                    s0 + d.0 <= 127 && s1 + d.1 <= 127,
                    i >= 2 ==> 0 <= s0 + d.0 <= 7 && 0 <= s1 + d.1 <= 7,
                    1 <= i < 8,
            ;
            let a = s0 + d.0 * i;
            let e = s1 + d.1 * i;
            if a < 0 || a > 7 || e < 0 || e > 7 {
                break;
            }
            assert(board@[a as int]@.len() == 8) by {
                assert(b[a as int].len() == 8);
            }
            let x = board[a as usize][e as usize];
            assert(x == b[a as int][e as int]);
            if x != 0 {
                if targets.contains(&x) {
                    proof {
                        lemma_ray_hits_grow(
                            b,
                            start.0 as int,
                            start.1 as int,
                            targets@,
                            dir@,
                            k + 1,
                            dir@.len() as int,
                        );
                    }
                    return true;
                }
                break;
            }
            i += 1;
        }
        k += 1;
    }
    false
}

pub open spec fn straight_dirs() -> Seq<(i8, i8)> {
    seq![(1i8, 0i8), (-1i8, 0i8), (0i8, 1i8), (0i8, -1i8)]
}

pub open spec fn diagonal_dirs() -> Seq<(i8, i8)> {
    seq![(1i8, 1i8), (-1i8, 1i8), (-1i8, -1i8), (1i8, -1i8)]
}

/// An opposing rook or queen attacks the king on `kp` along a row or column.
pub open spec fn spec_rook_queen_attack(player: i8, kp: (usize, usize), b: Seq<Seq<i8>>) -> bool {
    any_ray_hits(b, kp.0 as int, kp.1 as int, set![(-4 * player) as i8, (-5 * player) as i8], straight_dirs(), 4)
}

/// An opposing bishop or queen attacks the king on `kp` along a diagonal.
pub open spec fn spec_bishop_queen_attack(player: i8, kp: (usize, usize), b: Seq<Seq<i8>>) -> bool {
    any_ray_hits(b, kp.0 as int, kp.1 as int, set![(-3 * player) as i8, (-5 * player) as i8], diagonal_dirs(), 4)
}

pub fn rook_queen_attack(player: i8, king_pos: (usize, usize), board: &Vec<Vec<i8>>) -> (r: bool)
    requires
        valid_board(board.deep_view()),
        king_pos.0 < 8 && king_pos.1 < 8,
        is_side(player),
    ensures
        r == spec_rook_queen_attack(player, king_pos, board.deep_view()),
{
    let dir: Vec<(i8, i8)> = vec![(1,0),(-1,0),(0,1),(0,-1)];
    assert(dir@ == straight_dirs());
    let mut targets: HashSet<i8> = HashSet::new();
    targets.insert(4 * player * -1);
    targets.insert(5 * player * -1);
    assert(targets@ =~= set![(-4 * player) as i8, (-5 * player) as i8]);
    return possible_direction_moves(board, king_pos, targets, dir);
}

pub fn bishop_queen_attack(player: i8, king_pos: (usize, usize), board: &Vec<Vec<i8>>) -> (r: bool)
    requires
        valid_board(board.deep_view()),
        king_pos.0 < 8 && king_pos.1 < 8,
        is_side(player),
    ensures
        r == spec_bishop_queen_attack(player, king_pos, board.deep_view()),
{
    let dir: Vec<(i8, i8)> = vec![(1,1),(-1,1),(-1,-1),(1,-1)];
    assert(dir@ == diagonal_dirs());
    let mut targets: HashSet<i8> = HashSet::new();
    targets.insert(3 * player * -1);
    targets.insert(5 * player * -1);
    assert(targets@ =~= set![(-3 * player) as i8, (-5 * player) as i8]);
    return possible_direction_moves(board, king_pos, targets, dir);
}

/// `player`'s king (the first square coded `6 * player`) is attacked by an
/// opposing pawn, knight, rook or queen, or bishop or queen.
pub open spec fn spec_in_check(b: Seq<Seq<i8>>, player: i8) -> bool {
    let kp = king_square(b, (6 * player) as i8)->0;
    spec_pawn_attack(player, kp, b) || spec_knight_attack(player, kp, b) || spec_rook_queen_attack(player, kp, b)
        || spec_bishop_queen_attack(player, kp, b)
}

/// A knight of the opponent a knight's jump away from the king of `player` on
/// `(r, c)` (its first square on the board) puts it in check: two rows and one
/// column away, or one row and two columns.
pub proof fn lemma_knight_gives_check(b: Seq<Seq<i8>>, player: i8, r: int, c: int, a: int, e: int)
    requires
        valid_board(b),
        is_side(player),
        king_square(b, (6 * player) as i8) == Some((r as usize, c as usize)),
        0 <= r < 8 && 0 <= c < 8,
        0 <= a < 8 && 0 <= e < 8,
        (abs8((a - r) as i8) == 1 && abs8((e - c) as i8) == 2) || (abs8((a - r) as i8) == 2 && abs8((e - c) as i8) == 1),
        b[a][e] == -2 * player,
    ensures
        spec_in_check(b, player),
        crate::legal_moves::spec_in_check(b, player),
{
    let t = -2 * player;
    let k: int = if a - r == 2 && e - c == 1 {
        0
    } else if a - r == -2 && e - c == 1 {
        1
    } else if a - r == -2 && e - c == -1 {
        2
    } else if a - r == 2 && e - c == -1 {
        3
    } else if a - r == 1 && e - c == 2 {
        4
    } else if a - r == -1 && e - c == 2 {
        5
    } else if a - r == -1 && e - c == -2 {
        6
    } else {
        7
    };
    assert(r + knight_dirs()[k].0 == a && c + knight_dirs()[k].1 == e);
    assert(knight_hits(b, r, c, t, k + 1));
    lemma_knight_hits_grow(b, r, c, t, k + 1, 8);
}

/// Row (or column) `x` moved `j` steps in the direction of the sign of `s`.
pub open spec fn step_towards(x: int, s: int, j: int) -> int {
    if s > 0 {
        x + j
    } else if s < 0 {
        x - j
    } else {
        x
    }
}

/// Every square strictly between `(r, c)` and `(a, e)`, stepping one row and/or
/// one column at a time towards `(a, e)`, is empty.
pub open spec fn path_clear(b: Seq<Seq<i8>>, r: int, c: int, a: int, e: int) -> bool {
    let n = if abs8((a - r) as i8) > abs8((e - c) as i8) {
        abs8((a - r) as i8)
    } else {
        abs8((e - c) as i8)
    };
    forall|j: int| 0 < j < n ==> #[trigger] b[step_towards(r, a - r, j)][step_towards(c, e - c, j)] == 0
}

/// Looking along `d` from step `i`: when the squares of steps `i..n` are empty and
/// the square of step `n` holds one of `targets`, the ray hits.
proof fn lemma_ray_reaches(b: Seq<Seq<i8>>, r: int, c: int, targets: Set<i8>, d: (i8, i8), i: int, n: int)
    requires
        1 <= i <= n < 8,
        forall|j: int|
            i <= j <= n ==> 0 <= #[trigger] (r + d.0 * j) <= 7 && 0 <= c + d.1 * j <= 7,
        forall|j: int| i <= j < n ==> b[#[trigger] (r + d.0 * j)][c + d.1 * j] == 0,
        b[r + d.0 * n][c + d.1 * n] != 0,
        targets.contains(b[r + d.0 * n][c + d.1 * n]),
    ensures
        ray_hits(b, r, c, targets, d, i),
    decreases n - i,
{
    assert(0 <= r + d.0 * i <= 7);
    if i < n {
        assert(b[r + d.0 * i][c + d.1 * i] == 0);
        lemma_ray_reaches(b, r, c, targets, d, i + 1, n);
    }
}

/// The ray from `(r, c)` along the unit step `(sr, sc)` towards `(a, e)`, `n` steps away.
proof fn lemma_line_hits(
    b: Seq<Seq<i8>>,
    r: int,
    c: int,
    a: int,
    e: int,
    targets: Set<i8>,
    dirs: Seq<(i8, i8)>,
    k: int,
    n: int,
)
    requires
        0 <= r < 8 && 0 <= c < 8,
        0 <= a < 8 && 0 <= e < 8,
        0 <= k < dirs.len(),
        1 <= n < 8,
        dirs[k].0 == (if a > r { 1int } else if a < r { -1int } else { 0int }),
        dirs[k].1 == (if e > c { 1int } else if e < c { -1int } else { 0int }),
        a == step_towards(r, a - r, n),
        e == step_towards(c, e - c, n),
        forall|j: int| 0 < j < n ==> #[trigger] b[step_towards(r, a - r, j)][step_towards(c, e - c, j)] == 0,
        b[a][e] != 0,
        targets.contains(b[a][e]),
    ensures
        any_ray_hits(b, r, c, targets, dirs, dirs.len() as int),
{
    let d = dirs[k];
    assert forall|j: int| 0 <= j <= n implies #[trigger] (r + d.0 * j) == step_towards(r, a - r, j) && c + d.1 * j
        == step_towards(c, e - c, j) by {
        if a > r {
            assert(d.0 * j == j) by (nonlinear_arith) requires d.0 == 1;
        } else if a < r {
            assert(d.0 * j == -j) by (nonlinear_arith) requires d.0 == -1;
        } else {
            assert(d.0 * j == 0) by (nonlinear_arith) requires d.0 == 0;
        }
        if e > c {
            assert(d.1 * j == j) by (nonlinear_arith) requires d.1 == 1;
        } else if e < c {
            assert(d.1 * j == -j) by (nonlinear_arith) requires d.1 == -1;
        } else {
            assert(d.1 * j == 0) by (nonlinear_arith) requires d.1 == 0;
        }
    }
    assert forall|j: int| 1 <= j <= n implies 0 <= #[trigger] (r + d.0 * j) <= 7 && 0 <= c + d.1 * j <= 7 by {
        assert(r + d.0 * j == step_towards(r, a - r, j) && c + d.1 * j == step_towards(c, e - c, j));
    }
    assert forall|j: int| 1 <= j < n implies b[#[trigger] (r + d.0 * j)][c + d.1 * j] == 0 by {
        assert(r + d.0 * j == step_towards(r, a - r, j) && c + d.1 * j == step_towards(c, e - c, j));
        assert(b[step_towards(r, a - r, j)][step_towards(c, e - c, j)] == 0);
    }
    assert(r + d.0 * n == a && c + d.1 * n == e);
    lemma_ray_reaches(b, r, c, targets, d, 1, n);
    assert(any_ray_hits(b, r, c, targets, dirs, k + 1));
    lemma_ray_hits_grow(b, r, c, targets, dirs, k + 1, dirs.len() as int);
}

/// An opposing rook or queen on the row or the column of the king of `player` on
/// `(r, c)` (its first square on the board), with every square between them
/// empty, puts it in check.
pub proof fn lemma_rook_gives_check(b: Seq<Seq<i8>>, player: i8, r: int, c: int, a: int, e: int)
    requires
        valid_board(b),
        is_side(player),
        king_square(b, (6 * player) as i8) == Some((r as usize, c as usize)),
        0 <= r < 8 && 0 <= c < 8,
        0 <= a < 8 && 0 <= e < 8,
        (a == r) != (e == c),
        path_clear(b, r, c, a, e),
        b[a][e] == -4 * player || b[a][e] == -5 * player,
    ensures
        spec_in_check(b, player),
        crate::legal_moves::spec_in_check(b, player),
{
    let targets = set![(-4 * player) as i8, (-5 * player) as i8];
    let k: int = if a > r {
        0
    } else if a < r {
        1
    } else if e > c {
        2
    } else {
        3
    };
    let n = if a != r {
        abs8((a - r) as i8)
    } else {
        abs8((e - c) as i8)
    };
    lemma_line_hits(b, r, c, a, e, targets, straight_dirs(), k, n);
}

/// An opposing bishop or queen on a diagonal of the king of `player` on `(r, c)`
/// (its first square on the board), with every square between them empty, puts
/// it in check.
pub proof fn lemma_bishop_gives_check(b: Seq<Seq<i8>>, player: i8, r: int, c: int, a: int, e: int)
    requires
        valid_board(b),
        is_side(player),
        king_square(b, (6 * player) as i8) == Some((r as usize, c as usize)),
        0 <= r < 8 && 0 <= c < 8,
        0 <= a < 8 && 0 <= e < 8,
        a != r,
        abs8((a - r) as i8) == abs8((e - c) as i8),
        path_clear(b, r, c, a, e),
        b[a][e] == -3 * player || b[a][e] == -5 * player,
    ensures
        spec_in_check(b, player),
        crate::legal_moves::spec_in_check(b, player),
{
    let targets = set![(-3 * player) as i8, (-5 * player) as i8];
    let k: int = if a > r && e > c {
        0
    } else if a < r && e > c {
        1
    } else if a < r && e < c {
        2
    } else {
        3
    };
    let n = abs8((a - r) as i8);
    lemma_line_hits(b, r, c, a, e, targets, diagonal_dirs(), k, n);
}

/// The piece on `(a, e)` attacks the king of `player` on `(r, c)`: an opposing pawn
/// diagonally in front of the king, an opposing knight a knight's jump away, an
/// opposing rook or queen on its row or column, or an opposing bishop or queen on
/// one of its diagonals, with every square between them empty.
pub open spec fn attacks_king(b: Seq<Seq<i8>>, player: i8, r: int, c: int, a: int, e: int) -> bool {
    let p = b[a][e];
    ||| p == -player && a == r + (if player == 1 { 1int } else { -1int }) && (e == c - 1 || e == c + 1)
    ||| p == -2 * player && ((abs8((a - r) as i8) == 1 && abs8((e - c) as i8) == 2) || (abs8((a - r) as i8) == 2
        && abs8((e - c) as i8) == 1))
    ||| (p == -4 * player || p == -5 * player) && (a == r) != (e == c) && path_clear(b, r, c, a, e)
    ||| (p == -3 * player || p == -5 * player) && a != r && abs8((a - r) as i8) == abs8((e - c) as i8) && path_clear(
        b,
        r,
        c,
        a,
        e,
    )
}

proof fn lemma_knight_witness(b: Seq<Seq<i8>>, r: int, c: int, target: int, m: int) -> (k: int)
    requires
        knight_hits(b, r, c, target, m),
    ensures
        0 <= k < m,
        0 <= r + knight_dirs()[k].0 <= 7,
        0 <= c + knight_dirs()[k].1 <= 7,
        b[r + knight_dirs()[k].0][c + knight_dirs()[k].1] == target,
    decreases m,
{
    if knight_hits(b, r, c, target, m - 1) {
        lemma_knight_witness(b, r, c, target, m - 1)
    } else {
        m - 1
    }
}

proof fn lemma_any_ray_witness(b: Seq<Seq<i8>>, r: int, c: int, targets: Set<i8>, dirs: Seq<(i8, i8)>, m: int) -> (k: int)
    requires
        any_ray_hits(b, r, c, targets, dirs, m),
    ensures
        0 <= k < m,
        ray_hits(b, r, c, targets, dirs[k], 1),
    decreases m,
{
    if any_ray_hits(b, r, c, targets, dirs, m - 1) {
        lemma_any_ray_witness(b, r, c, targets, dirs, m - 1)
    } else {
        m - 1
    }
}

proof fn lemma_ray_witness(b: Seq<Seq<i8>>, r: int, c: int, targets: Set<i8>, d: (i8, i8), i: int) -> (n: int)
    requires
        ray_hits(b, r, c, targets, d, i),
    ensures
        1 <= i <= n < 8,
        0 <= r + d.0 * n <= 7 && 0 <= c + d.1 * n <= 7,
        b[r + d.0 * n][c + d.1 * n] != 0,
        targets.contains(b[r + d.0 * n][c + d.1 * n]),
        forall|j: int| i <= j < n ==> #[trigger] b[r + d.0 * j][c + d.1 * j] == 0,
    decreases 8 - i,
{
    if b[r + d.0 * i][c + d.1 * i] != 0 {
        i
    } else {
        lemma_ray_witness(b, r, c, targets, d, i + 1)
    }
}

/// Stepping `j` times by the unit `s` from `x` is stepping towards `x + s * n`.
proof fn lemma_unit_steps(x: int, s: int, n: int, j: int)
    requires
        s == 1 || s == -1 || s == 0,
        n >= 1,
    ensures
        x + s * j == step_towards(x, s * n, j),
        abs8((s * n) as i8) == (if s == 0 { 0 } else { n }) || s * n > 127 || s * n < -128,
{
    if s == 1 {
        assert(s * j == j && s * n == n) by (nonlinear_arith) requires s == 1;
    } else if s == -1 {
        assert(s * j == -j && s * n == -n) by (nonlinear_arith) requires s == -1;
    } else {
        assert(s * j == 0 && s * n == 0) by (nonlinear_arith) requires s == 0;
    }
}

/// The ray from `(r, c)` along `d`, first hitting a piece `n` steps away, ends on a
/// square with every square between it and `(r, c)` empty.
proof fn lemma_ray_path(b: Seq<Seq<i8>>, r: int, c: int, d: (i8, i8), n: int)
    requires
        d.0 == 1 || d.0 == -1 || d.0 == 0,
        d.1 == 1 || d.1 == -1 || d.1 == 0,
        d.0 != 0 || d.1 != 0,
        1 <= n < 8,
        0 <= r < 8 && 0 <= c < 8,
        forall|j: int| 1 <= j < n ==> #[trigger] b[r + d.0 * j][c + d.1 * j] == 0,
    ensures
        path_clear(b, r, c, r + d.0 * n, c + d.1 * n),
        (d.0 * n == 0) == (d.0 == 0),
        (d.1 * n == 0) == (d.1 == 0),
        d.0 != 0 && d.1 != 0 ==> abs8((d.0 * n) as i8) == abs8((d.1 * n) as i8),
{
    let a = r + d.0 * n;
    let e = c + d.1 * n;
    lemma_unit_steps(r, d.0 as int, n, 0);
    lemma_unit_steps(c, d.1 as int, n, 0);
    assert(-7 <= d.0 * n <= 7 && -7 <= d.1 * n <= 7) by (nonlinear_arith)
        requires
            d.0 == 1 || d.0 == -1 || d.0 == 0,
            d.1 == 1 || d.1 == -1 || d.1 == 0,
            1 <= n < 8,
    ;
    assert(a - r == d.0 * n && e - c == d.1 * n);
    let steps = if abs8((a - r) as i8) > abs8((e - c) as i8) {
        abs8((a - r) as i8)
    } else {
        abs8((e - c) as i8)
    };
    assert(steps == n);
    assert forall|j: int| 0 < j < steps implies #[trigger] b[step_towards(r, a - r, j)][step_towards(c, e - c, j)]
        == 0 by {
        lemma_unit_steps(r, d.0 as int, n, j);
        lemma_unit_steps(c, d.1 as int, n, j);
        assert(b[r + d.0 * j][c + d.1 * j] == 0);
    }
}

/// A king of `player` on `(r, c)` (its first square on the board) is in check only
/// when some square holds a piece that attacks it (see `attacks_king`).
pub proof fn lemma_check_has_attacker(b: Seq<Seq<i8>>, player: i8, r: int, c: int)
    requires
        valid_board(b),
        is_side(player),
        king_square(b, (6 * player) as i8) == Some((r as usize, c as usize)),
        0 <= r < 8 && 0 <= c < 8,
        spec_in_check(b, player),
    ensures
        exists|a: int, e: int| 0 <= a < 8 && 0 <= e < 8 && #[trigger] attacks_king(b, player, r, c, a, e),
{
    let kp = (r as usize, c as usize);
    if spec_pawn_attack(player, kp, b) {
        let a = r + (if player == 1 { 1int } else { -1int });
        if c != 0 && b[a][c - 1] == -player {
            assert(attacks_king(b, player, r, c, a, c - 1));
        } else {
            assert(attacks_king(b, player, r, c, a, c + 1));
        }
    } else if spec_knight_attack(player, kp, b) {
        let k = lemma_knight_witness(b, r, c, -2 * player, 8);
        let a = r + knight_dirs()[k].0;
        let e = c + knight_dirs()[k].1;
        assert(attacks_king(b, player, r, c, a, e));
    } else if spec_rook_queen_attack(player, kp, b) {
        let targets = set![(-4 * player) as i8, (-5 * player) as i8];
        let k = lemma_any_ray_witness(b, r, c, targets, straight_dirs(), 4);
        let d = straight_dirs()[k];
        let n = lemma_ray_witness(b, r, c, targets, d, 1);
        lemma_ray_path(b, r, c, d, n);
        let a = r + d.0 * n;
        let e = c + d.1 * n;
        assert(attacks_king(b, player, r, c, a, e));
    } else {
        let targets = set![(-3 * player) as i8, (-5 * player) as i8];
        let k = lemma_any_ray_witness(b, r, c, targets, diagonal_dirs(), 4);
        let d = diagonal_dirs()[k];
        let n = lemma_ray_witness(b, r, c, targets, d, 1);
        lemma_ray_path(b, r, c, d, n);
        let a = r + d.0 * n;
        let e = c + d.1 * n;
        assert(attacks_king(b, player, r, c, a, e));
    }
}

/// A king of `player` on `(r, c)` (its first square on the board) is in check when
/// an opposing pawn stands diagonally in front of it: on row `r + 1` for white or
/// `r - 1` for black, in column `c - 1` or `c + 1`.
pub proof fn lemma_pawn_gives_check(b: Seq<Seq<i8>>, player: i8, r: int, c: int, pr: int, pc: int)
    requires
        valid_board(b),
        is_side(player),
        king_square(b, (6 * player) as i8) == Some((r as usize, c as usize)),
        0 <= r < 8 && 0 <= c < 8,
        pr == r + (if player == 1 {
            1int
        } else {
            -1int
        }),
        pc == c - 1 || pc == c + 1,
        0 <= pr < 8 && 0 <= pc < 8,
        b[pr][pc] == -player,
    ensures
        spec_in_check(b, player),
        crate::legal_moves::spec_in_check(b, player),
{
}

pub fn in_check(board: &Vec<Vec<i8>>, player: i8) -> (r: bool)
    requires
        valid_board(board.deep_view()),
        is_side(player),
        king_square(board.deep_view(), (6 * player) as i8) is Some,
    ensures
        r == spec_in_check(board.deep_view(), player),
{
    let king = 6 * player;
    let king_pos = find_king(king, board);

    if pawn_attack(player, king_pos, board) {
        true
    } else if knight_attack(player, king_pos, board) {
        true
    } else if rook_queen_attack(player, king_pos, board) {
        true
    } else if bishop_queen_attack(player, king_pos, board) {
        true
    } else {
        false
    }
}


// ---------------------------------------------------------------------------
// Playing a move
// ---------------------------------------------------------------------------

pub open spec fn set_cell(b: Seq<Seq<i8>>, r: int, c: int, v: i8) -> Seq<Seq<i8>> {
    b.update(r, b[r].update(c, v))
}

pub open spec fn abs8(x: i8) -> int {
    if x < 0 {
        -x
    } else {
        x as int
    }
}

/// First part of a move: a pawn moving diagonally onto an empty square takes en
/// passant (the square beside it, `(m[0], m[3])`, is emptied); a king moving two
/// columns castles (the rook from the corner of its row jumps next to it).
pub open spec fn spec_move_extras(b: Seq<Seq<i8>>, m: Seq<usize>) -> Seq<Seq<i8>> {
    let (r0, c0, r1, c1) = (m[0] as int, m[1] as int, m[2] as int, m[3] as int);
    let piece = b[r0][c0];
    if abs8(piece) == 1 && c0 != c1 && abs8(b[r1][c1]) == 0 {
        set_cell(b, r0, c1, 0)
    } else if abs8(piece) == 6 && (c0 - c1 == 2 || c1 - c0 == 2) {
        if c0 > c1 {
            set_cell(set_cell(b, r1, c1 + 1, b[r0][0]), r0, 0, 0)
        } else {
            set_cell(set_cell(b, r1, c1 - 1, b[r0][7]), r0, 7, 0)
        }
    } else {
        b
    }
}

/// The board after `m = [from row, from col, to row, to col, promote]`: en passant
/// and castling as in `spec_move_extras`, the piece moves, and a pawn arriving
/// with a nonzero `promote` is multiplied by it.
pub open spec fn spec_make_move(b: Seq<Seq<i8>>, m: Seq<usize>) -> Seq<Seq<i8>> {
    let (r0, c0, r1, c1) = (m[0] as int, m[1] as int, m[2] as int, m[3] as int);
    let b1 = spec_move_extras(b, m);
    let b2 = set_cell(set_cell(b1, r1, c1, b1[r0][c0]), r0, c0, 0);
    if abs8(b2[r1][c1]) == 1 && m[4] != 0 {
        set_cell(b2, r1, c1, (b2[r1][c1] * (m[4] as i8)) as i8)
    } else {
        b2
    }
}

/// `make_move` can run: the four squares are on the board, and a pawn move also
/// carries its promotion entry, which is not -128.
pub open spec fn make_move_ok(b: Seq<Seq<i8>>, m: Seq<usize>) -> bool {
    &&& m.len() >= 4
    &&& m[0] < 8 && m[1] < 8 && m[2] < 8 && m[3] < 8
    &&& abs8(b[m[0] as int][m[1] as int]) == 1 ==> m.len() >= 5 && (m[4] as i8) != -128
}

/// Playing a move on a valid board, square by square: the moved piece stands on
/// the target (a pawn arriving with a nonzero `promote` is multiplied by it), its
/// square is emptied; a king moving two columns brings the rook from its corner
/// next to it (the rook's corner is emptied unless the king lands there); a pawn
/// moving diagonally onto an empty square takes the piece beside it on its own
/// row; every other square keeps its piece.
pub proof fn lemma_make_move_squares(b: Seq<Seq<i8>>, m: Seq<usize>)
    requires
        valid_board(b),
        make_move_ok(b, m),
        (m[0], m[1]) != (m[2], m[3]),
    ensures
        ({
            let (r0, c0, r1, c1) = (m[0] as int, m[1] as int, m[2] as int, m[3] as int);
            let p = b[r0][c0];
            let nb = spec_make_move(b, m);
            let pawn = p == 1 || p == -1;
            let king_jump = (p == 6 || p == -6) && (c1 == c0 + 2 || c1 == c0 - 2);
            let en_passant = pawn && c0 != c1 && b[r1][c1] == 0;
            &&& nb.len() == 8 && forall|i: int| 0 <= i < 8 ==> #[trigger] nb[i].len() == 8
            &&& nb[r0][c0] == 0
            &&& nb[r1][c1] == (if pawn && m[4] != 0 { (p * (m[4] as i8)) as i8 } else { p })
            &&& en_passant && r0 != r1 ==> nb[r0][c1] == 0
            &&& king_jump && c1 > c0 ==> nb[r1][c1 - 1] == b[r0][7] && ((r1, c1) != (r0, 7int) ==> nb[r0][7] == 0)
            &&& king_jump && c1 < c0 ==> nb[r1][c1 + 1] == b[r0][0] && ((r1, c1) != (r0, 0int) ==> nb[r0][0] == 0)
            &&& forall|i: int, j: int|
                0 <= i < 8 && 0 <= j < 8 && (i, j) != (r0, c0) && (i, j) != (r1, c1) && !(en_passant && (i, j) == (
                    r0,
                    c1,
                )) && !(king_jump && ((i == r0 && (j == 0 || j == 7)) || (i == r1 && (j == c1 - 1 || j == c1 + 1))))
                    ==> #[trigger] nb[i][j] == b[i][j]
        }),
{
    let (r0, c0, r1, c1) = (m[0] as int, m[1] as int, m[2] as int, m[3] as int);
    assert(b[r0].len() == 8 && b[r1].len() == 8);
    let b1 = spec_move_extras(b, m);
    assert(b1.len() == 8 && forall|i: int| 0 <= i < 8 ==> #[trigger] b1[i].len() == 8) by {
        assert forall|i: int| 0 <= i < 8 implies #[trigger] b1[i].len() == 8 by {
            assert(b[i].len() == 8);
        }
    }
    let nb = spec_make_move(b, m);
    assert forall|i: int| 0 <= i < 8 implies #[trigger] nb[i].len() == 8 by {
        assert(b1[i].len() == 8);
    }
}

/// Plays `movee` on `board` (see `spec_make_move`) and takes its two squares out of
/// `castle_pieces`, the squares of the pieces that have not moved, each recorded
/// as `8 * row + column`.
pub fn make_move(movee: &Vec<usize>, board: &mut Vec<Vec<i8>>, castle_pieces: &mut HashSet<usize>)
    requires
        valid_board(old(board).deep_view()),
        make_move_ok(old(board).deep_view(), movee@),
    ensures
        final(board).deep_view() == spec_make_move(old(board).deep_view(), movee@),
        final(castle_pieces)@ == old(castle_pieces)@.remove((8 * movee@[0] + movee@[1]) as usize).remove(
            (8 * movee@[2] + movee@[3]) as usize,
        ),
{
    make_move_on_board(movee, board);
    castle_pieces.remove(&(8 * movee[0] + movee[1]));
    castle_pieces.remove(&(8 * movee[2] + movee[3]));
}

/// Plays `movee` on `board` (see `spec_make_move`).
fn make_move_on_board(movee: &Vec<usize>, board: &mut Vec<Vec<i8>>)
    requires
        valid_board(old(board).deep_view()),
        make_move_ok(old(board).deep_view(), movee@),
    ensures
        final(board).deep_view() == spec_make_move(old(board).deep_view(), movee@),
{
    let ghost b = board.deep_view();
    assert forall|i: int| 0 <= i < 8 implies #[trigger] board@[i]@.len() == 8 by {
        assert(b[i].len() == 8);
    }
    let m0 = movee[0];
    let m1 = movee[1];
    let m2 = movee[2];
    let m3 = movee[3];
    let p = board[m0][m1];
    let q = board[m2][m3];
    assert(q == b[m2 as int][m3 as int] && p == b[m0 as int][m1 as int]);
    let pa = if p < 0 { -p } else { p };
    let qa = if q < 0 { -q } else { q };
    let d = m1 as i8 - m3 as i8;
    let da = if d < 0 { -d } else { d };
    if pa == 1 && m1 != m3 && qa == 0 {  // En passant
        board[m0][m3] = 0;
    } else if pa == 6 && da == 2 {  // castle
        if m1 > m3 {
            let rook = board[m0][0];
            board[m2][m3 + 1] = rook;
            board[m0][0] = 0;
        } else {
            let rook = board[m0][7];
            board[m2][m3 - 1] = rook;
            board[m0][7] = 0;
        }
    }
    assert(board.deep_view() =~= spec_move_extras(b, movee@)) by {
        assert forall|i: int| 0 <= i < 8 implies #[trigger] board.deep_view()[i] =~= spec_move_extras(b, movee@)[i] by {}
    }
    let ghost b1 = board.deep_view();
    assert(b1[m0 as int][m1 as int] == p);
    let piece = board[m0][m1];
    board[m2][m3] = piece;
    board[m0][m1] = 0;
    let ghost b2 = set_cell(set_cell(b1, m2 as int, m3 as int, piece), m0 as int, m1 as int, 0);
    assert(board.deep_view() =~= b2) by {
        assert forall|i: int| 0 <= i < 8 implies #[trigger] board.deep_view()[i] =~= b2[i] by {}
    }
    let arrived = board[m2][m3];
    let aa = if arrived < 0 { -arrived } else { arrived };
    if aa == 1 && movee[4] != 0 {  // promote
        assert(piece == p);
        let f = movee[4] as i8;
        assert(-127 <= arrived * f <= 127) by (nonlinear_arith)
            requires
                arrived == 1 || arrived == -1,
                f != -128,
        ;
        board[m2][m3] = arrived * f;
        assert(board.deep_view() =~= spec_make_move(b, movee@)) by {
            assert forall|i: int| 0 <= i < 8 implies #[trigger] board.deep_view()[i] =~= spec_make_move(
                b,
                movee@,
            )[i] by {}
        }
    }
}


// ---------------------------------------------------------------------------
// Board cache
// ---------------------------------------------------------------------------

pub open spec fn mix(h: u64, x: i8) -> u64 {
    (h ^ (x as u8 as u64)).wrapping_mul(0x9E37_79B9_7F4A_7C15)
}

/// Hash of the first `n` squares (row-major) of an 8x8 board.
pub open spec fn board_hash(b: Seq<Seq<i8>>, n: int) -> u64
    decreases n,
{
    if n <= 0 {
        0
    } else {
        mix(board_hash(b, n - 1), b[(n - 1) / 8][(n - 1) % 8])
    }
}

pub open spec fn NUM_BUCKETS() -> int {
    65536
}

pub open spec fn spec_bucket(b: Seq<Seq<i8>>) -> int {
    (board_hash(b, 64) >> 48u64) as int
}

proof fn lemma_bucket_range(b: Seq<Seq<i8>>)
    ensures
        0 <= spec_bucket(b) < NUM_BUCKETS(),
{
    let h = board_hash(b, 64);
    assert(h >> 48u64 < 65536) by (bit_vector);
}

fn bucket_of(board: &Vec<Vec<i8>>) -> (r: usize)
    requires
        valid_board(board.deep_view()),
    ensures
        r == spec_bucket(board.deep_view()),
        r < NUM_BUCKETS(),
{
    let ghost b = board.deep_view();
    let mut h: u64 = 0;
    let mut i: usize = 0;
    while i < 8
        invariant
            b == board.deep_view(),
            valid_board(b),
            i <= 8,
            h == board_hash(b, 8 * i),
        decreases 8 - i,
    {
        let mut j: usize = 0;
        while j < 8
            invariant
                b == board.deep_view(),
                valid_board(b),
                i < 8,
                j <= 8,
                h == board_hash(b, 8 * i + j),
            decreases 8 - j,
        {
            assert(board@[i as int]@.len() == 8) by {
                assert(b[i as int].len() == 8);
            }
            assert((8 * i + j) / 8 == i as int && (8 * i + j) % 8 == j as int);
            h = (h ^ (board[i][j] as u8 as u64)).wrapping_mul(0x9E37_79B9_7F4A_7C15);
            j += 1;
        }
        i += 1;
    }
    assert(h >> 48u64 < 65536) by (bit_vector);
    (h >> 48u64) as usize
}

/// Two 8x8 boards hold the same codes.
fn same_board(a: &Vec<Vec<i8>>, b: &Vec<Vec<i8>>) -> (r: bool)
    requires
        valid_board(a.deep_view()),
        valid_board(b.deep_view()),
    ensures
        r == (a.deep_view() == b.deep_view()),
{
    let ghost av = a.deep_view();
    let ghost bv = b.deep_view();
    let mut i: usize = 0;
    while i < 8
        invariant
            av == a.deep_view(),
            bv == b.deep_view(),
            valid_board(av),
            valid_board(bv),
            i <= 8,
            forall|k: int| 0 <= k < i ==> #[trigger] av[k] == bv[k],
        decreases 8 - i,
    {
        assert(a@[i as int]@.len() == 8 && b@[i as int]@.len() == 8) by {
            assert(av[i as int].len() == 8 && bv[i as int].len() == 8);
        }
        let mut j: usize = 0;
        while j < 8
            invariant
                av == a.deep_view(),
                bv == b.deep_view(),
                valid_board(av),
                valid_board(bv),
                i < 8,
                j <= 8,
                a@[i as int]@.len() == 8 && b@[i as int]@.len() == 8,
                forall|k: int| 0 <= k < j ==> #[trigger] av[i as int][k] == bv[i as int][k],
            decreases 8 - j,
        {
            if a[i][j] != b[i][j] {
                assert(av[i as int][j as int] != bv[i as int][j as int]);
                return false;
            }
            j += 1;
        }
        assert(av[i as int] =~= bv[i as int]);
        i += 1;
    }
    assert(av =~= bv);
    true
}

pub open spec fn entries_view(s: Seq<(Vec<Vec<i8>>, i32)>) -> Seq<(Seq<Seq<i8>>, i32)> {
    s.map_values(|e: (Vec<Vec<i8>>, i32)| (e.0.deep_view(), e.1))
}

/// The value stored for `k` in a bucket: that of its first entry with board `k`.
pub open spec fn lookup(s: Seq<(Seq<Seq<i8>>, i32)>, k: Seq<Seq<i8>>) -> Option<i32>
    decreases s.len(),
{
    if s.len() == 0 {
        None
    } else if s[0].0 == k {
        Some(s[0].1)
    } else {
        lookup(s.drop_first(), k)
    }
}

proof fn lemma_lookup_store(
    s: Seq<(Seq<Seq<i8>>, i32)>,
    s2: Seq<(Seq<Seq<i8>>, i32)>,
    j: int,
    k: Seq<Seq<i8>>,
    v: i32,
)
    requires
        0 <= j <= s.len(),
        forall|i: int| 0 <= i < j ==> (#[trigger] s[i]).0 != k,
        j < s.len() ==> s[j].0 == k && s2 == s.update(j, (k, v)),
        j == s.len() ==> s2 == s.push((k, v)),
    ensures
        lookup(s2, k) == Some(v),
        forall|k2: Seq<Seq<i8>>| k2 != k ==> #[trigger] lookup(s2, k2) == lookup(s, k2),
    decreases j,
{
    if j > 0 {
        let t = s.drop_first();
        let t2 = s2.drop_first();
        if j < s.len() {
            assert(t2 =~= t.update(j - 1, (k, v)));
        } else {
            assert(t2 =~= t.push((k, v)));
        }
        assert forall|i: int| 0 <= i < j - 1 implies (#[trigger] t[i]).0 != k by {
            assert(t[i] == s[i + 1]);
        }
        lemma_lookup_store(t, t2, j - 1, k, v);
        assert(s2[0] == s[0]);
        assert(s[0].0 != k);
        assert forall|k2: Seq<Seq<i8>>| k2 != k implies #[trigger] lookup(s2, k2) == lookup(s, k2) by {
            assert(lookup(t2, k2) == lookup(t, k2));
        }
    } else {
        let t = if s.len() > 0 {
            s.drop_first()
        } else {
            s
        };
        let t2 = s2.drop_first();
        assert(s2[0] == (k, v));
        if j < s.len() {
            assert(t2 =~= t);
        } else {
            assert(t2 =~= Seq::<(Seq<Seq<i8>>, i32)>::empty());
        }
        assert(s2.len() > 0);
        assert forall|k2: Seq<Seq<i8>>| k2 != k implies #[trigger] lookup(s2, k2) == lookup(s, k2) by {
            assert(lookup(s2, k2) == lookup(t2, k2));
            if j < s.len() {
                assert(s[0].0 == k);
                assert(lookup(s, k2) == lookup(t, k2));
            } else {
                assert(lookup(t2, k2) == None::<i32>);
                assert(s.len() == 0);
            }
        }
    }
}

/// Values found for boards already searched, keyed by board.
pub struct BotCache {
    buckets: Vec<Vec<(Vec<Vec<i8>>, i32)>>,
}

impl View for BotCache {
    type V = Map<Seq<Seq<i8>>, i32>;

    open spec fn view(&self) -> Map<Seq<Seq<i8>>, i32> {
        self.contents()
    }
}

impl BotCache {
    pub closed spec fn wf(&self) -> bool {
        &&& self.buckets@.len() == NUM_BUCKETS()
        &&& forall|h: int, j: int|
            0 <= h < NUM_BUCKETS() && 0 <= j < self.buckets@[h]@.len() ==> valid_board(
                (#[trigger] self.buckets@[h]@[j]).0.deep_view(),
            )
    }

    pub closed spec fn bucket(&self, k: Seq<Seq<i8>>) -> Seq<(Seq<Seq<i8>>, i32)> {
        entries_view(self.buckets@[spec_bucket(k)]@)
    }

    /// The cached value of each position.
    pub closed spec fn contents(&self) -> Map<Seq<Seq<i8>>, i32> {
        Map::new(|k: Seq<Seq<i8>>| lookup(self.bucket(k), k) is Some, |k: Seq<Seq<i8>>| lookup(self.bucket(k), k)->0)
    }

    pub fn new() -> (r: BotCache)
        ensures
            r.wf(),
            r@ == Map::<Seq<Seq<i8>>, i32>::empty(),
    {
        let mut buckets: Vec<Vec<(Vec<Vec<i8>>, i32)>> = Vec::new();
        let mut i: usize = 0;
        while i < 65536
            invariant
                i <= 65536,
                buckets@.len() == i,
                forall|j: int| 0 <= j < i ==> (#[trigger] buckets@[j])@.len() == 0,
            decreases 65536 - i,
        {
            buckets.push(Vec::new());
            i += 1;
        }
        let r = BotCache { buckets };
        assert(r@ =~= Map::<Seq<Seq<i8>>, i32>::empty()) by {
            assert forall|k: Seq<Seq<i8>>| !(#[trigger] r@.contains_key(k)) by {
                lemma_bucket_range(k);
                assert(r.bucket(k).len() == 0);
            }
        }
        r
    }

    /// The stored value for `k`, if any.
    pub fn get(&self, k: &Vec<Vec<i8>>) -> (r: Option<i32>)
        requires
            self.wf(),
            valid_board(k.deep_view()),
        ensures
            r == (if self@.contains_key(k.deep_view()) {
                Some(self@[k.deep_view()])
            } else {
                None
            }),
    {
        let h = bucket_of(k);
        let bucket = &self.buckets[h];
        let ghost s = entries_view(bucket@);
        let ghost kv = k.deep_view();
        assert(s.skip(0) =~= s);
        let mut j: usize = 0;
        while j < bucket.len()
            invariant
                self.wf(),
                h < NUM_BUCKETS(),
                bucket@ == self.buckets@[h as int]@,
                s == entries_view(bucket@),
                s == self.bucket(kv),
                kv == k.deep_view(),
                valid_board(kv),
                j <= s.len(),
                lookup(s, kv) == lookup(s.skip(j as int), kv),
            decreases s.len() - j,
        {
            assert(s.skip(j as int).drop_first() =~= s.skip(j + 1));
            assert(valid_board(bucket@[j as int].0.deep_view()));
            if same_board(&bucket[j].0, k) {
                return Some(bucket[j].1);
            }
            j += 1;
        }
        None
    }

    /// Stores `v` for `k`, replacing an earlier value.
    pub fn insert(&mut self, k: Vec<Vec<i8>>, v: i32)
        requires
            old(self).wf(),
            valid_board(k.deep_view()),
        ensures
            final(self).wf(),
            final(self)@ == old(self)@.insert(k.deep_view(), v),
    {
        let ghost kv = k.deep_view();
        let h = bucket_of(&k);
        let ghost raw = self.buckets@[h as int]@;
        let ghost s = entries_view(raw);
        let mut j: usize = 0;
        let n = self.buckets[h].len();
        while j < n
            invariant
                self.buckets == old(self).buckets,
                old(self).wf(),
                h == spec_bucket(kv),
                h < NUM_BUCKETS(),
                kv == k.deep_view(),
                valid_board(kv),
                raw == self.buckets@[h as int]@,
                s == entries_view(raw),
                n == s.len(),
                j <= n,
                forall|i: int| 0 <= i < j ==> (#[trigger] s[i]).0 != kv,
            ensures
                j <= n,
                j < n ==> s[j as int].0 == kv,
                forall|i: int| 0 <= i < j ==> (#[trigger] s[i]).0 != kv,
            decreases n - j,
        {
            assert(valid_board(raw[j as int].0.deep_view()));
            if same_board(&self.buckets[h][j].0, &k) {
                break;
            }
            j += 1;
        }
        if j < n {
            self.buckets[h][j] = (k, v);
        } else {
            self.buckets[h].push((k, v));
        }
        proof {
            let raw2 = self.buckets@[h as int]@;
            let s2 = entries_view(raw2);
            assert(self.buckets@.len() == old(self).buckets@.len());
            assert(forall|i: int|
                0 <= i < NUM_BUCKETS() && i != h ==> #[trigger] self.buckets@[i] == old(self).buckets@[i]);
            if j < n {
                assert(raw2 =~= raw.update(j as int, (k, v)));
                assert(s2 =~= s.update(j as int, (kv, v)));
            } else {
                assert(raw2 =~= raw.push((k, v)));
                assert(s2 =~= s.push((kv, v)));
            }
            lemma_lookup_store(s, s2, j as int, kv, v);
            assert forall|k2: Seq<Seq<i8>>| k2 != kv implies #[trigger] lookup(self.bucket(k2), k2) == lookup(
                old(self).bucket(k2),
                k2,
            ) by {
                lemma_bucket_range(k2);
            }
            assert(self@ =~= old(self)@.insert(kv, v));
            assert forall|hh: int, jj: int|
                0 <= hh < NUM_BUCKETS() && 0 <= jj < self.buckets@[hh]@.len() implies valid_board(
                (#[trigger] self.buckets@[hh]@[jj]).0.deep_view(),
            ) by {
                if hh != h {
                    assert(self.buckets@[hh] == old(self).buckets@[hh]);
                } else if jj == j {
                } else {
                    assert(self.buckets@[hh]@[jj] == raw[jj]);
                }
            }
        }
    }
}


// ---------------------------------------------------------------------------
// Alpha-beta search
// ---------------------------------------------------------------------------

/// The search plays `m`: a pawn move panics here, since the generated moves have
/// no promotion entry and `make_move` reads it for pawns.
pub open spec fn plays_pawn(b: Seq<Seq<i8>>, m: Seq<usize>) -> bool {
    abs8(b[m[0] as int][m[1] as int]) == 1
}

/// Alpha-beta search of board `b` with `turn` to move (1 maximises, -1 minimises),
/// `depth` plies deep, window `(alpha, beta)`, previous boards `h`, and a cache of
/// values by board. `None` where the search stops on an error (a pawn move, a
/// pawn that cannot be moved, or a missing king when there is no move);
/// otherwise the value and the cache afterwards:
///  - at depth 0 the material score; a cached board gives its cached value;
///  - no moves: -10000 * turn when `turn` is in check, else 0;
///  - otherwise the moves are searched in generation order (see
///    `bot_search_moves`) and the final alpha (turn 1) or beta is stored for `b`.
pub open spec fn bot_search(
    b: Seq<Seq<i8>>,
    cache: Map<Seq<Seq<i8>>, i32>,
    alpha: i32,
    beta: i32,
    turn: i8,
    depth: i32,
    h: Seq<Seq<Seq<i8>>>,
) -> Option<(i32, Map<Seq<Seq<i8>>, i32>)>
    decreases depth, 1int, 0int,
{
    if depth == 0 {
        Some((spec_score(b) as i32, cache))
    } else if cache.contains_key(b) {
        Some((cache[b], cache))
    } else if !pieces_ok(b, h, turn) {
        None
    } else {
        let moves = spec_all_legal_moves(b, h, turn);
        if moves.len() == 0 {
            if king_square(b, (6 * turn) as i8) is None {
                None
            } else if spec_in_check(b, turn) {
                Some(((-10000 * turn) as i32, cache))
            } else {
                Some((0, cache))
            }
        } else if depth < 0 {
            None
        } else {
            match bot_search_moves(b, moves, 0, cache, alpha, beta, turn, depth) {
                None => None,
                Some((a, bt, c)) => if turn == 1 {
                    Some((a, c.insert(b, a)))
                } else {
                    Some((bt, c.insert(b, bt)))
                },
            }
        }
    }
}

/// The search over `moves[i..]`: each move is played and searched one ply less
/// deep by the other side (with `b` as the previous board); a higher value raises
/// alpha (turn 1), a lower one lowers beta (turn -1); it stops once alpha >= beta.
pub open spec fn bot_search_moves(
    b: Seq<Seq<i8>>,
    moves: Seq<Seq<usize>>,
    i: int,
    cache: Map<Seq<Seq<i8>>, i32>,
    alpha: i32,
    beta: i32,
    turn: i8,
    depth: i32,
) -> Option<(i32, i32, Map<Seq<Seq<i8>>, i32>)>
    decreases depth, 0int, moves.len() - i,
{
    if i < 0 || i >= moves.len() || depth <= 0 {
        Some((alpha, beta, cache))
    } else if plays_pawn(b, moves[i]) {
        None
    } else {
        match bot_search(
            spec_make_move(b, moves[i]),
            cache,
            alpha,
            beta,
            (-turn) as i8,
            (depth - 1) as i32,
            seq![b],
        ) {
            None => None,
            Some((value, c2)) => {
                let a2 = if turn == 1 && value > alpha {
                    value
                } else {
                    alpha
                };
                let b2 = if turn != 1 && value < beta {
                    value
                } else {
                    beta
                };
                if a2 >= b2 {
                    Some((a2, b2, c2))
                } else {
                    bot_search_moves(b, moves, i + 1, c2, a2, b2, turn, depth)
                }
            },
        }
    }
}

/// A side to move without a move is checkmated when it is in check, and its
/// search value is then a loss for it: -10000 for white (below every material
/// score), 10000 for black; when it is not in check (stalemate) the value is 0.
/// This holds at every depth but 0, for a board not yet in the cache (which is
/// left as it was).
pub proof fn lemma_no_move_value(
    b: Seq<Seq<i8>>,
    h: Seq<Seq<Seq<i8>>>,
    cache: Map<Seq<Seq<i8>>, i32>,
    alpha: i32,
    beta: i32,
    turn: i8,
    depth: i32,
)
    requires
        valid_board(b),
        is_side(turn),
        depth != 0,
        !cache.contains_key(b),
        pieces_ok(b, h, turn),
        spec_all_legal_moves(b, h, turn).len() == 0,
        king_square(b, (6 * turn) as i8) is Some,
    ensures
        spec_in_check(b, turn) && turn == 1 ==> bot_search(b, cache, alpha, beta, turn, depth, h) == Some(
            (-10000i32, cache),
        ),
        spec_in_check(b, turn) && turn == -1 ==> bot_search(b, cache, alpha, beta, turn, depth, h) == Some(
            (10000i32, cache),
        ),
        !spec_in_check(b, turn) ==> bot_search(b, cache, alpha, beta, turn, depth, h) == Some((0i32, cache)),
        spec_in_check(b, turn) && turn == 1 ==> forall|x: Seq<Seq<i8>>|
            valid_board(x) ==> (bot_search(b, cache, alpha, beta, turn, depth, h)->0).0 < #[trigger] spec_score(x),
{
    assert forall|x: Seq<Seq<i8>>| valid_board(x) implies -10000 < #[trigger] spec_score(x) by {
        lemma_score_bound(x);
    }
}

/// A move that is not a pawn move keeps an 8x8 board of codes in -6..=6.
pub proof fn lemma_make_move_valid(b: Seq<Seq<i8>>, player: i8, m: Seq<usize>)
    requires
        valid_board(b),
        move_shape(b, player, m),
        !plays_pawn(b, m),
    ensures
        valid_board(spec_make_move(b, m)),
        make_move_ok(b, m),
{
    let (r0, c0, r1, c1) = (m[0] as int, m[1] as int, m[2] as int, m[3] as int);
    let b1 = spec_move_extras(b, m);
    assert(valid_board(b1)) by {
        assert forall|i: int| 0 <= i < 8 implies #[trigger] b1[i].len() == 8 by {}
        assert forall|i: int, j: int| 0 <= i < 8 && 0 <= j < 8 implies -6 <= #[trigger] b1[i][j] <= 6 by {}
    }
    assert(b1[r0][c0] == b[r0][c0]);
    let b2 = set_cell(set_cell(b1, r1, c1, b1[r0][c0]), r0, c0, 0);
    assert(valid_board(b2)) by {
        assert forall|i: int| 0 <= i < 8 implies #[trigger] b2[i].len() == 8 by {}
        assert forall|i: int, j: int| 0 <= i < 8 && 0 <= j < 8 implies -6 <= #[trigger] b2[i][j] <= 6 by {}
    }
    assert(b2[r1][c1] == b[r0][c0] || b2[r1][c1] == 0);
}

pub fn alpha_beta(
    board: &Vec<Vec<i8>>,
    alpha: i32,
    beta: i32,
    turn: i8,
    depth: i32,
    board_history: &Vec<Vec<Vec<i8>>>,
    hm: &mut BotCache,
) -> (r: i32)
    requires
        old(hm).wf(),
        valid_board(board.deep_view()),
        is_side(turn),
        bot_search(board.deep_view(), old(hm)@, alpha, beta, turn, depth, board_history.deep_view()) is Some,
    ensures
        final(hm).wf(),
        (r, final(hm)@) == bot_search(board.deep_view(), old(hm)@, alpha, beta, turn, depth, board_history.deep_view())->0,
{
    let r = try_alpha_beta(board, alpha, beta, turn, depth, board_history, hm);
    r.unwrap()
}

/// The search of `alpha_beta`, or `None` exactly where it stops on an error (see
/// `bot_search`): a pawn move to play, a pawn that cannot be moved, a missing king
/// when there is no move, or moves to play below depth 0.
pub fn try_alpha_beta(
    board: &Vec<Vec<i8>>,
    alpha: i32,
    beta: i32,
    turn: i8,
    depth: i32,
    board_history: &Vec<Vec<Vec<i8>>>,
    hm: &mut BotCache,
) -> (r: Option<i32>)
    requires
        old(hm).wf(),
        valid_board(board.deep_view()),
        is_side(turn),
    ensures
        final(hm).wf(),
        r is Some <==> bot_search(board.deep_view(), old(hm)@, alpha, beta, turn, depth, board_history.deep_view()) is Some,
        r is Some ==> (r->0, final(hm)@) == bot_search(
            board.deep_view(),
            old(hm)@,
            alpha,
            beta,
            turn,
            depth,
            board_history.deep_view(),
        )->0,
    decreases depth,
{
    let ghost b = board.deep_view();
    let ghost h = board_history.deep_view();
    let mut alpha = alpha;
    let mut beta = beta;
    if depth == 0 {
        proof {
            lemma_score_bound(b);
            lemma_score_fits(b);
        }
        return Some(score(board));
    }
    if let Some(v) = hm.get(board) {
        return Some(v);
    }
    if !pieces_movable(board, board_history, turn) {
        return None;
    }
    let alm = get_all_legal_moves(board, copy_history(board_history), turn);
    if alm.len() == 0 {
        if !has_king(6 * turn, board) {
            return None;
        }
        if in_check(board, turn) {
            return Some(10000 * turn as i32 * -1);
        }
        return Some(0);
    }
    if depth < 0 {
        return None;
    }
    proof {
        lemma_moves_shaped(b, h, turn);
    }
    let new_board_history = vec![copy_board(board)];
    assert(new_board_history.deep_view() =~= seq![b]);
    let ghost moves = alm.deep_view();
    let ghost cache0 = hm@;
    let ghost alpha0 = alpha;
    let ghost beta0 = beta;
    let ghost total = bot_search_moves(b, moves, 0, cache0, alpha0, beta0, turn, depth);
    let mut failed = false;
    let mut i: usize = 0;
    while i < alm.len()
        invariant_except_break
            bot_search_moves(b, moves, i as int, hm@, alpha, beta, turn, depth) == total,
            !failed,
        invariant
            b == board.deep_view(),
            valid_board(b),
            is_side(turn),
            depth > 0,
            moves == alm.deep_view(),
            all_shaped(b, turn, moves),
            new_board_history.deep_view() == seq![b],
            hm.wf(),
            i <= alm.len(),
        ensures
            failed ==> total is None,
            !failed ==> total == Some((alpha, beta, hm@)),
        decreases alm.len() - i,
    {
        let ghost cache_i = hm@;
        let ghost alpha_i = alpha;
        let ghost beta_i = beta;
        let lm = &alm[i];
        assert(lm@ == moves[i as int]);
        assert(move_shape(b, turn, moves[i as int]));
        let piece = board[lm[0]][lm[1]];
        if piece == 1 || piece == -1 {
            failed = true;
            break;
        }
        let mut new_board = copy_board(board);
        proof {
            lemma_make_move_valid(b, turn, moves[i as int]);
        }
        // no move generator here reads the squares of unmoved pieces, so each
        // move is played with a set of its own
        let mut new_castle_pieces: HashSet<usize> = HashSet::new();
        make_move(lm, &mut new_board, &mut new_castle_pieces);
        let found = try_alpha_beta(&new_board, alpha, beta, -turn, depth - 1, &new_board_history, hm);
        if found.is_none() {
            failed = true;
            break;
        }
        let value = found.unwrap();

        if turn == 1 {
            if value > alpha {
                alpha = value;
            }
        } else {
            if value < beta {
                beta = value;
            }
        }
        if alpha >= beta {
            break;
        }
        i += 1;
    }
    if failed {
        return None;
    }
    if turn == 1 {
        hm.insert(copy_board(board), alpha);
        Some(alpha)
    } else {
        hm.insert(copy_board(board), beta);
        Some(beta)
    }
}


// ---------------------------------------------------------------------------
// Choosing a move
// ---------------------------------------------------------------------------

/// The root of the search on `b` (white to move): each move in turn is played and
/// searched by black 4 plies deep with window `(alpha, 10000)`, sharing one cache;
/// a move whose value beats alpha becomes the best move and raises alpha.
/// `None` where a pawn move or an error of the search stops it.
pub open spec fn bot_root(
    b: Seq<Seq<i8>>,
    moves: Seq<Seq<usize>>,
    i: int,
    cache: Map<Seq<Seq<i8>>, i32>,
    alpha: i32,
    best: Seq<usize>,
) -> Option<Seq<usize>>
    decreases moves.len() - i,
{
    if i < 0 || i >= moves.len() {
        Some(best)
    } else if plays_pawn(b, moves[i]) {
        None
    } else {
        match bot_search(spec_make_move(b, moves[i]), cache, alpha, 10000, -1i8, 4, seq![b]) {
            None => None,
            Some((a, c2)) => if a > alpha {
                bot_root(b, moves, i + 1, c2, a, moves[i])
            } else {
                bot_root(b, moves, i + 1, c2, alpha, best)
            },
        }
    }
}

/// The previous board as the side to move sees it, if there is one.
pub open spec fn root_history(h: Seq<Seq<Seq<i8>>>, player: i8) -> Seq<Seq<Seq<i8>>> {
    if h.len() == 0 {
        seq![]
    } else {
        seq![spec_prep_board(h.last(), player)]
    }
}

/// The move of the engine for `player`: the board is seen from `player`
/// (`spec_prep_board`), searched from the root, and the rows of the chosen move
/// `[from row, from col, to row, to col]` are turned back for black (-1).
/// `None` where the engine cannot run (see `bot_root`, a pawn that cannot
/// be moved, or no move found for black).
pub open spec fn spec_bot_run(board: Seq<Seq<i8>>, h: Seq<Seq<Seq<i8>>>, player: i8) -> Option<Seq<usize>> {
    let b = spec_prep_board(board, player);
    let bh = root_history(h, player);
    if !pieces_ok(b, bh, 1) {
        None
    } else {
        match bot_root(b, spec_all_legal_moves(b, bh, 1), 0, Map::empty(), -10000i32, seq![]) {
            None => None,
            Some(best) => if player == -1 {
                if best.len() < 3 {
                    None
                } else {
                    Some(best.update(0, (7 - best[0]) as usize).update(2, (7 - best[2]) as usize))
                }
            } else {
                Some(best)
            },
        }
    }
}

/// Seeing a valid board from either side gives a valid board.
pub proof fn lemma_prep_valid(b: Seq<Seq<i8>>, player: i8)
    requires
        valid_board(b),
    ensures
        valid_board(spec_prep_board(b, player)),
        negatable(b),
{
    let p = spec_prep_board(b, player);
    if player != 1 {
        assert forall|i: int| 0 <= i < 8 implies #[trigger] p[i].len() == 8 by {
            assert(b[7 - i].len() == 8);
        }
        assert forall|i: int, j: int| 0 <= i < 8 && 0 <= j < 8 implies -6 <= #[trigger] p[i][j] <= 6 by {
            assert(-6 <= b[7 - i][j] <= 6);
        }
    }
}

/// The move of the engine for `player` (see `spec_bot_run`). `castle_pieces` is not
/// read: the move generation here has no castling.
pub fn run(
    board: &Vec<Vec<i8>>,
    board_history: &Vec<Vec<Vec<i8>>>,
    player: i8,
    castle_pieces: &HashSet<usize>,
) -> (best_move: Vec<usize>)
    requires
        valid_board(board.deep_view()),
        board_history.len() > 0 && player != 1 ==> negatable(board_history.deep_view().last()),
        spec_bot_run(board.deep_view(), board_history.deep_view(), player) is Some,
    ensures
        best_move@ == spec_bot_run(board.deep_view(), board_history.deep_view(), player)->0,
{
    let r = try_run(board, board_history, player, castle_pieces);
    r.unwrap()
}

/// The move of the engine for `player`, or `None` exactly where the engine stops
/// on an error (see `spec_bot_run`).
pub fn try_run(
    board: &Vec<Vec<i8>>,
    board_history: &Vec<Vec<Vec<i8>>>,
    player: i8,
    castle_pieces: &HashSet<usize>,
) -> (best_move: Option<Vec<usize>>)
    requires
        valid_board(board.deep_view()),
        board_history.len() > 0 && player != 1 ==> negatable(board_history.deep_view().last()),
    ensures
        best_move is Some <==> spec_bot_run(board.deep_view(), board_history.deep_view(), player) is Some,
        best_move is Some ==> best_move->0@ == spec_bot_run(board.deep_view(), board_history.deep_view(), player)->0,
{
    let ghost bd = board.deep_view();
    let ghost hd = board_history.deep_view();
    proof {
        lemma_prep_valid(bd, player);
    }
    let mut best_move: Vec<usize> = Vec::new();
    let board = prep_board(board, player);
    let bh;
    if board_history.len() == 0 {
        bh = vec![];
        assert(bh.deep_view() =~= root_history(hd, player));
    } else {
        let last = &board_history[board_history.len() - 1];
        assert(last.deep_view() == hd.last());
        let p = prep_board(last, player);
        let ghost pv = p.deep_view();
        bh = vec![p];
        assert(bh.deep_view() =~= seq![pv]);
        assert(bh.deep_view() =~= root_history(hd, player));
    }
    let ghost b = board.deep_view();
    let ghost bhv = bh.deep_view();
    if !pieces_movable(&board, &bh, 1) {
        return None;
    }
    let alm = get_all_legal_moves(&board, bh, 1);
    proof {
        lemma_moves_shaped(b, bhv, 1);
    }

    let mut alpha: i32 = -10000;
    let beta: i32 = 10000;
    let mut hm = BotCache::new();
    let new_board_history = vec![copy_board(&board)];
    assert(new_board_history.deep_view() =~= seq![b]);
    let ghost moves = alm.deep_view();
    let ghost total = bot_root(b, moves, 0, Map::empty(), -10000i32, seq![]);
    assert(best_move@ =~= Seq::<usize>::empty());
    let mut failed = false;
    let mut i: usize = 0;
    while i < alm.len()
        invariant_except_break
            bot_root(b, moves, i as int, hm@, alpha, best_move@) == total,
            !failed,
        invariant
            b == board.deep_view(),
            valid_board(b),
            moves == alm.deep_view(),
            all_shaped(b, 1, moves),
            new_board_history.deep_view() == seq![b],
            beta == 10000,
            hm.wf(),
            i <= alm.len(),
        ensures
            failed ==> total is None,
            !failed ==> total == Some(best_move@),
        decreases alm.len() - i,
    {
        let lm = &alm[i];
        assert(lm@ == moves[i as int]);
        assert(move_shape(b, 1, moves[i as int]));
        let piece = board[lm[0]][lm[1]];
        if piece == 1 || piece == -1 {
            failed = true;
            break;
        }
        let mut new_board = copy_board(&board);
        proof {
            lemma_make_move_valid(b, 1, moves[i as int]);
        }
        // no move generator here reads the squares of unmoved pieces, so each
        // move is played with a set of its own
        let mut new_castle_pieces: HashSet<usize> = HashSet::new();
        make_move(lm, &mut new_board, &mut new_castle_pieces);
        let found = try_alpha_beta(&new_board, alpha, beta, -1, 4, &new_board_history, &mut hm);
        if found.is_none() {
            failed = true;
            break;
        }
        let a = found.unwrap();

        if a > alpha {
            alpha = a;
            best_move = lm.clone();
            assert(best_move@ =~= moves[i as int]);
        }
        i += 1;
    }
    if failed {
        return None;
    }
    assert(total == Some(best_move@));
    if player == -1 {
        if best_move.len() < 3 {
            return None;
        }
        assert(best_move@.len() == 0 || move_shape(b, 1, best_move@)) by {
            lemma_root_best_shaped(b, moves, 0, Map::empty(), -10000i32, seq![]);
        }
        let r0 = best_move[0];
        let r2 = best_move[2];
        best_move.set(0, 7 - r0);
        best_move.set(2, 7 - r2);
    }
    Some(best_move)
}

/// The root returns its starting best move or one of the moves.
proof fn lemma_root_best_shaped(
    b: Seq<Seq<i8>>,
    moves: Seq<Seq<usize>>,
    i: int,
    cache: Map<Seq<Seq<i8>>, i32>,
    alpha: i32,
    best: Seq<usize>,
)
    requires
        0 <= i,
        all_shaped(b, 1, moves),
        best.len() == 0 || move_shape(b, 1, best),
        bot_root(b, moves, i, cache, alpha, best) is Some,
    ensures
        ({
            let r = bot_root(b, moves, i, cache, alpha, best)->0;
            r.len() == 0 || move_shape(b, 1, r)
        }),
    decreases moves.len() - i,
{
    if i < moves.len() && !plays_pawn(b, moves[i]) {
        let next = spec_make_move(b, moves[i]);
        let (a, c2) = bot_search(next, cache, alpha, 10000, -1i8, 4, seq![b])->0;
        assert(move_shape(b, 1, moves[i]));
        if a > alpha {
            lemma_root_best_shaped(b, moves, i + 1, c2, a, moves[i]);
        } else {
            lemma_root_best_shaped(b, moves, i + 1, c2, alpha, best);
        }
    }
}

/// The root returns its starting best move or one of the moves from `i` on.
proof fn lemma_root_picks(
    b: Seq<Seq<i8>>,
    moves: Seq<Seq<usize>>,
    i: int,
    cache: Map<Seq<Seq<i8>>, i32>,
    alpha: i32,
    best: Seq<usize>,
)
    requires
        0 <= i,
        bot_root(b, moves, i, cache, alpha, best) is Some,
    ensures
        ({
            let r = bot_root(b, moves, i, cache, alpha, best)->0;
            r == best || exists|j: int| i <= j < moves.len() && r == moves[j]
        }),
    decreases moves.len() - i,
{
    if i < moves.len() && !plays_pawn(b, moves[i]) {
        let next = spec_make_move(b, moves[i]);
        let (a, c2) = bot_search(next, cache, alpha, 10000, -1i8, 4, seq![b])->0;
        if a > alpha {
            lemma_root_picks(b, moves, i + 1, c2, a, moves[i]);
        } else {
            lemma_root_picks(b, moves, i + 1, c2, alpha, best);
        }
    }
}

/// The move the engine gives is one of the moves generated for the board as the
/// side to move sees it (rows turned back for black), or, for white, no move when
/// no move beats the worst value.
pub proof fn lemma_bot_plays_a_move(board: Seq<Seq<i8>>, h: Seq<Seq<Seq<i8>>>, player: i8)
    requires
        spec_bot_run(board, h, player) is Some,
    ensures
        ({
            let m = spec_bot_run(board, h, player)->0;
            let all = spec_all_legal_moves(spec_prep_board(board, player), root_history(h, player), 1);
            ||| m.len() == 0
            ||| exists|k: int|
                0 <= k < all.len() && m == if player == -1 {
                    (#[trigger] all[k]).update(0, (7 - all[k][0]) as usize).update(2, (7 - all[k][2]) as usize)
                } else {
                    all[k]
                }
        }),
{
    let b = spec_prep_board(board, player);
    let all = spec_all_legal_moves(b, root_history(h, player), 1);
    lemma_root_picks(b, all, 0, Map::empty(), -10000i32, seq![]);
    let best = bot_root(b, all, 0, Map::empty(), -10000i32, seq![])->0;
    if best.len() != 0 {
        let k = choose|j: int| 0 <= j < all.len() && best == all[j];
        assert(all[k] == best);
    }
}

} // verus!
