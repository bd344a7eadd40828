use vstd::prelude::*;

use crate::players::bot;
use crate::players::bot::{first_square_of, king_square, lemma_first_square_some};

verus! {

/// An 8x8 board of piece codes in -6..=6 (0 empty, 1 pawn, 2 knight, 3 bishop,
/// 4 rook, 5 queen, 6 king; positive white, negative black).
pub open spec fn valid_board(b: Seq<Seq<i8>>) -> bool {
    &&& b.len() == 8
    &&& forall|i: int| 0 <= i < 8 ==> #[trigger] b[i].len() == 8
    &&& forall|i: int, j: int| 0 <= i < 8 && 0 <= j < 8 ==> -6 <= #[trigger] b[i][j] <= 6
}

/// A side: 1 (white) or -1 (black).
pub open spec fn is_side(player: i8) -> bool {
    player == 1 || player == -1
}

/// Square `(i, j)` holds a piece of `player`.
pub open spec fn own(b: Seq<Seq<i8>>, i: int, j: int, player: i8) -> bool {
    b[i][j] * player > 0
}

pub open spec fn on_board(i: int, j: int) -> bool {
    0 <= i <= 7 && 0 <= j <= 7
}

/// The board after the piece on `(r, c)` moves to `(t0, t1)`, nothing else changing.
pub open spec fn board_after(b: Seq<Seq<i8>>, r: int, c: int, t0: int, t1: int) -> Seq<Seq<i8>> {
    let b1 = b.update(t0, b[t0].update(t1, b[r][c]));
    b1.update(r, b1[r].update(c, 0))
}

/// The moves `[r, c, t.0, t.1]` to the first `n` targets `t`, in order, without those
/// after which `player` is in check.
pub open spec fn legal_to(b: Seq<Seq<i8>>, r: int, c: int, player: i8, targets: Seq<(usize, usize)>, n: int) -> Seq<
    Seq<usize>,
>
    decreases n,
{
    if n <= 0 {
        seq![]
    } else {
        let t = targets[n - 1];
        legal_to(b, r, c, player, targets, n - 1) + if !spec_in_check(
            board_after(b, r, c, t.0 as int, t.1 as int),
            player,
        ) {
            seq![seq![r as usize, c as usize, t.0, t.1]]
        } else {
            seq![]
        }
    }
}

/// The moves from `(r, c)` to all `targets` after which `player` is not in check.
pub open spec fn legal_moves_to(b: Seq<Seq<i8>>, r: int, c: int, player: i8, targets: Seq<(usize, usize)>) -> Seq<
    Seq<usize>,
> {
    legal_to(b, r, c, player, targets, targets.len() as int)
}

/// A move on a valid board leaves a valid board.
proof fn lemma_board_after_valid(b: Seq<Seq<i8>>, r: int, c: int, t0: int, t1: int)
    requires
        valid_board(b),
        0 <= r < 8 && 0 <= c < 8 && 0 <= t0 < 8 && 0 <= t1 < 8,
    ensures
        valid_board(board_after(b, r, c, t0, t1)),
{
    let a = board_after(b, r, c, t0, t1);
    assert forall|i: int| 0 <= i < 8 implies #[trigger] a[i].len() == 8 by {
        assert(b[i].len() == 8);
    }
    assert forall|i: int, j: int| 0 <= i < 8 && 0 <= j < 8 implies -6 <= #[trigger] a[i][j] <= 6 by {
        assert(-6 <= b[i][j] <= 6);
        assert(-6 <= b[r][c] <= 6);
    }
}

pub open spec fn all_on_board(targets: Seq<(usize, usize)>) -> bool {
    forall|k: int| 0 <= k < targets.len() ==> (#[trigger] targets[k]).0 < 8 && targets[k].1 < 8
}

/// `player` is in check on `b`: its king stands on the board and an opposing
/// piece attacks it (see `bot::spec_in_check`). A side without a king is never in check.
pub open spec fn spec_in_check(b: Seq<Seq<i8>>, player: i8) -> bool {
    &&& king_square(b, (6 * player) as i8) is Some
    &&& bot::spec_in_check(b, player)
}

/// Whether a square of `board` holds `king`.
fn has_king(board: &Vec<Vec<i8>>, king: i8) -> (r: bool)
    requires
        valid_board(board.deep_view()),
    ensures
        r == king_square(board.deep_view(), king) is Some,
{
    let ghost b = board.deep_view();
    let mut i: usize = 0;
    while i < 8
        invariant
            b == board.deep_view(),
            valid_board(b),
            i <= 8,
            first_square_of(b, king, 8 * i) is None,
        decreases 8 - i,
    {
        let mut j: usize = 0;
        while j < 8
            invariant
                b == board.deep_view(),
                valid_board(b),
                i < 8,
                j <= 8,
                first_square_of(b, king, 8 * i + j) is None,
            decreases 8 - j,
        {
            assert(board@[i as int]@.len() == 8) by {
                assert(b[i as int].len() == 8);
            }
            assert((8 * i + j) / 8 == i as int && (8 * i + j) % 8 == j as int);
            if board[i][j] == king {
                proof {
                    lemma_first_square_some(b, king, 8 * i + j + 1, 64);
                }
                return true;
            }
            j += 1;
        }
        i += 1;
    }
    false
}

/// Whether `player`'s king is attacked on `board` (see `spec_in_check`).
pub fn in_check(board: &Vec<Vec<i8>>, player: i8) -> (r: bool)
    requires
        valid_board(board.deep_view()),
        is_side(player),
    ensures
        r == spec_in_check(board.deep_view(), player),
{
    if has_king(board, 6 * player) {
        bot::in_check(board, player)
    } else {
        false
    }
}

/// Copy of a board.
pub fn copy_board(board: &Vec<Vec<i8>>) -> (b: Vec<Vec<i8>>)
    ensures
        b.deep_view() == board.deep_view(),
        b.len() == board.len(),
        forall|i: int| 0 <= i < board.len() ==> #[trigger] b@[i]@ == board@[i]@,
{
    let mut b: Vec<Vec<i8>> = Vec::new();
    let mut i: usize = 0;
    while i < board.len()
        invariant
            i <= board.len(),
            b.len() == i,
            forall|k: int| 0 <= k < i ==> #[trigger] b@[k]@ == board@[k]@,
        decreases board.len() - i,
    {
        let mut row: Vec<i8> = Vec::new();
        let mut j: usize = 0;
        while j < board[i].len()
            invariant
                i < board.len(),
                j <= board@[i as int]@.len(),
                row@ == board@[i as int]@.take(j as int),
            decreases board@[i as int]@.len() - j,
        {
            row.push(board[i][j]);
            assert(row@ =~= board@[i as int]@.take(j + 1));
            j += 1;
        }
        assert(row@ =~= board@[i as int]@);
        b.push(row);
        i += 1;
    }
    assert(b.deep_view() =~= board.deep_view()) by {
        assert forall|k: int| 0 <= k < board.len() implies #[trigger] b.deep_view()[k] =~= board.deep_view()[k] by {
            assert(b@[k]@ == board@[k]@);
        }
    }
    b
}

/// Copy of a list of boards.
pub fn copy_history(history: &Vec<Vec<Vec<i8>>>) -> (h: Vec<Vec<Vec<i8>>>)
    ensures
        h.deep_view() == history.deep_view(),
{
    let mut h: Vec<Vec<Vec<i8>>> = Vec::new();
    let mut i: usize = 0;
    while i < history.len()
        invariant
            i <= history.len(),
            h.deep_view() == history.deep_view().take(i as int),
        decreases history.len() - i,
    {
        let b = copy_board(&history[i]);
        let ghost bv = b.deep_view();
        let ghost before = h.deep_view();
        let ghost before_v = h@;
        h.push(b);
        assert forall|k: int| 0 <= k < before.len() implies h.deep_view()[k] == before[k] by {
            assert(h@[k] == before_v[k]);
        }
        assert(h.deep_view()[before.len() as int] == bv);
        assert(h.deep_view() =~= history.deep_view().take(i + 1));
        i += 1;
    }
    assert(history.deep_view().take(history.len() as int) =~= history.deep_view());
    h
}

/// Keeps the moves from `start` to each target after which `player` is not in
/// check (see `legal_to`).
fn keep_legal(
    board: &Vec<Vec<i8>>,
    start: (usize, usize),
    player: i8,
    possible_moves: Vec<(usize, usize)>,
) -> (legal_moves: Vec<Vec<usize>>)
    requires
        valid_board(board.deep_view()),
        start.0 < 8 && start.1 < 8,
        is_side(player),
        all_on_board(possible_moves@),
    ensures
        legal_moves.deep_view() == legal_moves_to(board.deep_view(), start.0 as int, start.1 as int, player, possible_moves@),
{
    let ghost bv = board.deep_view();
    let ghost r = start.0 as int;
    let ghost c = start.1 as int;
    assert forall|i: int| 0 <= i < 8 implies #[trigger] board@[i]@.len() == 8 by {
        assert(bv[i].len() == 8);
    }
    let mut legal_moves: Vec<Vec<usize>> = Vec::new();
    let mut k: usize = 0;
    while k < possible_moves.len()
        invariant
            bv == board.deep_view(),
            valid_board(bv),
            board.len() == 8,
            forall|i: int| 0 <= i < 8 ==> #[trigger] board@[i]@.len() == 8,
            start.0 < 8 && start.1 < 8,
            r == start.0 && c == start.1,
            is_side(player),
            all_on_board(possible_moves@),
            k <= possible_moves.len(),
            legal_moves.deep_view() == legal_to(bv, r, c, player, possible_moves@, k as int),
        decreases possible_moves.len() - k,
    {
        let m = possible_moves[k];
        assert(possible_moves@[k as int] == m);
        assert(m.0 < 8 && m.1 < 8);
        let mut b = copy_board(board);
        assert(b@[m.0 as int]@.len() == 8);
        assert(b@[start.0 as int]@.len() == 8);
        let piece = b[start.0][start.1];
        b[m.0][m.1] = piece;
        b[start.0][start.1] = 0;
        let ghost after = board_after(bv, r, c, m.0 as int, m.1 as int);
        assert(b.deep_view() =~= after) by {
            assert forall|i: int| 0 <= i < 8 implies #[trigger] b.deep_view()[i] =~= after[i] by {
                assert(b.deep_view()[i] == b@[i]@);
                assert(bv[i] == board@[i]@);
            }
        }
        proof {
            lemma_board_after_valid(bv, r, c, m.0 as int, m.1 as int);
        }
        let ghost before = legal_moves.deep_view();
        if !in_check(&b, player) {
            let mv = vec![start.0, start.1, m.0, m.1];
            assert(mv.deep_view() =~= seq![start.0, start.1, m.0, m.1]);
            let ghost before_v = legal_moves@;
            legal_moves.push(mv);
            assert forall|q: int| 0 <= q < before.len() implies legal_moves.deep_view()[q] == before[q] by {
                assert(legal_moves@[q] == before_v[q]);
            }
            assert(legal_moves.deep_view() =~= before.push(seq![start.0, start.1, m.0, m.1]));
        }
        assert(legal_moves.deep_view() =~= legal_to(bv, r, c, player, possible_moves@, k + 1));
        k += 1;
    }
    legal_moves
}


// ---------------------------------------------------------------------------
// King
// ---------------------------------------------------------------------------

/// Squares `(i, c - 1 + k)`, `k < n`, on the board and not holding a piece of `player`.
pub open spec fn king_line(b: Seq<Seq<i8>>, i: int, c: int, player: i8, n: int) -> Seq<(usize, usize)>
    decreases n,
{
    if n <= 0 {
        seq![]
    } else {
        let j = c - 1 + (n - 1);
        king_line(b, i, c, player, n - 1) + if on_board(i, j) && b[i][j] * player <= 0 {
            seq![(i as usize, j as usize)]
        } else {
            seq![]
        }
    }
}

/// The king's targets from `(r, c)`: the 3x3 block around it, row by row, without
/// squares off the board or holding a piece of `player`.
pub open spec fn king_block(b: Seq<Seq<i8>>, r: int, c: int, player: i8, n: int) -> Seq<(usize, usize)>
    decreases n,
{
    if n <= 0 {
        seq![]
    } else {
        king_block(b, r, c, player, n - 1) + king_line(b, r - 1 + (n - 1), c, player, 3)
    }
}

pub open spec fn spec_king_moves(b: Seq<Seq<i8>>, r: int, c: int, player: i8) -> Seq<Seq<usize>> {
    legal_moves_to(b, r, c, player, king_block(b, r, c, player, 3))
}

pub fn legal_king_moves(board: &Vec<Vec<i8>>, start: (usize, usize), player: i8) -> (legal_moves: Vec<
    Vec<usize>,
>)
    requires
        valid_board(board.deep_view()),
        start.0 < 8 && start.1 < 8,
        is_side(player),
    ensures
        legal_moves.deep_view() == spec_king_moves(
            board.deep_view(),
            start.0 as int,
            start.1 as int,
            player,
        ),
{
    let ghost b = board.deep_view();
    let ghost r = start.0 as int;
    let ghost c = start.1 as int;
    let mut possible_moves: Vec<(usize, usize)> = vec![];
    let s0 = start.0 as i8;
    let s1 = start.1 as i8;
    assert(s0 == r && s1 == c);
    let mut i: i8 = s0 - 1;
    while i < s0 + 2
        invariant
            s0 == r && s1 == c,
            r == start.0 && c == start.1,
            b == board.deep_view(),
            valid_board(b),
            start.0 < 8 && start.1 < 8,
            is_side(player),
            r - 1 <= i <= r + 2,
            all_on_board(possible_moves@),
            possible_moves@ == king_block(b, r, c, player, i - (r - 1)),
        decreases r + 2 - i,
    {
        let ghost before = possible_moves@;
        let mut j: i8 = s1 - 1;
        while j < s1 + 2
            invariant
                s0 == r && s1 == c,
                r == start.0 && c == start.1,
            r == start.0 && c == start.1,
                b == board.deep_view(),
                valid_board(b),
                start.0 < 8 && start.1 < 8,
                is_side(player),
                r - 1 <= i < r + 2,
                c - 1 <= j <= c + 2,
                all_on_board(possible_moves@),
                possible_moves@ == before + king_line(b, i as int, c, player, j - (c - 1)),
            decreases c + 2 - j,
        {
            let ghost mid = possible_moves@;
            if i < 0 || i > 7 || j < 0 || j > 7 {
            } else {
                assert(board@[i as int]@.len() == 8) by {
                    assert(b[i as int].len() == 8);
                }
                let x = board[i as usize][j as usize];
                assert(x == b[i as int][j as int]);
                assert(-6 <= x <= 6);
                if x * player <= 0 {
                    possible_moves.push((i as usize, j as usize));
                }
            }
            assert(possible_moves@ =~= before + king_line(b, i as int, c, player, j + 1 - (c - 1)));
            j += 1;
        }
        assert(possible_moves@ =~= king_block(b, r, c, player, i + 1 - (r - 1)));
        i += 1;
    }
    keep_legal(board, start, player, possible_moves)
}

// ---------------------------------------------------------------------------
// Knight
// ---------------------------------------------------------------------------

pub open spec fn knight_dirs() -> Seq<(i8, i8)> {
    seq![(2i8, 1i8), (-2i8, 1i8), (-2i8, -1i8), (2i8, -1i8), (1i8, 2i8), (-1i8, 2i8), (-1i8, -2i8), (1i8, -2i8)]
}

/// The knight's targets from `(r, c)` by the first `n` offsets: on the board and
/// not holding a piece of `player`.
pub open spec fn knight_targets(b: Seq<Seq<i8>>, r: int, c: int, player: i8, n: int) -> Seq<
    (usize, usize),
>
    decreases n,
{
    if n <= 0 {
        seq![]
    } else {
        let a = r + knight_dirs()[n - 1].0;
        let d = c + knight_dirs()[n - 1].1;
        knight_targets(b, r, c, player, n - 1) + if on_board(a, d) && !own(b, a, d, player) {
            seq![(a as usize, d as usize)]
        } else {
            seq![]
        }
    }
}

pub open spec fn spec_knight_moves(b: Seq<Seq<i8>>, r: int, c: int, player: i8) -> Seq<Seq<usize>> {
    legal_moves_to(b, r, c, player, knight_targets(b, r, c, player, 8))
}

#[verifier::spinoff_prover]
#[verifier::rlimit(30)]
pub fn legal_knight_moves(board: &Vec<Vec<i8>>, start: (usize, usize), player: i8) -> (legal_moves: Vec<
    Vec<usize>,
>)
    requires
        valid_board(board.deep_view()),
        start.0 < 8 && start.1 < 8,
        is_side(player),
    ensures
        legal_moves.deep_view() == spec_knight_moves(
            board.deep_view(),
            start.0 as int,
            start.1 as int,
            player,
        ),
{
    let ghost b = board.deep_view();
    let ghost r = start.0 as int;
    let ghost c = start.1 as int;
    let mut possible_moves: Vec<(usize, usize)> = vec![];
    let dir: Vec<(i8, i8)> = vec![(2,1),(-2,1),(-2,-1),(2,-1), (1,2),(-1,2),(-1,-2),(1,-2)];
    assert(dir@ == knight_dirs());
    let s0 = start.0 as i8;
    let s1 = start.1 as i8;
    assert(s0 == r && s1 == c);
    let mut k: usize = 0;
    while k < dir.len()
        invariant
            s0 == r && s1 == c,
            r == start.0 && c == start.1,
            b == board.deep_view(),
            valid_board(b),
            start.0 < 8 && start.1 < 8,
            is_side(player),
            dir@ == knight_dirs(),
            k <= 8,
            all_on_board(possible_moves@),
            possible_moves@ == knight_targets(b, r, c, player, k as int),
        decreases 8 - k,
    {
        let d = dir[k];
        assert(d == knight_dirs()[k as int]);
        let a = s0 + d.0;
        let bb = s1 + d.1;
        if a < 0 || a > 7 || bb < 0 || bb > 7 {
        } else {
            assert(board@[a as int]@.len() == 8) by {
                assert(b[a as int].len() == 8);
            }
            let x = board[a as usize][bb as usize];
            assert(x == b[a as int][bb as int]);
            assert(-6 <= x <= 6);
            if x * player > 0 {
            } else {
                let ghost before = possible_moves@;
                possible_moves.push((a as usize, bb as usize));
                assert forall|q: int| 0 <= q < possible_moves@.len() implies (#[trigger] possible_moves@[q]).0 < 8
                    && possible_moves@[q].1 < 8 by {
                    if q < before.len() {
                        assert(possible_moves@[q] == before[q]);
                    }
                }
            }
        }
        assert(possible_moves@ =~= knight_targets(b, r, c, player, k + 1));
        k += 1;
    }
    keep_legal(board, start, player, possible_moves)
}


// ---------------------------------------------------------------------------
// Queen, rook and bishop
// ---------------------------------------------------------------------------

/// Squares `(r, c) + k * d` for `k = i, i + 1, ..., 7`: the ray stops before leaving
/// the board or reaching a piece of `player`, and stops after an opposing piece.
pub open spec fn ray(b: Seq<Seq<i8>>, r: int, c: int, player: i8, d: (i8, i8), i: int) -> Seq<
    (usize, usize),
>
    decreases 8 - i,
{
    if i < 1 || i >= 8 {
        seq![]
    } else {
        let a = r + d.0 * i;
        let e = c + d.1 * i;
        if !on_board(a, e) {
            seq![]
        } else if own(b, a, e, player) {
            seq![]
        } else if b[a][e] * player != 0 {
            seq![(a as usize, e as usize)]
        } else {
            seq![(a as usize, e as usize)] + ray(b, r, c, player, d, i + 1)
        }
    }
}

/// The rays along the first `n` directions of `dirs`.
pub open spec fn rays(b: Seq<Seq<i8>>, r: int, c: int, player: i8, dirs: Seq<(i8, i8)>, n: int) -> Seq<
    (usize, usize),
>
    decreases n,
{
    if n <= 0 {
        seq![]
    } else {
        rays(b, r, c, player, dirs, n - 1) + ray(b, r, c, player, dirs[n - 1], 1)
    }
}

/// The first step from `(r, c)` along each direction fits an `i8` (the later steps
/// are only taken after a step that stayed on the board).
pub open spec fn first_steps_fit(r: int, c: int, dirs: Seq<(i8, i8)>) -> bool {
    forall|k: int| 0 <= k < dirs.len() ==> r + (#[trigger] dirs[k]).0 <= 127 && c + dirs[k].1 <= 127
}

pub open spec fn spec_direction_moves(b: Seq<Seq<i8>>, r: int, c: int, player: i8, dirs: Seq<(i8, i8)>) -> Seq<
    Seq<usize>,
> {
    legal_moves_to(b, r, c, player, rays(b, r, c, player, dirs, dirs.len() as int))
}

pub open spec fn queen_dirs() -> Seq<(i8, i8)> {
    seq![(1i8, 0i8), (-1i8, 0i8), (0i8, 1i8), (0i8, -1i8), (1i8, 1i8), (-1i8, 1i8), (-1i8, -1i8), (1i8, -1i8)]
}

pub open spec fn rook_dirs() -> Seq<(i8, i8)> {
    seq![(1i8, 0i8), (-1i8, 0i8), (0i8, 1i8), (0i8, -1i8)]
}

pub open spec fn bishop_dirs() -> Seq<(i8, i8)> {
    seq![(1i8, 1i8), (-1i8, 1i8), (-1i8, -1i8), (1i8, -1i8)]
}

pub fn possible_direction_moves(
    board: &Vec<Vec<i8>>,
    start: (usize, usize),
    player: i8,
    dir: Vec<(i8, i8)>,
) -> (legal_moves: Vec<Vec<usize>>)
    requires
        valid_board(board.deep_view()),
        start.0 < 8 && start.1 < 8,
        is_side(player),
        first_steps_fit(start.0 as int, start.1 as int, dir@),
    ensures
        legal_moves.deep_view() == spec_direction_moves(
            board.deep_view(),
            start.0 as int,
            start.1 as int,
            player,
            dir@,
        ),
{
    let ghost b = board.deep_view();
    let ghost r = start.0 as int;
    let ghost c = start.1 as int;
    let s0 = start.0 as i8;
    let s1 = start.1 as i8;
    let mut possible_moves: Vec<(usize, usize)> = vec![];
    let mut k: usize = 0;
    while k < dir.len()
        invariant
            s0 == r && s1 == c,
            r == start.0 && c == start.1,
            b == board.deep_view(),
            valid_board(b),
            start.0 < 8 && start.1 < 8,
            is_side(player),
            first_steps_fit(start.0 as int, start.1 as int, dir@),
            k <= dir.len(),
            all_on_board(possible_moves@),
            possible_moves@ == rays(b, r, c, player, dir@, k as int),
        decreases dir.len() - k,
    {
        let d = dir[k];
        assert(s0 + d.0 <= 127 && s1 + d.1 <= 127);
        let ghost before = possible_moves@;
        let ghost target = rays(b, r, c, player, dir@, k + 1);
        assert(target == before + ray(b, r, c, player, d, 1));
        let mut i: i8 = 1;
        while i < 8
            invariant_except_break
                possible_moves@ + ray(b, r, c, player, d, i as int) == target,
            invariant
                s0 == r && s1 == c,
                r == start.0 && c == start.1,
                b == board.deep_view(),
                valid_board(b),
                start.0 < 8 && start.1 < 8,
                is_side(player),
                s0 + d.0 <= 127 && s1 + d.1 <= 127,
                i >= 2 ==> 0 <= s0 + d.0 <= 7 && 0 <= s1 + d.1 <= 7,
                1 <= i <= 8,
                all_on_board(possible_moves@),
            ensures
                possible_moves@ == target,
            decreases 8 - i,
        {
            assert(-128 <= d.0 * i <= 127 && -128 <= d.1 * i <= 127 && -128 <= s0 + d.0 * i <= 127 && -128
                <= s1 + d.1 * i <= 127) by (nonlinear_arith)
                requires
                    0 <= s0 <= 7,
                    0 <= s1 <= 7,
                    -128 <= d.0 <= 127,
                    -128 <= d.1 <= 127,
                    s0 + d.0 <= 127 && s1 + d.1 <= 127,
                    i >= 2 ==> 0 <= s0 + d.0 <= 7 && 0 <= s1 + d.1 <= 7,
                    1 <= i < 8,
            ;
            let a = s0 + d.0 * i;
            let e = s1 + d.1 * i;
            if a < 0 || a > 7 || e < 0 || e > 7 {
                assert(possible_moves@ =~= target);
                break;
            }
            assert(i == 1 ==> 0 <= s0 + d.0 <= 7 && 0 <= s1 + d.1 <= 7) by (nonlinear_arith)
                requires
                    a == s0 + d.0 * i,
                    e == s1 + d.1 * i,
                    0 <= a <= 7,
                    0 <= e <= 7,
            ;
            assert(board@[a as int]@.len() == 8) by {
                assert(b[a as int].len() == 8);
            }
            let x = board[a as usize][e as usize];
            assert(x == b[a as int][e as int]);
            assert(-6 <= x * player <= 6) by (nonlinear_arith)
                requires
                    -6 <= x <= 6,
                    player == 1 || player == -1,
            ;
            if x * player > 0 {
                assert(possible_moves@ =~= target);
                break;
            }
            let ghost pm = possible_moves@;
            possible_moves.push((a as usize, e as usize));
            assert forall|q: int| 0 <= q < possible_moves@.len() implies (#[trigger] possible_moves@[q]).0 < 8
                && possible_moves@[q].1 < 8 by {
                if q < pm.len() {
                    assert(possible_moves@[q] == pm[q]);
                }
            }
            if x * player != 0 {
                assert(possible_moves@ =~= target);
                break;
            }
            assert(possible_moves@ + ray(b, r, c, player, d, i + 1) =~= target);
            i += 1;
        }
        assert(rays(b, r, c, player, dir@, k + 1) == target);
        k += 1;
    }
    keep_legal(board, start, player, possible_moves)
}


pub fn legal_queen_moves(board: &Vec<Vec<i8>>, start: (usize, usize), player: i8) -> (legal_moves: Vec<
    Vec<usize>,
>)
    requires
        valid_board(board.deep_view()),
        start.0 < 8 && start.1 < 8,
        is_side(player),
    ensures
        legal_moves.deep_view() == spec_direction_moves(
            board.deep_view(),
            start.0 as int,
            start.1 as int,
            player,
            queen_dirs(),
        ),
{
    let dir: Vec<(i8, i8)> = vec![(1,0),(-1,0),(0,1),(0,-1), (1,1),(-1,1),(-1,-1),(1,-1)];
    assert(dir@ == queen_dirs());
    let legal_moves = possible_direction_moves(board, start, player, dir);
    legal_moves
}

pub fn legal_rook_moves(board: &Vec<Vec<i8>>, start: (usize, usize), player: i8) -> (legal_moves: Vec<
    Vec<usize>,
>)
    requires
        valid_board(board.deep_view()),
        start.0 < 8 && start.1 < 8,
        is_side(player),
    ensures
        legal_moves.deep_view() == spec_direction_moves(
            board.deep_view(),
            start.0 as int,
            start.1 as int,
            player,
            rook_dirs(),
        ),
{
    let dir: Vec<(i8, i8)> = vec![(1,0),(-1,0),(0,1),(0,-1)];
    assert(dir@ == rook_dirs());
    let legal_moves = possible_direction_moves(board, start, player, dir);
    legal_moves
}

pub fn legal_bishop_moves(board: &Vec<Vec<i8>>, start: (usize, usize), player: i8) -> (legal_moves: Vec<
    Vec<usize>,
>)
    requires
        valid_board(board.deep_view()),
        start.0 < 8 && start.1 < 8,
        is_side(player),
    ensures
        legal_moves.deep_view() == spec_direction_moves(
            board.deep_view(),
            start.0 as int,
            start.1 as int,
            player,
            bishop_dirs(),
        ),
{
    let dir: Vec<(i8, i8)> = vec![(1,1),(-1,1),(-1,-1),(1,-1)];
    assert(dir@ == bishop_dirs());
    let legal_moves = possible_direction_moves(board, start, player, dir);
    legal_moves
}

// ---------------------------------------------------------------------------
// Pawn
// ---------------------------------------------------------------------------

/// Direction of `player`'s pawns: up the rows for white (1), down for black.
pub open spec fn pawn_dir(player: i8) -> int {
    if player == 1 {
        1
    } else {
        -1
    }
}

pub open spec fn pawn_start_row(player: i8) -> int {
    if player == 1 {
        1
    } else {
        6
    }
}

/// The row from which `player`'s pawn can take en passant.
pub open spec fn spec_en_passant_row(player: i8) -> int {
    if player == 1 {
        4
    } else {
        3
    }
}

/// Ordinary targets of the pawn on `(r, c)`: the step forward onto an empty square
/// (and from the starting row the double step onto an empty square), then the
/// captures of opposing pieces forward right and forward left.
pub open spec fn pawn_targets(b: Seq<Seq<i8>>, r: int, c: int, player: i8) -> Seq<(usize, usize)> {
    let d = pawn_dir(player);
    let f = r + d;
    let forward = if b[f][c] == 0 {
        seq![(f as usize, c as usize)] + if r == pawn_start_row(player) && b[r + 2 * d][c] == 0 {
            seq![((r + 2 * d) as usize, c as usize)]
        } else {
            seq![]
        }
    } else {
        seq![]
    };
    let right = if c < 7 && b[f][c + 1] * player < 0 {
        seq![(f as usize, (c + 1) as usize)]
    } else {
        seq![]
    };
    let left = if c > 0 && b[f][c - 1] * player < 0 {
        seq![(f as usize, (c - 1) as usize)]
    } else {
        seq![]
    };
    forward + right + left
}

/// The board after the pawn on `(r, c)` takes en passant towards column `i`: the
/// square `(r, i)` is emptied and the pawn moves to `(t0, i)`.
pub open spec fn en_passant_board(b: Seq<Seq<i8>>, r: int, c: int, t0: int, i: int) -> Seq<Seq<i8>> {
    board_after(b.update(r, b[r].update(i, 0)), r, c, t0, i)
}

/// The en passant capture towards column `i`, every square tested in column `i`,
/// the column of the pawn taken, on either side: an
/// opposing pawn stands beside it at `(r, i)` and the square `(r + 2d, i)` is empty, while
/// on the previous board `(r, i)` was empty and an opposing pawn stood at `(r + 2d, i)`;
/// and `player` is not in check after the capture.
pub open spec fn en_passant_to(b: Seq<Seq<i8>>, last: Seq<Seq<i8>>, r: int, c: int, player: i8, i: int) -> Seq<
    Seq<usize>,
> {
    let d = pawn_dir(player);
    if b[r][i] == -player && b[r + 2 * d][i] == 0 && last[r][i] == 0 && last[r + 2 * d][i]
        == -player && !spec_in_check(en_passant_board(b, r, c, r + d, i), player) {
        seq![seq![r as usize, c as usize, (r + d) as usize, i as usize]]
    } else {
        seq![]
    }
}

/// En passant captures of the pawn on `(r, c)`: on the en passant row and with a
/// previous board, towards column `c + 1` and then `c - 1`.
pub open spec fn en_passant_moves(b: Seq<Seq<i8>>, h: Seq<Seq<Seq<i8>>>, r: int, c: int, player: i8) -> Seq<
    Seq<usize>,
> {
    if r == spec_en_passant_row(player) && h.len() > 0 {
        let last = h.last();
        (if c < 7 {
            en_passant_to(b, last, r, c, player, c + 1)
        } else {
            seq![]
        }) + (if c > 0 {
            en_passant_to(b, last, r, c, player, c - 1)
        } else {
            seq![]
        })
    } else {
        seq![]
    }
}

pub open spec fn spec_pawn_moves(b: Seq<Seq<i8>>, h: Seq<Seq<Seq<i8>>>, r: int, c: int, player: i8) -> Seq<
    Seq<usize>,
> {
    en_passant_moves(b, h, r, c, player) + legal_moves_to(b, r, c, player, pawn_targets(b, r, c, player))
}

/// 8x8 shape only.
pub open spec fn square_shape(b: Seq<Seq<i8>>) -> bool {
    &&& b.len() == 8
    &&& forall|i: int| 0 <= i < 8 ==> #[trigger] b[i].len() == 8
}

/// The pawn on `(r, c)` can be moved: it is not on its last row, and when it could
/// take en passant the previous board is 8x8.
pub open spec fn pawn_ok(h: Seq<Seq<Seq<i8>>>, r: int, c: int, player: i8) -> bool {
    &&& 0 <= r + pawn_dir(player) <= 7
    &&& (r == spec_en_passant_row(player) && h.len() > 0) ==> square_shape(h.last())
}

#[verifier::spinoff_prover]
#[verifier::rlimit(50)]
pub fn legal_pawn_moves(
    board: &Vec<Vec<i8>>,
    board_history: &Vec<Vec<Vec<i8>>>,
    start: (usize, usize),
    player: i8,
) -> (legal_moves: Vec<Vec<usize>>)
    requires
        valid_board(board.deep_view()),
        start.0 < 8 && start.1 < 8,
        is_side(player),
        pawn_ok(board_history.deep_view(), start.0 as int, start.1 as int, player),
    ensures
        legal_moves.deep_view() == spec_pawn_moves(
            board.deep_view(),
            board_history.deep_view(),
            start.0 as int,
            start.1 as int,
            player,
        ),
{
    let ghost b = board.deep_view();
    let ghost h = board_history.deep_view();
    let ghost r = start.0 as int;
    let ghost c = start.1 as int;
    assert forall|i: int| 0 <= i < 8 implies #[trigger] board@[i]@.len() == 8 by {
        assert(b[i].len() == 8);
    }
    let mut legal_moves: Vec<Vec<usize>> = Vec::new();
    let mut possible_moves: Vec<(usize, usize)> = vec![];
    let start_row: usize;
    let en_passant_row: usize;
    let dir: i8;
    if player == 1 {
        start_row = 1;
        en_passant_row = 4;
        dir = 1;
    } else {
        start_row = 6;
        en_passant_row = 3;
        dir = -1;
    }
    let s0 = start.0 as i8;
    let f = (s0 + dir) as usize;
    assert(f == r + pawn_dir(player));
    // move forward
    if board[f][start.1] == 0 {
        possible_moves.push((f, start.1));
        if start.0 == start_row && board[(s0 + dir * 2) as usize][start.1] == 0 {
            possible_moves.push(((s0 + dir * 2) as usize, start.1));
        }
    }
    // attack side
    if start.1 < 7 {
        let x = board[f][start.1 + 1];
        assert(x == b[f as int][c + 1]);
        assert(-6 <= x * player <= 6) by (nonlinear_arith)
            requires
                -6 <= x <= 6,
                player == 1 || player == -1,
        ;
        if x * player < 0 {
            possible_moves.push((f, start.1 + 1));
        }
    }
    if start.1 > 0 {
        let x = board[f][start.1 - 1];
        assert(x == b[f as int][c - 1]);
        assert(-6 <= x * player <= 6) by (nonlinear_arith)
            requires
                -6 <= x <= 6,
                player == 1 || player == -1,
        ;
        if x * player < 0 {
            possible_moves.push((f, start.1 - 1));
        }
    }
    assert(possible_moves@ =~= pawn_targets(b, r, c, player));
    // En passant
    if start.0 == en_passant_row && board_history.len() > 0 {
        legal_moves = en_passant_captures(board, board_history, start, player);
    } else {
        assert(legal_moves.deep_view() =~= en_passant_moves(b, h, r, c, player));
    }
    let ghost ep = legal_moves.deep_view();
    let mut rest = keep_legal(board, start, player, possible_moves);
    let ghost rv = rest.deep_view();
    legal_moves.append(&mut rest);
    assert(legal_moves.deep_view() =~= ep + rv);
    legal_moves
}

/// The en passant captures of the pawn on `start` (see `en_passant_moves`).
fn en_passant_captures(
    board: &Vec<Vec<i8>>,
    board_history: &Vec<Vec<Vec<i8>>>,
    start: (usize, usize),
    player: i8,
) -> (legal_moves: Vec<Vec<usize>>)
    requires
        valid_board(board.deep_view()),
        start.0 < 8 && start.1 < 8,
        is_side(player),
        pawn_ok(board_history.deep_view(), start.0 as int, start.1 as int, player),
        start.0 == spec_en_passant_row(player),
        board_history.len() > 0,
    ensures
        legal_moves.deep_view() == en_passant_moves(
            board.deep_view(),
            board_history.deep_view(),
            start.0 as int,
            start.1 as int,
            player,
        ),
{
    let ghost b = board.deep_view();
    let ghost h = board_history.deep_view();
    let ghost r = start.0 as int;
    let ghost c = start.1 as int;
    assert forall|i: int| 0 <= i < 8 implies #[trigger] board@[i]@.len() == 8 by {
        assert(b[i].len() == 8);
    }
    let mut legal_moves: Vec<Vec<usize>> = Vec::new();
    let dir: i8 = if player == 1 { 1 } else { -1 };
    let s0 = start.0 as i8;
    let ghost last = h.last();
    let mut temp: Vec<usize> = vec![];
    if start.1 < 7 {
        temp.push(start.1 + 1)
    }
    if start.1 > 0 {
        temp.push((start.1 as i8 - 1) as usize)
    }
    let far = (s0 + dir * 2) as usize;
    let near = (s0 + dir) as usize;
    let hb = &board_history[board_history.len() - 1];
    assert(hb@.len() == 8 && forall|i: int| 0 <= i < 8 ==> #[trigger] hb@[i]@.len() == 8) by {
        assert(hb.deep_view() == last);
        assert forall|i: int| 0 <= i < 8 implies #[trigger] hb@[i]@.len() == 8 by {
            assert(last[i].len() == 8);
        }
    }
    let mut k: usize = 0;
    while k < temp.len()
        invariant
            b == board.deep_view(),
            h == board_history.deep_view(),
            valid_board(b),
            board.len() == 8,
            forall|i: int| 0 <= i < 8 ==> #[trigger] board@[i]@.len() == 8,
            h.len() > 0,
            last == h.last(),
            hb.deep_view() == last,
            hb@.len() == 8,
            forall|i: int| 0 <= i < 8 ==> #[trigger] hb@[i]@.len() == 8,
            r == start.0 && c == start.1,
            start.0 < 8 && start.1 < 8,
            is_side(player),
            r == spec_en_passant_row(player),
            far == r + 2 * pawn_dir(player),
            near == r + pawn_dir(player),
            far < 8 && near < 8,
            temp@ == (if c < 7 { seq![(c + 1) as usize] } else { seq![] }) + (if c > 0 {
                seq![(c - 1) as usize]
            } else {
                seq![]
            }),
            k <= temp.len(),
            legal_moves.deep_view() == en_passant_take(b, last, r, c, player, temp@, k as int),
        decreases temp.len() - k,
    {
        let i = temp[k];
        assert(temp@[k as int] == i);
        assert(i < 8);
        let ghost before = legal_moves.deep_view();
        assert(board[start.0 as int][i as int] == b[r][i as int]);
        assert(board[far as int][i as int] == b[far as int][i as int]);
        let ghost mut pushed = false;
        let mp = player * -1;
        assert(mp == -player);
        if board[start.0][i] == mp && board[far][i] == 0 {
            let mut hbc = copy_board(hb);
            assert(hbc@[start.0 as int]@ == last[r]);
            assert(hbc@[far as int]@ == last[far as int]);
            if hbc[start.0][i] == 0 && hbc[far][i] == mp {
                hbc = copy_board(board);
                hbc[start.0][i] = 0;
                let piece = hbc[start.0][start.1];
                hbc[near][i] = piece;
                hbc[start.0][start.1] = 0;
                let ghost b1 = b.update(r, b[r].update(i as int, 0));
                let ghost after = en_passant_board(b, r, c, near as int, i as int);
                assert(hbc.deep_view() =~= after) by {
                    assert forall|q: int| 0 <= q < 8 implies #[trigger] hbc.deep_view()[q] =~= after[q] by {
                        assert(hbc.deep_view()[q] == hbc@[q]@);
                        assert(b[q] == board@[q]@);
                    }
                }
                assert(valid_board(b1)) by {
                    assert forall|q: int| 0 <= q < 8 implies #[trigger] b1[q].len() == 8 by {
                        assert(b[q].len() == 8);
                    }
                    assert forall|q: int, j: int| 0 <= q < 8 && 0 <= j < 8 implies -6 <= #[trigger] b1[q][j] <= 6 by {
                        assert(-6 <= b[q][j] <= 6);
                    }
                }
                proof {
                    lemma_board_after_valid(b1, r, c, near as int, i as int);
                }
                if !in_check(&hbc, player) {
                    let mv = vec![start.0, start.1, near, i];
                    assert(mv.deep_view() =~= seq![start.0, start.1, near, i]);
                    let ghost before_v = legal_moves@;
                    legal_moves.push(mv);
                    assert forall|q: int| 0 <= q < before.len() implies legal_moves.deep_view()[q]
                        == before[q] by {
                        assert(legal_moves@[q] == before_v[q]);
                    }
                    assert(legal_moves.deep_view() =~= before.push(seq![start.0, start.1, near, i]));
                    proof {
                        pushed = true;
                    }
                }
            }
        }
        proof {
            let d = pawn_dir(player);
            let cond = b[r][i as int] == -player && b[r + 2 * d][i as int] == 0 && last[r][i as int] == 0
                && last[r + 2 * d][i as int] == -player && !spec_in_check(
                en_passant_board(b, r, c, r + d, i as int),
                player,
            );
            assert(pushed == cond);
            if cond {
                assert(legal_moves.deep_view() == before.push(seq![start.0, start.1, near, i]));
                assert(en_passant_to(b, last, r, c, player, i as int) == seq![
                    seq![r as usize, c as usize, (r + d) as usize, i],
                ]);
            } else {
                assert(legal_moves.deep_view() == before);
                assert(en_passant_to(b, last, r, c, player, i as int) == Seq::<Seq<usize>>::empty());
            }
            assert(en_passant_take(b, last, r, c, player, temp@, k + 1) == en_passant_take(
                b,
                last,
                r,
                c,
                player,
                temp@,
                k as int,
            ) + en_passant_to(b, last, r, c, player, i as int));
        }
        assert(legal_moves.deep_view() =~= en_passant_take(b, last, r, c, player, temp@, k + 1));
        k += 1;
    }
    assert(en_passant_take(b, last, r, c, player, temp@, 0) =~= Seq::<Seq<usize>>::empty());
    if temp.len() >= 1 {
        assert(en_passant_take(b, last, r, c, player, temp@, 1) =~= en_passant_to(
            b,
            last,
            r,
            c,
            player,
            temp@[0] as int,
        ));
    }
    assert(en_passant_take(b, last, r, c, player, temp@, temp.len() as int) =~= en_passant_moves(
        b,
        h,
        r,
        c,
        player,
    ));

    legal_moves
}

/// The en passant captures towards the first `k` columns of `cols`.
pub open spec fn en_passant_take(
    b: Seq<Seq<i8>>,
    last: Seq<Seq<i8>>,
    r: int,
    c: int,
    player: i8,
    cols: Seq<usize>,
    k: int,
) -> Seq<Seq<usize>>
    decreases k,
{
    if k <= 0 {
        seq![]
    } else {
        en_passant_take(b, last, r, c, player, cols, k - 1) + en_passant_to(b, last, r, c, player, cols[k - 1] as int)
    }
}


// ---------------------------------------------------------------------------
// All pieces
// ---------------------------------------------------------------------------

pub open spec fn abs8(x: i8) -> int {
    if x < 0 {
        -x
    } else {
        x as int
    }
}

/// The moves of the piece on `(r, c)`, by its kind.
pub open spec fn spec_piece_moves(b: Seq<Seq<i8>>, h: Seq<Seq<Seq<i8>>>, r: int, c: int, player: i8) -> Seq<
    Seq<usize>,
> {
    let kind = abs8(b[r][c]);
    if kind == 6 {
        spec_king_moves(b, r, c, player)
    } else if kind == 5 {
        spec_direction_moves(b, r, c, player, queen_dirs())
    } else if kind == 4 {
        spec_direction_moves(b, r, c, player, rook_dirs())
    } else if kind == 3 {
        spec_direction_moves(b, r, c, player, bishop_dirs())
    } else if kind == 2 {
        spec_knight_moves(b, r, c, player)
    } else if kind == 1 {
        spec_pawn_moves(b, h, r, c, player)
    } else {
        seq![]
    }
}

/// A pawn of the piece kind at `(r, c)` can be moved.
pub open spec fn piece_ok(b: Seq<Seq<i8>>, h: Seq<Seq<Seq<i8>>>, r: int, c: int, player: i8) -> bool {
    abs8(b[r][c]) == 1 ==> pawn_ok(h, r, c, player)
}

pub fn get_legal_moves(
    board: &Vec<Vec<i8>>,
    board_history: &Vec<Vec<Vec<i8>>>,
    start: (usize, usize),
    player: i8,
) -> (legal_moves: Vec<Vec<usize>>)
    requires
        valid_board(board.deep_view()),
        start.0 < 8 && start.1 < 8,
        is_side(player),
        piece_ok(board.deep_view(), board_history.deep_view(), start.0 as int, start.1 as int, player),
    ensures
        legal_moves.deep_view() == spec_piece_moves(
            board.deep_view(),
            board_history.deep_view(),
            start.0 as int,
            start.1 as int,
            player,
        ),
{
    let ghost b = board.deep_view();
    assert(board@[start.0 as int]@.len() == 8) by {
        assert(b[start.0 as int].len() == 8);
    }
    let piece = board[start.0][start.1];
    assert(piece == b[start.0 as int][start.1 as int]);
    let kind = if piece < 0 { -piece } else { piece };
    let legal_moves = match kind {
        6 => legal_king_moves(board, start, player),
        5 => legal_queen_moves(board, start, player),
        4 => legal_rook_moves(board, start, player),
        3 => legal_bishop_moves(board, start, player),
        2 => legal_knight_moves(board, start, player),
        1 => legal_pawn_moves(board, board_history, start, player),
        _ => {
            let v: Vec<Vec<usize>> = Vec::new();
            assert(v.deep_view() =~= Seq::<Seq<usize>>::empty());
            v
        },
    };

    legal_moves
}

/// The moves of `player`'s pieces on the squares `k < n` in row-major order
/// (square `k` is row `k / 8`, column `k % 8`).
pub open spec fn moves_upto(b: Seq<Seq<i8>>, h: Seq<Seq<Seq<i8>>>, player: i8, n: int) -> Seq<Seq<usize>>
    decreases n,
{
    if n <= 0 {
        seq![]
    } else {
        let r = (n - 1) / 8;
        let c = (n - 1) % 8;
        moves_upto(b, h, player, n - 1) + if own(b, r, c, player) {
            spec_piece_moves(b, h, r, c, player)
        } else {
            seq![]
        }
    }
}

/// All moves of `player`: piece by piece in row-major order, without the moves that leave
/// `player` in check (no castling).
pub open spec fn spec_all_legal_moves(b: Seq<Seq<i8>>, h: Seq<Seq<Seq<i8>>>, player: i8) -> Seq<Seq<usize>> {
    moves_upto(b, h, player, 64)
}

/// Every piece of `player` can be moved (see `pawn_ok`).
pub open spec fn pieces_ok(b: Seq<Seq<i8>>, h: Seq<Seq<Seq<i8>>>, player: i8) -> bool {
    forall|r: int, c: int| 0 <= r < 8 && 0 <= c < 8 && #[trigger] own(b, r, c, player) ==> piece_ok(b, h, r, c, player)
}

/// The squares `(k / 8, k % 8)`, `k < n`, holding a piece of `player`.
pub open spec fn own_squares(b: Seq<Seq<i8>>, player: i8, n: int) -> Seq<(usize, usize)>
    decreases n,
{
    if n <= 0 {
        seq![]
    } else {
        own_squares(b, player, n - 1) + if own(b, (n - 1) / 8, (n - 1) % 8, player) {
            seq![(((n - 1) / 8) as usize, ((n - 1) % 8) as usize)]
        } else {
            seq![]
        }
    }
}

/// The moves of the pieces on the first `k` squares of `sq`.
pub open spec fn moves_of(b: Seq<Seq<i8>>, h: Seq<Seq<Seq<i8>>>, player: i8, sq: Seq<(usize, usize)>, k: int) -> Seq<
    Seq<usize>,
>
    decreases k,
{
    if k <= 0 {
        seq![]
    } else {
        moves_of(b, h, player, sq, k - 1) + spec_piece_moves(b, h, sq[k - 1].0 as int, sq[k - 1].1 as int, player)
    }
}

proof fn lemma_moves_of_squares(b: Seq<Seq<i8>>, h: Seq<Seq<Seq<i8>>>, player: i8, n: int)
    requires
        0 <= n <= 64,
    ensures
        moves_of(b, h, player, own_squares(b, player, n), own_squares(b, player, n).len() as int)
            == moves_upto(b, h, player, n),
        forall|k: int| 0 <= k < own_squares(b, player, n).len() ==> {
            let q = #[trigger] own_squares(b, player, n)[k];
            q.0 < 8 && q.1 < 8 && own(b, q.0 as int, q.1 as int, player)
        },
    decreases n,
{
    if n > 0 {
        lemma_moves_of_squares(b, h, player, n - 1);
        let prev = own_squares(b, player, n - 1);
        let cur = own_squares(b, player, n);
        assert forall|k: int| 0 <= k < prev.len() implies #[trigger] cur[k] == prev[k] by {}
        lemma_moves_of_prefix(b, h, player, prev, cur, prev.len() as int);
        if own(b, (n - 1) / 8, (n - 1) % 8, player) {
            assert(cur.len() == prev.len() + 1);
        } else {
            assert(cur =~= prev);
        }
    }
}

proof fn lemma_moves_of_prefix(
    b: Seq<Seq<i8>>,
    h: Seq<Seq<Seq<i8>>>,
    player: i8,
    s: Seq<(usize, usize)>,
    t: Seq<(usize, usize)>,
    k: int,
)
    requires
        0 <= k <= s.len(),
        k <= t.len(),
        forall|j: int| 0 <= j < k ==> #[trigger] t[j] == s[j],
    ensures
        moves_of(b, h, player, t, k) == moves_of(b, h, player, s, k),
    decreases k,
{
    if k > 0 {
        lemma_moves_of_prefix(b, h, player, s, t, k - 1);
    }
}

/// Whether every piece of `player` can be moved (see `pieces_ok`): every pawn has
/// a row in front of it, and on the row where it could take en passant the
/// previous board, if any, is 8x8.
pub fn pieces_movable(board: &Vec<Vec<i8>>, board_history: &Vec<Vec<Vec<i8>>>, player: i8) -> (r: bool)
    requires
        valid_board(board.deep_view()),
        is_side(player),
    ensures
        r == pieces_ok(board.deep_view(), board_history.deep_view(), player),
{
    let ghost b = board.deep_view();
    let ghost h = board_history.deep_view();
    let mut last_ok = true;
    if board_history.len() > 0 {
        let last = &board_history[board_history.len() - 1];
        assert(last.deep_view() == h.last());
        if last.len() != 8 {
            last_ok = false;
        } else {
            let mut k: usize = 0;
            while k < 8
                invariant
                    last.len() == 8,
                    last.deep_view() == h.last(),
                    k <= 8,
                    last_ok == (forall|q: int| 0 <= q < k ==> #[trigger] h.last()[q].len() == 8),
                decreases 8 - k,
            {
                assert(last.deep_view()[k as int] == last@[k as int]@);
                if last[k].len() != 8 {
                    last_ok = false;
                }
                k += 1;
            }
        }
    }
    assert(h.len() > 0 ==> (last_ok == square_shape(h.last())));
    let ep_row: usize = if player == 1 { 4 } else { 3 };
    let mut i: usize = 0;
    while i < 8
        invariant
            b == board.deep_view(),
            valid_board(b),
            is_side(player),
            h == board_history.deep_view(),
            h.len() > 0 ==> (last_ok == square_shape(h.last())),
            ep_row == spec_en_passant_row(player),
            i <= 8,
            forall|r: int, c: int| 0 <= r < i && 0 <= c < 8 && #[trigger] own(b, r, c, player) ==> piece_ok(b, h, r, c, player),
        decreases 8 - i,
    {
        let mut j: usize = 0;
        while j < 8
            invariant
                b == board.deep_view(),
                valid_board(b),
                is_side(player),
                h == board_history.deep_view(),
                h.len() > 0 ==> (last_ok == square_shape(h.last())),
                ep_row == spec_en_passant_row(player),
                i < 8,
                j <= 8,
                forall|r: int, c: int|
                    (0 <= r < i && 0 <= c < 8 || r == i && 0 <= c < j) && #[trigger] own(b, r, c, player) ==> piece_ok(
                        b,
                        h,
                        r,
                        c,
                        player,
                    ),
            decreases 8 - j,
        {
            assert(board@[i as int]@.len() == 8) by {
                assert(b[i as int].len() == 8);
            }
            let p = board[i][j];
            assert(p == b[i as int][j as int]);
            if p == player {
                // a pawn of `player`
                let ahead_ok = if player == 1 { i < 7 } else { i > 0 };
                if !ahead_ok || (i == ep_row && board_history.len() > 0 && !last_ok) {
                    assert(own(b, i as int, j as int, player));
                    assert(!piece_ok(b, h, i as int, j as int, player));
                    return false;
                }
            }
            j += 1;
        }
        i += 1;
    }
    true
}

pub fn get_all_legal_moves(board: &Vec<Vec<i8>>, board_history: Vec<Vec<Vec<i8>>>, player: i8) -> (legal_moves: Vec<
    Vec<usize>,
>)
    requires
        valid_board(board.deep_view()),
        is_side(player),
        pieces_ok(board.deep_view(), board_history.deep_view(), player),
    ensures
        legal_moves.deep_view() == spec_all_legal_moves(board.deep_view(), board_history.deep_view(), player),
{
    let ghost b = board.deep_view();
    let ghost h = board_history.deep_view();
    let mut legal_moves: Vec<Vec<usize>> = Vec::new();
    let mut pieces: Vec<(usize, usize)> = Vec::new();
    let mut i: usize = 0;
    while i < 8
        invariant
            b == board.deep_view(),
            valid_board(b),
            is_side(player),
            i <= 8,
            pieces@ == own_squares(b, player, 8 * i),
        decreases 8 - i,
    {
        let mut j: usize = 0;
        while j < 8
            invariant
                b == board.deep_view(),
                valid_board(b),
                is_side(player),
                i < 8,
                j <= 8,
                pieces@ == own_squares(b, player, 8 * i + j),
            decreases 8 - j,
        {
            assert(board@[i as int]@.len() == 8) by {
                assert(b[i as int].len() == 8);
            }
            let x = board[i][j];
            assert(x == b[i as int][j as int]);
            assert(-6 <= x * player <= 6) by (nonlinear_arith)
                requires
                    -6 <= x <= 6,
                    player == 1 || player == -1,
            ;
            assert((8 * i + j) / 8 == i as int && (8 * i + j) % 8 == j as int);
            if x * player > 0 {
                pieces.push((i, j));
            }
            assert(pieces@ =~= own_squares(b, player, 8 * i + j + 1));
            j += 1;
        }
        i += 1;
    }
    proof {
        lemma_moves_of_squares(b, h, player, 64);
    }
    let ghost sq = pieces@;
    let mut k: usize = 0;
    while k < pieces.len()
        invariant
            b == board.deep_view(),
            h == board_history.deep_view(),
            valid_board(b),
            is_side(player),
            pieces_ok(b, h, player),
            sq == pieces@,
            sq == own_squares(b, player, 64),
            forall|q: int| 0 <= q < sq.len() ==> {
                let s = #[trigger] sq[q];
                s.0 < 8 && s.1 < 8 && own(b, s.0 as int, s.1 as int, player)
            },
            k <= pieces.len(),
            legal_moves.deep_view() == moves_of(b, h, player, sq, k as int),
        decreases pieces.len() - k,
    {
        let piece = pieces[k];
        assert(sq[k as int] == piece);
        let mut piece_legal_moves = get_legal_moves(board, &board_history, piece, player);
        let ghost a = legal_moves.deep_view();
        let ghost m = piece_legal_moves.deep_view();
        legal_moves.append(&mut piece_legal_moves);
        assert(legal_moves.deep_view() =~= a + m);
        k += 1;
    }

    legal_moves
}


// ---------------------------------------------------------------------------
// Shape of the generated moves
// ---------------------------------------------------------------------------

/// A generated move: `[from row, from col, to row, to col]` on the board, starting
/// on a piece of `player`.
pub open spec fn move_shape(b: Seq<Seq<i8>>, player: i8, m: Seq<usize>) -> bool {
    &&& m.len() == 4
    &&& m[0] < 8 && m[1] < 8 && m[2] < 8 && m[3] < 8
    &&& own(b, m[0] as int, m[1] as int, player)
}

pub open spec fn all_shaped(b: Seq<Seq<i8>>, player: i8, s: Seq<Seq<usize>>) -> bool {
    forall|j: int| 0 <= j < s.len() ==> #[trigger] move_shape(b, player, s[j])
}

proof fn lemma_shaped_concat(b: Seq<Seq<i8>>, player: i8, s: Seq<Seq<usize>>, t: Seq<Seq<usize>>)
    requires
        all_shaped(b, player, s),
        all_shaped(b, player, t),
    ensures
        all_shaped(b, player, s + t),
{
    assert forall|j: int| 0 <= j < (s + t).len() implies #[trigger] move_shape(b, player, (s + t)[j]) by {
        if j < s.len() {
            assert((s + t)[j] == s[j]);
        } else {
            assert((s + t)[j] == t[j - s.len()]);
        }
    }
}

proof fn lemma_on_board_concat(s: Seq<(usize, usize)>, t: Seq<(usize, usize)>)
    requires
        all_on_board(s),
        all_on_board(t),
    ensures
        all_on_board(s + t),
{
    assert forall|j: int| 0 <= j < (s + t).len() implies (#[trigger] (s + t)[j]).0 < 8 && (s + t)[j].1 < 8 by {
        if j < s.len() {
            assert((s + t)[j] == s[j]);
        } else {
            assert((s + t)[j] == t[j - s.len()]);
        }
    }
}

proof fn lemma_legal_to_shaped(
    b: Seq<Seq<i8>>,
    player: i8,
    r: int,
    c: int,
    targets: Seq<(usize, usize)>,
    n: int,
)
    requires
        0 <= r < 8 && 0 <= c < 8,
        own(b, r, c, player),
        all_on_board(targets),
        n <= targets.len(),
    ensures
        all_shaped(b, player, legal_to(b, r, c, player, targets, n)),
    decreases n,
{
    if n > 0 {
        lemma_legal_to_shaped(b, player, r, c, targets, n - 1);
        let t = targets[n - 1];
        let last = if !spec_in_check(board_after(b, r, c, t.0 as int, t.1 as int), player) {
            seq![seq![r as usize, c as usize, t.0, t.1]]
        } else {
            seq![]
        };
        assert(all_shaped(b, player, last));
        lemma_shaped_concat(b, player, legal_to(b, r, c, player, targets, n - 1), last);
    }
}

proof fn lemma_moves_to_shaped(b: Seq<Seq<i8>>, player: i8, r: int, c: int, targets: Seq<(usize, usize)>)
    requires
        0 <= r < 8 && 0 <= c < 8,
        own(b, r, c, player),
        all_on_board(targets),
    ensures
        all_shaped(b, player, legal_moves_to(b, r, c, player, targets)),
{
    lemma_legal_to_shaped(b, player, r, c, targets, targets.len() as int);
}

proof fn lemma_king_targets_on_board(b: Seq<Seq<i8>>, r: int, c: int, player: i8, n: int)
    ensures
        all_on_board(king_block(b, r, c, player, n)),
    decreases n,
{
    if n > 0 {
        lemma_king_targets_on_board(b, r, c, player, n - 1);
        lemma_king_line_on_board(b, r - 1 + (n - 1), c, player, 3);
        lemma_on_board_concat(king_block(b, r, c, player, n - 1), king_line(b, r - 1 + (n - 1), c, player, 3));
    }
}

proof fn lemma_king_line_on_board(b: Seq<Seq<i8>>, i: int, c: int, player: i8, n: int)
    ensures
        all_on_board(king_line(b, i, c, player, n)),
    decreases n,
{
    if n > 0 {
        lemma_king_line_on_board(b, i, c, player, n - 1);
        let j = c - 1 + (n - 1);
        let last = if on_board(i, j) && b[i][j] * player <= 0 {
            seq![(i as usize, j as usize)]
        } else {
            seq![]
        };
        lemma_on_board_concat(king_line(b, i, c, player, n - 1), last);
    }
}

proof fn lemma_knight_targets_on_board(b: Seq<Seq<i8>>, r: int, c: int, player: i8, n: int)
    ensures
        all_on_board(knight_targets(b, r, c, player, n)),
    decreases n,
{
    if n > 0 {
        lemma_knight_targets_on_board(b, r, c, player, n - 1);
        let a = r + knight_dirs()[n - 1].0;
        let d = c + knight_dirs()[n - 1].1;
        let last = if on_board(a, d) && !own(b, a, d, player) {
            seq![(a as usize, d as usize)]
        } else {
            seq![]
        };
        lemma_on_board_concat(knight_targets(b, r, c, player, n - 1), last);
    }
}

proof fn lemma_ray_on_board(b: Seq<Seq<i8>>, r: int, c: int, player: i8, d: (i8, i8), i: int)
    ensures
        all_on_board(ray(b, r, c, player, d, i)),
    decreases 8 - i,
{
    if 1 <= i < 8 {
        let a = r + d.0 * i;
        let e = c + d.1 * i;
        if on_board(a, e) && !own(b, a, e, player) && b[a][e] * player == 0 {
            lemma_ray_on_board(b, r, c, player, d, i + 1);
            lemma_on_board_concat(seq![(a as usize, e as usize)], ray(b, r, c, player, d, i + 1));
        }
    }
}

proof fn lemma_rays_on_board(b: Seq<Seq<i8>>, r: int, c: int, player: i8, dirs: Seq<(i8, i8)>, n: int)
    ensures
        all_on_board(rays(b, r, c, player, dirs, n)),
    decreases n,
{
    if n > 0 {
        lemma_rays_on_board(b, r, c, player, dirs, n - 1);
        lemma_ray_on_board(b, r, c, player, dirs[n - 1], 1);
        lemma_on_board_concat(rays(b, r, c, player, dirs, n - 1), ray(b, r, c, player, dirs[n - 1], 1));
    }
}

#[verifier::spinoff_prover]
#[verifier::rlimit(40)]
proof fn lemma_piece_moves_shaped(b: Seq<Seq<i8>>, h: Seq<Seq<Seq<i8>>>, r: int, c: int, player: i8)
    requires
        valid_board(b),
        is_side(player),
        0 <= r < 8 && 0 <= c < 8,
        own(b, r, c, player),
        piece_ok(b, h, r, c, player),
    ensures
        all_shaped(b, player, spec_piece_moves(b, h, r, c, player)),
{
    let kind = abs8(b[r][c]);
    if kind == 6 {
        lemma_king_targets_on_board(b, r, c, player, 3);
        lemma_moves_to_shaped(b, player, r, c, king_block(b, r, c, player, 3));
    } else if kind == 5 || kind == 4 || kind == 3 {
        let dirs = if kind == 5 {
            queen_dirs()
        } else if kind == 4 {
            rook_dirs()
        } else {
            bishop_dirs()
        };
        lemma_rays_on_board(b, r, c, player, dirs, dirs.len() as int);
        lemma_moves_to_shaped(b, player, r, c, rays(b, r, c, player, dirs, dirs.len() as int));
    } else if kind == 2 {
        lemma_knight_targets_on_board(b, r, c, player, 8);
        lemma_moves_to_shaped(b, player, r, c, knight_targets(b, r, c, player, 8));
    } else if kind == 1 {
        let t = pawn_targets(b, r, c, player);
        assert(all_on_board(t));
        lemma_moves_to_shaped(b, player, r, c, t);
        let ep = en_passant_moves(b, h, r, c, player);
        if r == spec_en_passant_row(player) && h.len() > 0 {
            let last = h.last();
            let right = if c < 7 {
                en_passant_to(b, last, r, c, player, c + 1)
            } else {
                seq![]
            };
            let left = if c > 0 {
                en_passant_to(b, last, r, c, player, c - 1)
            } else {
                seq![]
            };
            assert(all_shaped(b, player, right));
            assert(all_shaped(b, player, left));
            lemma_shaped_concat(b, player, right, left);
        }
        assert(all_shaped(b, player, ep));
        lemma_shaped_concat(b, player, ep, legal_moves_to(b, r, c, player, t));
    }
}

proof fn lemma_moves_upto_shaped(b: Seq<Seq<i8>>, h: Seq<Seq<Seq<i8>>>, player: i8, n: int)
    requires
        valid_board(b),
        is_side(player),
        pieces_ok(b, h, player),
        0 <= n <= 64,
    ensures
        all_shaped(b, player, moves_upto(b, h, player, n)),
    decreases n,
{
    if n > 0 {
        lemma_moves_upto_shaped(b, h, player, n - 1);
        let r = (n - 1) / 8;
        let c = (n - 1) % 8;
        if own(b, r, c, player) {
            lemma_piece_moves_shaped(b, h, r, c, player);
            lemma_shaped_concat(b, player, moves_upto(b, h, player, n - 1), spec_piece_moves(b, h, r, c, player));
        } else {
            lemma_shaped_concat(b, player, moves_upto(b, h, player, n - 1), seq![]);
        }
    }
}

// ---------------------------------------------------------------------------
// Where the generated moves land
// ---------------------------------------------------------------------------

/// The targets are on the board and hold no piece of `player`.
pub open spec fn all_free(b: Seq<Seq<i8>>, player: i8, targets: Seq<(usize, usize)>) -> bool {
    forall|k: int|
        0 <= k < targets.len() ==> (#[trigger] targets[k]).0 < 8 && targets[k].1 < 8 && !own(
            b,
            targets[k].0 as int,
            targets[k].1 as int,
            player,
        )
}

/// The move `m` of `player` lands on a square without a piece of `player`, or it is
/// an en passant capture: a pawn on its en passant row, with a previous board.
pub open spec fn lands_free(b: Seq<Seq<i8>>, h: Seq<Seq<Seq<i8>>>, player: i8, m: Seq<usize>) -> bool {
    ||| !own(b, m[2] as int, m[3] as int, player)
    ||| abs8(b[m[0] as int][m[1] as int]) == 1 && m[0] == spec_en_passant_row(player) && h.len() > 0
}

pub open spec fn all_land_free(b: Seq<Seq<i8>>, h: Seq<Seq<Seq<i8>>>, player: i8, s: Seq<Seq<usize>>) -> bool {
    forall|j: int| 0 <= j < s.len() ==> #[trigger] lands_free(b, h, player, s[j])
}

proof fn lemma_free_concat(b: Seq<Seq<i8>>, player: i8, s: Seq<(usize, usize)>, t: Seq<(usize, usize)>)
    requires
        all_free(b, player, s),
        all_free(b, player, t),
    ensures
        all_free(b, player, s + t),
{
    assert forall|j: int| 0 <= j < (s + t).len() implies (#[trigger] (s + t)[j]).0 < 8 && (s + t)[j].1 < 8
        && !own(b, (s + t)[j].0 as int, (s + t)[j].1 as int, player) by {
        if j < s.len() {
            assert((s + t)[j] == s[j]);
        } else {
            assert((s + t)[j] == t[j - s.len()]);
        }
    }
}

proof fn lemma_land_concat(b: Seq<Seq<i8>>, h: Seq<Seq<Seq<i8>>>, player: i8, s: Seq<Seq<usize>>, t: Seq<Seq<usize>>)
    requires
        all_land_free(b, h, player, s),
        all_land_free(b, h, player, t),
    ensures
        all_land_free(b, h, player, s + t),
{
    assert forall|j: int| 0 <= j < (s + t).len() implies #[trigger] lands_free(b, h, player, (s + t)[j]) by {
        if j < s.len() {
            assert((s + t)[j] == s[j]);
        } else {
            assert((s + t)[j] == t[j - s.len()]);
        }
    }
}

proof fn lemma_king_line_free(b: Seq<Seq<i8>>, i: int, c: int, player: i8, n: int)
    ensures
        all_free(b, player, king_line(b, i, c, player, n)),
    decreases n,
{
    if n > 0 {
        lemma_king_line_free(b, i, c, player, n - 1);
        let j = c - 1 + (n - 1);
        let last = if on_board(i, j) && b[i][j] * player <= 0 {
            seq![(i as usize, j as usize)]
        } else {
            seq![]
        };
        lemma_free_concat(b, player, king_line(b, i, c, player, n - 1), last);
    }
}

proof fn lemma_king_block_free(b: Seq<Seq<i8>>, r: int, c: int, player: i8, n: int)
    ensures
        all_free(b, player, king_block(b, r, c, player, n)),
    decreases n,
{
    if n > 0 {
        lemma_king_block_free(b, r, c, player, n - 1);
        lemma_king_line_free(b, r - 1 + (n - 1), c, player, 3);
        lemma_free_concat(b, player, king_block(b, r, c, player, n - 1), king_line(b, r - 1 + (n - 1), c, player, 3));
    }
}

proof fn lemma_knight_targets_free(b: Seq<Seq<i8>>, r: int, c: int, player: i8, n: int)
    ensures
        all_free(b, player, knight_targets(b, r, c, player, n)),
    decreases n,
{
    if n > 0 {
        lemma_knight_targets_free(b, r, c, player, n - 1);
        let a = r + knight_dirs()[n - 1].0;
        let d = c + knight_dirs()[n - 1].1;
        let last = if on_board(a, d) && !own(b, a, d, player) {
            seq![(a as usize, d as usize)]
        } else {
            seq![]
        };
        lemma_free_concat(b, player, knight_targets(b, r, c, player, n - 1), last);
    }
}

proof fn lemma_ray_free(b: Seq<Seq<i8>>, r: int, c: int, player: i8, d: (i8, i8), i: int)
    ensures
        all_free(b, player, ray(b, r, c, player, d, i)),
    decreases 8 - i,
{
    if 1 <= i < 8 {
        let a = r + d.0 * i;
        let e = c + d.1 * i;
        if on_board(a, e) && !own(b, a, e, player) && b[a][e] * player == 0 {
            lemma_ray_free(b, r, c, player, d, i + 1);
            lemma_free_concat(b, player, seq![(a as usize, e as usize)], ray(b, r, c, player, d, i + 1));
        }
    }
}

proof fn lemma_rays_free(b: Seq<Seq<i8>>, r: int, c: int, player: i8, dirs: Seq<(i8, i8)>, n: int)
    ensures
        all_free(b, player, rays(b, r, c, player, dirs, n)),
    decreases n,
{
    if n > 0 {
        lemma_rays_free(b, r, c, player, dirs, n - 1);
        lemma_ray_free(b, r, c, player, dirs[n - 1], 1);
        lemma_free_concat(b, player, rays(b, r, c, player, dirs, n - 1), ray(b, r, c, player, dirs[n - 1], 1));
    }
}

proof fn lemma_legal_to_land(
    b: Seq<Seq<i8>>,
    h: Seq<Seq<Seq<i8>>>,
    player: i8,
    r: int,
    c: int,
    targets: Seq<(usize, usize)>,
    n: int,
)
    requires
        all_free(b, player, targets),
        n <= targets.len(),
    ensures
        all_land_free(b, h, player, legal_to(b, r, c, player, targets, n)),
    decreases n,
{
    if n > 0 {
        lemma_legal_to_land(b, h, player, r, c, targets, n - 1);
        let t = targets[n - 1];
        let last = if !spec_in_check(board_after(b, r, c, t.0 as int, t.1 as int), player) {
            seq![seq![r as usize, c as usize, t.0, t.1]]
        } else {
            seq![]
        };
        assert(all_land_free(b, h, player, last));
        lemma_land_concat(b, h, player, legal_to(b, r, c, player, targets, n - 1), last);
    }
}

proof fn lemma_moves_to_land(b: Seq<Seq<i8>>, h: Seq<Seq<Seq<i8>>>, player: i8, r: int, c: int, targets: Seq<(usize, usize)>)
    requires
        all_free(b, player, targets),
    ensures
        all_land_free(b, h, player, legal_moves_to(b, r, c, player, targets)),
{
    lemma_legal_to_land(b, h, player, r, c, targets, targets.len() as int);
}

#[verifier::spinoff_prover]
#[verifier::rlimit(40)]
proof fn lemma_piece_moves_land(b: Seq<Seq<i8>>, h: Seq<Seq<Seq<i8>>>, r: int, c: int, player: i8)
    requires
        valid_board(b),
        is_side(player),
        0 <= r < 8 && 0 <= c < 8,
        own(b, r, c, player),
        piece_ok(b, h, r, c, player),
    ensures
        all_land_free(b, h, player, spec_piece_moves(b, h, r, c, player)),
{
    let kind = abs8(b[r][c]);
    if kind == 6 {
        lemma_king_block_free(b, r, c, player, 3);
        lemma_moves_to_land(b, h, player, r, c, king_block(b, r, c, player, 3));
    } else if kind == 5 || kind == 4 || kind == 3 {
        let dirs = if kind == 5 {
            queen_dirs()
        } else if kind == 4 {
            rook_dirs()
        } else {
            bishop_dirs()
        };
        lemma_rays_free(b, r, c, player, dirs, dirs.len() as int);
        lemma_moves_to_land(b, h, player, r, c, rays(b, r, c, player, dirs, dirs.len() as int));
    } else if kind == 2 {
        lemma_knight_targets_free(b, r, c, player, 8);
        lemma_moves_to_land(b, h, player, r, c, knight_targets(b, r, c, player, 8));
    } else if kind == 1 {
        let t = pawn_targets(b, r, c, player);
        assert(all_free(b, player, t));
        lemma_moves_to_land(b, h, player, r, c, t);
        let ep = en_passant_moves(b, h, r, c, player);
        assert(all_land_free(b, h, player, ep));
        lemma_land_concat(b, h, player, ep, legal_moves_to(b, r, c, player, t));
    }
}

proof fn lemma_moves_upto_land(b: Seq<Seq<i8>>, h: Seq<Seq<Seq<i8>>>, player: i8, n: int)
    requires
        valid_board(b),
        is_side(player),
        pieces_ok(b, h, player),
        0 <= n <= 64,
    ensures
        all_land_free(b, h, player, moves_upto(b, h, player, n)),
    decreases n,
{
    if n > 0 {
        lemma_moves_upto_land(b, h, player, n - 1);
        let r = (n - 1) / 8;
        let c = (n - 1) % 8;
        if own(b, r, c, player) {
            lemma_piece_moves_land(b, h, r, c, player);
            lemma_land_concat(b, h, player, moves_upto(b, h, player, n - 1), spec_piece_moves(b, h, r, c, player));
        } else {
            lemma_land_concat(b, h, player, moves_upto(b, h, player, n - 1), seq![]);
        }
    }
}

/// No generated move lands on a piece of the side that moves, except an en passant
/// capture, whose target square the generator does not look at.
pub proof fn lemma_moves_land_free(b: Seq<Seq<i8>>, h: Seq<Seq<Seq<i8>>>, player: i8)
    requires
        valid_board(b),
        is_side(player),
        pieces_ok(b, h, player),
    ensures
        all_land_free(b, h, player, spec_all_legal_moves(b, h, player)),
{
    lemma_moves_upto_land(b, h, player, 64);
}

// ---------------------------------------------------------------------------
// The generated moves keep the king safe
// ---------------------------------------------------------------------------

/// After the move `m` of `player`, its king is not attacked: on the board with the
/// piece moved, or, for an en passant capture (a pawn on its en passant row, with a
/// previous board), on the board with the passed pawn taken as well.
pub open spec fn keeps_king_safe(b: Seq<Seq<i8>>, h: Seq<Seq<Seq<i8>>>, player: i8, m: Seq<usize>) -> bool {
    let (r0, c0, r1, c1) = (m[0] as int, m[1] as int, m[2] as int, m[3] as int);
    ||| !spec_in_check(board_after(b, r0, c0, r1, c1), player)
    ||| abs8(b[r0][c0]) == 1 && r0 == spec_en_passant_row(player) && h.len() > 0 && !spec_in_check(
        en_passant_board(b, r0, c0, r1, c1),
        player,
    )
}

pub open spec fn all_safe(b: Seq<Seq<i8>>, h: Seq<Seq<Seq<i8>>>, player: i8, s: Seq<Seq<usize>>) -> bool {
    forall|j: int| 0 <= j < s.len() ==> #[trigger] keeps_king_safe(b, h, player, s[j])
}

proof fn lemma_safe_concat(b: Seq<Seq<i8>>, h: Seq<Seq<Seq<i8>>>, player: i8, s: Seq<Seq<usize>>, t: Seq<Seq<usize>>)
    requires
        all_safe(b, h, player, s),
        all_safe(b, h, player, t),
    ensures
        all_safe(b, h, player, s + t),
{
    assert forall|j: int| 0 <= j < (s + t).len() implies #[trigger] keeps_king_safe(b, h, player, (s + t)[j]) by {
        if j < s.len() {
            assert((s + t)[j] == s[j]);
        } else {
            assert((s + t)[j] == t[j - s.len()]);
        }
    }
}

proof fn lemma_legal_to_safe(
    b: Seq<Seq<i8>>,
    h: Seq<Seq<Seq<i8>>>,
    player: i8,
    r: int,
    c: int,
    targets: Seq<(usize, usize)>,
    n: int,
)
    requires
        0 <= r < 8 && 0 <= c < 8,
        n <= targets.len(),
    ensures
        all_safe(b, h, player, legal_to(b, r, c, player, targets, n)),
    decreases n,
{
    if n > 0 {
        lemma_legal_to_safe(b, h, player, r, c, targets, n - 1);
        let t = targets[n - 1];
        let last = if !spec_in_check(board_after(b, r, c, t.0 as int, t.1 as int), player) {
            seq![seq![r as usize, c as usize, t.0, t.1]]
        } else {
            seq![]
        };
        assert(all_safe(b, h, player, last));
        lemma_safe_concat(b, h, player, legal_to(b, r, c, player, targets, n - 1), last);
    }
}

#[verifier::spinoff_prover]
#[verifier::rlimit(40)]
proof fn lemma_piece_moves_safe(b: Seq<Seq<i8>>, h: Seq<Seq<Seq<i8>>>, r: int, c: int, player: i8)
    requires
        valid_board(b),
        is_side(player),
        0 <= r < 8 && 0 <= c < 8,
        own(b, r, c, player),
        piece_ok(b, h, r, c, player),
    ensures
        all_safe(b, h, player, spec_piece_moves(b, h, r, c, player)),
{
    let kind = abs8(b[r][c]);
    if kind == 6 {
        let t = king_block(b, r, c, player, 3);
        lemma_legal_to_safe(b, h, player, r, c, t, t.len() as int);
    } else if kind == 5 || kind == 4 || kind == 3 {
        let dirs = if kind == 5 {
            queen_dirs()
        } else if kind == 4 {
            rook_dirs()
        } else {
            bishop_dirs()
        };
        let t = rays(b, r, c, player, dirs, dirs.len() as int);
        lemma_legal_to_safe(b, h, player, r, c, t, t.len() as int);
    } else if kind == 2 {
        let t = knight_targets(b, r, c, player, 8);
        lemma_legal_to_safe(b, h, player, r, c, t, t.len() as int);
    } else if kind == 1 {
        let t = pawn_targets(b, r, c, player);
        lemma_legal_to_safe(b, h, player, r, c, t, t.len() as int);
        let ep = en_passant_moves(b, h, r, c, player);
        if r == spec_en_passant_row(player) && h.len() > 0 {
            let last = h.last();
            let right = if c < 7 {
                en_passant_to(b, last, r, c, player, c + 1)
            } else {
                seq![]
            };
            let left = if c > 0 {
                en_passant_to(b, last, r, c, player, c - 1)
            } else {
                seq![]
            };
            assert(all_safe(b, h, player, right));
            assert(all_safe(b, h, player, left));
            lemma_safe_concat(b, h, player, right, left);
        }
        assert(all_safe(b, h, player, ep));
        lemma_safe_concat(b, h, player, ep, legal_moves_to(b, r, c, player, t));
    }
}

proof fn lemma_moves_upto_safe(b: Seq<Seq<i8>>, h: Seq<Seq<Seq<i8>>>, player: i8, n: int)
    requires
        valid_board(b),
        is_side(player),
        pieces_ok(b, h, player),
        0 <= n <= 64,
    ensures
        all_safe(b, h, player, moves_upto(b, h, player, n)),
    decreases n,
{
    if n > 0 {
        lemma_moves_upto_safe(b, h, player, n - 1);
        let r = (n - 1) / 8;
        let c = (n - 1) % 8;
        if own(b, r, c, player) {
            lemma_piece_moves_safe(b, h, r, c, player);
            lemma_safe_concat(b, h, player, moves_upto(b, h, player, n - 1), spec_piece_moves(b, h, r, c, player));
        } else {
            lemma_safe_concat(b, h, player, moves_upto(b, h, player, n - 1), seq![]);
        }
    }
}

/// No generated move leaves the king of the side that moves attacked.
pub proof fn lemma_moves_keep_king_safe(b: Seq<Seq<i8>>, h: Seq<Seq<Seq<i8>>>, player: i8)
    requires
        valid_board(b),
        is_side(player),
        pieces_ok(b, h, player),
    ensures
        all_safe(b, h, player, spec_all_legal_moves(b, h, player)),
{
    lemma_moves_upto_safe(b, h, player, 64);
}

/// Every generated move has four entries on the board and starts on a piece of `player`.
pub proof fn lemma_moves_shaped(b: Seq<Seq<i8>>, h: Seq<Seq<Seq<i8>>>, player: i8)
    requires
        valid_board(b),
        is_side(player),
        pieces_ok(b, h, player),
    ensures
        all_shaped(b, player, spec_all_legal_moves(b, h, player)),
{
    lemma_moves_upto_shaped(b, h, player, 64);
}


// ---------------------------------------------------------------------------
// Every allowed move is generated
// ---------------------------------------------------------------------------

/// The move `[r, c, t.0, t.1]` to a target `t` among the first `n` is kept when
/// `player` is not in check after it.
proof fn lemma_legal_to_contains(
    b: Seq<Seq<i8>>,
    r: int,
    c: int,
    player: i8,
    targets: Seq<(usize, usize)>,
    n: int,
    k: int,
)
    requires
        0 <= k < n,
        !spec_in_check(board_after(b, r, c, targets[k].0 as int, targets[k].1 as int), player),
    ensures
        legal_to(b, r, c, player, targets, n).contains(seq![r as usize, c as usize, targets[k].0, targets[k].1]),
    decreases n,
{
    let x = seq![r as usize, c as usize, targets[k].0, targets[k].1];
    let a = legal_to(b, r, c, player, targets, n - 1);
    let t = targets[n - 1];
    let e = if !spec_in_check(board_after(b, r, c, t.0 as int, t.1 as int), player) {
        seq![seq![r as usize, c as usize, t.0, t.1]]
    } else {
        seq![]
    };
    assert(legal_to(b, r, c, player, targets, n) == a + e);
    if k < n - 1 {
        lemma_legal_to_contains(b, r, c, player, targets, n - 1, k);
        let j = choose|j: int| 0 <= j < a.len() && a[j] == x;
        assert((a + e)[j] == x);
    } else {
        assert((a + e)[a.len() as int] == x);
    }
}

/// Both rows and columns of the two squares differ by 2 and 1, or by 1 and 2.
pub open spec fn knight_jump(r: int, c: int, a: int, e: int) -> bool {
    ||| (a - r == 2 || a - r == -2) && (e - c == 1 || e - c == -1)
    ||| (a - r == 1 || a - r == -1) && (e - c == 2 || e - c == -2)
}

/// A knight of `player` on `(r, c)` can move to every square `(a, e)` of the board
/// a knight's jump away that holds no piece of its own, unless that leaves
/// `player` in check.
pub proof fn lemma_knight_moves_complete(b: Seq<Seq<i8>>, r: int, c: int, player: i8, a: int, e: int)
    requires
        0 <= r < 8 && 0 <= c < 8,
        on_board(a, e),
        knight_jump(r, c, a, e),
        !own(b, a, e, player),
        !spec_in_check(board_after(b, r, c, a, e), player),
    ensures
        spec_knight_moves(b, r, c, player).contains(seq![r as usize, c as usize, a as usize, e as usize]),
{
    let k: int = if a - r == 2 && e - c == 1 {
        0
    } else if a - r == -2 && e - c == 1 {
        1
    } else if a - r == -2 && e - c == -1 {
        2
    } else if a - r == 2 && e - c == -1 {
        3
    } else if a - r == 1 && e - c == 2 {
        4
    } else if a - r == -1 && e - c == 2 {
        5
    } else if a - r == -1 && e - c == -2 {
        6
    } else {
        7
    };
    assert(r + knight_dirs()[k].0 == a && c + knight_dirs()[k].1 == e);
    let ts = knight_targets(b, r, c, player, 8);
    let idx = lemma_knight_target_index(b, r, c, player, 8, k);
    assert(ts[idx] == (a as usize, e as usize));
    lemma_legal_to_contains(b, r, c, player, ts, ts.len() as int, idx);
}

/// The knight's target by offset `k < n` is listed, at the returned position.
proof fn lemma_knight_target_index(b: Seq<Seq<i8>>, r: int, c: int, player: i8, n: int, k: int) -> (idx: int)
    requires
        0 <= k < n,
        on_board(r + knight_dirs()[k].0, c + knight_dirs()[k].1),
        !own(b, r + knight_dirs()[k].0, c + knight_dirs()[k].1, player),
    ensures
        0 <= idx < knight_targets(b, r, c, player, n).len(),
        knight_targets(b, r, c, player, n)[idx] == ((r + knight_dirs()[k].0) as usize, (c + knight_dirs()[k].1) as usize),
    decreases n,
{
    let a = knight_targets(b, r, c, player, n - 1);
    let aa = r + knight_dirs()[n - 1].0;
    let dd = c + knight_dirs()[n - 1].1;
    let e = if on_board(aa, dd) && !own(b, aa, dd, player) {
        seq![(aa as usize, dd as usize)]
    } else {
        seq![]
    };
    assert(knight_targets(b, r, c, player, n) == a + e);
    if k < n - 1 {
        let i = lemma_knight_target_index(b, r, c, player, n - 1, k);
        assert((a + e)[i] == a[i]);
        i
    } else {
        assert((a + e)[a.len() as int] == e[0]);
        a.len() as int
    }
}

/// The king's target `(i, j)` in the row `i` of the block, at the returned position.
proof fn lemma_king_line_index(b: Seq<Seq<i8>>, i: int, c: int, player: i8, n: int, j: int) -> (idx: int)
    requires
        c - 1 <= j < c - 1 + n,
        on_board(i, j),
        b[i][j] * player <= 0,
    ensures
        0 <= idx < king_line(b, i, c, player, n).len(),
        king_line(b, i, c, player, n)[idx] == (i as usize, j as usize),
    decreases n,
{
    let a = king_line(b, i, c, player, n - 1);
    let jj = c - 1 + (n - 1);
    let e = if on_board(i, jj) && b[i][jj] * player <= 0 {
        seq![(i as usize, jj as usize)]
    } else {
        seq![]
    };
    assert(king_line(b, i, c, player, n) == a + e);
    if j < c - 1 + n - 1 {
        let k = lemma_king_line_index(b, i, c, player, n - 1, j);
        assert((a + e)[k] == a[k]);
        k
    } else {
        assert((a + e)[a.len() as int] == e[0]);
        a.len() as int
    }
}

proof fn lemma_king_block_index(b: Seq<Seq<i8>>, r: int, c: int, player: i8, n: int, i: int, j: int) -> (idx: int)
    requires
        r - 1 <= i < r - 1 + n,
        c - 1 <= j <= c + 1,
        on_board(i, j),
        b[i][j] * player <= 0,
    ensures
        0 <= idx < king_block(b, r, c, player, n).len(),
        king_block(b, r, c, player, n)[idx] == (i as usize, j as usize),
    decreases n,
{
    let a = king_block(b, r, c, player, n - 1);
    let e = king_line(b, r - 1 + (n - 1), c, player, 3);
    assert(king_block(b, r, c, player, n) == a + e);
    if i < r - 1 + n - 1 {
        let k = lemma_king_block_index(b, r, c, player, n - 1, i, j);
        assert((a + e)[k] == a[k]);
        k
    } else {
        let k = lemma_king_line_index(b, i, c, player, 3, j);
        assert((a + e)[a.len() + k] == e[k]);
        a.len() + k
    }
}

/// A king of `player` on `(r, c)` can move to every square `(a, e)` of the board
/// next to it that holds no piece of its own, unless that leaves `player` in check.
pub proof fn lemma_king_moves_complete(b: Seq<Seq<i8>>, r: int, c: int, player: i8, a: int, e: int)
    requires
        is_side(player),
        0 <= r < 8 && 0 <= c < 8,
        on_board(a, e),
        -1 <= a - r <= 1 && -1 <= e - c <= 1,
        a != r || e != c,
        !own(b, a, e, player),
        !spec_in_check(board_after(b, r, c, a, e), player),
    ensures
        spec_king_moves(b, r, c, player).contains(seq![r as usize, c as usize, a as usize, e as usize]),
{
    assert(b[a][e] * player <= 0);
    let ts = king_block(b, r, c, player, 3);
    let idx = lemma_king_block_index(b, r, c, player, 3, a, e);
    lemma_legal_to_contains(b, r, c, player, ts, ts.len() as int, idx);
}

/// The ray along `d` from step `i` lists the square `n` steps away when the
/// squares of steps `i..n` are empty and the square of step `n` holds no piece of
/// `player`, at the returned position.
proof fn lemma_ray_index(b: Seq<Seq<i8>>, r: int, c: int, player: i8, d: (i8, i8), i: int, n: int) -> (idx: int)
    requires
        1 <= i <= n < 8,
        forall|j: int| i <= j <= n ==> on_board(#[trigger] (r + d.0 * j), c + d.1 * j),
        forall|j: int| i <= j < n ==> b[#[trigger] (r + d.0 * j)][c + d.1 * j] == 0,
        !own(b, r + d.0 * n, c + d.1 * n, player),
    ensures
        0 <= idx < ray(b, r, c, player, d, i).len(),
        ray(b, r, c, player, d, i)[idx] == ((r + d.0 * n) as usize, (c + d.1 * n) as usize),
    decreases n - i,
{
    let a = r + d.0 * i;
    let e = c + d.1 * i;
    assert(on_board(a, e));
    if i == n {
        0
    } else {
        assert(b[a][e] == 0);
        assert(b[a][e] * player == 0);
        let k = lemma_ray_index(b, r, c, player, d, i + 1, n);
        let rest = ray(b, r, c, player, d, i + 1);
        assert(ray(b, r, c, player, d, i) == seq![(a as usize, e as usize)] + rest);
        assert((seq![(a as usize, e as usize)] + rest)[k + 1] == rest[k]);
        k + 1
    }
}

proof fn lemma_rays_index(b: Seq<Seq<i8>>, r: int, c: int, player: i8, dirs: Seq<(i8, i8)>, n: int, k: int, i: int)
    -> (idx: int)
    requires
        0 <= k < n,
        0 <= i < ray(b, r, c, player, dirs[k], 1).len(),
    ensures
        0 <= idx < rays(b, r, c, player, dirs, n).len(),
        rays(b, r, c, player, dirs, n)[idx] == ray(b, r, c, player, dirs[k], 1)[i],
    decreases n,
{
    let a = rays(b, r, c, player, dirs, n - 1);
    let e = ray(b, r, c, player, dirs[n - 1], 1);
    assert(rays(b, r, c, player, dirs, n) == a + e);
    if k < n - 1 {
        let j = lemma_rays_index(b, r, c, player, dirs, n - 1, k, i);
        assert((a + e)[j] == a[j]);
        j
    } else {
        assert((a + e)[a.len() + i] == e[i]);
        a.len() + i
    }
}

/// Row (or column) `x` moved `j` steps in the direction of the sign of `s`.
pub open spec fn step_to(x: int, s: int, j: int) -> int {
    if s > 0 {
        x + j
    } else if s < 0 {
        x - j
    } else {
        x
    }
}

/// `(a, e)` lies on a row, a column (`straight`) or a diagonal (`diagonal`) through
/// `(r, c)`, apart from it, and every square strictly between them is empty.
pub open spec fn clear_line(b: Seq<Seq<i8>>, r: int, c: int, a: int, e: int) -> bool {
    let n = if a - r > 0 { a - r } else if a - r < 0 { r - a } else if e - c > 0 { e - c } else { c - e };
    forall|j: int| 0 < j < n ==> #[trigger] b[step_to(r, a - r, j)][step_to(c, e - c, j)] == 0
}

/// A rook, bishop or queen of `player` on `(r, c)` can move along its lines to every
/// square `(a, e)` of the board that holds no piece of its own and has only empty
/// squares before it, unless that leaves `player` in check.
pub proof fn lemma_line_moves_complete(b: Seq<Seq<i8>>, r: int, c: int, player: i8, a: int, e: int)
    requires
        0 <= r < 8 && 0 <= c < 8,
        on_board(a, e),
        (a, e) != (r, c),
        a == r || e == c || a - r == e - c || a - r == c - e,
        clear_line(b, r, c, a, e),
        !own(b, a, e, player),
        !spec_in_check(board_after(b, r, c, a, e), player),
    ensures
        (a == r || e == c) ==> spec_direction_moves(b, r, c, player, rook_dirs()).contains(
            seq![r as usize, c as usize, a as usize, e as usize],
        ),
        (a - r == e - c || a - r == c - e) ==> spec_direction_moves(b, r, c, player, bishop_dirs()).contains(
            seq![r as usize, c as usize, a as usize, e as usize],
        ),
        spec_direction_moves(b, r, c, player, queen_dirs()).contains(
            seq![r as usize, c as usize, a as usize, e as usize],
        ),
{
    let sr: int = if a > r { 1 } else if a < r { -1 } else { 0 };
    let sc: int = if e > c { 1 } else if e < c { -1 } else { 0 };
    let n: int = if a - r > 0 { a - r } else if a - r < 0 { r - a } else if e - c > 0 { e - c } else { c - e };
    let d: (i8, i8) = (sr as i8, sc as i8);
    assert(1 <= n < 8);
    assert forall|j: int| 0 <= j <= n implies #[trigger] (r + d.0 * j) == step_to(r, a - r, j) && c + d.1 * j
        == step_to(c, e - c, j) by {
        if sr == 1 {
            assert(d.0 * j == j) by (nonlinear_arith) requires d.0 == 1;
        } else if sr == -1 {
            assert(d.0 * j == -j) by (nonlinear_arith) requires d.0 == -1;
        } else {
            assert(d.0 * j == 0) by (nonlinear_arith) requires d.0 == 0;
        }
        if sc == 1 {
            assert(d.1 * j == j) by (nonlinear_arith) requires d.1 == 1;
        } else if sc == -1 {
            assert(d.1 * j == -j) by (nonlinear_arith) requires d.1 == -1;
        } else {
            assert(d.1 * j == 0) by (nonlinear_arith) requires d.1 == 0;
        }
    }
    assert(r + d.0 * n == a && c + d.1 * n == e);
    assert forall|j: int| 1 <= j <= n implies on_board(#[trigger] (r + d.0 * j), c + d.1 * j) by {
        assert(r + d.0 * j == step_to(r, a - r, j) && c + d.1 * j == step_to(c, e - c, j));
    }
    assert forall|j: int| 1 <= j < n implies b[#[trigger] (r + d.0 * j)][c + d.1 * j] == 0 by {
        assert(r + d.0 * j == step_to(r, a - r, j) && c + d.1 * j == step_to(c, e - c, j));
        assert(b[step_to(r, a - r, j)][step_to(c, e - c, j)] == 0);
    }
    let i = lemma_ray_index(b, r, c, player, d, 1, n);
    let x = seq![r as usize, c as usize, a as usize, e as usize];
    // the position of `d` in each list of directions
    let kq: int = if sr == 1 && sc == 0 { 0 } else if sr == -1 && sc == 0 { 1 } else if sr == 0 && sc == 1 { 2 }
        else if sr == 0 && sc == -1 { 3 } else if sr == 1 && sc == 1 { 4 } else if sr == -1 && sc == 1 { 5 }
        else if sr == -1 && sc == -1 { 6 } else { 7 };
    assert(queen_dirs()[kq] == d);
    let tq = rays(b, r, c, player, queen_dirs(), 8);
    let iq = lemma_rays_index(b, r, c, player, queen_dirs(), 8, kq, i);
    lemma_legal_to_contains(b, r, c, player, tq, tq.len() as int, iq);
    if a == r || e == c {
        assert(rook_dirs()[kq] == d);
        let tr = rays(b, r, c, player, rook_dirs(), 4);
        let ir = lemma_rays_index(b, r, c, player, rook_dirs(), 4, kq, i);
        lemma_legal_to_contains(b, r, c, player, tr, tr.len() as int, ir);
    }
    if a - r == e - c || a - r == c - e {
        assert(bishop_dirs()[kq - 4] == d);
        let tb = rays(b, r, c, player, bishop_dirs(), 4);
        let ib = lemma_rays_index(b, r, c, player, bishop_dirs(), 4, kq - 4, i);
        lemma_legal_to_contains(b, r, c, player, tb, tb.len() as int, ib);
    }
}

/// The moves of every piece of `player` are among all its moves.
pub proof fn lemma_all_moves_contain_piece_moves(
    b: Seq<Seq<i8>>,
    h: Seq<Seq<Seq<i8>>>,
    player: i8,
    r: int,
    c: int,
    x: Seq<usize>,
)
    requires
        0 <= r < 8 && 0 <= c < 8,
        own(b, r, c, player),
        spec_piece_moves(b, h, r, c, player).contains(x),
    ensures
        spec_all_legal_moves(b, h, player).contains(x),
{
    lemma_moves_upto_contains(b, h, player, 64, r, c, x);
}

proof fn lemma_moves_upto_contains(
    b: Seq<Seq<i8>>,
    h: Seq<Seq<Seq<i8>>>,
    player: i8,
    n: int,
    r: int,
    c: int,
    x: Seq<usize>,
)
    requires
        0 <= r < 8 && 0 <= c < 8,
        8 * r + c < n,
        own(b, r, c, player),
        spec_piece_moves(b, h, r, c, player).contains(x),
    ensures
        moves_upto(b, h, player, n).contains(x),
    decreases n,
{
    let a = moves_upto(b, h, player, n - 1);
    let q = (n - 1) / 8;
    let p = (n - 1) % 8;
    let e = if own(b, q, p, player) {
        spec_piece_moves(b, h, q, p, player)
    } else {
        seq![]
    };
    assert(moves_upto(b, h, player, n) == a + e);
    if 8 * r + c < n - 1 {
        lemma_moves_upto_contains(b, h, player, n - 1, r, c, x);
        let j = choose|j: int| 0 <= j < a.len() && a[j] == x;
        assert((a + e)[j] == x);
    } else {
        assert(q == r && p == c);
        let j = choose|j: int| 0 <= j < e.len() && e[j] == x;
        assert((a + e)[a.len() + j] == x);
    }
}

/// A pawn of `player` on `(r, c)` with a row `f` in front of it (row `r + 1` for
/// white, `r - 1` for black) can step to `(f, c)` when it is empty, from its
/// starting row (1 for white, 6 for black) on to the row after `f` when both are
/// empty, and take an opposing piece on `(f, c - 1)` or `(f, c + 1)`; each unless
/// that leaves `player` in check.
pub proof fn lemma_pawn_moves_complete(
    b: Seq<Seq<i8>>,
    h: Seq<Seq<Seq<i8>>>,
    r: int,
    c: int,
    player: i8,
    a: int,
    e: int,
)
    requires
        is_side(player),
        0 <= r < 8 && 0 <= c < 8,
        on_board(a, e),
        0 <= r + (if player == 1 { 1int } else { -1int }) < 8,
        ({
            let f = r + (if player == 1 { 1int } else { -1int });
            let start = if player == 1 { 1int } else { 6int };
            ||| a == f && e == c && b[f][c] == 0
            ||| r == start && a == f + (f - r) && e == c && b[f][c] == 0 && b[a][c] == 0
            ||| a == f && (e == c - 1 || e == c + 1) && b[a][e] * player < 0
        }),
        !spec_in_check(board_after(b, r, c, a, e), player),
    ensures
        spec_pawn_moves(b, h, r, c, player).contains(seq![r as usize, c as usize, a as usize, e as usize]),
{
    let d = pawn_dir(player);
    let f = r + d;
    let forward = if b[f][c] == 0 {
        seq![(f as usize, c as usize)] + if r == pawn_start_row(player) && b[r + 2 * d][c] == 0 {
            seq![((r + 2 * d) as usize, c as usize)]
        } else {
            seq![]
        }
    } else {
        seq![]
    };
    let right = if c < 7 && b[f][c + 1] * player < 0 {
        seq![(f as usize, (c + 1) as usize)]
    } else {
        seq![]
    };
    let left = if c > 0 && b[f][c - 1] * player < 0 {
        seq![(f as usize, (c - 1) as usize)]
    } else {
        seq![]
    };
    let ts = pawn_targets(b, r, c, player);
    assert(ts == forward + right + left);
    let t = (a as usize, e as usize);
    let idx: int = if a == f && e == c {
        assert(ts[0] == t);
        0
    } else if e == c {
        assert(ts[1] == t);
        1
    } else if e == c + 1 {
        assert(ts[forward.len() as int] == t);
        forward.len() as int
    } else {
        assert(ts[(forward.len() + right.len()) as int] == t);
        (forward.len() + right.len()) as int
    };
    lemma_legal_to_contains(b, r, c, player, ts, ts.len() as int, idx);
    let x = seq![r as usize, c as usize, a as usize, e as usize];
    let ep = en_passant_moves(b, h, r, c, player);
    let lm = legal_moves_to(b, r, c, player, ts);
    let j = choose|j: int| 0 <= j < lm.len() && lm[j] == x;
    assert((ep + lm)[ep.len() + j] == x);
}

} // verus!
