use rand::Rng;
use std::collections::HashSet;
use vstd::prelude::*;

verus! {

/// Position of the bitboard engine: one bit per square (square `8 * row + col`),
/// one board per piece kind and colour, and one board per colour.
#[derive(Clone, Copy, PartialEq, Eq, Structural, Hash, Debug)]
pub struct BitBoard {
    pub depth: i32,
    pub player: i8,
    pub white_king: u64,
    pub white_queen: u64,
    pub white_rooks: u64,
    pub white_bishops: u64,
    pub white_knights: u64,
    pub white_pawns: u64,
    pub black_king: u64,
    pub black_queen: u64,
    pub black_rooks: u64,
    pub black_bishops: u64,
    pub black_knights: u64,
    pub black_pawns: u64,
    pub white_pieces: u64,
    pub black_pieces: u64,
}

/// Number of set bits of `x`.
pub open spec fn popcount(x: u64) -> nat
    decreases x,
{
    if x == 0 {
        0
    } else {
        (x % 2) as nat + popcount(x / 2)
    }
}

pub open spec fn pow2(k: nat) -> nat
    decreases k,
{
    if k == 0 {
        1
    } else {
        2 * pow2((k - 1) as nat)
    }
}

proof fn lemma_popcount_below(x: u64, k: nat)
    requires
        x < pow2(k),
    ensures
        popcount(x) <= k,
    decreases k,
{
    if x != 0 {
        lemma_popcount_below(x / 2, (k - 1) as nat);
    }
}

pub proof fn lemma_popcount_le_64(x: u64)
    ensures
        popcount(x) <= 64,
{
    assert(pow2(64) == 0x1_0000_0000_0000_0000) by {
        reveal_with_fuel(pow2, 65);
    }
    lemma_popcount_below(x, 64);
}

/// Clearing the lowest set bit of `y` (`y & (y - 1)`) removes one set bit.
proof fn lemma_clear_lowest_bit(y: u64)
    requires
        y != 0,
    ensures
        popcount(y & ((y - 1) as u64)) + 1 == popcount(y),
        y & ((y - 1) as u64) < y,
    decreases y,
{
    let ym: u64 = (y - 1) as u64;
    let w = y & ym;
    assert(w < y) by (bit_vector)
        requires
            ym + 1 == y,
            w == y & ym,
    ;
    if y % 2 == 1 {
        assert(w == ym && ym / 2 == y / 2 && ym % 2 == 0) by (bit_vector)
            requires
                ym + 1 == y,
                y % 2 == 1,
                w == y & ym,
        ;
        assert(popcount(w) == popcount(w / 2));
    } else {
        let z = y / 2;
        let zm: u64 = (z - 1) as u64;
        assert(z != 0);
        assert(w % 2 == 0 && w / 2 == z & zm) by (bit_vector)
            requires
                ym + 1 == y,
                y % 2 == 0,
                z == y / 2,
                zm + 1 == z,
                w == y & ym,
        ;
        lemma_clear_lowest_bit(z);
        assert(popcount(w) == popcount(w / 2));
    }
}

/// The number of ones in the binary representation of `x`.
fn count_ones(x: u64) -> (r: u32)
    ensures
        r == popcount(x),
{
    proof {
        lemma_popcount_le_64(x);
    }
    let mut y: u64 = x;
    let mut r: u32 = 0;
    while y != 0
        invariant
            r + popcount(y) == popcount(x),
            popcount(x) <= 64,
        decreases y,
    {
        proof {
            lemma_clear_lowest_bit(y);
        }
        y = y & (y - 1);
        r = r + 1;
    }
    r
}

impl BitBoard {
    /// An empty position with white to move.
    pub fn new() -> (r: BitBoard)
        ensures
            r == (BitBoard {
                depth: 0,
                player: 1,
                white_king: 0,
                white_queen: 0,
                white_rooks: 0,
                white_bishops: 0,
                white_knights: 0,
                white_pawns: 0,
                black_king: 0,
                black_queen: 0,
                black_rooks: 0,
                black_bishops: 0,
                black_knights: 0,
                black_pawns: 0,
                white_pieces: 0,
                black_pieces: 0,
            }),
    {
        BitBoard {
            depth: 0,
            player: 1,
            white_king: 0,
            white_queen: 0,
            white_rooks: 0,
            white_bishops: 0,
            white_knights: 0,
            white_pawns: 0,
            black_king: 0,
            black_queen: 0,
            black_rooks: 0,
            black_bishops: 0,
            black_knights: 0,
            black_pawns: 0,
            white_pieces: 0,
            black_pieces: 0,
        }
    }
}

/// Material value of a piece code (positive white, negative black).
pub open spec fn spec_piece_score(piece: i8) -> int {
    if piece == 1 {
        1
    } else if piece == 2 {
        3
    } else if piece == 3 {
        3
    } else if piece == 4 {
        5
    } else if piece == 5 {
        9
    } else if piece == 6 {
        1000
    } else if piece == -1 {
        -1
    } else if piece == -2 {
        -3
    } else if piece == -3 {
        -3
    } else if piece == -4 {
        -5
    } else if piece == -5 {
        -9
    } else if piece == -6 {
        -100
    } else {
        0
    }
}

pub fn piece_score(piece: i8) -> (r: i32)
    ensures
        r == spec_piece_score(piece),
{
    match piece {
        1 => 1,
        2 => 3,
        3 => 3,
        4 => 5,
        5 => 9,
        6 => 1000,
        -1 => -1,
        -2 => -3,
        -3 => -3,
        -4 => -5,
        -5 => -9,
        -6 => -100,
        _ => 0,
    }
}

/// Material balance of a position: each piece on the boards weighs its
/// `spec_piece_score`, and each king is counted once whether or not it is on the board.
pub open spec fn spec_score(bb: BitBoard) -> int {
    popcount(bb.white_pawns) * 1 + popcount(bb.white_knights) * 3 + popcount(bb.white_bishops) * 3
        + popcount(bb.white_rooks) * 5 + popcount(bb.white_queen) * 9 + 1000
        - popcount(bb.black_pawns) * 1 - popcount(bb.black_knights) * 3 - popcount(
        bb.black_bishops,
    ) * 3 - popcount(bb.black_rooks) * 5 - popcount(bb.black_queen) * 9 - 100
}

pub proof fn lemma_score_bounds(bb: BitBoard)
    ensures
        -1444 <= spec_score(bb) <= 2344,
{
    lemma_popcount_le_64(bb.white_pawns);
    lemma_popcount_le_64(bb.white_knights);
    lemma_popcount_le_64(bb.white_bishops);
    lemma_popcount_le_64(bb.white_rooks);
    lemma_popcount_le_64(bb.white_queen);
    lemma_popcount_le_64(bb.black_pawns);
    lemma_popcount_le_64(bb.black_knights);
    lemma_popcount_le_64(bb.black_bishops);
    lemma_popcount_le_64(bb.black_rooks);
    lemma_popcount_le_64(bb.black_queen);
}

pub fn score(bit_board: &BitBoard) -> (r: i32)
    ensures
        r == spec_score(*bit_board),
{
    proof {
        lemma_score_bounds(*bit_board);
        lemma_popcount_le_64(bit_board.white_pawns);
        lemma_popcount_le_64(bit_board.white_knights);
        lemma_popcount_le_64(bit_board.white_bishops);
        lemma_popcount_le_64(bit_board.white_rooks);
        lemma_popcount_le_64(bit_board.white_queen);
        lemma_popcount_le_64(bit_board.black_pawns);
        lemma_popcount_le_64(bit_board.black_knights);
        lemma_popcount_le_64(bit_board.black_bishops);
        lemma_popcount_le_64(bit_board.black_rooks);
        lemma_popcount_le_64(bit_board.black_queen);
    }
    let wp = count_ones(bit_board.white_pawns) as i32;
    let wn = count_ones(bit_board.white_knights) as i32;
    let wb = count_ones(bit_board.white_bishops) as i32;
    let wr = count_ones(bit_board.white_rooks) as i32;
    let wq = count_ones(bit_board.white_queen) as i32;
    let bp = count_ones(bit_board.black_pawns) as i32;
    let bn = count_ones(bit_board.black_knights) as i32;
    let bb = count_ones(bit_board.black_bishops) as i32;
    let br = count_ones(bit_board.black_rooks) as i32;
    let bq = count_ones(bit_board.black_queen) as i32;
    let mut score: i32 = 0;
    let sp1 = piece_score(1);
    assert(sp1 == 1);
    score += sp1 * wp;
    let sp2 = piece_score(2);
    assert(sp2 == 3);
    score += sp2 * wn;
    let sp3 = piece_score(3);
    assert(sp3 == 3);
    score += sp3 * wb;
    let sp4 = piece_score(4);
    assert(sp4 == 5);
    score += sp4 * wr;
    let sp5 = piece_score(5);
    assert(sp5 == 9);
    score += sp5 * wq;
    let sp6 = piece_score(6);
    assert(sp6 == 1000);
    score += sp6;
    let sm1 = piece_score(-1);
    assert(sm1 == -1);
    score += sm1 * bp;
    let sm2 = piece_score(-2);
    assert(sm2 == -3);
    score += sm2 * bn;
    let sm3 = piece_score(-3);
    assert(sm3 == -3);
    score += sm3 * bb;
    let sm4 = piece_score(-4);
    assert(sm4 == -5);
    score += sm4 * br;
    let sm5 = piece_score(-5);
    assert(sm5 == -9);
    score += sm5 * bq;
    let sm6 = piece_score(-6);
    assert(sm6 == -100);
    score += sm6;
    score
}


/// The boards after the side to move (`bb.player`) plays `m = [from, to, piece, promote]`:
/// the mover's colour board toggles `from` and `to`; an opposing piece on `to`
/// is removed from every opposing board; the moved piece's board toggles `from`
/// and `to` (or, for a promotion, the pawn board toggles `from` and the promoted
/// piece's board toggles `to`); the move counter grows by one and the turn passes.
#[verifier::opaque]
pub open spec fn spec_make_move(bb: BitBoard, m: Seq<u64>) -> BitBoard {
    let b2 = spec_move_piece(spec_move_colour(bb, m), m, bb.player);
    BitBoard { depth: (bb.depth + 1) as i32, player: (-bb.player) as i8, ..b2 }
}

/// First part of a move: the mover's colour board and the capture on `to`.
pub open spec fn spec_move_colour(bb: BitBoard, m: Seq<u64>) -> BitBoard {
    let from = m[0];
    let to = m[1];
    if bb.player == 1 {
        let w = BitBoard { white_pieces: bb.white_pieces ^ (from ^ to), ..bb };
        if bb.black_pieces & to != 0 {
            BitBoard {
                black_pieces: w.black_pieces ^ to,
                black_pawns: w.black_pawns ^ (to & w.black_pawns),
                black_knights: w.black_knights ^ (to & w.black_knights),
                black_bishops: w.black_bishops ^ (to & w.black_bishops),
                black_rooks: w.black_rooks ^ (to & w.black_rooks),
                black_queen: w.black_queen ^ (to & w.black_queen),
                black_king: w.black_king ^ (to & w.black_king),
                ..w
            }
        } else {
            w
        }
    } else {
        let w = BitBoard { black_pieces: bb.black_pieces ^ (from ^ to), ..bb };
        if bb.white_pieces & to != 0 {
            BitBoard {
                white_pieces: w.white_pieces ^ to,
                white_pawns: w.white_pawns ^ (to & w.white_pawns),
                white_knights: w.white_knights ^ (to & w.white_knights),
                white_bishops: w.white_bishops ^ (to & w.white_bishops),
                white_rooks: w.white_rooks ^ (to & w.white_rooks),
                white_queen: w.white_queen ^ (to & w.white_queen),
                white_king: w.white_king ^ (to & w.white_king),
                ..w
            }
        } else {
            w
        }
    }
}

/// Second part of a move: the moved (or promoted) piece's board.
pub open spec fn spec_move_piece(b1: BitBoard, m: Seq<u64>, player: i8) -> BitBoard {
    let from = m[0];
    let to = m[1];
    let piece = m[2];
    let promote = m[3];
    let ft = from ^ to;
    if promote == 0 {
        let code = (piece as i8) * player;
        if code == 1 {
            BitBoard { white_pawns: b1.white_pawns ^ ft, ..b1 }
        } else if code == 2 {
            BitBoard { white_knights: b1.white_knights ^ ft, ..b1 }
        } else if code == 3 {
            BitBoard { white_bishops: b1.white_bishops ^ ft, ..b1 }
        } else if code == 4 {
            BitBoard { white_rooks: b1.white_rooks ^ ft, ..b1 }
        } else if code == 5 {
            BitBoard { white_queen: b1.white_queen ^ ft, ..b1 }
        } else if code == 6 {
            BitBoard { white_king: b1.white_king ^ ft, ..b1 }
        } else if code == -1 {
            BitBoard { black_pawns: b1.black_pawns ^ ft, ..b1 }
        } else if code == -2 {
            BitBoard { black_knights: b1.black_knights ^ ft, ..b1 }
        } else if code == -3 {
            BitBoard { black_bishops: b1.black_bishops ^ ft, ..b1 }
        } else if code == -4 {
            BitBoard { black_rooks: b1.black_rooks ^ ft, ..b1 }
        } else if code == -5 {
            BitBoard { black_queen: b1.black_queen ^ ft, ..b1 }
        } else if code == -6 {
            BitBoard { black_king: b1.black_king ^ ft, ..b1 }
        } else {
            b1
        }
    } else {
        let p = if player == 1 {
            BitBoard { white_pawns: b1.white_pawns ^ from, ..b1 }
        } else if player == -1 {
            BitBoard { black_pawns: b1.black_pawns ^ from, ..b1 }
        } else {
            b1
        };
        let code = (promote as i8) * player;
        if code == 2 {
            BitBoard { white_knights: p.white_knights ^ to, ..p }
        } else if code == 3 {
            BitBoard { white_bishops: p.white_bishops ^ to, ..p }
        } else if code == 4 {
            BitBoard { white_rooks: p.white_rooks ^ to, ..p }
        } else if code == 5 {
            BitBoard { white_queen: p.white_queen ^ to, ..p }
        } else if code == -2 {
            BitBoard { black_knights: p.black_knights ^ to, ..p }
        } else if code == -3 {
            BitBoard { black_bishops: p.black_bishops ^ to, ..p }
        } else if code == -4 {
            BitBoard { black_rooks: p.black_rooks ^ to, ..p }
        } else if code == -5 {
            BitBoard { black_queen: p.black_queen ^ to, ..p }
        } else {
            p
        }
    }
}

/// When `make_move` can run: the move has its four entries, the counter can
/// grow, the turn can pass, and the piece codes times the mover fit in an `i8`.
pub open spec fn make_move_ok(bb: BitBoard, m: Seq<u64>) -> bool {
    &&& m.len() >= 4
    &&& bb.depth < i32::MAX
    &&& bb.player != -128
    &&& m[3] == 0 ==> i8::MIN <= (m[2] as i8) * bb.player <= i8::MAX
    &&& m[3] != 0 ==> i8::MIN <= (m[3] as i8) * bb.player <= i8::MAX
}

impl BitBoard {
    /// Plays `m = [from, to, piece, promote]` for the side to move
    /// (castling and en passant are not handled).
    pub fn make_move(&mut self, m: &Vec<u64>)
        requires
            make_move_ok(*old(self), m@),
        ensures
            *final(self) == spec_make_move(*old(self), m@),
    {
        reveal(spec_make_move);
        let from = m[0];
        let to = m[1];
        let piece = m[2];
        let promote = m[3];

        if self.player == 1 {
            self.white_pieces ^= from ^ to;
            if self.black_pieces & to != 0 {
                self.black_pieces ^= to;
                self.black_pawns ^= to & self.black_pawns;
                self.black_knights ^= to & self.black_knights;
                self.black_bishops ^= to & self.black_bishops;
                self.black_rooks ^= to & self.black_rooks;
                self.black_queen ^= to & self.black_queen;
                self.black_king ^= to & self.black_king;
            }
        } else {
            self.black_pieces ^= from ^ to;
            if self.white_pieces & to != 0 {
                self.white_pieces ^= to;
                self.white_pawns ^= to & self.white_pawns;
                self.white_knights ^= to & self.white_knights;
                self.white_bishops ^= to & self.white_bishops;
                self.white_rooks ^= to & self.white_rooks;
                self.white_queen ^= to & self.white_queen;
                self.white_king ^= to & self.white_king;
            }
        }

        assert(*self == spec_move_colour(*old(self), m@));
        if promote == 0 {
            let code = piece as i8 * self.player;
            assert(code == (piece as i8) * old(self).player);
            match code {
                1 => self.white_pawns ^= from ^ to,
                2 => self.white_knights ^= from ^ to,
                3 => self.white_bishops ^= from ^ to,
                4 => self.white_rooks ^= from ^ to,
                5 => self.white_queen ^= from ^ to,
                6 => self.white_king ^= from ^ to,
                -1 => self.black_pawns ^= from ^ to,
                -2 => self.black_knights ^= from ^ to,
                -3 => self.black_bishops ^= from ^ to,
                -4 => self.black_rooks ^= from ^ to,
                -5 => self.black_queen ^= from ^ to,
                -6 => self.black_king ^= from ^ to,
                _ => (),
            }
        } else {
            match self.player {
                1 => self.white_pawns ^= from,
                -1 => self.black_pawns ^= from,
                _ => (),
            }
            let code = promote as i8 * self.player;
            assert(code == (promote as i8) * old(self).player);
            match code {
                2 => self.white_knights ^= to,
                3 => self.white_bishops ^= to,
                4 => self.white_rooks ^= to,
                5 => self.white_queen ^= to,
                -2 => self.black_knights ^= to,
                -3 => self.black_bishops ^= to,
                -4 => self.black_rooks ^= to,
                -5 => self.black_queen ^= to,
                _ => (),
            }
        }

        assert(*self == spec_move_piece(spec_move_colour(*old(self), m@), m@, old(self).player));
        self.depth += 1;
        self.player = 0 - self.player;
    }
}


// ---------------------------------------------------------------------------
// Squares as bits
// ---------------------------------------------------------------------------

/// Square `i` (0..64) is set in `b`.
pub open spec fn has_bit(b: u64, i: int) -> bool {
    0 <= i < 64 && (b >> (i as u64)) & 1u64 == 1u64
}

/// The board with only square `i` set.
pub open spec fn square(i: int) -> u64 {
    1u64 << (i as u64)
}

/// A move `[from, to, piece, promote]` between squares `f` and `t`.
pub open spec fn mv(f: int, t: int, piece: u64, promote: u64) -> Seq<u64> {
    seq![square(f), square(t), piece, promote]
}

/// The moves `f(i)` of every set square `i < n` of `b`, in increasing square order.
pub open spec fn collect(b: u64, n: int, f: spec_fn(int) -> Seq<Seq<u64>>) -> Seq<Seq<u64>>
    decreases n,
{
    if n <= 0 {
        seq![]
    } else {
        collect(b, n - 1, f) + if has_bit(b, n - 1) {
            f(n - 1)
        } else {
            seq![]
        }
    }
}

proof fn lemma_square_and(x: u64, i: u64)
    requires
        i < 64,
    ensures
        ((1u64 << i) & x != 0) == ((x >> i) & 1u64 == 1u64),
{
    assert(((1u64 << i) & x != 0) == ((x >> i) & 1u64 == 1u64)) by (bit_vector)
        requires
            i < 64,
    ;
}

/// `(1 << i) & x != 0` tests square `i` of `x`.
pub proof fn lemma_square_test(x: u64, i: int)
    requires
        0 <= i < 64,
    ensures
        (square(i) & x != 0) == has_bit(x, i),
{
    lemma_square_and(x, i as u64);
}

proof fn lemma_xor_square_bit(x: u64, t: u64, i: u64)
    requires
        t < 64,
        i < 64,
    ensures
        ((x ^ (1u64 << t)) >> i) & 1u64 == 1u64 <==> (if i == t {
            (x >> i) & 1u64 != 1u64
        } else {
            (x >> i) & 1u64 == 1u64
        }),
{
    assert(((x ^ (1u64 << t)) >> i) & 1u64 == 1u64 <==> (if i == t {
        (x >> i) & 1u64 != 1u64
    } else {
        (x >> i) & 1u64 == 1u64
    })) by (bit_vector)
        requires
            t < 64,
            i < 64,
    ;
}

proof fn lemma_bits_zero(x: u64)
    ensures
        (forall|i: int| 0 <= i < 64 ==> !#[trigger] has_bit(x, i)) ==> x == 0,
{
    if x != 0 {
        let t = x.trailing_zeros();
        vstd::std_specs::bits::axiom_u64_trailing_zeros(x);
        assert(has_bit(x, t as int));
    }
}

/// `rem` holds exactly the squares of `orig` from `r` on.
pub open spec fn rest_of(orig: u64, rem: u64, r: int) -> bool {
    forall|i: int| 0 <= i < 64 ==> #[trigger] has_bit(rem, i) == (has_bit(orig, i) && i >= r)
}

proof fn lemma_collect_skip(b: u64, lo: int, hi: int, f: spec_fn(int) -> Seq<Seq<u64>>)
    requires
        lo <= hi,
        forall|i: int| lo <= i < hi ==> !#[trigger] has_bit(b, i),
    ensures
        collect(b, hi, f) == collect(b, lo, f),
    decreases hi - lo,
{
    if lo < hi {
        assert(!has_bit(b, hi - 1));
        lemma_collect_skip(b, lo, hi - 1, f);
    }
}

/// Starting an iteration over the squares of `orig` at its lowest square.
proof fn lemma_first_square(orig: u64, f: spec_fn(int) -> Seq<Seq<u64>>)
    ensures
        orig.trailing_zeros() <= 64,
        rest_of(orig, orig, orig.trailing_zeros() as int),
        collect(orig, orig.trailing_zeros() as int, f) == Seq::<Seq<u64>>::empty(),
{
    let t = orig.trailing_zeros();
    vstd::std_specs::bits::axiom_u64_trailing_zeros(orig);
    assert forall|i: int| 0 <= i < t implies !#[trigger] has_bit(orig, i) by {
        assert((orig >> (i as u64)) & 1u64 == 0u64);
    }
    lemma_collect_skip(orig, 0, t as int, f);
    assert(collect(orig, 0, f) =~= Seq::<Seq<u64>>::empty());
}

/// One step of an iteration over the squares of `orig`: square `r` is set, clearing it
/// leaves the squares after `r`, and the next lowest square `r2` collects `f(r)` more.
proof fn lemma_next_square(orig: u64, rem: u64, r: int, f: spec_fn(int) -> Seq<Seq<u64>>)
    requires
        rest_of(orig, rem, r),
        r == rem.trailing_zeros(),
        r < 64,
    ensures
        has_bit(orig, r),
        has_bit(rem, r),
        ({
            let rem2 = rem ^ (1u64 << (r as u64));
            let r2 = rem2.trailing_zeros() as int;
            &&& r < r2 <= 64
            &&& rest_of(orig, rem2, r2)
            &&& collect(orig, r2, f) == collect(orig, r, f) + f(r)
        }),
{
    vstd::std_specs::bits::axiom_u64_trailing_zeros(rem);
    assert(has_bit(rem, r));
    let rem2 = rem ^ (1u64 << (r as u64));
    assert forall|i: int| 0 <= i < 64 implies #[trigger] has_bit(rem2, i) == (has_bit(orig, i) && i
        > r) by {
        lemma_xor_square_bit(rem, r as u64, i as u64);
        assert(has_bit(rem, i) == (has_bit(orig, i) && i >= r));
    }
    let r2 = rem2.trailing_zeros() as int;
    vstd::std_specs::bits::axiom_u64_trailing_zeros(rem2);
    if r2 < 64 {
        assert(has_bit(rem2, r2));
    }
    assert forall|i: int| r < i < r2 implies !#[trigger] has_bit(orig, i) by {
        assert((rem2 >> (i as u64)) & 1u64 == 0u64);
        assert(!has_bit(rem2, i));
    }
    assert(r < r2);
    assert forall|i: int| 0 <= i < 64 implies #[trigger] has_bit(rem2, i) == (has_bit(orig, i) && i
        >= r2) by {
        lemma_xor_square_bit(rem, r as u64, i as u64);
        assert(has_bit(rem, i) == (has_bit(orig, i) && i >= r));
        assert(has_bit(rem2, i) == (has_bit(orig, i) && i > r));
        if i < r2 && i > r {
            assert((rem2 >> (i as u64)) & 1u64 == 0u64);
            assert(!has_bit(rem2, i));
        }
    }
    lemma_collect_skip(orig, r + 1, r2, f);
}

/// Appends the move `[a, b, c, d]`.
fn push_move(moves: &mut Vec<Vec<u64>>, a: u64, b: u64, c: u64, d: u64)
    ensures
        final(moves).deep_view() == old(moves).deep_view().push(seq![a, b, c, d]),
{
    let m = vec![a, b, c, d];
    assert(m.deep_view() =~= seq![a, b, c, d]);
    let ghost before = moves.deep_view();
    moves.push(m);
    assert(moves.deep_view().len() == before.len() + 1);
    assert forall|i: int| 0 <= i < before.len() implies moves.deep_view()[i] == before[i] by {
        assert(moves@[i] == old(moves)@[i]);
    }
    assert(final(moves).deep_view() =~= old(moves).deep_view().push(seq![a, b, c, d]));
}


// ---------------------------------------------------------------------------
// Pawns
// ---------------------------------------------------------------------------

/// The four promotions (knight, bishop, rook, queen) of a pawn going from `f` to `t`.
pub open spec fn promotions(f: int, t: int) -> Seq<Seq<u64>> {
    seq![mv(f, t, 1, 2), mv(f, t, 1, 3), mv(f, t, 1, 4), mv(f, t, 1, 5)]
}

/// A pawn going from `f` to `t`: the four promotions on the last row, else one move.
pub open spec fn pawn_targets(f: int, t: int, promote_row: bool) -> Seq<Seq<u64>> {
    if promote_row {
        promotions(f, t)
    } else {
        seq![mv(f, t, 1, 0)]
    }
}

pub open spec fn own_pieces(bb: BitBoard) -> u64 {
    if bb.player == 1 {
        bb.white_pieces
    } else {
        bb.black_pieces
    }
}

pub open spec fn other_pieces(bb: BitBoard) -> u64 {
    if bb.player == 1 {
        bb.black_pieces
    } else {
        bb.white_pieces
    }
}

pub open spec fn own_pawns(bb: BitBoard) -> u64 {
    if bb.player == 1 {
        bb.white_pawns
    } else {
        bb.black_pawns
    }
}

/// Moves of the pawn on square `p` for the side to move (white moves up the rows,
/// black down): captures to the left and to the right, then the step forward and,
/// from the starting row, the double step; a move onto the last row comes as its
/// four promotions.
pub open spec fn pawn_moves_at(bb: BitBoard, p: int) -> Seq<Seq<u64>> {
    let white = bb.player == 1;
    let dir: int = if white { 8 } else { -8 };
    let start_row: int = if white { 1 } else { 6 };
    let my = own_pieces(bb);
    let opp = other_pieces(bb);
    let to = p + dir;
    let col = p % 8;
    let row = p / 8;
    let promote_row = row == 7 - start_row;
    let left = if col > 0 && has_bit(opp, to - 1) {
        pawn_targets(p, to - 1, promote_row)
    } else {
        seq![]
    };
    let right = if col < 7 && has_bit(opp, to + 1) {
        pawn_targets(p, to + 1, promote_row)
    } else {
        seq![]
    };
    let forward = if !has_bit(my | opp, to) {
        if promote_row {
            promotions(p, to)
        } else {
            seq![mv(p, to, 1, 0)] + if row == start_row && !has_bit(my | opp, to + dir) {
                seq![mv(p, to + dir, 1, 0)]
            } else {
                seq![]
            }
        }
    } else {
        seq![]
    };
    left + right + forward
}

/// Pawn moves of the side to move, pawn by pawn in increasing square order
/// (no en passant); none at all when the side has no pieces.
pub open spec fn spec_pawn_moves(bb: BitBoard) -> Seq<Seq<u64>> {
    if own_pieces(bb) == 0 {
        seq![]
    } else {
        collect(own_pawns(bb), 64, |p: int| pawn_moves_at(bb, p))
    }
}

/// `pawn_moves` can run: the mover's pawns are not on its last row
/// (where the step forward would leave the board).
pub open spec fn pawn_moves_ok(bb: BitBoard) -> bool {
    own_pieces(bb) != 0 ==> forall|i: int|
        #[trigger] has_bit(own_pawns(bb), i) ==> if bb.player == 1 {
            i < 56
        } else {
            i >= 8
        }
}

fn push_pawn_move(moves: &mut Vec<Vec<u64>>, from: i32, to: i32, promote_row: bool)
    requires
        0 <= from < 64,
        0 <= to < 64,
    ensures
        final(moves).deep_view() == old(moves).deep_view() + pawn_targets(
            from as int,
            to as int,
            promote_row,
        ),
{
    let f = 1u64 << (from as u64);
    let t = 1u64 << (to as u64);
    if promote_row {
        let ghost start = moves.deep_view();
        let mut promote: u64 = 2;
        while promote < 6
            invariant
                2 <= promote <= 6,
                f == square(from as int),
                t == square(to as int),
                moves.deep_view() == start + promotions(from as int, to as int).take(
                    promote - 2,
                ),
            decreases 6 - promote,
        {
            push_move(moves, f, t, 1, promote);
            assert(promotions(from as int, to as int).take(promote - 1) =~= promotions(
                from as int,
                to as int,
            ).take(promote - 2).push(seq![f, t, 1, promote]));
            promote += 1;
        }
        assert(promotions(from as int, to as int).take(4) =~= promotions(from as int, to as int));
    } else {
        push_move(moves, f, t, 1, 0);
        assert(old(moves).deep_view() + pawn_targets(from as int, to as int, promote_row)
            =~= old(moves).deep_view().push(seq![f, t, 1, 0]));
    }
}

/// Pawn moves of the side to move (no en passant).
#[verifier::spinoff_prover]
#[verifier::rlimit(40)]
pub fn pawn_moves(bit_board: &BitBoard) -> (moves: Vec<Vec<u64>>)
    requires
        pawn_moves_ok(*bit_board),
    ensures
        moves.deep_view() == spec_pawn_moves(*bit_board),
{
    let mut moves: Vec<Vec<u64>> = Vec::with_capacity(16);
    let dir: i32;
    let start_row: i32;
    let my_pieces: u64;
    let mut pawns: u64;
    let opponent_pieces: u64;

    if bit_board.player == 1 {
        dir = 8;
        start_row = 1;
        my_pieces = bit_board.white_pieces;
        pawns = bit_board.white_pawns;
        opponent_pieces = bit_board.black_pieces;
    } else {
        dir = -8;
        start_row = 6;
        my_pieces = bit_board.black_pieces;
        pawns = bit_board.black_pawns;
        opponent_pieces = bit_board.white_pieces;
    }

    if my_pieces == 0 {
        assert(moves.deep_view() =~= Seq::<Seq<u64>>::empty());
        return moves;
    }
    let ghost bb = *bit_board;
    let ghost orig = pawns;
    let ghost f = |q: int| pawn_moves_at(bb, q);
    proof {
        lemma_first_square(orig, f);
        assert(moves.deep_view() =~= Seq::<Seq<u64>>::empty());
    }

    let mut p = pawns.trailing_zeros() as i32;
    while p != 64
        invariant
            bb == *bit_board,
            pawn_moves_ok(bb),
            own_pieces(bb) != 0,
            orig == own_pawns(bb),
            my_pieces == own_pieces(bb),
            opponent_pieces == other_pieces(bb),
            dir == (if bb.player == 1 { 8int } else { -8int }),
            start_row == (if bb.player == 1 { 1int } else { 6int }),
            f == (|q: int| pawn_moves_at(bb, q)),
            0 <= p <= 64,
            p == pawns.trailing_zeros(),
            rest_of(orig, pawns, p as int),
            moves.deep_view() == collect(orig, p as int, f),
        decreases 64 - p,
    {
        proof {
            lemma_next_square(orig, pawns, p as int, f);
        }
        let ghost before = moves.deep_view();
        pawns ^= 1u64 << (p as u64);

        let mut to = p + dir;
        // attack
        let col = p % 8;
        let row = p / 8;
        if col > 0 && (1u64 << ((to - 1) as u64)) & opponent_pieces != 0 {
            push_pawn_move(&mut moves, p, to - 1, row == 7 - start_row);
        }
        let ghost after_left = moves.deep_view();
        if col < 7 && (1u64 << ((to + 1) as u64)) & opponent_pieces != 0 {
            push_pawn_move(&mut moves, p, to + 1, row == 7 - start_row);
        }
        let ghost after_right = moves.deep_view();
        // move forward
        if (1u64 << (to as u64)) & (my_pieces | opponent_pieces) == 0 {
            if row == 7 - start_row {
                push_pawn_move(&mut moves, p, to, true);
            } else {
                push_move(&mut moves, 1u64 << (p as u64), 1u64 << (to as u64), 1, 0);
                if row == start_row {
                    to += dir;
                    if (1u64 << (to as u64)) & (my_pieces | opponent_pieces) == 0 {
                        push_move(&mut moves, 1u64 << (p as u64), 1u64 << (to as u64), 1, 0);
                    }
                }
            }
        }
        proof {
            let pi = p as int;
            let t = pi + dir;
            lemma_square_test(opponent_pieces, t);
            if pi % 8 > 0 {
                lemma_square_test(opponent_pieces, t - 1);
            }
            if pi % 8 < 7 {
                lemma_square_test(opponent_pieces, t + 1);
            }
            lemma_square_test(my_pieces | opponent_pieces, t);
            if pi / 8 == start_row {
                lemma_square_test(my_pieces | opponent_pieces, t + dir);
            }
            assert(moves.deep_view() =~= before + pawn_moves_at(bb, pi));
        }
        p = pawns.trailing_zeros() as i32;
    }
    moves
}


// ---------------------------------------------------------------------------
// Knights and kings
// ---------------------------------------------------------------------------

pub open spec fn abs(x: int) -> int {
    if x < 0 {
        -x
    } else {
        x
    }
}

/// `i32::abs`.
pub fn abs_i32(x: i32) -> (r: i32)
    requires
        x > i32::MIN,
    ensures
        r == abs(x as int),
{
    if x < 0 {
        -x
    } else {
        x
    }
}

/// A jump from `from` by `d` squares: it stays on the board, moves at most
/// `max_col_diff` columns, and does not land on one of the mover's `pieces`.
pub open spec fn jump(pieces: u64, from: int, d: int, max_col_diff: int, piece: u64) -> Seq<Seq<u64>> {
    let to = from + d;
    if to < 0 || to > 63 || abs(from % 8 - to % 8) > max_col_diff {
        seq![]
    } else if has_bit(pieces, to) {
        seq![]
    } else {
        seq![mv(from, to, piece, 0)]
    }
}

/// The jumps from `from` by the first `n` offsets of `dirs`.
pub open spec fn jumps(
    pieces: u64,
    from: int,
    dirs: Seq<int>,
    n: int,
    max_col_diff: int,
    piece: u64,
) -> Seq<Seq<u64>>
    decreases n,
{
    if n <= 0 {
        seq![]
    } else {
        jumps(pieces, from, dirs, n - 1, max_col_diff, piece) + jump(
            pieces,
            from,
            dirs[n - 1],
            max_col_diff,
            piece,
        )
    }
}

pub open spec fn knight_dirs() -> Seq<int> {
    seq![-17, -15, -10, -6, 6, 10, 15, 17]
}

pub open spec fn king_dirs() -> Seq<int> {
    seq![-9, -8, -7, -1, 1, 7, 8, 9]
}

pub open spec fn own_knights(bb: BitBoard) -> u64 {
    if bb.player == 1 {
        bb.white_knights
    } else {
        bb.black_knights
    }
}

pub open spec fn own_king(bb: BitBoard) -> u64 {
    if bb.player == 1 {
        bb.white_king
    } else {
        bb.black_king
    }
}

/// Knight moves of the side to move, knight by knight in increasing square order.
pub open spec fn spec_knight_moves(bb: BitBoard) -> Seq<Seq<u64>> {
    collect(own_knights(bb), 64, |k: int| jumps(own_pieces(bb), k, knight_dirs(), 8, 2, 2))
}

/// King moves of the side to move from its lowest king square (no castling).
pub open spec fn spec_king_moves(bb: BitBoard) -> Seq<Seq<u64>> {
    jumps(own_pieces(bb), own_king(bb).trailing_zeros() as int, king_dirs(), 8, 1, 6)
}

/// `king_moves` can run: with no king on its board, the two squares that the
/// missing king would "reach" (56 and 57) hold the mover's pieces.
pub open spec fn king_moves_ok(bb: BitBoard) -> bool {
    own_king(bb) == 0 ==> has_bit(own_pieces(bb), 56) && has_bit(own_pieces(bb), 57)
}

/// Appends the jumps from `from` by each offset of `dir`.
fn push_jumps(
    moves: &mut Vec<Vec<u64>>,
    from: i32,
    dir: &[i32; 8],
    pieces: u64,
    max_col_diff: i32,
    piece: u64,
    Ghost(dirs): Ghost<Seq<int>>,
)
    requires
        0 <= from <= 64,
        dirs.len() == 8,
        forall|i: int| 0 <= i < 8 ==> dirs[i] == dir@[i] && -17 <= #[trigger] dir@[i] <= 17,
        from == 64 ==> forall|i: int|
            0 <= i < 8 ==> #[trigger] jump(pieces, from as int, dirs[i], max_col_diff as int, piece)
                == Seq::<Seq<u64>>::empty(),
    ensures
        final(moves).deep_view() == old(moves).deep_view() + jumps(
            pieces,
            from as int,
            dirs,
            8,
            max_col_diff as int,
            piece,
        ),
{
    let ghost start = moves.deep_view();
    let col = from % 8;
    let mut i: usize = 0;
    while i < 8
        invariant
            0 <= i <= 8,
            0 <= from <= 64,
            col == from % 8,
            dirs.len() == 8,
            forall|j: int| 0 <= j < 8 ==> dirs[j] == dir@[j] && -17 <= #[trigger] dir@[j] <= 17,
            from == 64 ==> forall|j: int|
                0 <= j < 8 ==> #[trigger] jump(pieces, from as int, dirs[j], max_col_diff as int, piece)
                    == Seq::<Seq<u64>>::empty(),
            moves.deep_view() == start + jumps(pieces, from as int, dirs, i as int, max_col_diff as int, piece),
        decreases 8 - i,
    {
        let d = dir[i];
        let ghost before = moves.deep_view();
        let to = from + d;
        if to < 0 || to > 63 {
        } else {
            let col_diff = abs_i32(col - to % 8);
            if col_diff > max_col_diff {
            } else if (1u64 << (to as u64)) & pieces != 0 {
                proof {
                    lemma_square_test(pieces, to as int);
                }
            } else {
                proof {
                    lemma_square_test(pieces, to as int);
                    if from == 64 {
                        assert(jump(pieces, from as int, dirs[i as int], max_col_diff as int, piece)
                            == Seq::<Seq<u64>>::empty());
                    }
                }
                push_move(moves, 1u64 << (from as u64), 1u64 << (to as u64), piece, 0);
            }
        }
        assert(moves.deep_view() =~= start + jumps(
            pieces,
            from as int,
            dirs,
            i + 1,
            max_col_diff as int,
            piece,
        ));
        i += 1;
    }
}

pub fn knight_moves(bit_board: &BitBoard) -> (moves: Vec<Vec<u64>>)
    ensures
        moves.deep_view() == spec_knight_moves(*bit_board),
{
    let mut moves: Vec<Vec<u64>> = Vec::with_capacity(16);
    let dir: [i32; 8] = [-17, -15, -10, -6, 6, 10, 15, 17];
    let pieces;
    let mut knights;

    if bit_board.player == 1 {
        pieces = bit_board.white_pieces;
        knights = bit_board.white_knights;
    } else {
        pieces = bit_board.black_pieces;
        knights = bit_board.black_knights;
    }

    let ghost bb = *bit_board;
    let ghost orig = knights;
    let ghost f = |k: int| jumps(own_pieces(bb), k, knight_dirs(), 8, 2, 2);
    proof {
        lemma_first_square(orig, f);
        assert(moves.deep_view() =~= Seq::<Seq<u64>>::empty());
    }
    let mut k = knights.trailing_zeros() as i32;
    while k != 64
        invariant
            bb == *bit_board,
            orig == own_knights(bb),
            pieces == own_pieces(bb),
            dir@ == seq![-17i32, -15i32, -10i32, -6i32, 6i32, 10i32, 15i32, 17i32],
            f == (|k: int| jumps(own_pieces(bb), k, knight_dirs(), 8, 2, 2)),
            0 <= k <= 64,
            k == knights.trailing_zeros(),
            rest_of(orig, knights, k as int),
            moves.deep_view() == collect(orig, k as int, f),
        decreases 64 - k,
    {
        proof {
            lemma_next_square(orig, knights, k as int, f);
        }
        knights ^= 1u64 << (k as u64);
        push_jumps(&mut moves, k, &dir, pieces, 2, 2, Ghost(knight_dirs()));
        k = knights.trailing_zeros() as i32;
    }
    moves
}

/// King moves of the side to move (no castling).
pub fn king_moves(bit_board: &BitBoard) -> (moves: Vec<Vec<u64>>)
    requires
        king_moves_ok(*bit_board),
    ensures
        moves.deep_view() == spec_king_moves(*bit_board),
{
    let mut moves: Vec<Vec<u64>> = Vec::with_capacity(16);
    let dir: [i32; 8] = [-9, -8, -7, -1, 1, 7, 8, 9];
    let king;
    let pieces;

    if bit_board.player == 1 {
        king = bit_board.white_king.trailing_zeros() as i32;
        pieces = bit_board.white_pieces;
    } else {
        king = bit_board.black_king.trailing_zeros() as i32;
        pieces = bit_board.black_pieces;
    }
    proof {
        vstd::std_specs::bits::axiom_u64_trailing_zeros(own_king(*bit_board));
        assert(dir@ == seq![-9i32, -8i32, -7i32, -1i32, 1i32, 7i32, 8i32, 9i32]);
        if king == 64 {
            assert forall|j: int| 0 <= j < 8 implies #[trigger] jump(pieces, 64, king_dirs()[j], 1, 6)
                == Seq::<Seq<u64>>::empty() by {
                assert(has_bit(pieces, 56) && has_bit(pieces, 57));
            }
        }
        assert(moves.deep_view() =~= Seq::<Seq<u64>>::empty());
    }
    push_jumps(&mut moves, king, &dir, pieces, 1, 6, Ghost(king_dirs()));
    assert(moves.deep_view() =~= spec_king_moves(*bit_board));
    moves
}


// ---------------------------------------------------------------------------
// Sliding pieces
// ---------------------------------------------------------------------------

/// The kinds of line a sliding piece follows.
pub open spec fn VERTICAL() -> int {
    0
}

pub open spec fn HORIZONTAL() -> int {
    1
}

pub open spec fn DIAGONAL() -> int {
    2
}

/// Square `to` has left the line through `from`: for a horizontal slide it is on
/// another row, for a diagonal slide its row and column distances from `from` differ.
pub open spec fn off_line(kind: int, from: int, to: int) -> bool {
    if kind == HORIZONTAL() {
        from / 8 != to / 8
    } else if kind == DIAGONAL() {
        abs(from / 8 - to / 8) != abs(from % 8 - to % 8)
    } else {
        false
    }
}

pub open spec fn slide_measure(to: int, d: int) -> int {
    if 0 <= to < 64 {
        if d > 0 {
            64 - to
        } else {
            to + 1
        }
    } else {
        0
    }
}

/// Squares reached from `from` stepping by `d`, starting at `to`: the slide stops
/// before an own piece or when it leaves the board or the line, and stops after
/// taking an opposing piece.
pub open spec fn slide(
    from: int,
    to: int,
    d: int,
    my: u64,
    opp: u64,
    piece: u64,
    kind: int,
) -> Seq<Seq<u64>>
    decreases slide_measure(to, d),
{
    if !(0 <= to < 64) || d == 0 {
        seq![]
    } else if has_bit(my, to) {
        seq![]
    } else if off_line(kind, from, to) {
        seq![]
    } else if has_bit(opp, to) {
        seq![mv(from, to, piece, 0)]
    } else {
        seq![mv(from, to, piece, 0)] + slide(from, to + d, d, my, opp, piece, kind)
    }
}

/// Rook-like moves from square `r`: down and up the column, then left and right along the row.
pub open spec fn rook_lines(r: int, my: u64, opp: u64, piece: u64) -> Seq<Seq<u64>> {
    slide(r, r - 8, -8, my, opp, piece, VERTICAL()) + slide(r, r + 8, 8, my, opp, piece, VERTICAL())
        + slide(r, r - 1, -1, my, opp, piece, HORIZONTAL()) + slide(
        r,
        r + 1,
        1,
        my,
        opp,
        piece,
        HORIZONTAL(),
    )
}

/// Bishop-like moves from square `b` along the four diagonals (offsets -9, -7, 7, 9).
pub open spec fn bishop_lines(b: int, my: u64, opp: u64, piece: u64) -> Seq<Seq<u64>> {
    slide(b, b - 9, -9, my, opp, piece, DIAGONAL()) + slide(b, b - 7, -7, my, opp, piece, DIAGONAL())
        + slide(b, b + 7, 7, my, opp, piece, DIAGONAL()) + slide(
        b,
        b + 9,
        9,
        my,
        opp,
        piece,
        DIAGONAL(),
    )
}

pub open spec fn spec_h_and_v_moves(pieces: u64, my: u64, opp: u64, piece: u64) -> Seq<Seq<u64>> {
    collect(pieces, 64, |r: int| rook_lines(r, my, opp, piece))
}

pub open spec fn spec_c_moves(pieces: u64, my: u64, opp: u64, piece: u64) -> Seq<Seq<u64>> {
    collect(pieces, 64, |b: int| bishop_lines(b, my, opp, piece))
}

/// Appends the slide from `from` by `d` (see `slide`).
fn push_slide(
    moves: &mut Vec<Vec<u64>>,
    from: i32,
    d: i32,
    my: u64,
    opp: u64,
    piece: u64,
    kind: u8,
)
    requires
        0 <= from < 64,
        d == -9 || d == -8 || d == -7 || d == -1 || d == 1 || d == 7 || d == 8 || d == 9,
        kind <= 2,
    ensures
        final(moves).deep_view() == old(moves).deep_view() + slide(
            from as int,
            from + d,
            d as int,
            my,
            opp,
            piece,
            kind as int,
        ),
{
    let ghost target = old(moves).deep_view() + slide(
        from as int,
        from + d,
        d as int,
        my,
        opp,
        piece,
        kind as int,
    );
    let row = from / 8;
    let col = from % 8;
    let mut to = from + d;
    while to >= 0 && to < 64
        invariant_except_break
            0 <= from < 64,
            row == from / 8,
            col == from % 8,
            d == -9 || d == -8 || d == -7 || d == -1 || d == 1 || d == 7 || d == 8 || d == 9,
            kind <= 2,
            -9 <= to <= 72,
            moves.deep_view() + slide(from as int, to as int, d as int, my, opp, piece, kind as int)
                == target,
        ensures
            moves.deep_view() == target,
        decreases slide_measure(to as int, d as int),
    {
        proof {
            lemma_square_test(my, to as int);
            lemma_square_test(opp, to as int);
        }
        if (1u64 << (to as u64)) & my != 0 {
            assert(moves.deep_view() =~= target);
            break;
        }
        if kind == 1 && row != to / 8 {
            assert(moves.deep_view() =~= target);
            break;
        }
        if kind == 2 && abs_i32(row - to / 8) != abs_i32(col - to % 8) {
            assert(moves.deep_view() =~= target);
            break;
        }
        push_move(moves, 1u64 << (from as u64), 1u64 << (to as u64), piece, 0);
        if (1u64 << (to as u64)) & opp != 0 {
            assert(moves.deep_view() =~= target);
            break;
        }
        assert(slide(from as int, to as int, d as int, my, opp, piece, kind as int) =~= seq![
            mv(from as int, to as int, piece, 0),
        ] + slide(from as int, to + d, d as int, my, opp, piece, kind as int));
        to += d;
    }
    proof {
        if !(to >= 0 && to < 64) {
            assert(moves.deep_view() =~= target);
        }
    }
}

/// Moves of the rook-like `pieces` (vertical, then horizontal lines), piece by piece
/// in increasing square order.
pub fn h_and_v_moves(pieces: u64, my_pieces: u64, opponent_pieces: u64, piece: u64) -> (moves: Vec<
    Vec<u64>,
>)
    ensures
        moves.deep_view() == spec_h_and_v_moves(pieces, my_pieces, opponent_pieces, piece),
{
    let mut pieces = pieces;
    let ghost orig = pieces;
    let ghost f = |r: int| rook_lines(r, my_pieces, opponent_pieces, piece);
    let mut moves: Vec<Vec<u64>> = Vec::with_capacity(16);
    proof {
        lemma_first_square(orig, f);
        assert(moves.deep_view() =~= Seq::<Seq<u64>>::empty());
    }
    let mut r = pieces.trailing_zeros() as i32;
    while r != 64
        invariant
            f == (|r: int| rook_lines(r, my_pieces, opponent_pieces, piece)),
            0 <= r <= 64,
            r == pieces.trailing_zeros(),
            rest_of(orig, pieces, r as int),
            moves.deep_view() == collect(orig, r as int, f),
        decreases 64 - r,
    {
        proof {
            lemma_next_square(orig, pieces, r as int, f);
        }
        let ghost before = moves.deep_view();
        pieces ^= 1u64 << (r as u64);
        push_slide(&mut moves, r, -8, my_pieces, opponent_pieces, piece, 0);
        push_slide(&mut moves, r, 8, my_pieces, opponent_pieces, piece, 0);
        push_slide(&mut moves, r, -1, my_pieces, opponent_pieces, piece, 1);
        push_slide(&mut moves, r, 1, my_pieces, opponent_pieces, piece, 1);
        assert(moves.deep_view() =~= before + rook_lines(
            r as int,
            my_pieces,
            opponent_pieces,
            piece,
        ));
        r = pieces.trailing_zeros() as i32;
    }
    moves
}

/// Moves of the bishop-like `pieces` along the diagonals, piece by piece in
/// increasing square order.
pub fn c_moves(pieces: u64, my_pieces: u64, opponent_pieces: u64, piece: u64) -> (moves: Vec<
    Vec<u64>,
>)
    ensures
        moves.deep_view() == spec_c_moves(pieces, my_pieces, opponent_pieces, piece),
{
    let mut pieces = pieces;
    let ghost orig = pieces;
    let ghost f = |b: int| bishop_lines(b, my_pieces, opponent_pieces, piece);
    let mut moves: Vec<Vec<u64>> = Vec::with_capacity(16);
    proof {
        lemma_first_square(orig, f);
        assert(moves.deep_view() =~= Seq::<Seq<u64>>::empty());
    }
    let mut b = pieces.trailing_zeros() as i32;
    while b != 64
        invariant
            f == (|b: int| bishop_lines(b, my_pieces, opponent_pieces, piece)),
            0 <= b <= 64,
            b == pieces.trailing_zeros(),
            rest_of(orig, pieces, b as int),
            moves.deep_view() == collect(orig, b as int, f),
        decreases 64 - b,
    {
        proof {
            lemma_next_square(orig, pieces, b as int, f);
        }
        let ghost before = moves.deep_view();
        pieces ^= 1u64 << (b as u64);
        push_slide(&mut moves, b, -9, my_pieces, opponent_pieces, piece, 2);
        push_slide(&mut moves, b, -7, my_pieces, opponent_pieces, piece, 2);
        push_slide(&mut moves, b, 7, my_pieces, opponent_pieces, piece, 2);
        push_slide(&mut moves, b, 9, my_pieces, opponent_pieces, piece, 2);
        assert(moves.deep_view() =~= before + bishop_lines(
            b as int,
            my_pieces,
            opponent_pieces,
            piece,
        ));
        b = pieces.trailing_zeros() as i32;
    }
    moves
}

pub open spec fn own_bishops(bb: BitBoard) -> u64 {
    if bb.player == 1 {
        bb.white_bishops
    } else {
        bb.black_bishops
    }
}

pub open spec fn own_rooks(bb: BitBoard) -> u64 {
    if bb.player == 1 {
        bb.white_rooks
    } else {
        bb.black_rooks
    }
}

pub open spec fn own_queens(bb: BitBoard) -> u64 {
    if bb.player == 1 {
        bb.white_queen
    } else {
        bb.black_queen
    }
}

pub open spec fn spec_bishop_moves(bb: BitBoard) -> Seq<Seq<u64>> {
    spec_c_moves(own_bishops(bb), own_pieces(bb), other_pieces(bb), 3)
}

pub open spec fn spec_rook_moves(bb: BitBoard) -> Seq<Seq<u64>> {
    spec_h_and_v_moves(own_rooks(bb), own_pieces(bb), other_pieces(bb), 4)
}

/// Queen moves: the rook-like lines of every queen, then the diagonals of every queen.
pub open spec fn spec_queen_moves(bb: BitBoard) -> Seq<Seq<u64>> {
    spec_h_and_v_moves(own_queens(bb), own_pieces(bb), other_pieces(bb), 5) + spec_c_moves(
        own_queens(bb),
        own_pieces(bb),
        other_pieces(bb),
        5,
    )
}

pub fn bishop_moves(bit_board: &BitBoard) -> (moves: Vec<Vec<u64>>)
    ensures
        moves.deep_view() == spec_bishop_moves(*bit_board),
{
    let my_pieces;
    let bishops;
    let opponent_pieces;

    if bit_board.player == 1 {
        my_pieces = bit_board.white_pieces;
        bishops = bit_board.white_bishops;
        opponent_pieces = bit_board.black_pieces;
    } else {
        my_pieces = bit_board.black_pieces;
        bishops = bit_board.black_bishops;
        opponent_pieces = bit_board.white_pieces;
    }

    c_moves(bishops, my_pieces, opponent_pieces, 3)
}

pub fn rook_moves(bit_board: &BitBoard) -> (moves: Vec<Vec<u64>>)
    ensures
        moves.deep_view() == spec_rook_moves(*bit_board),
{
    let my_pieces;
    let rooks;
    let opponent_pieces;

    if bit_board.player == 1 {
        my_pieces = bit_board.white_pieces;
        rooks = bit_board.white_rooks;
        opponent_pieces = bit_board.black_pieces;
    } else {
        my_pieces = bit_board.black_pieces;
        rooks = bit_board.black_rooks;
        opponent_pieces = bit_board.white_pieces;
    }

    h_and_v_moves(rooks, my_pieces, opponent_pieces, 4)
}

pub fn queen_moves(bit_board: &BitBoard) -> (moves: Vec<Vec<u64>>)
    ensures
        moves.deep_view() == spec_queen_moves(*bit_board),
{
    let my_pieces;
    let queen;
    let opponent_pieces;

    if bit_board.player == 1 {
        my_pieces = bit_board.white_pieces;
        queen = bit_board.white_queen;
        opponent_pieces = bit_board.black_pieces;
    } else {
        my_pieces = bit_board.black_pieces;
        queen = bit_board.black_queen;
        opponent_pieces = bit_board.white_pieces;
    }

    let mut moves = h_and_v_moves(queen, my_pieces, opponent_pieces, 5);
    let mut diagonal = c_moves(queen, my_pieces, opponent_pieces, 5);
    let ghost a = moves.deep_view();
    let ghost b = diagonal.deep_view();
    moves.append(&mut diagonal);
    assert(moves.deep_view() =~= a + b);
    moves
}

/// All moves of the side to move: pawns, knights, bishops, rooks, queens, king
/// (no castling, en passant or check test).
#[verifier::opaque]
pub open spec fn spec_all_legal_moves(bb: BitBoard) -> Seq<Seq<u64>> {
    spec_pawn_moves(bb) + spec_knight_moves(bb) + spec_bishop_moves(bb) + spec_rook_moves(bb)
        + spec_queen_moves(bb) + spec_king_moves(bb)
}

/// Appends `more` to `moves`.
fn extend_moves(moves: &mut Vec<Vec<u64>>, more: Vec<Vec<u64>>)
    ensures
        final(moves).deep_view() == old(moves).deep_view() + more.deep_view(),
{
    let mut more = more;
    let ghost a = moves.deep_view();
    let ghost b = more.deep_view();
    moves.append(&mut more);
    assert(moves.deep_view() =~= a + b);
}

pub fn all_legal_moves(bit_board: &BitBoard) -> (moves: Vec<Vec<u64>>)
    requires
        pawn_moves_ok(*bit_board),
        king_moves_ok(*bit_board),
    ensures
        moves.deep_view() == spec_all_legal_moves(*bit_board),
{
    let mut moves: Vec<Vec<u64>> = Vec::with_capacity(64);
    extend_moves(&mut moves, pawn_moves(bit_board));
    extend_moves(&mut moves, knight_moves(bit_board));
    extend_moves(&mut moves, bishop_moves(bit_board));
    extend_moves(&mut moves, rook_moves(bit_board));
    extend_moves(&mut moves, queen_moves(bit_board));
    extend_moves(&mut moves, king_moves(bit_board));
    reveal(spec_all_legal_moves);
    assert(moves.deep_view() =~= spec_all_legal_moves(*bit_board));
    moves
}


/// The moves of one kind of piece, in generation order: 0 pawns, 1 knights,
/// 2 bishops, 3 rooks, 4 queens, 5 the king.
pub open spec fn moves_of_kind(bb: BitBoard, kind: int) -> Seq<Seq<u64>> {
    if kind == 0 {
        spec_pawn_moves(bb)
    } else if kind == 1 {
        spec_knight_moves(bb)
    } else if kind == 2 {
        spec_bishop_moves(bb)
    } else if kind == 3 {
        spec_rook_moves(bb)
    } else if kind == 4 {
        spec_queen_moves(bb)
    } else {
        spec_king_moves(bb)
    }
}

/// The moves of the kinds before `kind`.
pub open spec fn moves_before(bb: BitBoard, kind: int) -> Seq<Seq<u64>>
    decreases kind,
{
    if kind <= 0 {
        seq![]
    } else {
        moves_before(bb, kind - 1) + moves_of_kind(bb, kind - 1)
    }
}

proof fn lemma_moves_before_all(bb: BitBoard)
    ensures
        moves_before(bb, 6) == spec_all_legal_moves(bb),
{
    reveal(spec_all_legal_moves);
    reveal_with_fuel(moves_before, 7);
    assert(moves_before(bb, 6) =~= spec_all_legal_moves(bb));
}

/// The moves of the kinds before `k` begin the moves of the kinds before `m >= k`.
proof fn lemma_moves_before_prefix(bb: BitBoard, k: int, m: int)
    requires
        0 <= k <= m,
    ensures
        moves_before(bb, k).len() <= moves_before(bb, m).len(),
        moves_before(bb, m).subrange(0, moves_before(bb, k).len() as int) == moves_before(bb, k),
    decreases m - k,
{
    if k < m {
        lemma_moves_before_prefix(bb, k, m - 1);
        let a = moves_before(bb, m - 1);
        let x = moves_before(bb, k);
        assert(moves_before(bb, m).subrange(0, x.len() as int) =~= a.subrange(0, x.len() as int));
    } else {
        assert(moves_before(bb, m).subrange(0, moves_before(bb, m).len() as int) =~= moves_before(bb, m));
    }
}

/// The moves of kind `kind` stand right after those of the kinds before it.
proof fn lemma_chunk_at(bb: BitBoard, kind: int)
    requires
        0 <= kind < 6,
    ensures
        ({
            let off = moves_before(bb, kind).len() as int;
            let n = moves_of_kind(bb, kind).len() as int;
            &&& off + n == moves_before(bb, kind + 1).len()
            &&& off + n <= spec_all_legal_moves(bb).len()
            &&& spec_all_legal_moves(bb).subrange(off, off + n) == moves_of_kind(bb, kind)
        }),
{
    let off = moves_before(bb, kind).len() as int;
    let chunk = moves_of_kind(bb, kind);
    let n = chunk.len() as int;
    let moves = spec_all_legal_moves(bb);
    lemma_moves_before_all(bb);
    lemma_moves_before_prefix(bb, kind + 1, 6);
    assert(moves_before(bb, kind + 1) == moves_before(bb, kind) + chunk);
    assert(moves.subrange(0, off + n) == moves_before(bb, kind + 1));
    assert forall|j: int| 0 <= j < n implies moves.subrange(off, off + n)[j] == chunk[j] by {
        assert(moves.subrange(0, off + n)[off + j] == moves[off + j]);
        assert((moves_before(bb, kind) + chunk)[off + j] == chunk[j]);
    }
    assert(moves.subrange(off, off + n) =~= chunk);
}

/// The moves of one kind of piece (see `moves_of_kind`).
fn kind_moves(bit_board: &BitBoard, kind: usize) -> (moves: Vec<Vec<u64>>)
    requires
        pawn_moves_ok(*bit_board),
        king_moves_ok(*bit_board),
        kind < 6,
    ensures
        moves.deep_view() == moves_of_kind(*bit_board, kind as int),
{
    match kind {
        0 => pawn_moves(bit_board),
        1 => knight_moves(bit_board),
        2 => bishop_moves(bit_board),
        3 => rook_moves(bit_board),
        4 => queen_moves(bit_board),
        _ => king_moves(bit_board),
    }
}

// ---------------------------------------------------------------------------
// Shape of the generated moves
// ---------------------------------------------------------------------------

/// Square `t` is not on the last row of `player`'s pawns (row 7 for white, row 0 for black).
pub open spec fn before_last_row(player: i8, t: int) -> bool {
    if player == 1 {
        t < 56
    } else {
        t >= 8
    }
}

/// Every white pawn stands before row 7.
pub open spec fn white_placed(bb: BitBoard) -> bool {
    forall|i: int| #[trigger] has_bit(bb.white_pawns, i) ==> i < 56
}

/// Every black pawn stands after row 0.
pub open spec fn black_placed(bb: BitBoard) -> bool {
    forall|i: int| #[trigger] has_bit(bb.black_pawns, i) ==> i >= 8
}

/// The pawns of the side to move stand before their last row.
pub open spec fn own_placed(bb: BitBoard) -> bool {
    if bb.player == 1 {
        white_placed(bb)
    } else {
        black_placed(bb)
    }
}

/// The pawns of the other side stand before their last row.
pub open spec fn other_placed(bb: BitBoard) -> bool {
    if bb.player == 1 {
        black_placed(bb)
    } else {
        white_placed(bb)
    }
}

/// Every pawn of both sides stands before its last row.
pub open spec fn pawns_placed(bb: BitBoard) -> bool {
    &&& white_placed(bb)
    &&& black_placed(bb)
}

/// `m` starts on square `f` (a pawn of the mover when `m` moves a pawn).
pub open spec fn from_square(bb: BitBoard, m: Seq<u64>, f: int) -> bool {
    &&& 0 <= f < 64
    &&& m[0] == square(f)
    &&& m[2] == 1 ==> has_bit(own_pawns(bb), f)
}

/// `m` ends on square `t` (before the mover's last row when a pawn moves without promoting).
pub open spec fn to_square(bb: BitBoard, m: Seq<u64>, t: int) -> bool {
    &&& 0 <= t < 64
    &&& m[1] == square(t)
    &&& m[2] == 1 && m[3] == 0 ==> before_last_row(bb.player, t)
}

/// A generated move: four entries, single squares for `from` and `to`, a piece
/// code 1..=6, and no promotion except for a pawn (to 2..=5).
pub open spec fn well_formed_move(bb: BitBoard, m: Seq<u64>) -> bool {
    &&& m.len() == 4
    &&& 1 <= m[2] <= 6
    &&& m[3] == 0 || (m[2] == 1 && 2 <= m[3] <= 5)
    &&& exists|f: int| #[trigger] from_square(bb, m, f)
    &&& exists|t: int| #[trigger] to_square(bb, m, t)
}

pub open spec fn all_well_formed(bb: BitBoard, s: Seq<Seq<u64>>) -> bool {
    forall|j: int| 0 <= j < s.len() ==> #[trigger] well_formed_move(bb, s[j])
}

proof fn lemma_all_well_formed_concat(bb: BitBoard, a: Seq<Seq<u64>>, b: Seq<Seq<u64>>)
    requires
        all_well_formed(bb, a),
        all_well_formed(bb, b),
    ensures
        all_well_formed(bb, a + b),
{
    assert forall|j: int| 0 <= j < (a + b).len() implies #[trigger] well_formed_move(bb, (a + b)[j]) by {
        if j < a.len() {
            assert((a + b)[j] == a[j]);
        } else {
            assert((a + b)[j] == b[j - a.len()]);
        }
    }
}

proof fn lemma_collect_well_formed(bb: BitBoard, b: u64, n: int, f: spec_fn(int) -> Seq<Seq<u64>>)
    requires
        forall|p: int| 0 <= p < 64 && #[trigger] has_bit(b, p) ==> all_well_formed(bb, f(p)),
    ensures
        all_well_formed(bb, collect(b, n, f)),
    decreases n,
{
    if n > 0 {
        lemma_collect_well_formed(bb, b, n - 1, f);
        if has_bit(b, n - 1) {
            lemma_all_well_formed_concat(bb, collect(b, n - 1, f), f(n - 1));
        } else {
            lemma_all_well_formed_concat(bb, collect(b, n - 1, f), seq![]);
        }
    }
}

proof fn lemma_slide_well_formed(
    bb: BitBoard,
    from: int,
    to: int,
    d: int,
    my: u64,
    opp: u64,
    piece: u64,
    kind: int,
)
    requires
        2 <= piece <= 6,
        0 <= from < 64,
    ensures
        all_well_formed(bb, slide(from, to, d, my, opp, piece, kind)),
    decreases slide_measure(to, d),
{
    if !(0 <= to < 64) || d == 0 || has_bit(my, to) || off_line(kind, from, to) {
    } else if has_bit(opp, to) {
        assert(from_square(bb, mv(from, to, piece, 0), from));
        assert(to_square(bb, mv(from, to, piece, 0), to));
        assert(well_formed_move(bb, mv(from, to, piece, 0)));
    } else {
        lemma_slide_well_formed(bb, from, to + d, d, my, opp, piece, kind);
        assert(from_square(bb, mv(from, to, piece, 0), from));
        assert(to_square(bb, mv(from, to, piece, 0), to));
        assert(well_formed_move(bb, mv(from, to, piece, 0)));
        lemma_all_well_formed_concat(
            bb,
            seq![mv(from, to, piece, 0)],
            slide(from, to + d, d, my, opp, piece, kind),
        );
    }
}

proof fn lemma_jumps_well_formed(
    bb: BitBoard,
    pieces: u64,
    from: int,
    dirs: Seq<int>,
    n: int,
    max_col_diff: int,
    piece: u64,
)
    requires
        2 <= piece <= 6,
        0 <= from < 64,
    ensures
        all_well_formed(bb, jumps(pieces, from, dirs, n, max_col_diff, piece)),
    decreases n,
{
    if n > 0 {
        lemma_jumps_well_formed(bb, pieces, from, dirs, n - 1, max_col_diff, piece);
        let j = jump(pieces, from, dirs[n - 1], max_col_diff, piece);
        if j.len() > 0 {
            assert(from_square(bb, j[0], from));
            assert(to_square(bb, j[0], from + dirs[n - 1]));
            assert(well_formed_move(bb, j[0]));
        }
        lemma_all_well_formed_concat(bb, jumps(pieces, from, dirs, n - 1, max_col_diff, piece), j);
    }
}

proof fn lemma_pawn_moves_at_well_formed(bb: BitBoard, p: int)
    requires
        0 <= p < 64,
        has_bit(own_pawns(bb), p),
        pawn_moves_ok(bb),
        own_pieces(bb) != 0,
    ensures
        all_well_formed(bb, pawn_moves_at(bb, p)),
{
    let white = bb.player == 1;
    let dir: int = if white { 8 } else { -8 };
    let start_row: int = if white { 1 } else { 6 };
    let to = p + dir;
    let promote_row = p / 8 == 7 - start_row;
    assert forall|t: int, pr: bool|
        0 <= t < 64 && (pr == promote_row) && (t == to - 1 || t == to + 1 || t == to) && (p % 8 > 0 || t
            != to - 1) && (p % 8 < 7 || t != to + 1) implies #[trigger] all_well_formed(
        bb,
        pawn_targets(p, t, pr),
    ) by {
        if pr {
            assert forall|j: int| 0 <= j < 4 implies #[trigger] well_formed_move(
                bb,
                promotions(p, t)[j],
            ) by {
                assert(has_bit(own_pawns(bb), p));
                assert(from_square(bb, promotions(p, t)[j], p));
                assert(to_square(bb, promotions(p, t)[j], t));
            }
        } else {
            assert(before_last_row(bb.player, t));
            assert(has_bit(own_pawns(bb), p));
            assert(from_square(bb, mv(p, t, 1, 0), p));
            assert(to_square(bb, mv(p, t, 1, 0), t));
            assert(well_formed_move(bb, mv(p, t, 1, 0)));
        }
    }
    let left = if p % 8 > 0 && has_bit(other_pieces(bb), to - 1) {
        pawn_targets(p, to - 1, promote_row)
    } else {
        seq![]
    };
    let right = if p % 8 < 7 && has_bit(other_pieces(bb), to + 1) {
        pawn_targets(p, to + 1, promote_row)
    } else {
        seq![]
    };
    if p % 8 > 0 && has_bit(other_pieces(bb), to - 1) {
        assert(all_well_formed(bb, pawn_targets(p, to - 1, promote_row)));
    }
    if p % 8 < 7 && has_bit(other_pieces(bb), to + 1) {
        assert(all_well_formed(bb, pawn_targets(p, to + 1, promote_row)));
    }
    assert(all_well_formed(bb, left));
    assert(all_well_formed(bb, right));
    let my = own_pieces(bb);
    let opp = other_pieces(bb);
    let forward = if !has_bit(my | opp, to) {
        if promote_row {
            promotions(p, to)
        } else {
            seq![mv(p, to, 1, 0)] + if p / 8 == start_row && !has_bit(my | opp, to + dir) {
                seq![mv(p, to + dir, 1, 0)]
            } else {
                seq![]
            }
        }
    } else {
        seq![]
    };
    if !has_bit(my | opp, to) {
        if promote_row {
            assert(all_well_formed(bb, pawn_targets(p, to, true)));
        } else {
            assert(all_well_formed(bb, pawn_targets(p, to, false)));
            let second = if p / 8 == start_row && !has_bit(my | opp, to + dir) {
                seq![mv(p, to + dir, 1, 0)]
            } else {
                seq![]
            };
            if p / 8 == start_row && !has_bit(my | opp, to + dir) {
                assert(before_last_row(bb.player, to + dir));
                assert(from_square(bb, mv(p, to + dir, 1, 0), p));
                assert(to_square(bb, mv(p, to + dir, 1, 0), to + dir));
                assert(well_formed_move(bb, mv(p, to + dir, 1, 0)));
            }
            assert(all_well_formed(bb, second));
            lemma_all_well_formed_concat(bb, seq![mv(p, to, 1, 0)], second);
        }
    }
    assert(all_well_formed(bb, forward));
    lemma_all_well_formed_concat(bb, left, right);
    lemma_all_well_formed_concat(bb, left + right, forward);
}

/// Without a king, and with the mover's pieces on squares 56 and 57, the "king"
/// at square 64 has no moves.
proof fn lemma_no_king_no_moves(my: u64, n: int)
    requires
        has_bit(my, 56),
        has_bit(my, 57),
        0 <= n <= 8,
    ensures
        jumps(my, 64, king_dirs(), n, 1, 6) == Seq::<Seq<u64>>::empty(),
    decreases n,
{
    if n > 0 {
        lemma_no_king_no_moves(my, n - 1);
        assert(jump(my, 64, king_dirs()[n - 1], 1, 6) == Seq::<Seq<u64>>::empty());
        assert(jumps(my, 64, king_dirs(), n, 1, 6) =~= Seq::<Seq<u64>>::empty());
    }
}

/// Every move that `all_legal_moves` generates is well formed.
pub proof fn lemma_moves_well_formed(bb: BitBoard)
    requires
        pawn_moves_ok(bb),
        king_moves_ok(bb),
    ensures
        all_well_formed(bb, spec_all_legal_moves(bb)),
{
    reveal(spec_all_legal_moves);
    let my = own_pieces(bb);
    let opp = other_pieces(bb);
    // pawns
    if own_pieces(bb) != 0 {
        assert forall|p: int| 0 <= p < 64 && #[trigger] has_bit(own_pawns(bb), p) implies all_well_formed(
            bb,
            (|q: int| pawn_moves_at(bb, q))(p),
        ) by {
            lemma_pawn_moves_at_well_formed(bb, p);
        }
        lemma_collect_well_formed(bb, own_pawns(bb), 64, |q: int| pawn_moves_at(bb, q));
    }
    assert(all_well_formed(bb, spec_pawn_moves(bb)));
    // knights
    assert forall|p: int| 0 <= p < 64 && #[trigger] has_bit(own_knights(bb), p) implies all_well_formed(
        bb,
        (|k: int| jumps(my, k, knight_dirs(), 8, 2, 2))(p),
    ) by {
        lemma_jumps_well_formed(bb, my, p, knight_dirs(), 8, 2, 2);
    }
    lemma_collect_well_formed(bb, own_knights(bb), 64, |k: int| jumps(my, k, knight_dirs(), 8, 2, 2));
    // sliding pieces
    assert forall|piece: u64, b: u64|
        2 <= piece <= 6 implies #[trigger] all_well_formed(bb, spec_c_moves(b, my, opp, piece)) by {
        assert forall|p: int| 0 <= p < 64 && #[trigger] has_bit(b, p) implies all_well_formed(
            bb,
            (|q: int| bishop_lines(q, my, opp, piece))(p),
        ) by {
            lemma_slide_well_formed(bb, p, p - 9, -9, my, opp, piece, DIAGONAL());
            lemma_slide_well_formed(bb, p, p - 7, -7, my, opp, piece, DIAGONAL());
            lemma_slide_well_formed(bb, p, p + 7, 7, my, opp, piece, DIAGONAL());
            lemma_slide_well_formed(bb, p, p + 9, 9, my, opp, piece, DIAGONAL());
            lemma_all_well_formed_concat(
                bb,
                slide(p, p - 9, -9, my, opp, piece, DIAGONAL()),
                slide(p, p - 7, -7, my, opp, piece, DIAGONAL()),
            );
            lemma_all_well_formed_concat(
                bb,
                slide(p, p - 9, -9, my, opp, piece, DIAGONAL()) + slide(
                    p,
                    p - 7,
                    -7,
                    my,
                    opp,
                    piece,
                    DIAGONAL(),
                ),
                slide(p, p + 7, 7, my, opp, piece, DIAGONAL()),
            );
            lemma_all_well_formed_concat(
                bb,
                slide(p, p - 9, -9, my, opp, piece, DIAGONAL()) + slide(
                    p,
                    p - 7,
                    -7,
                    my,
                    opp,
                    piece,
                    DIAGONAL(),
                ) + slide(p, p + 7, 7, my, opp, piece, DIAGONAL()),
                slide(p, p + 9, 9, my, opp, piece, DIAGONAL()),
            );
        }
        lemma_collect_well_formed(bb, b, 64, |q: int| bishop_lines(q, my, opp, piece));
    }
    assert forall|piece: u64, b: u64|
        2 <= piece <= 6 implies #[trigger] all_well_formed(bb, spec_h_and_v_moves(b, my, opp, piece)) by {
        assert forall|p: int| 0 <= p < 64 && #[trigger] has_bit(b, p) implies all_well_formed(
            bb,
            (|q: int| rook_lines(q, my, opp, piece))(p),
        ) by {
            lemma_slide_well_formed(bb, p, p - 8, -8, my, opp, piece, VERTICAL());
            lemma_slide_well_formed(bb, p, p + 8, 8, my, opp, piece, VERTICAL());
            lemma_slide_well_formed(bb, p, p - 1, -1, my, opp, piece, HORIZONTAL());
            lemma_slide_well_formed(bb, p, p + 1, 1, my, opp, piece, HORIZONTAL());
            lemma_all_well_formed_concat(
                bb,
                slide(p, p - 8, -8, my, opp, piece, VERTICAL()),
                slide(p, p + 8, 8, my, opp, piece, VERTICAL()),
            );
            lemma_all_well_formed_concat(
                bb,
                slide(p, p - 8, -8, my, opp, piece, VERTICAL()) + slide(
                    p,
                    p + 8,
                    8,
                    my,
                    opp,
                    piece,
                    VERTICAL(),
                ),
                slide(p, p - 1, -1, my, opp, piece, HORIZONTAL()),
            );
            lemma_all_well_formed_concat(
                bb,
                slide(p, p - 8, -8, my, opp, piece, VERTICAL()) + slide(
                    p,
                    p + 8,
                    8,
                    my,
                    opp,
                    piece,
                    VERTICAL(),
                ) + slide(p, p - 1, -1, my, opp, piece, HORIZONTAL()),
                slide(p, p + 1, 1, my, opp, piece, HORIZONTAL()),
            );
        }
        lemma_collect_well_formed(bb, b, 64, |q: int| rook_lines(q, my, opp, piece));
    }
    assert(all_well_formed(bb, spec_bishop_moves(bb)));
    assert(all_well_formed(bb, spec_rook_moves(bb)));
    assert(all_well_formed(bb, spec_c_moves(own_queens(bb), my, opp, 5)));
    assert(all_well_formed(bb, spec_h_and_v_moves(own_queens(bb), my, opp, 5)));
    lemma_all_well_formed_concat(
        bb,
        spec_h_and_v_moves(own_queens(bb), my, opp, 5),
        spec_c_moves(own_queens(bb), my, opp, 5),
    );
    let king = own_king(bb).trailing_zeros() as int;
    vstd::std_specs::bits::axiom_u64_trailing_zeros(own_king(bb));
    if king < 64 {
        lemma_jumps_well_formed(bb, my, king, king_dirs(), 8, 1, 6);
    } else {
        lemma_no_king_no_moves(my, 8);
    }
    lemma_all_well_formed_concat(bb, spec_pawn_moves(bb), spec_knight_moves(bb));
    lemma_all_well_formed_concat(
        bb,
        spec_pawn_moves(bb) + spec_knight_moves(bb),
        spec_bishop_moves(bb),
    );
    lemma_all_well_formed_concat(
        bb,
        spec_pawn_moves(bb) + spec_knight_moves(bb) + spec_bishop_moves(bb),
        spec_rook_moves(bb),
    );
    lemma_all_well_formed_concat(
        bb,
        spec_pawn_moves(bb) + spec_knight_moves(bb) + spec_bishop_moves(bb) + spec_rook_moves(bb),
        spec_queen_moves(bb),
    );
    lemma_all_well_formed_concat(
        bb,
        spec_pawn_moves(bb) + spec_knight_moves(bb) + spec_bishop_moves(bb) + spec_rook_moves(bb)
            + spec_queen_moves(bb),
        spec_king_moves(bb),
    );
}


// ---------------------------------------------------------------------------
// Positions the search works on
// ---------------------------------------------------------------------------

/// A position of the search: a side to move and every pawn before its last row.
pub open spec fn search_ok(bb: BitBoard) -> bool {
    &&& bb.player == 1 || bb.player == -1
    &&& pawns_placed(bb)
}

proof fn lemma_capture_keeps_bits(x: u64, t: u64, i: u64)
    requires
        i < 64,
    ensures
        ((x ^ (t & x)) >> i) & 1u64 == 1u64 ==> (x >> i) & 1u64 == 1u64,
{
    assert(((x ^ (t & x)) >> i) & 1u64 == 1u64 ==> (x >> i) & 1u64 == 1u64) by (bit_vector)
        requires
            i < 64,
    ;
}

proof fn lemma_step_keeps_bits(x: u64, a: u64, b: u64, i: u64)
    requires
        i < 64,
        a < 64,
        b < 64,
        i != a,
        i != b,
    ensures
        ((x ^ ((1u64 << a) ^ (1u64 << b))) >> i) & 1u64 == (x >> i) & 1u64,
{
    assert(((x ^ ((1u64 << a) ^ (1u64 << b))) >> i) & 1u64 == (x >> i) & 1u64) by (bit_vector)
        requires
            i < 64,
            a < 64,
            b < 64,
            i != a,
            i != b,
    ;
}

proof fn lemma_lift_keeps_bits(x: u64, a: u64, i: u64)
    requires
        i < 64,
        a < 64,
        i != a,
    ensures
        ((x ^ (1u64 << a)) >> i) & 1u64 == (x >> i) & 1u64,
{
    assert(((x ^ (1u64 << a)) >> i) & 1u64 == (x >> i) & 1u64) by (bit_vector)
        requires
            i < 64,
            a < 64,
            i != a,
    ;
}

/// A generated move passes the turn, keeps the pawns of the side that moved before
/// their last row, and only removes pawns of the other side.
pub proof fn lemma_make_move_places_pawns(bb: BitBoard, m: Seq<u64>)
    requires
        bb.player == 1 || bb.player == -1,
        own_placed(bb),
        well_formed_move(bb, m),
        bb.depth < i32::MAX,
    ensures
        spec_make_move(bb, m).player == -bb.player,
        spec_make_move(bb, m).depth == bb.depth + 1,
        other_placed(spec_make_move(bb, m)),
        other_placed(bb) ==> own_placed(spec_make_move(bb, m)),
{
    reveal(spec_make_move);
    let b1 = spec_move_colour(bb, m);
    let b2 = spec_move_piece(b1, m, bb.player);
    let nb = spec_make_move(bb, m);
    // captures only remove pawns
    assert forall|i: int| #[trigger] has_bit(b1.white_pawns, i) implies has_bit(bb.white_pawns, i) by {
        lemma_capture_keeps_bits(bb.white_pawns, m[1], i as u64);
    }
    assert forall|i: int| #[trigger] has_bit(b1.black_pawns, i) implies has_bit(bb.black_pawns, i) by {
        lemma_capture_keeps_bits(bb.black_pawns, m[1], i as u64);
    }
    if m[2] == 1 {
        let p = choose|p: int| #[trigger] from_square(bb, m, p);
        assert(has_bit(own_pawns(bb), p));
        assert(before_last_row(bb.player, p));
        if m[3] == 0 {
            let t = choose|t: int| #[trigger] to_square(bb, m, t);
            if bb.player == 1 {
                assert(b2.white_pawns == b1.white_pawns ^ (m[0] ^ m[1]));
                assert(b2.black_pawns == b1.black_pawns);
                assert forall|i: int| #[trigger] has_bit(b2.white_pawns, i) implies i < 56 by {
                    if i != p && i != t {
                        lemma_step_keeps_bits(b1.white_pawns, p as u64, t as u64, i as u64);
                        assert(has_bit(b1.white_pawns, i));
                    }
                }
            } else {
                assert(b2.black_pawns == b1.black_pawns ^ (m[0] ^ m[1]));
                assert(b2.white_pawns == b1.white_pawns);
                assert forall|i: int| #[trigger] has_bit(b2.black_pawns, i) implies i >= 8 by {
                    if i != p && i != t {
                        lemma_step_keeps_bits(b1.black_pawns, p as u64, t as u64, i as u64);
                        assert(has_bit(b1.black_pawns, i));
                    }
                }
            }
        } else {
            let pb = if bb.player == 1 {
                BitBoard { white_pawns: b1.white_pawns ^ m[0], ..b1 }
            } else {
                BitBoard { black_pawns: b1.black_pawns ^ m[0], ..b1 }
            };
            assert(b2.white_pawns == pb.white_pawns);
            assert(b2.black_pawns == pb.black_pawns);
            if bb.player == 1 {
                assert forall|i: int| #[trigger] has_bit(b2.white_pawns, i) implies i < 56 by {
                    if i != p {
                        lemma_lift_keeps_bits(b1.white_pawns, p as u64, i as u64);
                        assert(has_bit(b1.white_pawns, i));
                    }
                }
            } else {
                assert forall|i: int| #[trigger] has_bit(b2.black_pawns, i) implies i >= 8 by {
                    if i != p {
                        lemma_lift_keeps_bits(b1.black_pawns, p as u64, i as u64);
                        assert(has_bit(b1.black_pawns, i));
                    }
                }
            }
        }
    } else {
        assert(b2.white_pawns == b1.white_pawns);
        assert(b2.black_pawns == b1.black_pawns);
    }
    if bb.player == 1 {
        assert(white_placed(nb));
        if black_placed(bb) {
            assert(black_placed(nb));
        }
    } else {
        assert(black_placed(nb));
        if white_placed(bb) {
            assert(white_placed(nb));
        }
    }
}

/// A generated move keeps every pawn before its last row and passes the turn.
pub proof fn lemma_make_move_keeps_search_ok(bb: BitBoard, m: Seq<u64>)
    requires
        search_ok(bb),
        well_formed_move(bb, m),
        bb.depth < i32::MAX,
    ensures
        search_ok(spec_make_move(bb, m)),
        spec_make_move(bb, m).player == -bb.player,
        spec_make_move(bb, m).depth == bb.depth + 1,
{
    lemma_make_move_places_pawns(bb, m);
}


// ---------------------------------------------------------------------------
// Shape of the jumping moves
// ---------------------------------------------------------------------------

/// A knight's step between squares: two rows and one column, or one row and two
/// columns.
pub open spec fn knight_step(f: int, t: int) -> bool {
    let dr = abs(t / 8 - f / 8);
    let dc = abs(t % 8 - f % 8);
    (dr == 1 && dc == 2) || (dr == 2 && dc == 1)
}

/// A king's step between squares: to one of the squares around.
pub open spec fn king_step(f: int, t: int) -> bool {
    &&& abs(t / 8 - f / 8) <= 1
    &&& abs(t % 8 - f % 8) <= 1
    &&& f != t
}

/// `m` moves `piece` from `from` by one of the offsets `dirs` to a square of the
/// board that `pieces` leaves free, at most `max_col_diff` columns away.
pub open spec fn jump_move(pieces: u64, from: int, dirs: Seq<int>, max_col_diff: int, piece: u64, m: Seq<u64>) -> bool {
    exists|k: int|
        0 <= k < dirs.len() && 0 <= from + dirs[k] < 64 && abs(from % 8 - (from + dirs[k]) % 8) <= max_col_diff
            && !has_bit(pieces, from + dirs[k]) && m == #[trigger] mv(from, from + dirs[k], piece, 0)
}

proof fn lemma_jumps_shape(pieces: u64, from: int, dirs: Seq<int>, n: int, max_col_diff: int, piece: u64)
    requires
        n <= dirs.len(),
    ensures
        forall|j: int|
            0 <= j < jumps(pieces, from, dirs, n, max_col_diff, piece).len() ==> jump_move(
                pieces,
                from,
                dirs,
                max_col_diff,
                piece,
                #[trigger] jumps(pieces, from, dirs, n, max_col_diff, piece)[j],
            ),
    decreases n,
{
    if n > 0 {
        lemma_jumps_shape(pieces, from, dirs, n - 1, max_col_diff, piece);
        let a = jumps(pieces, from, dirs, n - 1, max_col_diff, piece);
        let b = jump(pieces, from, dirs[n - 1], max_col_diff, piece);
        assert forall|j: int| 0 <= j < (a + b).len() implies jump_move(
            pieces,
            from,
            dirs,
            max_col_diff,
            piece,
            #[trigger] (a + b)[j],
        ) by {
            if j < a.len() {
                assert((a + b)[j] == a[j]);
            } else {
                assert((a + b)[j] == b[j - a.len()]);
                assert(b[j - a.len()] == mv(from, from + dirs[n - 1], piece, 0));
            }
        }
    }
}

/// Every element of `collect(b, n, g)` satisfies `p` when the moves of every set
/// square of `b` do.
proof fn lemma_collect_all(b: u64, n: int, g: spec_fn(int) -> Seq<Seq<u64>>, p: spec_fn(Seq<u64>) -> bool)
    requires
        n <= 64,
        forall|q: int, j: int| 0 <= q < 64 && has_bit(b, q) && 0 <= j < g(q).len() ==> p(#[trigger] g(q)[j]),
    ensures
        forall|j: int| 0 <= j < collect(b, n, g).len() ==> p(#[trigger] collect(b, n, g)[j]),
    decreases n,
{
    if n > 0 {
        lemma_collect_all(b, n - 1, g, p);
        let a = collect(b, n - 1, g);
        let c = if has_bit(b, n - 1) {
            g(n - 1)
        } else {
            seq![]
        };
        assert forall|j: int| 0 <= j < (a + c).len() implies p(#[trigger] (a + c)[j]) by {
            if j < a.len() {
                assert((a + c)[j] == a[j]);
            } else {
                assert((a + c)[j] == c[j - a.len()]);
            }
        }
    }
}

/// A knight move of the side to move: from a square of one of its knights, by a
/// knight's step, to a square without a piece of its own.
pub open spec fn knight_move(bb: BitBoard, m: Seq<u64>) -> bool {
    exists|f: int, t: int|
        0 <= f < 64 && 0 <= t < 64 && has_bit(own_knights(bb), f) && !has_bit(own_pieces(bb), t) && knight_step(f, t)
            && m == #[trigger] mv(f, t, 2, 0)
}

/// Every knight move goes by a knight's step from a knight of the side to move to
/// a square without a piece of its own.
pub proof fn lemma_knight_moves_shaped(bb: BitBoard)
    ensures
        forall|j: int| 0 <= j < spec_knight_moves(bb).len() ==> knight_move(bb, #[trigger] spec_knight_moves(bb)[j]),
{
    let g = |k: int| jumps(own_pieces(bb), k, knight_dirs(), 8, 2, 2);
    let p = |m: Seq<u64>| knight_move(bb, m);
    assert forall|q: int, j: int| 0 <= q < 64 && has_bit(own_knights(bb), q) && 0 <= j < g(q).len() implies p(
        #[trigger] g(q)[j],
    ) by {
        lemma_jumps_shape(own_pieces(bb), q, knight_dirs(), 8, 2, 2);
        let m = g(q)[j];
        assert(jump_move(own_pieces(bb), q, knight_dirs(), 2, 2, m));
        let k = choose|k: int|
            0 <= k < knight_dirs().len() && 0 <= q + knight_dirs()[k] < 64 && abs(q % 8 - (q + knight_dirs()[k]) % 8)
                <= 2 && !has_bit(own_pieces(bb), q + knight_dirs()[k]) && m == #[trigger] mv(
                q,
                q + knight_dirs()[k],
                2,
                0,
            );
        let t = q + knight_dirs()[k];
        assert(knight_step(q, t)) by {
            assert(0 <= k < 8);
            if k == 0 { assert(knight_dirs()[k] == -17); }
            else if k == 1 { assert(knight_dirs()[k] == -15); }
            else if k == 2 { assert(knight_dirs()[k] == -10); }
            else if k == 3 { assert(knight_dirs()[k] == -6); }
            else if k == 4 { assert(knight_dirs()[k] == 6); }
            else if k == 5 { assert(knight_dirs()[k] == 10); }
            else if k == 6 { assert(knight_dirs()[k] == 15); }
            else { assert(knight_dirs()[k] == 17); }
        }
        assert(knight_move(bb, mv(q, t, 2, 0)));
    }
    lemma_collect_all(own_knights(bb), 64, g, p);
}

/// Different squares of the board have different one-square boards.
proof fn lemma_square_injective(f: int, t: int)
    requires
        0 <= f < 64,
        0 <= t < 64,
        square(f) == square(t),
    ensures
        f == t,
{
    lemma_square_bit(f, t);
    lemma_square_bit(t, t);
}

/// The jump by offset `dirs[k]` is among the jumps by the first `n` offsets.
proof fn lemma_jumps_contain(pieces: u64, from: int, dirs: Seq<int>, n: int, max_col_diff: int, piece: u64, k: int)
    requires
        0 <= k < n,
        jump(pieces, from, dirs[k], max_col_diff, piece).len() > 0,
    ensures
        jumps(pieces, from, dirs, n, max_col_diff, piece).contains(jump(pieces, from, dirs[k], max_col_diff, piece)[0]),
    decreases n,
{
    let x = jump(pieces, from, dirs[k], max_col_diff, piece)[0];
    let a = jumps(pieces, from, dirs, n - 1, max_col_diff, piece);
    let b = jump(pieces, from, dirs[n - 1], max_col_diff, piece);
    if k < n - 1 {
        lemma_jumps_contain(pieces, from, dirs, n - 1, max_col_diff, piece, k);
        let j = choose|j: int| 0 <= j < a.len() && a[j] == x;
        assert((a + b)[j] == x);
    } else {
        assert((a + b)[a.len() as int] == x);
    }
}

/// Every jump by the first `n` offsets goes from `from` by one of them to a square
/// of the board.
proof fn lemma_jumps_by(pieces: u64, from: int, dirs: Seq<int>, n: int, max_col_diff: int, piece: u64)
    ensures
        forall|j: int|
            0 <= j < jumps(pieces, from, dirs, n, max_col_diff, piece).len() ==> exists|k: int|
                0 <= k < n && 0 <= from + dirs[k] < 64 && #[trigger] jumps(pieces, from, dirs, n, max_col_diff, piece)[j]
                    == mv(from, from + dirs[k], piece, 0),
    decreases n,
{
    if n > 0 {
        lemma_jumps_by(pieces, from, dirs, n - 1, max_col_diff, piece);
        let a = jumps(pieces, from, dirs, n - 1, max_col_diff, piece);
        let b = jump(pieces, from, dirs[n - 1], max_col_diff, piece);
        assert forall|j: int| 0 <= j < (a + b).len() implies exists|k: int|
            0 <= k < n && 0 <= from + dirs[k] < 64 && #[trigger] (a + b)[j] == mv(from, from + dirs[k], piece, 0) by {
            if j < a.len() {
                assert((a + b)[j] == a[j]);
            } else {
                assert((a + b)[j] == b[j - a.len()]);
                assert(b[j - a.len()] == mv(from, from + dirs[n - 1], piece, 0));
            }
        }
    }
}

/// The jumps by pairwise different offsets are pairwise different moves.
proof fn lemma_jumps_distinct(pieces: u64, from: int, dirs: Seq<int>, n: int, max_col_diff: int, piece: u64)
    requires
        n <= dirs.len(),
        forall|i: int, j: int| 0 <= i < j < n ==> dirs[i] != dirs[j],
    ensures
        jumps(pieces, from, dirs, n, max_col_diff, piece).no_duplicates(),
    decreases n,
{
    if n > 0 {
        lemma_jumps_distinct(pieces, from, dirs, n - 1, max_col_diff, piece);
        lemma_jumps_by(pieces, from, dirs, n - 1, max_col_diff, piece);
        let a = jumps(pieces, from, dirs, n - 1, max_col_diff, piece);
        let b = jump(pieces, from, dirs[n - 1], max_col_diff, piece);
        assert forall|i: int, j: int| 0 <= i < (a + b).len() && 0 <= j < (a + b).len() && i != j implies (a + b)[i]
            != (a + b)[j] by {
            if i >= a.len() && j >= a.len() {
            } else if i < a.len() && j < a.len() {
                assert((a + b)[i] == a[i] && (a + b)[j] == a[j]);
            } else {
                let (p, q) = if i < a.len() { (i, j) } else { (j, i) };
                assert((a + b)[p] == a[p]);
                assert((a + b)[q] == b[q - a.len()]);
                let k = choose|k: int| 0 <= k < n - 1 && 0 <= from + dirs[k] < 64 && #[trigger] a[p] == mv(
                    from,
                    from + dirs[k],
                    piece,
                    0,
                );
                let t = from + dirs[n - 1];
                assert(b[q - a.len()] == mv(from, t, piece, 0));
                if a[p] == b[q - a.len()] {
                    assert(square(from + dirs[k]) == square(t));
                    lemma_square_injective(from + dirs[k], t);
                    assert(dirs[k] != dirs[n - 1]);
                }
            }
        }
    }
}

/// The move at `j` of `collect(b, n, g)` comes from `g(p)` for the set square `p < n`
/// that is returned.
proof fn lemma_collect_origin(bits: u64, n: int, g: spec_fn(int) -> Seq<Seq<u64>>, j: int) -> (p: int)
    requires
        0 <= j < collect(bits, n, g).len(),
    ensures
        0 <= p < n,
        has_bit(bits, p),
        g(p).contains(collect(bits, n, g)[j]),
    decreases n,
{
    let a = collect(bits, n - 1, g);
    let c = if has_bit(bits, n - 1) {
        g(n - 1)
    } else {
        seq![]
    };
    assert(collect(bits, n, g) == a + c);
    if j < a.len() {
        assert(collect(bits, n, g)[j] == a[j]);
        lemma_collect_origin(bits, n - 1, g, j)
    } else {
        assert(collect(bits, n, g)[j] == c[j - a.len()]);
        assert(g(n - 1)[j - a.len()] == collect(bits, n, g)[j]);
        n - 1
    }
}

/// A move of `g(p)` for a set square `p < n` is a move of `collect(b, n, g)`.
proof fn lemma_collect_contains(bits: u64, n: int, g: spec_fn(int) -> Seq<Seq<u64>>, p: int, x: Seq<u64>)
    requires
        0 <= p < n,
        has_bit(bits, p),
        g(p).contains(x),
    ensures
        collect(bits, n, g).contains(x),
    decreases n,
{
    let a = collect(bits, n - 1, g);
    let c = if has_bit(bits, n - 1) {
        g(n - 1)
    } else {
        seq![]
    };
    if p < n - 1 {
        lemma_collect_contains(bits, n - 1, g, p, x);
        let j = choose|j: int| 0 <= j < a.len() && a[j] == x;
        assert((a + c)[j] == x);
    } else {
        let j = choose|j: int| 0 <= j < c.len() && c[j] == x;
        assert((a + c)[a.len() + j] == x);
    }
}

/// When the moves of each square `p` have no repetition and all start on `p`,
/// the collected moves have no repetition.
proof fn lemma_collect_distinct(bits: u64, n: int, g: spec_fn(int) -> Seq<Seq<u64>>)
    requires
        n <= 64,
        forall|p: int| 0 <= p < 64 ==> (#[trigger] g(p)).no_duplicates(),
        forall|p: int, j: int| 0 <= p < 64 && 0 <= j < g(p).len() ==> (#[trigger] g(p)[j])[0] == square(p),
    ensures
        collect(bits, n, g).no_duplicates(),
    decreases n,
{
    if n > 0 {
        lemma_collect_distinct(bits, n - 1, g);
        let a = collect(bits, n - 1, g);
        let c = if has_bit(bits, n - 1) {
            g(n - 1)
        } else {
            seq![]
        };
        assert(c.no_duplicates());
        assert forall|i: int, j: int| 0 <= i < (a + c).len() && 0 <= j < (a + c).len() && i != j implies (a + c)[i]
            != (a + c)[j] by {
            if i >= a.len() && j >= a.len() {
                assert((a + c)[i] == c[i - a.len()] && (a + c)[j] == c[j - a.len()]);
            } else if i < a.len() && j < a.len() {
                assert((a + c)[i] == a[i] && (a + c)[j] == a[j]);
            } else {
                let (u, v) = if i < a.len() { (i, j) } else { (j, i) };
                assert((a + c)[u] == a[u]);
                assert((a + c)[v] == c[v - a.len()]);
                let p = lemma_collect_origin(bits, n - 1, g, u);
                let q = choose|q: int| 0 <= q < g(p).len() && #[trigger] g(p)[q] == a[u];
                assert(g(p)[q][0] == square(p));
                assert(g(n - 1)[v - a.len()][0] == square(n - 1));
                if a[u] == c[v - a.len()] {
                    lemma_square_injective(p, n - 1);
                }
            }
        }
    }
}

/// Every knight move of the side to move is generated exactly once: for a knight
/// of the side to move on `f` and a square `t` a knight's step away that holds no
/// piece of its own, the move from `f` to `t` is among the knight moves, and no
/// knight move is listed twice.
pub proof fn lemma_knight_moves_complete(bb: BitBoard, f: int, t: int)
    requires
        0 <= f < 64,
        0 <= t < 64,
        has_bit(own_knights(bb), f),
        !has_bit(own_pieces(bb), t),
        knight_step(f, t),
    ensures
        spec_knight_moves(bb).contains(mv(f, t, 2, 0)),
        spec_knight_moves(bb).no_duplicates(),
{
    let dirs = knight_dirs();
    let g = |k: int| jumps(own_pieces(bb), k, knight_dirs(), 8, 2, 2);
    let d = t - f;
    let k: int = if d == -17 {
        0
    } else if d == -15 {
        1
    } else if d == -10 {
        2
    } else if d == -6 {
        3
    } else if d == 6 {
        4
    } else if d == 10 {
        5
    } else if d == 15 {
        6
    } else {
        7
    };
    assert(f == 8 * (f / 8) + f % 8 && t == 8 * (t / 8) + t % 8);
    assert(dirs[k] == d);
    assert(abs(f % 8 - t % 8) <= 2);
    assert(jump(own_pieces(bb), f, dirs[k], 2, 2) == seq![mv(f, t, 2, 0)]);
    lemma_jumps_contain(own_pieces(bb), f, dirs, 8, 2, 2, k);
    assert(g(f).contains(mv(f, t, 2, 0)));
    lemma_collect_contains(own_knights(bb), 64, g, f, mv(f, t, 2, 0));
    assert forall|p: int| 0 <= p < 64 implies (#[trigger] g(p)).no_duplicates() by {
        lemma_jumps_distinct(own_pieces(bb), p, dirs, 8, 2, 2);
    }
    assert forall|p: int, j: int| 0 <= p < 64 && 0 <= j < g(p).len() implies (#[trigger] g(p)[j])[0] == square(p) by {
        lemma_jumps_by(own_pieces(bb), p, dirs, 8, 2, 2);
        let kk = choose|kk: int| 0 <= kk < 8 && 0 <= p + dirs[kk] < 64 && #[trigger] g(p)[j] == mv(p, p + dirs[kk], 2, 0);
    }
    lemma_collect_distinct(own_knights(bb), 64, g);
}

/// Every king move of the side to move is generated exactly once: from the square
/// `f` of its king (its lowest king square), to every square `t` a king's step away
/// that holds no piece of its own, and no king move is listed twice.
pub proof fn lemma_king_moves_complete(bb: BitBoard, t: int)
    requires
        0 <= own_king(bb).trailing_zeros() < 64,
        0 <= t < 64,
        !has_bit(own_pieces(bb), t),
        king_step(own_king(bb).trailing_zeros() as int, t),
    ensures
        spec_king_moves(bb).contains(mv(own_king(bb).trailing_zeros() as int, t, 6, 0)),
        spec_king_moves(bb).no_duplicates(),
{
    let f = own_king(bb).trailing_zeros() as int;
    let dirs = king_dirs();
    let d = t - f;
    let k: int = if d == -9 {
        0
    } else if d == -8 {
        1
    } else if d == -7 {
        2
    } else if d == -1 {
        3
    } else if d == 1 {
        4
    } else if d == 7 {
        5
    } else if d == 8 {
        6
    } else {
        7
    };
    assert(f == 8 * (f / 8) + f % 8 && t == 8 * (t / 8) + t % 8);
    assert(dirs[k] == d);
    assert(jump(own_pieces(bb), f, dirs[k], 1, 6) == seq![mv(f, t, 6, 0)]);
    lemma_jumps_contain(own_pieces(bb), f, dirs, 8, 1, 6, k);
    lemma_jumps_distinct(own_pieces(bb), f, dirs, 8, 1, 6);
}

/// A pawn of the side to move on square `p` (row `p / 8`, column `p % 8`), with a
/// row `fr` in front of it (one row up for white, down for black), moves to `t`:
/// one step forward onto an empty square, two from its starting row (1 for white,
/// 6 for black) over an empty square onto an empty one, or diagonally forward
/// onto a piece of the opponent. Every such move is generated: arriving on the
/// last row (7 for white, 0 for black) as each of the four promotions (2 to 5),
/// elsewhere as a plain move.
pub proof fn lemma_pawn_moves_complete(bb: BitBoard, p: int, t: int)
    requires
        bb.player == 1 || bb.player == -1,
        0 <= p < 64,
        0 <= t < 64,
        has_bit(own_pawns(bb), p),
        own_pieces(bb) != 0,
        ({
            let up = if bb.player == 1 { 1int } else { -1int };
            let fr = p / 8 + up;
            let start = if bb.player == 1 { 1int } else { 6int };
            let empty = |q: int| !has_bit(own_pieces(bb), q) && !has_bit(other_pieces(bb), q);
            &&& 0 <= fr < 8
            &&& {
                ||| t == 8 * fr + p % 8 && empty(t)
                ||| p / 8 == start && t == 8 * (fr + up) + p % 8 && empty(8 * fr + p % 8) && empty(t)
                ||| t / 8 == fr && (t % 8 == p % 8 + 1 || t % 8 == p % 8 - 1) && has_bit(other_pieces(bb), t)
            }
        }),
    ensures
        ({
            let last = if bb.player == 1 { 7int } else { 0int };
            &&& t / 8 == last ==> forall|k: u64| 2 <= k <= 5 ==> spec_pawn_moves(bb).contains(#[trigger] mv(p, t, 1, k))
            &&& t / 8 != last ==> spec_pawn_moves(bb).contains(mv(p, t, 1, 0))
        }),
{
    let white = bb.player == 1;
    let dir: int = if white { 8 } else { -8 };
    let start_row: int = if white { 1 } else { 6 };
    let my = own_pieces(bb);
    let opp = other_pieces(bb);
    let to = p + dir;
    let col = p % 8;
    let row = p / 8;
    let promote_row = row == 7 - start_row;
    let left = if col > 0 && has_bit(opp, to - 1) {
        pawn_targets(p, to - 1, promote_row)
    } else {
        seq![]
    };
    let right = if col < 7 && has_bit(opp, to + 1) {
        pawn_targets(p, to + 1, promote_row)
    } else {
        seq![]
    };
    let forward = if !has_bit(my | opp, to) {
        if promote_row {
            promotions(p, to)
        } else {
            seq![mv(p, to, 1, 0)] + if row == start_row && !has_bit(my | opp, to + dir) {
                seq![mv(p, to + dir, 1, 0)]
            } else {
                seq![]
            }
        }
    } else {
        seq![]
    };
    let all = pawn_moves_at(bb, p);
    assert(all == left + right + forward);
    assert(p == 8 * row + col);
    assert(0 <= col < 8);
    assert(0 <= t % 8 < 8 && t == 8 * (t / 8) + t % 8);
    let last: int = if white { 7 } else { 0 };
    assert(promote_row == (row + (if white { 1int } else { -1int }) == last));
    lemma_bit_or(my, opp, to);
    if 0 <= to + dir < 64 {
        lemma_bit_or(my, opp, to + dir);
    }
    let g = |q: int| pawn_moves_at(bb, q);
    // where the moves to `t` sit in `all`
    assert forall|k: u64| (if t / 8 == last { 2 <= k <= 5 } else { k == 0 }) implies all.contains(
        #[trigger] mv(p, t, 1, k),
    ) by {
        let x = mv(p, t, 1, k);
        if t / 8 == row + (if white { 1int } else { -1int }) && t % 8 == col - 1 && has_bit(opp, t) {
            assert(t == to - 1);
            if promote_row {
                assert(left[k - 2] == x);
                assert(all[k - 2] == x);
            } else {
                assert(left[0] == x);
                assert(all[0] == x);
            }
        } else if t / 8 == row + (if white { 1int } else { -1int }) && t % 8 == col + 1 && has_bit(opp, t) {
            assert(t == to + 1);
            if promote_row {
                assert(right[k - 2] == x);
                assert(all[left.len() + k - 2] == x);
            } else {
                assert(right[0] == x);
                assert(all[left.len() as int] == x);
            }
        } else if t == to {
            assert(!has_bit(my | opp, to));
            if promote_row {
                assert(forward[k - 2] == x);
                assert(all[left.len() + right.len() + k - 2] == x);
            } else {
                assert(forward[0] == x);
                assert(all[(left.len() + right.len()) as int] == x);
            }
        } else {
            assert(row == start_row && t == to + dir);
            assert(!has_bit(my | opp, to) && !has_bit(my | opp, to + dir));
            assert(!promote_row);
            assert(forward[1] == x);
            assert(all[(left.len() + right.len() + 1) as int] == x);
        }
    }
    assert forall|k: u64| (if t / 8 == last { 2 <= k <= 5 } else { k == 0 }) implies spec_pawn_moves(bb).contains(
        #[trigger] mv(p, t, 1, k),
    ) by {
        assert(all.contains(mv(p, t, 1, k)));
        assert(g(p).contains(mv(p, t, 1, k)));
        lemma_collect_contains(own_pawns(bb), 64, g, p, mv(p, t, 1, k));
    }
    if t / 8 != last {
        assert(spec_pawn_moves(bb).contains(mv(p, t, 1, 0)));
    }
}

/// A king move of the side to move: from the square `from` of its king (its
/// lowest king square), by a king's step, to a square without a piece of its own.
pub open spec fn king_move(bb: BitBoard, m: Seq<u64>) -> bool {
    let from = own_king(bb).trailing_zeros() as int;
    exists|t: int| 0 <= t < 64 && !has_bit(own_pieces(bb), t) && king_step(from, t) && m == #[trigger] mv(from, t, 6, 0)
}

/// Every king move goes by a king's step from the king of the side to move to a
/// square without a piece of its own.
pub proof fn lemma_king_moves_shaped(bb: BitBoard)
    ensures
        forall|j: int| 0 <= j < spec_king_moves(bb).len() ==> king_move(bb, #[trigger] spec_king_moves(bb)[j]),
{
    let from = own_king(bb).trailing_zeros() as int;
    lemma_jumps_shape(own_pieces(bb), from, king_dirs(), 8, 1, 6);
    assert forall|j: int| 0 <= j < spec_king_moves(bb).len() implies king_move(bb, #[trigger] spec_king_moves(bb)[j]) by {
        let m = spec_king_moves(bb)[j];
        assert(jump_move(own_pieces(bb), from, king_dirs(), 1, 6, m));
        let k = choose|k: int|
            0 <= k < king_dirs().len() && 0 <= from + king_dirs()[k] < 64 && abs(from % 8 - (from + king_dirs()[k]) % 8)
                <= 1 && !has_bit(own_pieces(bb), from + king_dirs()[k]) && m == #[trigger] mv(
                from,
                from + king_dirs()[k],
                6,
                0,
            );
        let t = from + king_dirs()[k];
        assert(king_step(from, t)) by {
            assert(0 <= k < 8);
            if k == 0 { assert(king_dirs()[k] == -9); }
            else if k == 1 { assert(king_dirs()[k] == -8); }
            else if k == 2 { assert(king_dirs()[k] == -7); }
            else if k == 3 { assert(king_dirs()[k] == -1); }
            else if k == 4 { assert(king_dirs()[k] == 1); }
            else if k == 5 { assert(king_dirs()[k] == 7); }
            else if k == 6 { assert(king_dirs()[k] == 8); }
            else { assert(king_dirs()[k] == 9); }
        }
    }
}

/// A step along a row or a column to another square.
pub open spec fn rook_step(f: int, t: int) -> bool {
    f != t && (f / 8 == t / 8 || f % 8 == t % 8)
}

/// A step along a diagonal to another square.
pub open spec fn bishop_step(f: int, t: int) -> bool {
    f != t && abs(t / 8 - f / 8) == abs(t % 8 - f % 8)
}

/// Square `s` lies on the line of kind `kind` through `from`, apart from `from`.
pub open spec fn on_line(kind: int, from: int, s: int) -> bool {
    &&& s != from
    &&& if kind == VERTICAL() {
        s % 8 == from % 8
    } else {
        !off_line(kind, from, s)
    }
}

/// `m` moves `piece` from `from` along the line of kind `kind` to a square that
/// `my` leaves free.
pub open spec fn slide_move(from: int, my: u64, piece: u64, kind: int, m: Seq<u64>) -> bool {
    exists|s: int| 0 <= s < 64 && !has_bit(my, s) && on_line(kind, from, s) && m == #[trigger] mv(from, s, piece, 0)
}

proof fn lemma_slide_shape(from: int, to: int, d: int, my: u64, opp: u64, piece: u64, kind: int)
    requires
        kind == VERTICAL() ==> (d == 8 || d == -8) && to % 8 == from % 8,
        d > 0 ==> to > from,
        d < 0 ==> to < from,
    ensures
        forall|j: int|
            0 <= j < slide(from, to, d, my, opp, piece, kind).len() ==> slide_move(
                from,
                my,
                piece,
                kind,
                #[trigger] slide(from, to, d, my, opp, piece, kind)[j],
            ),
    decreases slide_measure(to, d),
{
    let sl = slide(from, to, d, my, opp, piece, kind);
    if !(0 <= to < 64) || d == 0 || has_bit(my, to) || off_line(kind, from, to) {
    } else {
        let m = mv(from, to, piece, 0);
        assert(slide_move(from, my, piece, kind, m));
        if has_bit(opp, to) {
            assert(sl == seq![m]);
        } else {
            lemma_slide_shape(from, to + d, d, my, opp, piece, kind);
            let rest = slide(from, to + d, d, my, opp, piece, kind);
            assert(sl == seq![m] + rest);
            assert forall|j: int| 0 <= j < sl.len() implies slide_move(from, my, piece, kind, #[trigger] sl[j]) by {
                if j > 0 {
                    assert(sl[j] == rest[j - 1]);
                }
            }
        }
    }
}

/// Every element of `a + b` satisfies `p` when those of `a` and of `b` do.
proof fn lemma_concat_all(a: Seq<Seq<u64>>, b: Seq<Seq<u64>>, p: spec_fn(Seq<u64>) -> bool)
    requires
        forall|j: int| 0 <= j < a.len() ==> p(#[trigger] a[j]),
        forall|j: int| 0 <= j < b.len() ==> p(#[trigger] b[j]),
    ensures
        forall|j: int| 0 <= j < (a + b).len() ==> p(#[trigger] (a + b)[j]),
{
    assert forall|j: int| 0 <= j < (a + b).len() implies p(#[trigger] (a + b)[j]) by {
        if j < a.len() {
            assert((a + b)[j] == a[j]);
        } else {
            assert((a + b)[j] == b[j - a.len()]);
        }
    }
}

/// A move of `piece` from `f` along a row or a column, or (`diagonal`) along a
/// diagonal, to a square without a piece of `my`, where `pieces` has `f`.
pub open spec fn line_move(pieces: u64, my: u64, piece: u64, diagonal: bool, m: Seq<u64>) -> bool {
    exists|f: int, t: int|
        0 <= f < 64 && 0 <= t < 64 && has_bit(pieces, f) && !has_bit(my, t) && (if diagonal {
            bishop_step(f, t)
        } else {
            rook_step(f, t)
        }) && m == #[trigger] mv(f, t, piece, 0)
}

proof fn lemma_slide_line_move(
    pieces: u64,
    my: u64,
    opp: u64,
    piece: u64,
    diagonal: bool,
    q: int,
    d: int,
    kind: int,
)
    requires
        0 <= q < 64,
        has_bit(pieces, q),
        diagonal ==> kind == DIAGONAL() && (d == -9 || d == -7 || d == 7 || d == 9),
        !diagonal ==> (kind == VERTICAL() && (d == -8 || d == 8)) || (kind == HORIZONTAL() && (d == -1 || d == 1)),
    ensures
        forall|i: int|
            0 <= i < slide(q, q + d, d, my, opp, piece, kind).len() ==> line_move(
                pieces,
                my,
                piece,
                diagonal,
                #[trigger] slide(q, q + d, d, my, opp, piece, kind)[i],
            ),
{
    lemma_slide_shape(q, q + d, d, my, opp, piece, kind);
    let sl = slide(q, q + d, d, my, opp, piece, kind);
    assert forall|i: int| 0 <= i < sl.len() implies line_move(pieces, my, piece, diagonal, #[trigger] sl[i]) by {
        assert(slide_move(q, my, piece, kind, sl[i]));
        let s = choose|s: int| 0 <= s < 64 && !has_bit(my, s) && on_line(kind, q, s) && sl[i] == #[trigger] mv(
            q,
            s,
            piece,
            0,
        );
        assert(line_move(pieces, my, piece, diagonal, mv(q, s, piece, 0)));
    }
}

proof fn lemma_lines_shaped(pieces: u64, my: u64, opp: u64, piece: u64, diagonal: bool)
    ensures
        diagonal ==> forall|j: int|
            0 <= j < spec_c_moves(pieces, my, opp, piece).len() ==> line_move(
                pieces,
                my,
                piece,
                true,
                #[trigger] spec_c_moves(pieces, my, opp, piece)[j],
            ),
        !diagonal ==> forall|j: int|
            0 <= j < spec_h_and_v_moves(pieces, my, opp, piece).len() ==> line_move(
                pieces,
                my,
                piece,
                false,
                #[trigger] spec_h_and_v_moves(pieces, my, opp, piece)[j],
            ),
{
    let p = |m: Seq<u64>| line_move(pieces, my, piece, diagonal, m);
    let g = if diagonal {
        |b: int| bishop_lines(b, my, opp, piece)
    } else {
        |r: int| rook_lines(r, my, opp, piece)
    };
    assert forall|q: int, j: int| 0 <= q < 64 && has_bit(pieces, q) && 0 <= j < g(q).len() implies p(
        #[trigger] g(q)[j],
    ) by {
        let ds: Seq<int> = if diagonal {
            seq![-9, -7, 7, 9]
        } else {
            seq![-8, 8, -1, 1]
        };
        let kind = if diagonal {
            DIAGONAL()
        } else {
            VERTICAL()
        };
        let kh = if diagonal {
            DIAGONAL()
        } else {
            HORIZONTAL()
        };
        let s0 = slide(q, q + ds[0], ds[0], my, opp, piece, kind);
        let s1 = slide(q, q + ds[1], ds[1], my, opp, piece, kind);
        let s2 = slide(q, q + ds[2], ds[2], my, opp, piece, kh);
        let s3 = slide(q, q + ds[3], ds[3], my, opp, piece, kh);
        lemma_slide_line_move(pieces, my, opp, piece, diagonal, q, ds[0], kind);
        lemma_slide_line_move(pieces, my, opp, piece, diagonal, q, ds[1], kind);
        lemma_slide_line_move(pieces, my, opp, piece, diagonal, q, ds[2], kh);
        lemma_slide_line_move(pieces, my, opp, piece, diagonal, q, ds[3], kh);
        assert(g(q) == s0 + s1 + s2 + s3);
        lemma_concat_all(s0, s1, p);
        lemma_concat_all(s0 + s1, s2, p);
        lemma_concat_all(s0 + s1 + s2, s3, p);
    }
    lemma_collect_all(pieces, 64, g, p);
}

/// The square `j` steps from `f` towards `t`, one row and/or one column per step.
pub open spec fn toward(f: int, t: int, j: int) -> int {
    8 * step_towards_row(f / 8, t / 8 - f / 8, j) + step_towards_row(f % 8, t % 8 - f % 8, j)
}

/// `x` moved `j` steps in the direction of the sign of `s`.
pub open spec fn step_towards_row(x: int, s: int, j: int) -> int {
    if s > 0 {
        x + j
    } else if s < 0 {
        x - j
    } else {
        x
    }
}

/// The number of steps from `f` to `t` along a row, a column or a diagonal.
pub open spec fn line_steps(f: int, t: int) -> int {
    if abs(t / 8 - f / 8) > abs(t % 8 - f % 8) {
        abs(t / 8 - f / 8)
    } else {
        abs(t % 8 - f % 8)
    }
}

/// No piece stands on a square strictly between `f` and `t` on their line.
pub open spec fn between_empty(bb: BitBoard, f: int, t: int) -> bool {
    forall|j: int|
        0 < j < line_steps(f, t) ==> !has_bit(bb.white_pieces, #[trigger] toward(f, t, j)) && !has_bit(
            bb.black_pieces,
            toward(f, t, j),
        )
}

/// Square `s` can be passed by a slide from `from`: it is on the board, holds no
/// piece, and is on the line.
pub open spec fn passable(from: int, my: u64, opp: u64, kind: int, s: int) -> bool {
    0 <= s < 64 && !has_bit(my, s) && !has_bit(opp, s) && !off_line(kind, from, s)
}

/// A slide from `from` that passes `m` empty squares starting at `to` reaches the
/// square after them when it holds no piece of the mover and is on the line.
proof fn lemma_slide_contains(from: int, to: int, d: int, my: u64, opp: u64, piece: u64, kind: int, m: int)
    requires
        d != 0,
        0 <= m,
        forall|i: int| 0 <= i < m ==> #[trigger] passable(from, my, opp, kind, to + i * d),
        0 <= to + m * d < 64,
        !has_bit(my, to + m * d),
        !off_line(kind, from, to + m * d),
    ensures
        slide(from, to, d, my, opp, piece, kind).contains(mv(from, to + m * d, piece, 0)),
    decreases m,
{
    assert(to + 0 * d == to) by (nonlinear_arith);
    let sl = slide(from, to, d, my, opp, piece, kind);
    if m == 0 {
        assert(sl[0] == mv(from, to, piece, 0));
    } else {
        assert(passable(from, my, opp, kind, to + 0 * d));
        assert forall|i: int| 0 <= i < m - 1 implies #[trigger] passable(from, my, opp, kind, (to + d) + i * d) by {
            assert((to + d) + i * d == to + (i + 1) * d) by (nonlinear_arith);
            assert(passable(from, my, opp, kind, to + (i + 1) * d));
        }
        assert((to + d) + (m - 1) * d == to + m * d) by (nonlinear_arith);
        lemma_slide_contains(from, to + d, d, my, opp, piece, kind, m - 1);
        let rest = slide(from, to + d, d, my, opp, piece, kind);
        assert(sl == seq![mv(from, to, piece, 0)] + rest);
        let k = choose|k: int| 0 <= k < rest.len() && rest[k] == mv(from, to + m * d, piece, 0);
        assert(sl[k + 1] == rest[k]);
    }
}

proof fn lemma_div8(r: int, c: int)
    requires
        0 <= c < 8,
    ensures
        (8 * r + c) / 8 == r,
        (8 * r + c) % 8 == c,
{
    assert((8 * r + c) / 8 == r && (8 * r + c) % 8 == c) by (nonlinear_arith)
        requires
            0 <= c < 8,
    ;
}

/// `a + b + c + e` contains what one of its parts contains.
proof fn lemma_four_contain(a: Seq<Seq<u64>>, b: Seq<Seq<u64>>, c: Seq<Seq<u64>>, e: Seq<Seq<u64>>, x: Seq<u64>)
    requires
        a.contains(x) || b.contains(x) || c.contains(x) || e.contains(x),
    ensures
        (a + b + c + e).contains(x),
{
    let s = a + b + c + e;
    if a.contains(x) {
        let k = choose|k: int| 0 <= k < a.len() && a[k] == x;
        assert(s[k] == x);
    } else if b.contains(x) {
        let k = choose|k: int| 0 <= k < b.len() && b[k] == x;
        assert(s[a.len() + k] == x);
    } else if c.contains(x) {
        let k = choose|k: int| 0 <= k < c.len() && c[k] == x;
        assert(s[a.len() + b.len() + k] == x);
    } else {
        let k = choose|k: int| 0 <= k < e.len() && e[k] == x;
        assert(s[a.len() + b.len() + c.len() + k] == x);
    }
}

/// The lines from `f` of a rook-like (or, `diagonal`, bishop-like) piece reach
/// every square `t` of such a line that holds no piece of `my` and has only empty
/// squares of `my | opp` before it.
proof fn lemma_lines_reach(pieces: u64, my: u64, opp: u64, piece: u64, diagonal: bool, f: int, t: int)
    requires
        0 <= f < 64,
        0 <= t < 64,
        has_bit(pieces, f),
        !has_bit(my, t),
        if diagonal {
            bishop_step(f, t)
        } else {
            rook_step(f, t)
        },
        forall|j: int|
            0 < j < line_steps(f, t) ==> !has_bit(my, #[trigger] toward(f, t, j)) && !has_bit(opp, toward(f, t, j)),
    ensures
        !diagonal ==> spec_h_and_v_moves(pieces, my, opp, piece).contains(mv(f, t, piece, 0)),
        diagonal ==> spec_c_moves(pieces, my, opp, piece).contains(mv(f, t, piece, 0)),
{
    let fr = f / 8;
    let fc = f % 8;
    let tr = t / 8;
    let tc = t % 8;
    assert(f == 8 * fr + fc && t == 8 * tr + tc);
    let dr: int = if tr > fr { 1 } else if tr < fr { -1 } else { 0 };
    let dc: int = if tc > fc { 1 } else if tc < fc { -1 } else { 0 };
    let d = 8 * dr + dc;
    let n = line_steps(f, t);
    let kind = if diagonal {
        DIAGONAL()
    } else if dr != 0 {
        VERTICAL()
    } else {
        HORIZONTAL()
    };
    assert(n >= 1);
    // the square i steps after the first: toward(f, t, i + 1)
    assert forall|j: int| 0 <= j <= n implies #[trigger] toward(f, t, j) == f + j * d && toward(f, t, j) / 8
        == step_towards_row(fr, tr - fr, j) && toward(f, t, j) % 8 == step_towards_row(fc, tc - fc, j) by {
        assert(j * d == 8 * (j * dr) + j * dc) by (nonlinear_arith)
            requires
                d == 8 * dr + dc,
        ;
        if dr == 1 {
            assert(j * dr == j) by (nonlinear_arith) requires dr == 1;
        } else if dr == -1 {
            assert(j * dr == -j) by (nonlinear_arith) requires dr == -1;
        } else {
            assert(j * dr == 0) by (nonlinear_arith) requires dr == 0;
        }
        if dc == 1 {
            assert(j * dc == j) by (nonlinear_arith) requires dc == 1;
        } else if dc == -1 {
            assert(j * dc == -j) by (nonlinear_arith) requires dc == -1;
        } else {
            assert(j * dc == 0) by (nonlinear_arith) requires dc == 0;
        }
        lemma_div8(step_towards_row(fr, tr - fr, j), step_towards_row(fc, tc - fc, j));
    }
    assert(toward(f, t, n) == t);
    assert forall|i: int| 0 <= i < n - 1 implies #[trigger] passable(f, my, opp, kind, (f + d) + i * d) by {
        assert((f + d) + i * d == f + (i + 1) * d) by (nonlinear_arith);
        assert(toward(f, t, i + 1) == f + (i + 1) * d);
        assert(!has_bit(my, toward(f, t, i + 1)) && !has_bit(opp, toward(f, t, i + 1)));
    }
    assert((f + d) + (n - 1) * d == f + n * d) by (nonlinear_arith);
    assert(f + n * d == t);
    lemma_slide_contains(f, f + d, d, my, opp, piece, kind, n - 1);
    let x = mv(f, t, piece, 0);
    if diagonal {
        let g = |b: int| bishop_lines(b, my, opp, piece);
        let s0 = slide(f, f - 9, -9, my, opp, piece, DIAGONAL());
        let s1 = slide(f, f - 7, -7, my, opp, piece, DIAGONAL());
        let s2 = slide(f, f + 7, 7, my, opp, piece, DIAGONAL());
        let s3 = slide(f, f + 9, 9, my, opp, piece, DIAGONAL());
        lemma_four_contain(s0, s1, s2, s3, x);
        assert(g(f).contains(x));
        lemma_collect_contains(pieces, 64, g, f, x);
    } else {
        let g = |r: int| rook_lines(r, my, opp, piece);
        let s0 = slide(f, f - 8, -8, my, opp, piece, VERTICAL());
        let s1 = slide(f, f + 8, 8, my, opp, piece, VERTICAL());
        let s2 = slide(f, f - 1, -1, my, opp, piece, HORIZONTAL());
        let s3 = slide(f, f + 1, 1, my, opp, piece, HORIZONTAL());
        lemma_four_contain(s0, s1, s2, s3, x);
        assert(g(f).contains(x));
        lemma_collect_contains(pieces, 64, g, f, x);
    }
}

/// Every rook, bishop and queen move that the rules allow is generated: from a
/// piece of the side to move on `f`, along its lines, to a square `t` that holds no
/// piece of its own, with no piece on the squares between them.
pub proof fn lemma_line_moves_complete(bb: BitBoard, f: int, t: int)
    requires
        0 <= f < 64,
        0 <= t < 64,
        !has_bit(own_pieces(bb), t),
        between_empty(bb, f, t),
    ensures
        has_bit(own_rooks(bb), f) && rook_step(f, t) ==> spec_rook_moves(bb).contains(mv(f, t, 4, 0)),
        has_bit(own_bishops(bb), f) && bishop_step(f, t) ==> spec_bishop_moves(bb).contains(mv(f, t, 3, 0)),
        has_bit(own_queens(bb), f) && (rook_step(f, t) || bishop_step(f, t)) ==> spec_queen_moves(bb).contains(
            mv(f, t, 5, 0),
        ),
{
    let my = own_pieces(bb);
    let opp = other_pieces(bb);
    assert forall|j: int| 0 < j < line_steps(f, t) implies !has_bit(my, #[trigger] toward(f, t, j)) && !has_bit(
        opp,
        toward(f, t, j),
    ) by {
        assert(!has_bit(bb.white_pieces, toward(f, t, j)) && !has_bit(bb.black_pieces, toward(f, t, j)));
    }
    if has_bit(own_rooks(bb), f) && rook_step(f, t) {
        lemma_lines_reach(own_rooks(bb), my, opp, 4, false, f, t);
    }
    if has_bit(own_bishops(bb), f) && bishop_step(f, t) {
        lemma_lines_reach(own_bishops(bb), my, opp, 3, true, f, t);
    }
    if has_bit(own_queens(bb), f) && (rook_step(f, t) || bishop_step(f, t)) {
        let a = spec_h_and_v_moves(own_queens(bb), my, opp, 5);
        let b = spec_c_moves(own_queens(bb), my, opp, 5);
        let x = mv(f, t, 5, 0);
        if rook_step(f, t) {
            lemma_lines_reach(own_queens(bb), my, opp, 5, false, f, t);
            let k = choose|k: int| 0 <= k < a.len() && a[k] == x;
            assert((a + b)[k] == x);
        } else {
            lemma_lines_reach(own_queens(bb), my, opp, 5, true, f, t);
            let k = choose|k: int| 0 <= k < b.len() && b[k] == x;
            assert((a + b)[a.len() + k] == x);
        }
    }
}

/// Every bishop move goes along a diagonal from a bishop of the side to move to
/// a square without a piece of its own; every rook move goes along a row or a
/// column; every queen move does one or the other.
pub proof fn lemma_line_moves_shaped(bb: BitBoard)
    ensures
        forall|j: int|
            0 <= j < spec_bishop_moves(bb).len() ==> line_move(
                own_bishops(bb),
                own_pieces(bb),
                3,
                true,
                #[trigger] spec_bishop_moves(bb)[j],
            ),
        forall|j: int|
            0 <= j < spec_rook_moves(bb).len() ==> line_move(
                own_rooks(bb),
                own_pieces(bb),
                4,
                false,
                #[trigger] spec_rook_moves(bb)[j],
            ),
        forall|j: int|
            0 <= j < spec_queen_moves(bb).len() ==> line_move(
                own_queens(bb),
                own_pieces(bb),
                5,
                false,
                #[trigger] spec_queen_moves(bb)[j],
            ) || line_move(own_queens(bb), own_pieces(bb), 5, true, spec_queen_moves(bb)[j]),
{
    lemma_lines_shaped(own_bishops(bb), own_pieces(bb), other_pieces(bb), 3, true);
    lemma_lines_shaped(own_rooks(bb), own_pieces(bb), other_pieces(bb), 4, false);
    lemma_lines_shaped(own_queens(bb), own_pieces(bb), other_pieces(bb), 5, false);
    lemma_lines_shaped(own_queens(bb), own_pieces(bb), other_pieces(bb), 5, true);
    let a = spec_h_and_v_moves(own_queens(bb), own_pieces(bb), other_pieces(bb), 5);
    let b = spec_c_moves(own_queens(bb), own_pieces(bb), other_pieces(bb), 5);
    assert forall|j: int| 0 <= j < spec_queen_moves(bb).len() implies line_move(
        own_queens(bb),
        own_pieces(bb),
        5,
        false,
        #[trigger] spec_queen_moves(bb)[j],
    ) || line_move(own_queens(bb), own_pieces(bb), 5, true, spec_queen_moves(bb)[j]) by {
        if j < a.len() {
            assert((a + b)[j] == a[j]);
        } else {
            assert((a + b)[j] == b[j - a.len()]);
        }
    }
}

// ---------------------------------------------------------------------------
// Consistent positions
// ---------------------------------------------------------------------------

pub open spec fn bit_count(b: bool) -> int {
    if b {
        1
    } else {
        0
    }
}

/// Square `i` of `bb` is described consistently: each colour board holds the
/// square exactly when one of that colour's piece boards does, and at most one
/// piece board holds it.
pub open spec fn square_consistent(bb: BitBoard, i: int) -> bool {
    &&& has_bit(bb.white_pieces, i) == (has_bit(bb.white_pawns, i) || has_bit(bb.white_knights, i) || has_bit(
        bb.white_bishops,
        i,
    ) || has_bit(bb.white_rooks, i) || has_bit(bb.white_queen, i) || has_bit(bb.white_king, i))
    &&& has_bit(bb.black_pieces, i) == (has_bit(bb.black_pawns, i) || has_bit(bb.black_knights, i) || has_bit(
        bb.black_bishops,
        i,
    ) || has_bit(bb.black_rooks, i) || has_bit(bb.black_queen, i) || has_bit(bb.black_king, i))
    &&& bit_count(has_bit(bb.white_pawns, i)) + bit_count(has_bit(bb.white_knights, i)) + bit_count(
        has_bit(bb.white_bishops, i),
    ) + bit_count(has_bit(bb.white_rooks, i)) + bit_count(has_bit(bb.white_queen, i)) + bit_count(
        has_bit(bb.white_king, i),
    ) + bit_count(has_bit(bb.black_pawns, i)) + bit_count(has_bit(bb.black_knights, i)) + bit_count(
        has_bit(bb.black_bishops, i),
    ) + bit_count(has_bit(bb.black_rooks, i)) + bit_count(has_bit(bb.black_queen, i)) + bit_count(
        has_bit(bb.black_king, i),
    ) <= 1
}

/// The colour boards are the unions of the piece boards, and no two piece boards
/// share a square.
pub open spec fn consistent(bb: BitBoard) -> bool {
    forall|i: int| 0 <= i < 64 ==> #[trigger] square_consistent(bb, i)
}

/// Square `i` holds a piece of either colour.
pub open spec fn occupied(bb: BitBoard, i: int) -> bool {
    has_bit(bb.white_pieces, i) || has_bit(bb.black_pieces, i)
}

/// The board of the mover's pieces of kind `code` (1 pawn .. 6 king).
pub open spec fn own_kind(bb: BitBoard, code: u64) -> u64 {
    if code == 1 {
        own_pawns(bb)
    } else if code == 2 {
        own_knights(bb)
    } else if code == 3 {
        own_bishops(bb)
    } else if code == 4 {
        own_rooks(bb)
    } else if code == 5 {
        own_queens(bb)
    } else {
        own_king(bb)
    }
}

/// A move of a piece: it starts on a square of the mover's board of its kind and
/// ends on a square without a piece of the mover.
pub open spec fn moves_a_piece(bb: BitBoard, m: Seq<u64>) -> bool {
    &&& well_formed_move(bb, m)
    &&& exists|f: int| 0 <= f < 64 && m[0] == square(f) && #[trigger] has_bit(own_kind(bb, m[2]), f)
    &&& exists|t: int| 0 <= t < 64 && m[1] == square(t) && !#[trigger] has_bit(own_pieces(bb), t)
}

proof fn lemma_bit_ops(x: u64, y: u64, i: int)
    requires
        0 <= i < 64,
    ensures
        has_bit(x ^ y, i) == (has_bit(x, i) != has_bit(y, i)),
        has_bit(x & y, i) == (has_bit(x, i) && has_bit(y, i)),
{
    let k = i as u64;
    assert((((x ^ y) >> k) & 1u64 == 1u64) == (((x >> k) & 1u64 == 1u64) != ((y >> k) & 1u64 == 1u64)))
        by (bit_vector);
    assert((((x & y) >> k) & 1u64 == 1u64) == (((x >> k) & 1u64 == 1u64) && ((y >> k) & 1u64 == 1u64)))
        by (bit_vector);
}

proof fn lemma_square_bit(f: int, i: int)
    requires
        0 <= f < 64,
        0 <= i < 64,
    ensures
        has_bit(square(f), i) == (i == f),
{
    let a = f as u64;
    let k = i as u64;
    assert((((1u64 << a) >> k) & 1u64 == 1u64) == (k == a)) by (bit_vector)
        requires
            a < 64,
            k < 64,
    ;
}

/// Playing a piece keeps the position consistent: the colour boards stay the
/// unions of the piece boards and no two piece boards share a square.
#[verifier::spinoff_prover]
#[verifier::rlimit(60)]
pub proof fn lemma_make_move_consistent(bb: BitBoard, m: Seq<u64>)
    requires
        consistent(bb),
        bb.player == 1 || bb.player == -1,
        moves_a_piece(bb, m),
    ensures
        consistent(spec_make_move(bb, m)),
        forall|i: int|
            0 <= i < 64 ==> #[trigger] occupied(spec_make_move(bb, m), i) == ((occupied(bb, i) && !has_bit(
                m[0],
                i,
            )) || has_bit(m[1], i)),
{
    reveal(spec_make_move);
    let f = choose|f: int| 0 <= f < 64 && m[0] == square(f) && #[trigger] has_bit(own_kind(bb, m[2]), f);
    let t = choose|t: int| 0 <= t < 64 && m[1] == square(t) && !#[trigger] has_bit(own_pieces(bb), t);
    let nb = spec_make_move(bb, m);
    let b1 = spec_move_colour(bb, m);
    lemma_and_square(bb.white_pieces, t);
    lemma_and_square(bb.black_pieces, t);
    assert(square_consistent(bb, f));
    assert(f != t);
    assert forall|i: int| 0 <= i < 64 implies #[trigger] occupied(nb, i) == ((occupied(bb, i) && !has_bit(
        m[0],
        i,
    )) || has_bit(m[1], i)) by {
        lemma_square_bit(f, i);
        lemma_square_bit(t, i);
        lemma_bit_ops(m[0], m[1], i);
        let ft = m[0] ^ m[1];
        if bb.player == 1 {
            assert(b1.white_pieces == bb.white_pieces ^ ft);
            lemma_bit_ops(bb.white_pieces, ft, i);
            if bb.black_pieces & m[1] != 0 {
                assert(b1.black_pieces == bb.black_pieces ^ m[1]);
                lemma_bit_ops(bb.black_pieces, m[1], i);
            }
            assert(nb.white_pieces == b1.white_pieces && nb.black_pieces == b1.black_pieces);
        } else {
            assert(b1.black_pieces == bb.black_pieces ^ ft);
            lemma_bit_ops(bb.black_pieces, ft, i);
            if bb.white_pieces & m[1] != 0 {
                assert(b1.white_pieces == bb.white_pieces ^ m[1]);
                lemma_bit_ops(bb.white_pieces, m[1], i);
            }
            assert(nb.white_pieces == b1.white_pieces && nb.black_pieces == b1.black_pieces);
        }
    }
    assert forall|i: int| 0 <= i < 64 implies #[trigger] square_consistent(nb, i) by {
        lemma_square_bit(f, i);
        lemma_square_bit(t, i);
        lemma_bit_ops(m[0], m[1], i);
        assert(square_consistent(bb, i));
        assert(has_bit(m[0], i) == (i == f));
        assert(has_bit(m[1], i) == (i == t));
        let ft = m[0] ^ m[1];
        assert(has_bit(ft, i) == ((i == f) != (i == t)));
        if bb.player == 1 {
            assert(b1.white_pieces == bb.white_pieces ^ ft);
            lemma_bit_ops(bb.white_pieces, ft, i);
            if bb.black_pieces & m[1] != 0 {
                assert(b1.black_pieces == bb.black_pieces ^ m[1]);
                lemma_bit_ops(bb.black_pieces, m[1], i);
                assert(b1.black_pawns == bb.black_pawns ^ (m[1] & bb.black_pawns));
                lemma_bit_ops(m[1], bb.black_pawns, i);
                lemma_bit_ops(bb.black_pawns, m[1] & bb.black_pawns, i);
                assert(b1.black_knights == bb.black_knights ^ (m[1] & bb.black_knights));
                lemma_bit_ops(m[1], bb.black_knights, i);
                lemma_bit_ops(bb.black_knights, m[1] & bb.black_knights, i);
                assert(b1.black_bishops == bb.black_bishops ^ (m[1] & bb.black_bishops));
                lemma_bit_ops(m[1], bb.black_bishops, i);
                lemma_bit_ops(bb.black_bishops, m[1] & bb.black_bishops, i);
                assert(b1.black_rooks == bb.black_rooks ^ (m[1] & bb.black_rooks));
                lemma_bit_ops(m[1], bb.black_rooks, i);
                lemma_bit_ops(bb.black_rooks, m[1] & bb.black_rooks, i);
                assert(b1.black_queen == bb.black_queen ^ (m[1] & bb.black_queen));
                lemma_bit_ops(m[1], bb.black_queen, i);
                lemma_bit_ops(bb.black_queen, m[1] & bb.black_queen, i);
                assert(b1.black_king == bb.black_king ^ (m[1] & bb.black_king));
                lemma_bit_ops(m[1], bb.black_king, i);
                lemma_bit_ops(bb.black_king, m[1] & bb.black_king, i);
            } else {
                assert(b1.black_pieces == bb.black_pieces);
                assert(b1.black_pawns == bb.black_pawns);
                assert(b1.black_knights == bb.black_knights);
                assert(b1.black_bishops == bb.black_bishops);
                assert(b1.black_rooks == bb.black_rooks);
                assert(b1.black_queen == bb.black_queen);
                assert(b1.black_king == bb.black_king);
            }
            assert(b1.white_pawns == bb.white_pawns);
            assert(b1.white_knights == bb.white_knights);
            assert(b1.white_bishops == bb.white_bishops);
            assert(b1.white_rooks == bb.white_rooks);
            assert(b1.white_queen == bb.white_queen);
            assert(b1.white_king == bb.white_king);
            if m[3] == 0 {
                if m[2] == 1 {
                    assert(nb.white_pawns == b1.white_pawns ^ ft);
                    lemma_bit_ops(b1.white_pawns, ft, i);
                    assert(square_consistent(nb, i));
                } else if m[2] == 2 {
                    assert(nb.white_knights == b1.white_knights ^ ft);
                    lemma_bit_ops(b1.white_knights, ft, i);
                    assert(square_consistent(nb, i));
                } else if m[2] == 3 {
                    assert(nb.white_bishops == b1.white_bishops ^ ft);
                    lemma_bit_ops(b1.white_bishops, ft, i);
                    assert(square_consistent(nb, i));
                } else if m[2] == 4 {
                    assert(nb.white_rooks == b1.white_rooks ^ ft);
                    lemma_bit_ops(b1.white_rooks, ft, i);
                    assert(square_consistent(nb, i));
                } else if m[2] == 5 {
                    assert(nb.white_queen == b1.white_queen ^ ft);
                    lemma_bit_ops(b1.white_queen, ft, i);
                    assert(square_consistent(nb, i));
                } else if m[2] == 6 {
                    assert(nb.white_king == b1.white_king ^ ft);
                    lemma_bit_ops(b1.white_king, ft, i);
                    assert(square_consistent(nb, i));
                }
            } else {
                assert(has_bit(m[0], i) == (i == f));
                if m[3] == 2 {
                    assert(nb.white_pawns == b1.white_pawns ^ m[0]);
                    lemma_bit_ops(b1.white_pawns, m[0], i);
                    assert(nb.white_knights == b1.white_knights ^ m[1]);
                    lemma_bit_ops(b1.white_knights, m[1], i);
                    assert(square_consistent(nb, i));
                } else if m[3] == 3 {
                    assert(nb.white_pawns == b1.white_pawns ^ m[0]);
                    lemma_bit_ops(b1.white_pawns, m[0], i);
                    assert(nb.white_bishops == b1.white_bishops ^ m[1]);
                    lemma_bit_ops(b1.white_bishops, m[1], i);
                    assert(square_consistent(nb, i));
                } else if m[3] == 4 {
                    assert(nb.white_pawns == b1.white_pawns ^ m[0]);
                    lemma_bit_ops(b1.white_pawns, m[0], i);
                    assert(nb.white_rooks == b1.white_rooks ^ m[1]);
                    lemma_bit_ops(b1.white_rooks, m[1], i);
                    assert(square_consistent(nb, i));
                } else if m[3] == 5 {
                    assert(nb.white_pawns == b1.white_pawns ^ m[0]);
                    lemma_bit_ops(b1.white_pawns, m[0], i);
                    assert(nb.white_queen == b1.white_queen ^ m[1]);
                    lemma_bit_ops(b1.white_queen, m[1], i);
                    assert(square_consistent(nb, i));
                }
            }
        } else {
            assert(b1.black_pieces == bb.black_pieces ^ ft);
            lemma_bit_ops(bb.black_pieces, ft, i);
            if bb.white_pieces & m[1] != 0 {
                assert(b1.white_pieces == bb.white_pieces ^ m[1]);
                lemma_bit_ops(bb.white_pieces, m[1], i);
                assert(b1.white_pawns == bb.white_pawns ^ (m[1] & bb.white_pawns));
                lemma_bit_ops(m[1], bb.white_pawns, i);
                lemma_bit_ops(bb.white_pawns, m[1] & bb.white_pawns, i);
                assert(b1.white_knights == bb.white_knights ^ (m[1] & bb.white_knights));
                lemma_bit_ops(m[1], bb.white_knights, i);
                lemma_bit_ops(bb.white_knights, m[1] & bb.white_knights, i);
                assert(b1.white_bishops == bb.white_bishops ^ (m[1] & bb.white_bishops));
                lemma_bit_ops(m[1], bb.white_bishops, i);
                lemma_bit_ops(bb.white_bishops, m[1] & bb.white_bishops, i);
                assert(b1.white_rooks == bb.white_rooks ^ (m[1] & bb.white_rooks));
                lemma_bit_ops(m[1], bb.white_rooks, i);
                lemma_bit_ops(bb.white_rooks, m[1] & bb.white_rooks, i);
                assert(b1.white_queen == bb.white_queen ^ (m[1] & bb.white_queen));
                lemma_bit_ops(m[1], bb.white_queen, i);
                lemma_bit_ops(bb.white_queen, m[1] & bb.white_queen, i);
                assert(b1.white_king == bb.white_king ^ (m[1] & bb.white_king));
                lemma_bit_ops(m[1], bb.white_king, i);
                lemma_bit_ops(bb.white_king, m[1] & bb.white_king, i);
            } else {
                assert(b1.white_pieces == bb.white_pieces);
                assert(b1.white_pawns == bb.white_pawns);
                assert(b1.white_knights == bb.white_knights);
                assert(b1.white_bishops == bb.white_bishops);
                assert(b1.white_rooks == bb.white_rooks);
                assert(b1.white_queen == bb.white_queen);
                assert(b1.white_king == bb.white_king);
            }
            assert(b1.black_pawns == bb.black_pawns);
            assert(b1.black_knights == bb.black_knights);
            assert(b1.black_bishops == bb.black_bishops);
            assert(b1.black_rooks == bb.black_rooks);
            assert(b1.black_queen == bb.black_queen);
            assert(b1.black_king == bb.black_king);
            if m[3] == 0 {
                if m[2] == 1 {
                    assert(nb.black_pawns == b1.black_pawns ^ ft);
                    lemma_bit_ops(b1.black_pawns, ft, i);
                    assert(square_consistent(nb, i));
                } else if m[2] == 2 {
                    assert(nb.black_knights == b1.black_knights ^ ft);
                    lemma_bit_ops(b1.black_knights, ft, i);
                    assert(square_consistent(nb, i));
                } else if m[2] == 3 {
                    assert(nb.black_bishops == b1.black_bishops ^ ft);
                    lemma_bit_ops(b1.black_bishops, ft, i);
                    assert(square_consistent(nb, i));
                } else if m[2] == 4 {
                    assert(nb.black_rooks == b1.black_rooks ^ ft);
                    lemma_bit_ops(b1.black_rooks, ft, i);
                    assert(square_consistent(nb, i));
                } else if m[2] == 5 {
                    assert(nb.black_queen == b1.black_queen ^ ft);
                    lemma_bit_ops(b1.black_queen, ft, i);
                    assert(square_consistent(nb, i));
                } else if m[2] == 6 {
                    assert(nb.black_king == b1.black_king ^ ft);
                    lemma_bit_ops(b1.black_king, ft, i);
                    assert(square_consistent(nb, i));
                }
            } else {
                assert(has_bit(m[0], i) == (i == f));
                if m[3] == 2 {
                    assert(nb.black_pawns == b1.black_pawns ^ m[0]);
                    lemma_bit_ops(b1.black_pawns, m[0], i);
                    assert(nb.black_knights == b1.black_knights ^ m[1]);
                    lemma_bit_ops(b1.black_knights, m[1], i);
                    assert(square_consistent(nb, i));
                } else if m[3] == 3 {
                    assert(nb.black_pawns == b1.black_pawns ^ m[0]);
                    lemma_bit_ops(b1.black_pawns, m[0], i);
                    assert(nb.black_bishops == b1.black_bishops ^ m[1]);
                    lemma_bit_ops(b1.black_bishops, m[1], i);
                    assert(square_consistent(nb, i));
                } else if m[3] == 4 {
                    assert(nb.black_pawns == b1.black_pawns ^ m[0]);
                    lemma_bit_ops(b1.black_pawns, m[0], i);
                    assert(nb.black_rooks == b1.black_rooks ^ m[1]);
                    lemma_bit_ops(b1.black_rooks, m[1], i);
                    assert(square_consistent(nb, i));
                } else if m[3] == 5 {
                    assert(nb.black_pawns == b1.black_pawns ^ m[0]);
                    lemma_bit_ops(b1.black_pawns, m[0], i);
                    assert(nb.black_queen == b1.black_queen ^ m[1]);
                    lemma_bit_ops(b1.black_queen, m[1], i);
                    assert(square_consistent(nb, i));
                }
            }
        }
    }
}

/// Every move of `s` moves a piece of the mover (see `piece_moves`).
pub open spec fn all_piece_moves(bb: BitBoard, s: Seq<Seq<u64>>) -> bool {
    forall|j: int| 0 <= j < s.len() ==> #[trigger] piece_moves(bb, s[j])
}

/// `m` starts on a square of the mover's board of its kind and ends on a square
/// without a piece of the mover.
pub open spec fn piece_moves(bb: BitBoard, m: Seq<u64>) -> bool {
    &&& exists|f: int| 0 <= f < 64 && m[0] == square(f) && #[trigger] has_bit(own_kind(bb, m[2]), f)
    &&& exists|t: int| 0 <= t < 64 && m[1] == square(t) && !#[trigger] has_bit(own_pieces(bb), t)
}

proof fn lemma_piece_moves_concat(bb: BitBoard, a: Seq<Seq<u64>>, b: Seq<Seq<u64>>)
    requires
        all_piece_moves(bb, a),
        all_piece_moves(bb, b),
    ensures
        all_piece_moves(bb, a + b),
{
    assert forall|j: int| 0 <= j < (a + b).len() implies #[trigger] piece_moves(bb, (a + b)[j]) by {
        if j < a.len() {
            assert((a + b)[j] == a[j]);
        } else {
            assert((a + b)[j] == b[j - a.len()]);
        }
    }
}

proof fn lemma_collect_piece_moves(bb: BitBoard, b: u64, n: int, f: spec_fn(int) -> Seq<Seq<u64>>)
    requires
        forall|p: int| 0 <= p < 64 && #[trigger] has_bit(b, p) ==> all_piece_moves(bb, f(p)),
    ensures
        all_piece_moves(bb, collect(b, n, f)),
    decreases n,
{
    if n > 0 {
        lemma_collect_piece_moves(bb, b, n - 1, f);
        if has_bit(b, n - 1) {
            lemma_piece_moves_concat(bb, collect(b, n - 1, f), f(n - 1));
        } else {
            lemma_piece_moves_concat(bb, collect(b, n - 1, f), seq![]);
        }
    }
}

proof fn lemma_slide_piece_moves(bb: BitBoard, from: int, to: int, d: int, opp: u64, piece: u64, kind: int)
    requires
        0 <= from < 64,
        has_bit(own_kind(bb, piece), from),
    ensures
        all_piece_moves(bb, slide(from, to, d, own_pieces(bb), opp, piece, kind)),
    decreases slide_measure(to, d),
{
    let my = own_pieces(bb);
    let m = mv(from, to, piece, 0);
    if !(0 <= to < 64) || d == 0 || has_bit(my, to) || off_line(kind, from, to) {
    } else if has_bit(opp, to) {
        assert(has_bit(own_kind(bb, m[2]), from));
        assert(!has_bit(own_pieces(bb), to));
        assert(piece_moves(bb, m));
        assert(all_piece_moves(bb, seq![m]));
    } else {
        lemma_slide_piece_moves(bb, from, to + d, d, opp, piece, kind);
        assert(has_bit(own_kind(bb, m[2]), from));
        assert(!has_bit(own_pieces(bb), to));
        assert(piece_moves(bb, m));
        assert(all_piece_moves(bb, seq![m]));
        lemma_piece_moves_concat(bb, seq![m], slide(from, to + d, d, my, opp, piece, kind));
    }
}

proof fn lemma_jumps_piece_moves(bb: BitBoard, from: int, dirs: Seq<int>, n: int, max_col_diff: int, piece: u64)
    requires
        0 <= from < 64,
        has_bit(own_kind(bb, piece), from),
    ensures
        all_piece_moves(bb, jumps(own_pieces(bb), from, dirs, n, max_col_diff, piece)),
    decreases n,
{
    if n > 0 {
        lemma_jumps_piece_moves(bb, from, dirs, n - 1, max_col_diff, piece);
        let j = jump(own_pieces(bb), from, dirs[n - 1], max_col_diff, piece);
        if j.len() > 0 {
            assert(has_bit(own_kind(bb, j[0][2]), from));
            assert(!has_bit(own_pieces(bb), from + dirs[n - 1]));
            assert(piece_moves(bb, j[0]));
        }
        assert(all_piece_moves(bb, j));
        lemma_piece_moves_concat(bb, jumps(own_pieces(bb), from, dirs, n - 1, max_col_diff, piece), j);
    }
}

proof fn lemma_bit_or(x: u64, y: u64, i: int)
    requires
        0 <= i < 64,
    ensures
        has_bit(x | y, i) == (has_bit(x, i) || has_bit(y, i)),
{
    let k = i as u64;
    assert((((x | y) >> k) & 1u64 == 1u64) == (((x >> k) & 1u64 == 1u64) || ((y >> k) & 1u64 == 1u64)))
        by (bit_vector);
}

/// No square holds pieces of both colours.
pub open spec fn colours_apart(bb: BitBoard) -> bool {
    forall|i: int| 0 <= i < 64 ==> !(#[trigger] has_bit(bb.white_pieces, i) && has_bit(bb.black_pieces, i))
}

proof fn lemma_pawn_piece_moves(bb: BitBoard, p: int)
    requires
        0 <= p < 64,
        has_bit(own_pawns(bb), p),
        pawn_moves_ok(bb),
        own_pieces(bb) != 0,
        colours_apart(bb),
    ensures
        all_piece_moves(bb, pawn_moves_at(bb, p)),
{
    let white = bb.player == 1;
    let dir: int = if white { 8 } else { -8 };
    let start_row: int = if white { 1 } else { 6 };
    let to = p + dir;
    let my = own_pieces(bb);
    let opp = other_pieces(bb);
    let promote_row = p / 8 == 7 - start_row;
    assert(own_kind(bb, 1) == own_pawns(bb));
    assert(0 <= to < 64);
    assert forall|t: int, pr: bool| 0 <= t < 64 && !has_bit(my, t) implies #[trigger] all_piece_moves(
        bb,
        pawn_targets(p, t, pr),
    ) by {
        if pr {
            assert forall|j: int| 0 <= j < 4 implies #[trigger] piece_moves(bb, promotions(p, t)[j]) by {
                assert(has_bit(own_kind(bb, promotions(p, t)[j][2]), p));
                assert(!has_bit(own_pieces(bb), t));
            }
        } else {
            assert(has_bit(own_kind(bb, mv(p, t, 1, 0)[2]), p));
            assert(!has_bit(own_pieces(bb), t));
            assert(piece_moves(bb, mv(p, t, 1, 0)));
        }
    }
    let left = if p % 8 > 0 && has_bit(opp, to - 1) {
        pawn_targets(p, to - 1, promote_row)
    } else {
        seq![]
    };
    let right = if p % 8 < 7 && has_bit(opp, to + 1) {
        pawn_targets(p, to + 1, promote_row)
    } else {
        seq![]
    };
    if p % 8 > 0 && has_bit(opp, to - 1) {
        assert(0 <= to - 1 < 64 && !has_bit(my, to - 1));
        assert(all_piece_moves(bb, pawn_targets(p, to - 1, promote_row)));
    }
    if p % 8 < 7 && has_bit(opp, to + 1) {
        assert(0 <= to + 1 < 64 && !has_bit(my, to + 1));
        assert(all_piece_moves(bb, pawn_targets(p, to + 1, promote_row)));
    }
    assert(all_piece_moves(bb, left));
    assert(all_piece_moves(bb, right));
    let forward = if !has_bit(my | opp, to) {
        if promote_row {
            promotions(p, to)
        } else {
            seq![mv(p, to, 1, 0)] + if p / 8 == start_row && !has_bit(my | opp, to + dir) {
                seq![mv(p, to + dir, 1, 0)]
            } else {
                seq![]
            }
        }
    } else {
        seq![]
    };
    if !has_bit(my | opp, to) {
        lemma_bit_or(my, opp, to);
        assert(0 <= to < 64);
        if promote_row {
            assert(all_piece_moves(bb, pawn_targets(p, to, true)));
        } else {
            assert(all_piece_moves(bb, pawn_targets(p, to, false)));
            let second = if p / 8 == start_row && !has_bit(my | opp, to + dir) {
                seq![mv(p, to + dir, 1, 0)]
            } else {
                seq![]
            };
            if p / 8 == start_row && !has_bit(my | opp, to + dir) {
                lemma_bit_or(my, opp, to + dir);
                assert(all_piece_moves(bb, pawn_targets(p, to + dir, false)));
            }
            assert(all_piece_moves(bb, second));
            lemma_piece_moves_concat(bb, seq![mv(p, to, 1, 0)], second);
        }
    }
    assert(all_piece_moves(bb, forward));
    lemma_piece_moves_concat(bb, left, right);
    lemma_piece_moves_concat(bb, left + right, forward);
}

/// Every generated move starts on a piece of the mover of its kind and ends on a
/// square without a piece of the mover.
pub proof fn lemma_moves_move_pieces(bb: BitBoard)
    requires
        pawn_moves_ok(bb),
        king_moves_ok(bb),
        colours_apart(bb),
    ensures
        all_piece_moves(bb, spec_all_legal_moves(bb)),
{
    reveal(spec_all_legal_moves);
    let my = own_pieces(bb);
    let opp = other_pieces(bb);
    if own_pieces(bb) != 0 {
        assert forall|p: int| 0 <= p < 64 && #[trigger] has_bit(own_pawns(bb), p) implies all_piece_moves(
            bb,
            (|q: int| pawn_moves_at(bb, q))(p),
        ) by {
            lemma_pawn_piece_moves(bb, p);
        }
        lemma_collect_piece_moves(bb, own_pawns(bb), 64, |q: int| pawn_moves_at(bb, q));
    }
    assert(all_piece_moves(bb, spec_pawn_moves(bb)));
    assert forall|p: int| 0 <= p < 64 && #[trigger] has_bit(own_knights(bb), p) implies all_piece_moves(
        bb,
        (|k: int| jumps(my, k, knight_dirs(), 8, 2, 2))(p),
    ) by {
        assert(own_kind(bb, 2) == own_knights(bb));
        lemma_jumps_piece_moves(bb, p, knight_dirs(), 8, 2, 2);
    }
    lemma_collect_piece_moves(bb, own_knights(bb), 64, |k: int| jumps(my, k, knight_dirs(), 8, 2, 2));
    assert forall|piece: u64| 3 <= piece <= 5 implies #[trigger] all_piece_moves(
        bb,
        spec_c_moves(own_kind(bb, piece), my, opp, piece),
    ) by {
        let b = own_kind(bb, piece);
        assert forall|p: int| 0 <= p < 64 && #[trigger] has_bit(b, p) implies all_piece_moves(
            bb,
            (|q: int| bishop_lines(q, my, opp, piece))(p),
        ) by {
            lemma_slide_piece_moves(bb, p, p - 9, -9, opp, piece, DIAGONAL());
            lemma_slide_piece_moves(bb, p, p - 7, -7, opp, piece, DIAGONAL());
            lemma_slide_piece_moves(bb, p, p + 7, 7, opp, piece, DIAGONAL());
            lemma_slide_piece_moves(bb, p, p + 9, 9, opp, piece, DIAGONAL());
            let s1 = slide(p, p - 9, -9, my, opp, piece, DIAGONAL());
            let s2 = slide(p, p - 7, -7, my, opp, piece, DIAGONAL());
            let s3 = slide(p, p + 7, 7, my, opp, piece, DIAGONAL());
            let s4 = slide(p, p + 9, 9, my, opp, piece, DIAGONAL());
            lemma_piece_moves_concat(bb, s1, s2);
            lemma_piece_moves_concat(bb, s1 + s2, s3);
            lemma_piece_moves_concat(bb, s1 + s2 + s3, s4);
        }
        lemma_collect_piece_moves(bb, b, 64, |q: int| bishop_lines(q, my, opp, piece));
    }
    assert forall|piece: u64| 4 <= piece <= 5 implies #[trigger] all_piece_moves(
        bb,
        spec_h_and_v_moves(own_kind(bb, piece), my, opp, piece),
    ) by {
        let b = own_kind(bb, piece);
        assert forall|p: int| 0 <= p < 64 && #[trigger] has_bit(b, p) implies all_piece_moves(
            bb,
            (|q: int| rook_lines(q, my, opp, piece))(p),
        ) by {
            lemma_slide_piece_moves(bb, p, p - 8, -8, opp, piece, VERTICAL());
            lemma_slide_piece_moves(bb, p, p + 8, 8, opp, piece, VERTICAL());
            lemma_slide_piece_moves(bb, p, p - 1, -1, opp, piece, HORIZONTAL());
            lemma_slide_piece_moves(bb, p, p + 1, 1, opp, piece, HORIZONTAL());
            let s1 = slide(p, p - 8, -8, my, opp, piece, VERTICAL());
            let s2 = slide(p, p + 8, 8, my, opp, piece, VERTICAL());
            let s3 = slide(p, p - 1, -1, my, opp, piece, HORIZONTAL());
            let s4 = slide(p, p + 1, 1, my, opp, piece, HORIZONTAL());
            lemma_piece_moves_concat(bb, s1, s2);
            lemma_piece_moves_concat(bb, s1 + s2, s3);
            lemma_piece_moves_concat(bb, s1 + s2 + s3, s4);
        }
        lemma_collect_piece_moves(bb, b, 64, |q: int| rook_lines(q, my, opp, piece));
    }
    assert(own_kind(bb, 3) == own_bishops(bb));
    assert(own_kind(bb, 4) == own_rooks(bb));
    assert(own_kind(bb, 5) == own_queens(bb));
    assert(all_piece_moves(bb, spec_c_moves(own_kind(bb, 3), my, opp, 3)));
    assert(all_piece_moves(bb, spec_h_and_v_moves(own_kind(bb, 4), my, opp, 4)));
    assert(all_piece_moves(bb, spec_h_and_v_moves(own_kind(bb, 5), my, opp, 5)));
    assert(all_piece_moves(bb, spec_c_moves(own_kind(bb, 5), my, opp, 5)));
    assert(all_piece_moves(bb, spec_bishop_moves(bb)));
    assert(all_piece_moves(bb, spec_rook_moves(bb)));
    lemma_piece_moves_concat(
        bb,
        spec_h_and_v_moves(own_queens(bb), my, opp, 5),
        spec_c_moves(own_queens(bb), my, opp, 5),
    );
    let king = own_king(bb).trailing_zeros() as int;
    vstd::std_specs::bits::axiom_u64_trailing_zeros(own_king(bb));
    if king < 64 {
        assert(own_kind(bb, 6) == own_king(bb));
        assert(has_bit(own_king(bb), king));
        lemma_jumps_piece_moves(bb, king, king_dirs(), 8, 1, 6);
    } else {
        lemma_no_king_no_moves(my, 8);
    }
    lemma_piece_moves_concat(bb, spec_pawn_moves(bb), spec_knight_moves(bb));
    lemma_piece_moves_concat(bb, spec_pawn_moves(bb) + spec_knight_moves(bb), spec_bishop_moves(bb));
    lemma_piece_moves_concat(
        bb,
        spec_pawn_moves(bb) + spec_knight_moves(bb) + spec_bishop_moves(bb),
        spec_rook_moves(bb),
    );
    lemma_piece_moves_concat(
        bb,
        spec_pawn_moves(bb) + spec_knight_moves(bb) + spec_bishop_moves(bb) + spec_rook_moves(bb),
        spec_queen_moves(bb),
    );
    lemma_piece_moves_concat(
        bb,
        spec_pawn_moves(bb) + spec_knight_moves(bb) + spec_bishop_moves(bb) + spec_rook_moves(bb)
            + spec_queen_moves(bb),
        spec_king_moves(bb),
    );
}

/// The board of the pieces of kind `code` (1 pawn .. 6 king) of `player` (1 white,
/// otherwise black).
pub open spec fn side_kind(bb: BitBoard, player: i8, code: int) -> u64 {
    if player == 1 {
        if code == 1 {
            bb.white_pawns
        } else if code == 2 {
            bb.white_knights
        } else if code == 3 {
            bb.white_bishops
        } else if code == 4 {
            bb.white_rooks
        } else if code == 5 {
            bb.white_queen
        } else {
            bb.white_king
        }
    } else {
        if code == 1 {
            bb.black_pawns
        } else if code == 2 {
            bb.black_knights
        } else if code == 3 {
            bb.black_bishops
        } else if code == 4 {
            bb.black_rooks
        } else if code == 5 {
            bb.black_queen
        } else {
            bb.black_king
        }
    }
}

/// The board of all the pieces of `player` (1 white, otherwise black).
pub open spec fn side_pieces(bb: BitBoard, player: i8) -> u64 {
    if player == 1 {
        bb.white_pieces
    } else {
        bb.black_pieces
    }
}

/// The kind of the piece that a move `[from, to, piece, promote]` puts on `to`.
pub open spec fn placed_kind(m: Seq<u64>) -> int {
    if m[3] == 0 {
        m[2] as int
    } else {
        m[3] as int
    }
}

/// Playing a piece from square `f` to square `t`, square by square: the mover's
/// colour board loses `f` and gains `t`; the opposing colour board and every
/// opposing piece board lose `t`; the mover's board of the moved kind loses `f`
/// and the board of the kind placed (the moved kind, or the promotion) gains `t`;
/// every other square of every board stays.
#[verifier::spinoff_prover]
#[verifier::rlimit(60)]
pub proof fn lemma_make_move_squares(bb: BitBoard, m: Seq<u64>, f: int, t: int)
    requires
        consistent(bb),
        bb.player == 1 || bb.player == -1,
        moves_a_piece(bb, m),
        0 <= f < 64,
        0 <= t < 64,
        m[0] == square(f),
        m[1] == square(t),
    ensures
        spec_make_move(bb, m).player == -bb.player,
        ({
            let w = bb.player;
            let nb = spec_make_move(bb, m);
            let o = nb.player;
            &&& forall|i: int|
                0 <= i < 64 ==> #[trigger] has_bit(side_pieces(nb, w), i) == ((has_bit(side_pieces(bb, w), i)
                    && i != f) || i == t)
            &&& forall|i: int|
                0 <= i < 64 ==> #[trigger] has_bit(side_pieces(nb, o), i) == (has_bit(side_pieces(bb, o), i)
                    && i != t)
            &&& forall|i: int, code: int|
                0 <= i < 64 && 1 <= code <= 6 ==> #[trigger] has_bit(side_kind(nb, o, code), i) == (has_bit(
                    side_kind(bb, o, code),
                    i,
                ) && i != t)
            &&& forall|i: int, code: int|
                0 <= i < 64 && 1 <= code <= 6 ==> #[trigger] has_bit(side_kind(nb, w, code), i) == ((has_bit(
                    side_kind(bb, w, code),
                    i,
                ) && !(i == f && code == m[2])) || (i == t && code == placed_kind(m)))
        }),
{
    reveal(spec_make_move);
    let w = bb.player;
    let nb = spec_make_move(bb, m);
    let o = nb.player;
    let f0 = choose|f: int| 0 <= f < 64 && m[0] == square(f) && #[trigger] has_bit(own_kind(bb, m[2]), f);
    let t0 = choose|t: int| 0 <= t < 64 && m[1] == square(t) && !#[trigger] has_bit(own_pieces(bb), t);
    lemma_square_bit(f0, f);
    lemma_square_bit(f, f);
    lemma_square_bit(t0, t);
    lemma_square_bit(t, t);
    assert(f0 == f && t0 == t);
    assert(square_consistent(bb, f));
    assert(square_consistent(bb, t));
    assert(f != t);
    lemma_and_square(bb.white_pieces, t);
    lemma_and_square(bb.black_pieces, t);
    let ft = m[0] ^ m[1];
    assert forall|i: int| 0 <= i < 64 implies {
        &&& #[trigger] has_bit(side_pieces(nb, w), i) == ((has_bit(side_pieces(bb, w), i) && i != f) || i == t)
        &&& has_bit(side_pieces(nb, o), i) == (has_bit(side_pieces(bb, o), i) && i != t)
        &&& forall|code: int|
            1 <= code <= 6 ==> #[trigger] has_bit(side_kind(nb, o, code), i) == (has_bit(side_kind(bb, o, code), i)
                && i != t)
        &&& forall|code: int|
            1 <= code <= 6 ==> #[trigger] has_bit(side_kind(nb, w, code), i) == ((has_bit(side_kind(bb, w, code), i)
                && !(i == f && code == m[2])) || (i == t && code == placed_kind(m)))
    } by {
        lemma_square_bit(f, i);
        lemma_square_bit(t, i);
        lemma_bit_ops(m[0], m[1], i);
        assert(square_consistent(bb, i));
        let mine = side_pieces(bb, w);
        let theirs = side_pieces(bb, o);
        lemma_bit_ops(mine, ft, i);
        lemma_bit_ops(theirs, m[1], i);
        assert forall|code: int| 1 <= code <= 6 implies #[trigger] has_bit(side_kind(nb, o, code), i) == (has_bit(
            side_kind(bb, o, code),
            i,
        ) && i != t) by {
            let p = side_kind(bb, o, code);
            lemma_bit_ops(m[1], p, i);
            lemma_bit_ops(p, m[1] & p, i);
        }
        assert forall|code: int| 1 <= code <= 6 implies #[trigger] has_bit(side_kind(nb, w, code), i) == ((has_bit(
            side_kind(bb, w, code),
            i,
        ) && !(i == f && code == m[2])) || (i == t && code == placed_kind(m))) by {
            let p = side_kind(bb, w, code);
            lemma_bit_ops(p, ft, i);
            lemma_bit_ops(p, m[0], i);
            lemma_bit_ops(p, m[1], i);
        }
    }
    assert forall|i: int| 0 <= i < 64 implies #[trigger] has_bit(side_pieces(nb, o), i) == (has_bit(
        side_pieces(bb, o),
        i,
    ) && i != t) by {
        assert(has_bit(side_pieces(nb, w), i) == ((has_bit(side_pieces(bb, w), i) && i != f) || i == t));
    }
    assert forall|i: int, code: int| 0 <= i < 64 && 1 <= code <= 6 implies #[trigger] has_bit(
        side_kind(nb, o, code),
        i,
    ) == (has_bit(side_kind(bb, o, code), i) && i != t) by {
        assert(has_bit(side_pieces(nb, w), i) == ((has_bit(side_pieces(bb, w), i) && i != f) || i == t));
    }
    assert forall|i: int, code: int| 0 <= i < 64 && 1 <= code <= 6 implies #[trigger] has_bit(
        side_kind(nb, w, code),
        i,
    ) == ((has_bit(side_kind(bb, w, code), i) && !(i == f && code == m[2])) || (i == t && code == placed_kind(
        m,
    ))) by {
        assert(has_bit(side_pieces(nb, w), i) == ((has_bit(side_pieces(bb, w), i) && i != f) || i == t));
    }
}

/// A generated move keeps a consistent position consistent; the occupied squares
/// afterwards are those before without the square left and with the square
/// reached (their number is in `lemma_generated_move_count`).
pub proof fn lemma_generated_move_consistent(bb: BitBoard, m: Seq<u64>)
    requires
        consistent(bb),
        bb.player == 1 || bb.player == -1,
        pawn_moves_ok(bb),
        king_moves_ok(bb),
        spec_all_legal_moves(bb).contains(m),
    ensures
        consistent(spec_make_move(bb, m)),
        forall|i: int|
            0 <= i < 64 ==> #[trigger] occupied(spec_make_move(bb, m), i) == ((occupied(bb, i) && !has_bit(
                m[0],
                i,
            )) || has_bit(m[1], i)),
{
    assert forall|i: int| 0 <= i < 64 implies !(#[trigger] has_bit(bb.white_pieces, i) && has_bit(
        bb.black_pieces,
        i,
    )) by {
        assert(square_consistent(bb, i));
    }
    lemma_moves_well_formed(bb);
    lemma_moves_move_pieces(bb);
    let j = choose|j: int| 0 <= j < spec_all_legal_moves(bb).len() && spec_all_legal_moves(bb)[j] == m;
    assert(well_formed_move(bb, spec_all_legal_moves(bb)[j]));
    assert(piece_moves(bb, spec_all_legal_moves(bb)[j]));
    assert(moves_a_piece(bb, m));
    lemma_make_move_consistent(bb, m);
}

/// The number of squares below `n` that are set in `x`.
pub open spec fn count_below(x: u64, n: nat) -> nat
    decreases n,
{
    if n == 0 {
        0
    } else {
        count_below(x, (n - 1) as nat) + if has_bit(x, n - 1) {
            1nat
        } else {
            0nat
        }
    }
}

proof fn lemma_count_below_shift(x: u64, n: nat)
    requires
        1 <= n <= 64,
    ensures
        count_below(x, n) == (x % 2) as nat + count_below(x / 2, (n - 1) as nat),
    decreases n,
{
    if n == 1 {
        assert(count_below(x, 0) == 0 && count_below(x / 2, 0) == 0);
        assert(((x >> 0u64) & 1u64 == 1u64) == (x % 2 == 1)) by (bit_vector);
    } else {
        lemma_count_below_shift(x, (n - 1) as nat);
        let k = (n - 2) as u64;
        assert(((x / 2) >> k) & 1u64 == (x >> (k + 1)) & 1u64) by (bit_vector)
            requires
                k < 63,
        ;
        assert(has_bit(x, n - 1) == has_bit(x / 2, n - 2));
    }
}

proof fn lemma_popcount_count_below(x: u64, n: nat)
    requires
        n <= 64,
        x < pow2(n),
    ensures
        popcount(x) == count_below(x, n),
    decreases n,
{
    if n == 0 {
        assert(x == 0);
    } else {
        assert(x / 2 < pow2((n - 1) as nat));
        lemma_popcount_count_below(x / 2, (n - 1) as nat);
        lemma_count_below_shift(x, n);
        assert(popcount(x) == (x % 2) as nat + popcount(x / 2));
    }
}

/// The number of set bits is the number of set squares of the board.
pub proof fn lemma_popcount_squares(x: u64)
    ensures
        popcount(x) == count_below(x, 64),
{
    assert(pow2(64) == 0x1_0000_0000_0000_0000) by {
        reveal_with_fuel(pow2, 65);
    }
    lemma_popcount_count_below(x, 64);
}

/// Moving the set square `f` of `a` to `t` changes the count of set squares
/// below `n` by the squares among `f` and `t` that lie below `n`.
proof fn lemma_count_below_move(a: u64, b: u64, f: int, t: int, n: nat)
    requires
        0 <= f < 64,
        0 <= t < 64,
        f != t,
        n <= 64,
        has_bit(a, f),
        forall|i: int| 0 <= i < 64 ==> #[trigger] has_bit(b, i) == ((has_bit(a, i) && i != f) || i == t),
    ensures
        count_below(b, n) + (if f < n {
            1int
        } else {
            0int
        }) == count_below(a, n) + (if t < n && !has_bit(a, t) {
            1int
        } else {
            0int
        }),
    decreases n,
{
    if n > 0 {
        lemma_count_below_move(a, b, f, t, (n - 1) as nat);
        assert(has_bit(b, n - 1) == ((has_bit(a, n - 1) && n - 1 != f) || n - 1 == t));
    }
}

/// A generated move hands the turn over, keeps the position consistent, and
/// takes a piece off the board exactly when it ends on a piece of the opponent:
/// the number of occupied squares then drops by one, and otherwise stays.
pub proof fn lemma_generated_move_count(bb: BitBoard, m: Seq<u64>)
    requires
        consistent(bb),
        bb.player == 1 || bb.player == -1,
        pawn_moves_ok(bb),
        king_moves_ok(bb),
        spec_all_legal_moves(bb).contains(m),
    ensures
        consistent(spec_make_move(bb, m)),
        spec_make_move(bb, m).player == -bb.player,
        spec_make_move(bb, m).depth == (bb.depth + 1) as i32,
        popcount(spec_make_move(bb, m).white_pieces | spec_make_move(bb, m).black_pieces) == if m[1]
            & other_pieces(bb) != 0 {
            popcount(bb.white_pieces | bb.black_pieces) - 1
        } else {
            popcount(bb.white_pieces | bb.black_pieces) as int
        },
{
    reveal(spec_make_move);
    let nb = spec_make_move(bb, m);
    lemma_generated_move_consistent(bb, m);
    assert forall|i: int| 0 <= i < 64 implies !(#[trigger] has_bit(bb.white_pieces, i) && has_bit(
        bb.black_pieces,
        i,
    )) by {
        assert(square_consistent(bb, i));
    }
    lemma_moves_well_formed(bb);
    lemma_moves_move_pieces(bb);
    let j = choose|j: int| 0 <= j < spec_all_legal_moves(bb).len() && spec_all_legal_moves(bb)[j] == m;
    assert(well_formed_move(bb, spec_all_legal_moves(bb)[j]));
    assert(piece_moves(bb, spec_all_legal_moves(bb)[j]));
    let f = choose|f: int| 0 <= f < 64 && m[0] == square(f) && #[trigger] has_bit(own_kind(bb, m[2]), f);
    let t = choose|t: int| 0 <= t < 64 && m[1] == square(t) && !#[trigger] has_bit(own_pieces(bb), t);
    assert(square_consistent(bb, f));
    assert(square_consistent(bb, t));
    assert(f != t);
    let occ = bb.white_pieces | bb.black_pieces;
    let occ2 = nb.white_pieces | nb.black_pieces;
    lemma_bit_or(bb.white_pieces, bb.black_pieces, f);
    assert(has_bit(occ, f));
    assert forall|i: int| 0 <= i < 64 implies #[trigger] has_bit(occ2, i) == ((has_bit(occ, i) && i != f)
        || i == t) by {
        lemma_bit_or(bb.white_pieces, bb.black_pieces, i);
        lemma_bit_or(nb.white_pieces, nb.black_pieces, i);
        lemma_square_bit(f, i);
        lemma_square_bit(t, i);
        assert(occupied(nb, i) == ((occupied(bb, i) && !has_bit(m[0], i)) || has_bit(m[1], i)));
    }
    lemma_count_below_move(occ, occ2, f, t, 64);
    lemma_popcount_squares(occ);
    lemma_popcount_squares(occ2);
    lemma_square_test(other_pieces(bb), t);
    lemma_bit_or(bb.white_pieces, bb.black_pieces, t);
    assert(has_bit(occ, t) == has_bit(other_pieces(bb), t));
}

proof fn lemma_and_square(x: u64, t: int)
    requires
        0 <= t < 64,
    ensures
        (x & square(t) != 0) == has_bit(x, t),
{
    let a = t as u64;
    assert((x & (1u64 << a) != 0) == ((x >> a) & 1u64 == 1u64)) by (bit_vector)
        requires
            a < 64,
    ;
}

// ---------------------------------------------------------------------------
// Position cache
// ---------------------------------------------------------------------------

pub open spec fn mix(h: u64, x: u64) -> u64 {
    (h ^ x).wrapping_mul(0x9E37_79B9_7F4A_7C15)
}

pub open spec fn spec_hash(bb: BitBoard) -> u64 {
    let h: u64 = 0;
    let h = mix(h, bb.white_king);
    let h = mix(h, bb.white_queen);
    let h = mix(h, bb.white_rooks);
    let h = mix(h, bb.white_bishops);
    let h = mix(h, bb.white_knights);
    let h = mix(h, bb.white_pawns);
    let h = mix(h, bb.black_king);
    let h = mix(h, bb.black_queen);
    let h = mix(h, bb.black_rooks);
    let h = mix(h, bb.black_bishops);
    let h = mix(h, bb.black_knights);
    let h = mix(h, bb.black_pawns);
    let h = mix(h, bb.white_pieces);
    let h = mix(h, bb.black_pieces);
    h
}

pub open spec fn NUM_BUCKETS() -> int {
    65536
}

pub open spec fn spec_bucket(bb: BitBoard) -> int {
    (spec_hash(bb) >> 48u64) as int
}

fn bucket_of(bb: &BitBoard) -> (r: usize)
    ensures
        r == spec_bucket(*bb),
        r < NUM_BUCKETS(),
{
    let mut h: u64 = 0;
    h = (h ^ bb.white_king).wrapping_mul(0x9E37_79B9_7F4A_7C15);
    h = (h ^ bb.white_queen).wrapping_mul(0x9E37_79B9_7F4A_7C15);
    h = (h ^ bb.white_rooks).wrapping_mul(0x9E37_79B9_7F4A_7C15);
    h = (h ^ bb.white_bishops).wrapping_mul(0x9E37_79B9_7F4A_7C15);
    h = (h ^ bb.white_knights).wrapping_mul(0x9E37_79B9_7F4A_7C15);
    h = (h ^ bb.white_pawns).wrapping_mul(0x9E37_79B9_7F4A_7C15);
    h = (h ^ bb.black_king).wrapping_mul(0x9E37_79B9_7F4A_7C15);
    h = (h ^ bb.black_queen).wrapping_mul(0x9E37_79B9_7F4A_7C15);
    h = (h ^ bb.black_rooks).wrapping_mul(0x9E37_79B9_7F4A_7C15);
    h = (h ^ bb.black_bishops).wrapping_mul(0x9E37_79B9_7F4A_7C15);
    h = (h ^ bb.black_knights).wrapping_mul(0x9E37_79B9_7F4A_7C15);
    h = (h ^ bb.black_pawns).wrapping_mul(0x9E37_79B9_7F4A_7C15);
    h = (h ^ bb.white_pieces).wrapping_mul(0x9E37_79B9_7F4A_7C15);
    h = (h ^ bb.black_pieces).wrapping_mul(0x9E37_79B9_7F4A_7C15);
    assert(h >> 48u64 < 65536) by (bit_vector);
    (h >> 48u64) as usize
}

proof fn lemma_bucket_range(k: BitBoard)
    ensures
        0 <= spec_bucket(k) < NUM_BUCKETS(),
{
    let h = spec_hash(k);
    assert(h >> 48u64 < 65536) by (bit_vector);
}

/// The value stored for `k` in a bucket: that of its first entry with key `k`.
pub open spec fn lookup(s: Seq<(BitBoard, i32)>, k: BitBoard) -> Option<i32>
    decreases s.len(),
{
    if s.len() == 0 {
        None
    } else if s[0].0 == k {
        Some(s[0].1)
    } else {
        lookup(s.drop_first(), k)
    }
}

/// Values found for positions already searched, keyed by position.
pub struct BoardCache {
    buckets: Vec<Vec<(BitBoard, i32)>>,
}

impl View for BoardCache {
    type V = Map<BitBoard, i32>;

    open spec fn view(&self) -> Map<BitBoard, i32> {
        self.contents()
    }
}

impl BoardCache {
    pub closed spec fn wf(&self) -> bool {
        self.buckets@.len() == NUM_BUCKETS()
    }

    pub closed spec fn bucket(&self, k: BitBoard) -> Seq<(BitBoard, i32)> {
        self.buckets@[spec_bucket(k)]@
    }

    /// The cached value of each position.
    pub closed spec fn contents(&self) -> Map<BitBoard, i32> {
        Map::new(|k: BitBoard| lookup(self.bucket(k), k) is Some, |k: BitBoard| lookup(self.bucket(k), k)->0)
    }

    pub fn new() -> (r: BoardCache)
        ensures
            r.wf(),
            r@ == Map::<BitBoard, i32>::empty(),
    {
        let mut buckets: Vec<Vec<(BitBoard, i32)>> = Vec::new();
        let mut i: usize = 0;
        while i < 65536
            invariant
                i <= 65536,
                buckets@.len() == i,
                forall|j: int| 0 <= j < i ==> (#[trigger] buckets@[j])@.len() == 0,
            decreases 65536 - i,
        {
            buckets.push(Vec::new());
            i += 1;
        }
        let r = BoardCache { buckets };
        assert(r@ =~= Map::<BitBoard, i32>::empty()) by {
            assert forall|k: BitBoard| !(#[trigger] r@.contains_key(k)) by {
                lemma_bucket_range(k);
                assert(r.bucket(k).len() == 0);
            }
        }
        r
    }

    /// The stored value for `k`, if any.
    pub fn get(&self, k: &BitBoard) -> (r: Option<i32>)
        requires
            self.wf(),
        ensures
            r == (if self@.contains_key(*k) {
                Some(self@[*k])
            } else {
                None
            }),
    {
        let h = bucket_of(k);
        let bucket = &self.buckets[h];
        let ghost s = bucket@;
        assert(s.skip(0) =~= s);
        let mut j: usize = 0;
        while j < bucket.len()
            invariant
                s == bucket@,
                s == self.bucket(*k),
                j <= s.len(),
                lookup(s, *k) == lookup(s.skip(j as int), *k),
            decreases s.len() - j,
        {
            assert(s.skip(j as int).drop_first() =~= s.skip(j + 1));
            if bucket[j].0 == *k {
                return Some(bucket[j].1);
            }
            j += 1;
        }
        None
    }

    /// Stores `v` for `k`, replacing an earlier value.
    pub fn insert(&mut self, k: BitBoard, v: i32)
        requires
            old(self).wf(),
        ensures
            final(self).wf(),
            final(self)@ == old(self)@.insert(k, v),
    {
        let h = bucket_of(&k);
        let ghost s = self.buckets@[h as int]@;
        let mut j: usize = 0;
        let n = self.buckets[h].len();
        while j < n
            invariant
                self.buckets == old(self).buckets,
                h == spec_bucket(k),
                h < NUM_BUCKETS(),
                old(self).wf(),
                s == self.buckets@[h as int]@,
                n == s.len(),
                j <= n,
                forall|i: int| 0 <= i < j ==> (#[trigger] s[i]).0 != k,
            ensures
                j <= n,
                j < n ==> s[j as int].0 == k,
                forall|i: int| 0 <= i < j ==> (#[trigger] s[i]).0 != k,
            decreases n - j,
        {
            if self.buckets[h][j].0 == k {
                break;
            }
            j += 1;
        }
        if j < n {
            self.buckets[h][j] = (k, v);
        } else {
            self.buckets[h].push((k, v));
        }
        proof {
            let s2 = self.buckets@[h as int]@;
            assert(self.buckets@.len() == old(self).buckets@.len());
            assert(forall|i: int| 0 <= i < NUM_BUCKETS() && i != h ==> #[trigger] self.buckets@[i] == old(self).buckets@[i]);
            if j < n {
                assert(s2 =~= s.update(j as int, (k, v)));
            } else {
                assert(s2 =~= s.push((k, v)));
            }
            lemma_lookup_store(s, s2, j as int, k, v);
            assert forall|k2: BitBoard| k2 != k implies #[trigger] lookup(self.bucket(k2), k2) == lookup(
                old(self).bucket(k2),
                k2,
            ) by {
                lemma_bucket_range(k2);
            }
            assert(self@ =~= old(self)@.insert(k, v));
        }
    }
}

/// Storing `(k, v)` at the first entry with key `k` (or at the end when there is
/// none) makes `v` the value of `k` and keeps the value of every other key.
proof fn lemma_lookup_store(s: Seq<(BitBoard, i32)>, s2: Seq<(BitBoard, i32)>, j: int, k: BitBoard, v: i32)
    requires
        0 <= j <= s.len(),
        forall|i: int| 0 <= i < j ==> (#[trigger] s[i]).0 != k,
        j < s.len() ==> s[j].0 == k && s2 == s.update(j, (k, v)),
        j == s.len() ==> s2 == s.push((k, v)),
    ensures
        lookup(s2, k) == Some(v),
        forall|k2: BitBoard| k2 != k ==> #[trigger] lookup(s2, k2) == lookup(s, k2),
    decreases j,
{
    if j > 0 {
        let t = s.drop_first();
        let t2 = s2.drop_first();
        if j < s.len() {
            assert(t2 =~= t.update(j - 1, (k, v)));
        } else {
            assert(t2 =~= t.push((k, v)));
        }
        assert forall|i: int| 0 <= i < j - 1 implies (#[trigger] t[i]).0 != k by {
            assert(t[i] == s[i + 1]);
        }
        lemma_lookup_store(t, t2, j - 1, k, v);
        assert(s2[0] == s[0]);
        assert(s[0].0 != k);
        assert forall|k2: BitBoard| k2 != k implies #[trigger] lookup(s2, k2) == lookup(s, k2) by {
            assert(lookup(t2, k2) == lookup(t, k2));
        }
    } else {
        let t = if s.len() > 0 { s.drop_first() } else { s };
        let t2 = s2.drop_first();
        assert(s2[0] == (k, v));
        if j < s.len() {
            assert(t2 =~= t);
        } else {
            assert(t2 =~= Seq::<(BitBoard, i32)>::empty());
        }
        assert(s2.len() > 0);
        assert forall|k2: BitBoard| k2 != k implies #[trigger] lookup(s2, k2) == lookup(s, k2) by {
            assert(lookup(s2, k2) == lookup(t2, k2));
            if j < s.len() {
                assert(s[0].0 == k);
                assert(lookup(s, k2) == lookup(t, k2));
            } else {
                assert(lookup(t2, k2) == None::<i32>);
                assert(s.len() == 0);
            }
        }
    }
}


// ---------------------------------------------------------------------------
// Alpha-beta search
// ---------------------------------------------------------------------------

/// Value of a finished game seen at `depth` plies left: `base` against the side
/// `player` to move, grown by `depth` (`base * -player + depth * -player`).
pub open spec fn end_value(base: int, player: i8, depth: i32) -> i32 {
    if player == 1 {
        (-base - depth) as i32
    } else {
        (base + depth) as i32
    }
}

/// Alpha-beta search of `bb` with `player` to move (1 maximises, -1 minimises),
/// `depth` plies deep, window `(alpha, beta)`, and a cache of earlier results:
/// the value found and the cache afterwards.
///  - at depth 0: the material score;
///  - a cached position: its cached value, without searching;
///  - a missing king: 20000 against the side to move (plus the remaining depth);
///  - no moves: 10000 against the side to move (plus the remaining depth);
///  - otherwise the moves are searched in generation order (see
///    `spec_alpha_beta_moves`), and the final alpha (player 1) or beta (player -1)
///    is stored for `bb` and returned.
pub open spec fn spec_alpha_beta(
    bb: BitBoard,
    cache: Map<BitBoard, i32>,
    alpha: i32,
    beta: i32,
    player: i8,
    depth: i32,
) -> (i32, Map<BitBoard, i32>)
    decreases depth, 1int, 0int,
{
    if depth == 0 {
        (spec_score(bb) as i32, cache)
    } else if cache.contains_key(bb) {
        (cache[bb], cache)
    } else if bb.white_king == 0 || bb.black_king == 0 {
        (end_value(20000, player, depth), cache)
    } else {
        let moves = spec_all_legal_moves(bb);
        if moves.len() == 0 {
            (end_value(10000, player, depth), cache)
        } else if depth < 0 {
            (0, cache)
        } else {
            let (a, b, c) = spec_alpha_beta_moves(bb, moves, 0, cache, alpha, beta, player, depth);
            if player == 1 {
                (a, c.insert(bb, a))
            } else {
                (b, c.insert(bb, b))
            }
        }
    }
}

/// The search over `moves[i..]`: each move is played and searched one ply less
/// deep by the other side; a higher value raises alpha (player 1), a lower one
/// lowers beta (player -1); the search stops once alpha >= beta.
pub open spec fn spec_alpha_beta_moves(
    bb: BitBoard,
    moves: Seq<Seq<u64>>,
    i: int,
    cache: Map<BitBoard, i32>,
    alpha: i32,
    beta: i32,
    player: i8,
    depth: i32,
) -> (i32, i32, Map<BitBoard, i32>)
    decreases depth, 0int, moves.len() - i,
{
    if i < 0 || i >= moves.len() || depth <= 0 {
        (alpha, beta, cache)
    } else {
        let next = spec_make_move(bb, moves[i]);
        let (value, c2) = spec_alpha_beta(next, cache, alpha, beta, (-player) as i8, (depth - 1) as i32);
        let a2 = if player == 1 && value > alpha {
            value
        } else {
            alpha
        };
        let b2 = if player != 1 && value < beta {
            value
        } else {
            beta
        };
        if a2 >= b2 {
            (a2, b2, c2)
        } else {
            spec_alpha_beta_moves(bb, moves, i + 1, c2, a2, b2, player, depth)
        }
    }
}

/// When the search can run: a search position, a side to move, a depth whose end
/// values fit an `i32`, and a move counter that cannot overflow; when moves are
/// made two plies deep or more, the other side's pawns stand before their last
/// row too.
pub open spec fn alpha_beta_ok(bb: BitBoard, player: i8, depth: i32) -> bool {
    &&& bb.player == 1 || bb.player == -1
    &&& own_placed(bb)
    &&& depth >= 2 && spec_all_legal_moves(bb).len() > 0 ==> other_placed(bb)
    &&& player == 1 || player == -1
    &&& 0 <= depth <= i32::MAX - 20000
    &&& bb.depth + depth <= i32::MAX
}

/// The search can run on `bb`: at depth 0 it only scores the position, a cached
/// position gives its value, with a king missing it gives the end value (which
/// must fit an `i32`), and otherwise it makes the moves (see `alpha_beta_ok`).
/// Below depth 0 the search ends only where there is no move: then it gives the
/// end value too.
pub open spec fn search_ready(bb: BitBoard, cache: Map<BitBoard, i32>, player: i8, depth: i32) -> bool {
    ||| depth == 0
    ||| cache.contains_key(bb)
    ||| (bb.white_king == 0 || bb.black_king == 0) && (player == 1 || player == -1) && -(i32::MAX - 20000)
        <= depth <= i32::MAX - 20000
    ||| alpha_beta_ok(bb, player, depth)
    ||| no_moves_below_zero(bb, player, depth)
}

/// Below depth 0, a position with both kings and no move for the side to move.
pub open spec fn no_moves_below_zero(bb: BitBoard, player: i8, depth: i32) -> bool {
    &&& -(i32::MAX - 10000) <= depth < 0
    &&& player == 1 || player == -1
    &&& bb.player == 1 || bb.player == -1
    &&& own_placed(bb)
    &&& bb.white_king != 0 && bb.black_king != 0
    &&& spec_all_legal_moves(bb).len() == 0
}

/// The root search can run on `bb`: the side to move can make its moves, and
/// when they are searched further the other side can make its moves too.
pub open spec fn root_ok(bb: BitBoard, depth: i32) -> bool {
    &&& bb.player == 1 || bb.player == -1
    &&& own_placed(bb)
    &&& depth >= 1 ==> other_placed(bb)
}

/// Searches `chunk`, the moves `offset..` of `bit_board` (see
/// `spec_alpha_beta_moves`): returns the window afterwards and whether it closed.
fn search_chunk(
    bit_board: &BitBoard,
    chunk: Vec<Vec<u64>>,
    Ghost(offset): Ghost<int>,
    hm: &mut BoardCache,
    alpha: i32,
    beta: i32,
    player: i8,
    depth: i32,
) -> (res: (i32, i32, bool))
    requires
        old(hm).wf(),
        alpha_beta_ok(*bit_board, player, depth),
        pawn_moves_ok(*bit_board),
        king_moves_ok(*bit_board),
        depth > 0,
        0 <= offset,
        offset + chunk.len() <= spec_all_legal_moves(*bit_board).len(),
        chunk.deep_view() == spec_all_legal_moves(*bit_board).subrange(offset, offset + chunk.len()),
    ensures
        final(hm).wf(),
        res.2 ==> spec_alpha_beta_moves(
            *bit_board,
            spec_all_legal_moves(*bit_board),
            offset,
            old(hm)@,
            alpha,
            beta,
            player,
            depth,
        ) == (res.0, res.1, final(hm)@),
        !res.2 ==> spec_alpha_beta_moves(
            *bit_board,
            spec_all_legal_moves(*bit_board),
            offset,
            old(hm)@,
            alpha,
            beta,
            player,
            depth,
        ) == spec_alpha_beta_moves(
            *bit_board,
            spec_all_legal_moves(*bit_board),
            offset + chunk.len(),
            final(hm)@,
            res.0,
            res.1,
            player,
            depth,
        ),
    decreases depth, 0int,
{
    let ghost bb = *bit_board;
    let ghost moves = spec_all_legal_moves(bb);
    proof {
        lemma_moves_well_formed(bb);
    }
    let mut alpha = alpha;
    let mut beta = beta;
    let ghost total = spec_alpha_beta_moves(bb, moves, offset, hm@, alpha, beta, player, depth);
    let mut i: usize = 0;
    while i < chunk.len()
        invariant_except_break
            total == spec_alpha_beta_moves(bb, moves, offset + i, hm@, alpha, beta, player, depth),
        invariant
            bb == *bit_board,
            alpha_beta_ok(bb, player, depth),
            depth > 0,
            moves == spec_all_legal_moves(bb),
            all_well_formed(bb, moves),
            0 <= offset,
            offset + chunk.len() <= moves.len(),
            chunk.deep_view() == moves.subrange(offset, offset + chunk.len()),
            hm.wf(),
            i <= chunk.len(),
        ensures
            i < chunk.len() ==> total == (alpha, beta, hm@),
            i >= chunk.len() ==> total == spec_alpha_beta_moves(bb, moves, offset + chunk.len(), hm@, alpha, beta, player, depth),
        decreases chunk.len() - i,
    {
        let ghost cache_i = hm@;
        let ghost alpha_i = alpha;
        let ghost beta_i = beta;
        let lm = &chunk[i];
        assert(lm@ == moves[offset + i]) by {
            assert(chunk.deep_view()[i as int] == moves.subrange(offset, offset + chunk.len())[i as int]);
        }
        assert(well_formed_move(bb, moves[offset + i]));
        let mut bb2 = bit_board.clone();
        proof {
            lemma_make_move_places_pawns(bb, moves[offset + i]);
        }
        bb2.make_move(lm);
        let value = alpha_beta(&bb2, hm, alpha, beta, -player, depth - 1);
        assert((value, hm@) == spec_alpha_beta(
            spec_make_move(bb, moves[offset + i]),
            cache_i,
            alpha_i,
            beta_i,
            (-player) as i8,
            (depth - 1) as i32,
        ));

        if player == 1 {
            if value > alpha {
                alpha = value;
            }
        } else {
            if value < beta {
                beta = value;
            }
        }
        if alpha >= beta {
            assert(spec_alpha_beta_moves(bb, moves, offset + i, cache_i, alpha_i, beta_i, player, depth)
                == (alpha, beta, hm@));
            break;
        }
        assert(spec_alpha_beta_moves(bb, moves, offset + i, cache_i, alpha_i, beta_i, player, depth)
            == spec_alpha_beta_moves(bb, moves, offset + i + 1, hm@, alpha, beta, player, depth));
        i += 1;
    }
    (alpha, beta, i < chunk.len())
}

#[verifier::spinoff_prover]
#[verifier::rlimit(50)]
pub fn alpha_beta(
    bit_board: &BitBoard,
    hm: &mut BoardCache,
    alpha: i32,
    beta: i32,
    player: i8,
    depth: i32,
) -> (r: i32)
    requires
        old(hm).wf(),
        search_ready(*bit_board, old(hm)@, player, depth),
    ensures
        final(hm).wf(),
        r == spec_alpha_beta(*bit_board, old(hm)@, alpha, beta, player, depth).0,
        final(hm)@ == spec_alpha_beta(*bit_board, old(hm)@, alpha, beta, player, depth).1,
    decreases depth, 1int,
{
    let mut alpha = alpha;
    let mut beta = beta;
    if depth == 0 {
        proof {
            lemma_score_bounds(*bit_board);
        }
        return score(bit_board);
    }
    if let Some(v) = hm.get(bit_board) {
        return v;
    }
    if bit_board.white_king == 0 || bit_board.black_king == 0 {
        if player == 1 {
            return -20000 - depth;
        } else {
            return 20000 + depth;
        }
    }
    if depth < 0 {
        let moves = all_legal_moves(bit_board);
        assert(moves.len() == 0) by {
            assert(moves.deep_view().len() == moves.len());
        }
        let p = player as i32;
        return 10000 * p * -1 + depth * p * -1;
    }
    // The moves are made one kind of piece at a time, so that a search cut off
    // early does not build the moves it never plays; the order is that of
    // `all_legal_moves`.
    let ghost bb = *bit_board;
    let ghost moves = spec_all_legal_moves(bb);
    let ghost cache0 = hm@;
    let ghost alpha0 = alpha;
    let ghost beta0 = beta;
    let ghost total = spec_alpha_beta_moves(bb, moves, 0, cache0, alpha0, beta0, player, depth);
    proof {
        lemma_moves_before_all(bb);
    }
    assert(pawn_moves_ok(bb) && king_moves_ok(bb));
    let mut kind: usize = 0;
    let mut cut = false;
    let mut any = false;
    let ghost mut off: int = 0;
    while kind < 6
        invariant
            bb == *bit_board,
            alpha_beta_ok(bb, player, depth),
            pawn_moves_ok(bb),
            king_moves_ok(bb),
            depth > 0,
            moves == spec_all_legal_moves(bb),
            moves == moves_before(bb, 6),
            total == spec_alpha_beta_moves(bb, moves, 0, cache0, alpha0, beta0, player, depth),
            hm.wf(),
            kind <= 6,
            !cut ==> off == moves_before(bb, kind as int).len(),
            !cut ==> total == spec_alpha_beta_moves(bb, moves, off, hm@, alpha, beta, player, depth),
            cut ==> total == (alpha, beta, hm@),
            !any ==> moves_before(bb, kind as int).len() == 0 && hm@ == cache0 && alpha == alpha0
                && beta == beta0 && !cut,
            cut ==> any,
            any ==> moves.len() > 0,
        decreases 6 - kind,
    {
        if !cut {
            let chunk = kind_moves(bit_board, kind);
            let ghost n = chunk.len() as int;
            proof {
                lemma_chunk_at(bb, kind as int);
            }
            if chunk.len() > 0 {
                any = true;
                let r = search_chunk(bit_board, chunk, Ghost(off), hm, alpha, beta, player, depth);
                alpha = r.0;
                beta = r.1;
                cut = r.2;
            }
            proof {
                off = off + n;
            }
        }
        kind += 1;
    }
    if !any {
        let p = player as i32;
        assert(p == 1 || p == -1);
        return 10000 * p * -1 + depth * p * -1;
    }
    assert(total == (alpha, beta, hm@)) by {
        if !cut {
            assert(off == moves.len());
        }
    }
    assert(moves.len() > 0);

    if player == 1 {
        hm.insert(bit_board.clone(), alpha);
        alpha
    } else {
        hm.insert(bit_board.clone(), beta);
        beta
    }
}


/// Every position of `before` is in `after`, with the same value.
pub open spec fn cache_extends(before: Map<BitBoard, i32>, after: Map<BitBoard, i32>) -> bool {
    forall|k: BitBoard| #[trigger] before.contains_key(k) ==> after.contains_key(k) && after[k] == before[k]
}

/// The search only adds to the cache: every position cached before the search is
/// still cached afterwards, with the same value.
pub proof fn lemma_alpha_beta_extends_cache(
    bb: BitBoard,
    cache: Map<BitBoard, i32>,
    alpha: i32,
    beta: i32,
    player: i8,
    depth: i32,
)
    ensures
        cache_extends(cache, spec_alpha_beta(bb, cache, alpha, beta, player, depth).1),
    decreases depth, 1int, 0int,
{
    if depth == 0 || cache.contains_key(bb) || bb.white_king == 0 || bb.black_king == 0 {
    } else {
        let moves = spec_all_legal_moves(bb);
        if moves.len() > 0 && depth > 0 {
            lemma_alpha_beta_moves_extends_cache(bb, moves, 0, cache, alpha, beta, player, depth);
            let (a, b, c) = spec_alpha_beta_moves(bb, moves, 0, cache, alpha, beta, player, depth);
            let v = if player == 1 { a } else { b };
            assert forall|k: BitBoard| #[trigger] cache.contains_key(k) implies c.insert(bb, v).contains_key(k)
                && c.insert(bb, v)[k] == cache[k] by {
                assert(k != bb);
                assert(c.contains_key(k));
            }
        }
    }
}

/// The search over `moves[i..]` only adds to the cache.
pub proof fn lemma_alpha_beta_moves_extends_cache(
    bb: BitBoard,
    moves: Seq<Seq<u64>>,
    i: int,
    cache: Map<BitBoard, i32>,
    alpha: i32,
    beta: i32,
    player: i8,
    depth: i32,
)
    ensures
        cache_extends(cache, spec_alpha_beta_moves(bb, moves, i, cache, alpha, beta, player, depth).2),
    decreases depth, 0int, moves.len() - i,
{
    if i < 0 || i >= moves.len() || depth <= 0 {
    } else {
        let next = spec_make_move(bb, moves[i]);
        lemma_alpha_beta_extends_cache(next, cache, alpha, beta, (-player) as i8, (depth - 1) as i32);
        let (value, c2) = spec_alpha_beta(next, cache, alpha, beta, (-player) as i8, (depth - 1) as i32);
        let a2 = if player == 1 && value > alpha {
            value
        } else {
            alpha
        };
        let b2 = if player != 1 && value < beta {
            value
        } else {
            beta
        };
        if a2 < b2 {
            lemma_alpha_beta_moves_extends_cache(bb, moves, i + 1, c2, a2, b2, player, depth);
            let c3 = spec_alpha_beta_moves(bb, moves, i + 1, c2, a2, b2, player, depth).2;
            assert forall|k: BitBoard| #[trigger] cache.contains_key(k) implies c3.contains_key(k) && c3[k]
                == cache[k] by {
                assert(c2.contains_key(k));
            }
        }
    }
}

/// A position where the side to move has no move, or where a king is missing, is
/// a finished game: the search gives it at once, without touching the cache, the
/// value of a loss for `player` grown by the remaining depth: -(10000 + depth)
/// for white and 10000 + depth for black when there is no move, 20000 in place of
/// 10000 when a king is missing. Searched at least one ply deep, white's loss lies
/// below every material score and black's above it.
pub proof fn lemma_finished_game_value(
    bb: BitBoard,
    cache: Map<BitBoard, i32>,
    alpha: i32,
    beta: i32,
    player: i8,
    depth: i32,
)
    requires
        depth != 0,
        -(i32::MAX - 20000) <= depth <= i32::MAX - 20000,
        !cache.contains_key(bb),
        player == 1 || player == -1,
        bb.white_king == 0 || bb.black_king == 0 || spec_all_legal_moves(bb).len() == 0,
    ensures
        ({
            let base: int = if bb.white_king == 0 || bb.black_king == 0 { 20000 } else { 10000 };
            let (v, c) = spec_alpha_beta(bb, cache, alpha, beta, player, depth);
            &&& c == cache
            &&& player == 1 ==> v == -(base + depth)
            &&& player == -1 ==> v == base + depth
            &&& depth > 0 && player == 1 ==> forall|x: BitBoard| v < #[trigger] spec_score(x)
            &&& depth > 0 && player == -1 ==> forall|x: BitBoard| v > #[trigger] spec_score(x)
        }),
{
    assert forall|x: BitBoard| -1444 <= #[trigger] spec_score(x) <= 2344 by {
        lemma_score_bounds(x);
    }
}

/// Every value of the cache lies in `[-c, c]`.
pub open spec fn cache_within(cache: Map<BitBoard, i32>, c: int) -> bool {
    forall|k: BitBoard| #[trigger] cache.contains_key(k) ==> -c <= cache[k] <= c
}

/// With `20000 + depth <= c`, a window with `alpha <= c` and `-c <= beta`, and
/// cached values in `[-c, c]`, the search finds a value in `[-c, c]` and keeps the
/// cached values in `[-c, c]`.
pub proof fn lemma_alpha_beta_within(
    bb: BitBoard,
    cache: Map<BitBoard, i32>,
    alpha: i32,
    beta: i32,
    player: i8,
    depth: i32,
    c: int,
)
    requires
        0 <= depth,
        20000 + depth <= c <= i32::MAX,
        alpha <= c,
        -c <= beta,
        cache_within(cache, c),
    ensures
        -c <= spec_alpha_beta(bb, cache, alpha, beta, player, depth).0 <= c,
        cache_within(spec_alpha_beta(bb, cache, alpha, beta, player, depth).1, c),
    decreases depth, 1int, 0int,
{
    if depth <= 0 {
        lemma_score_bounds(bb);
    } else if cache.contains_key(bb) {
    } else if bb.white_king == 0 || bb.black_king == 0 {
    } else {
        let moves = spec_all_legal_moves(bb);
        if moves.len() > 0 {
            lemma_alpha_beta_moves_within(bb, moves, 0, cache, alpha, beta, player, depth, c);
            let (a, b, c2) = spec_alpha_beta_moves(bb, moves, 0, cache, alpha, beta, player, depth);
            let v = if player == 1 { a } else { b };
            assert forall|k: BitBoard| #[trigger] c2.insert(bb, v).contains_key(k) implies -c <= c2.insert(
                bb,
                v,
            )[k] <= c by {
                if k != bb {
                    assert(c2.contains_key(k));
                }
            }
        }
    }
}

pub proof fn lemma_alpha_beta_moves_within(
    bb: BitBoard,
    moves: Seq<Seq<u64>>,
    i: int,
    cache: Map<BitBoard, i32>,
    alpha: i32,
    beta: i32,
    player: i8,
    depth: i32,
    c: int,
)
    requires
        0 <= depth,
        20000 + depth <= c <= i32::MAX,
        alpha <= c,
        -c <= beta,
        cache_within(cache, c),
    ensures
        ({
            let (a, b, c2) = spec_alpha_beta_moves(bb, moves, i, cache, alpha, beta, player, depth);
            &&& a <= c
            &&& -c <= b
            &&& cache_within(c2, c)
            &&& (player == 1 && ((0 <= i < moves.len() && depth > 0) || -c <= alpha)) ==> -c <= a
            &&& (player != 1 && ((0 <= i < moves.len() && depth > 0) || beta <= c)) ==> b <= c
        }),
    decreases depth, 0int, moves.len() - i,
{
    if i < 0 || i >= moves.len() || depth <= 0 {
    } else {
        let next = spec_make_move(bb, moves[i]);
        lemma_alpha_beta_within(next, cache, alpha, beta, (-player) as i8, (depth - 1) as i32, c);
        let (value, c2) = spec_alpha_beta(next, cache, alpha, beta, (-player) as i8, (depth - 1) as i32);
        let a2 = if player == 1 && value > alpha {
            value
        } else {
            alpha
        };
        let b2 = if player != 1 && value < beta {
            value
        } else {
            beta
        };
        if a2 < b2 {
            lemma_alpha_beta_moves_within(bb, moves, i + 1, c2, a2, b2, player, depth, c);
        }
    }
}


// ---------------------------------------------------------------------------
// Choosing a move
// ---------------------------------------------------------------------------

/// The root of the search: each move in turn is played and searched by the
/// opponent (player -1) `depth` plies deep with window `(alpha, 100000)`, sharing
/// one cache; a move whose value beats alpha becomes the best move and raises alpha.
pub open spec fn spec_root_search(
    bb: BitBoard,
    moves: Seq<Seq<u64>>,
    i: int,
    cache: Map<BitBoard, i32>,
    alpha: i32,
    best: Seq<u64>,
    depth: i32,
) -> Seq<u64>
    decreases moves.len() - i,
{
    if i < 0 || i >= moves.len() {
        best
    } else {
        let (value, c2) = spec_alpha_beta(
            spec_make_move(bb, moves[i]),
            cache,
            alpha,
            100000,
            -1i8,
            depth,
        );
        if value > alpha {
            spec_root_search(bb, moves, i + 1, c2, value, moves[i], depth)
        } else {
            spec_root_search(bb, moves, i + 1, c2, alpha, best, depth)
        }
    }
}

/// The move chosen among `moves` in this order, starting from alpha = -100000,
/// an empty cache and no best move.
pub open spec fn spec_best_move(bb: BitBoard, moves: Seq<Seq<u64>>, depth: i32) -> Seq<u64> {
    spec_root_search(bb, moves, 0, Map::empty(), -100000i32, seq![], depth)
}

/// The root search returns its starting best move or one of the moves it saw;
/// once a move has been seen (its value is at least -c > alpha) it is one of them.
pub proof fn lemma_root_search_picks(
    bb: BitBoard,
    moves: Seq<Seq<u64>>,
    i: int,
    cache: Map<BitBoard, i32>,
    alpha: i32,
    best: Seq<u64>,
    depth: i32,
    c: int,
)
    requires
        0 <= i,
        0 <= depth,
        20000 + depth <= c < 100000,
        alpha <= c,
        cache_within(cache, c),
    ensures
        ({
            let r = spec_root_search(bb, moves, i, cache, alpha, best, depth);
            &&& r == best || exists|j: int| i <= j < moves.len() && r == moves[j]
            &&& (i < moves.len() && alpha < -c) ==> exists|j: int| i <= j < moves.len() && r == moves[j]
        }),
    decreases moves.len() - i,
{
    if i < moves.len() {
        let next = spec_make_move(bb, moves[i]);
        lemma_alpha_beta_within(next, cache, alpha, 100000, -1i8, depth, c);
        let (value, c2) = spec_alpha_beta(next, cache, alpha, 100000, -1i8, depth);
        if value > alpha {
            lemma_root_search_picks(bb, moves, i + 1, c2, value, moves[i], depth, c);
        } else {
            lemma_root_search_picks(bb, moves, i + 1, c2, alpha, best, depth, c);
        }
    }
}

/// The move chosen among `moves` in the given order (see `spec_best_move`).
pub fn best_move(bit_board: &BitBoard, moves: Vec<Vec<u64>>, depth: i32) -> (best: Vec<u64>)
    requires
        root_ok(*bit_board, depth),
        all_well_formed(*bit_board, moves.deep_view()),
        0 <= depth <= i32::MAX - 20000,
        bit_board.depth + 1 + depth <= i32::MAX,
    ensures
        best@ == spec_best_move(*bit_board, moves.deep_view(), depth),
{
    let mut alpha: i32 = -100000;
    let beta: i32 = alpha * -1;
    let mut hm = BoardCache::new();
    let mut best_move: Vec<u64> = Vec::new();
    let ghost bb = *bit_board;
    let ghost ms = moves.deep_view();
    let mut i: usize = 0;
    while i < moves.len()
        invariant
            bb == *bit_board,
            ms == moves.deep_view(),
            root_ok(bb, depth),
            all_well_formed(bb, ms),
            0 <= depth <= i32::MAX - 20000,
            bb.depth + 1 + depth <= i32::MAX,
            beta == 100000,
            hm.wf(),
            i <= moves.len(),
            spec_root_search(bb, ms, i as int, hm@, alpha, best_move@, depth) == spec_best_move(
                bb,
                ms,
                depth,
            ),
        decreases moves.len() - i,
    {
        let lm = &moves[i];
        assert(lm@ == ms[i as int]);
        assert(well_formed_move(bb, ms[i as int]));
        let mut bb2 = bit_board.clone();
        proof {
            lemma_make_move_places_pawns(bb, ms[i as int]);
        }
        bb2.make_move(lm);
        let value = alpha_beta(&bb2, &mut hm, alpha, beta, -1, depth);

        if value > alpha {
            alpha = value;
            best_move = lm.clone();
            assert(best_move@ =~= ms[i as int]);
        }
        i += 1;
    }
    best_move
}

/// `rand::Rng::gen_range(0..n)` with the thread's generator: some index below `n`
/// (which index is up to the generator).
#[verifier::external_body]
fn random_index(n: usize) -> (r: usize)
    requires
        n > 0,
    ensures
        r < n,
{
    rand::thread_rng().gen_range(0..n)
}

/// Swaps the moves at `i` and `j`.
fn swap_moves(v: &mut Vec<Vec<u64>>, i: usize, j: usize)
    requires
        i < old(v).len(),
        j < old(v).len(),
    ensures
        final(v).len() == old(v).len(),
        final(v).deep_view() == old(v).deep_view().update(i as int, old(v).deep_view()[j as int]).update(
            j as int,
            old(v).deep_view()[i as int],
        ),
{
    if i != j {
        let mut tmp: Vec<u64> = Vec::new();
        std::mem::swap(&mut tmp, &mut v[i]);
        std::mem::swap(&mut tmp, &mut v[j]);
        std::mem::swap(&mut tmp, &mut v[i]);
        assert(final(v).deep_view() =~= old(v).deep_view().update(i as int, old(v).deep_view()[j as int]).update(
            j as int,
            old(v).deep_view()[i as int],
        ));
    } else {
        assert(old(v).deep_view().update(i as int, old(v).deep_view()[j as int]).update(
            j as int,
            old(v).deep_view()[i as int],
        ) =~= old(v).deep_view());
    }
}

proof fn lemma_swap_multiset(s: Seq<Seq<u64>>, i: int, j: int)
    requires
        0 <= i < s.len(),
        0 <= j < s.len(),
    ensures
        s.update(i, s[j]).update(j, s[i]).to_multiset() == s.to_multiset(),
{
    broadcast use vstd::seq_lib::to_multiset_update;
    broadcast use vstd::seq_lib::to_multiset_contains;
    broadcast use vstd::multiset::group_multiset_axioms;

    let s1 = s.update(i, s[j]);
    assert(s1.to_multiset() == s.to_multiset().insert(s[j]).remove(s[i]));
    assert(s1[j] == s[j]);
    assert(s1.update(j, s[i]).to_multiset() == s1.to_multiset().insert(s[i]).remove(s[j]));
    assert(s.contains(s[i]));
    assert(s.to_multiset().count(s[i]) > 0);
    let m = s.to_multiset();
    assert forall|x: Seq<u64>| #[trigger] s1.update(j, s[i]).to_multiset().count(x) == m.count(x) by {
    }
    assert(s1.update(j, s[i]).to_multiset() =~= s.to_multiset());
}

/// `s` after swapping, for each position `i < n` in turn, the entries at `i` and
/// `draws[i]`.
pub open spec fn spec_apply_swaps(s: Seq<Seq<u64>>, draws: Seq<usize>, n: int) -> Seq<Seq<u64>>
    decreases n,
{
    if n <= 0 {
        s
    } else {
        let t = spec_apply_swaps(s, draws, n - 1);
        let i = n - 1;
        let j = draws[i] as int;
        t.update(i, t[j]).update(j, t[i])
    }
}

/// The swaps keep the length and hold the same moves, each as often as before.
proof fn lemma_apply_swaps(s: Seq<Seq<u64>>, draws: Seq<usize>, n: int)
    requires
        0 <= n <= s.len(),
        n <= draws.len(),
        forall|i: int| 0 <= i < n ==> #[trigger] draws[i] < s.len(),
    ensures
        spec_apply_swaps(s, draws, n).len() == s.len(),
        spec_apply_swaps(s, draws, n).to_multiset() == s.to_multiset(),
    decreases n,
{
    if n > 0 {
        lemma_apply_swaps(s, draws, n - 1);
        let t = spec_apply_swaps(s, draws, n - 1);
        assert(draws[n - 1] < s.len());
        lemma_swap_multiset(t, n - 1, draws[n - 1] as int);
    }
}

/// Swaps, for each position `i` in turn, the moves at `i` and `draws[i]`.
pub fn apply_swaps(vec: Vec<Vec<u64>>, draws: &Vec<usize>) -> (r: Vec<Vec<u64>>)
    requires
        draws.len() == vec.len(),
        forall|i: int| 0 <= i < draws.len() ==> #[trigger] draws@[i] < vec.len(),
    ensures
        r.deep_view() == spec_apply_swaps(vec.deep_view(), draws@, vec.len() as int),
{
    let mut vec = vec;
    let ghost orig = vec.deep_view();
    let mut i: usize = 0;
    while i < vec.len()
        invariant
            vec.len() == orig.len(),
            draws.len() == orig.len(),
            forall|k: int| 0 <= k < draws.len() ==> #[trigger] draws@[k] < orig.len(),
            i <= vec.len(),
            vec.deep_view() == spec_apply_swaps(orig, draws@, i as int),
        decreases vec.len() - i,
    {
        let j = draws[i];
        swap_moves(&mut vec, i, j);
        i += 1;
    }
    vec
}

/// Randomly shuffles the moves: every position `i`, in turn, is swapped with a
/// randomly drawn position (see `spec_apply_swaps`). The result holds the same
/// moves, each as often as before.
pub fn shuffle_vec(vec: Vec<Vec<u64>>) -> (r: Vec<Vec<u64>>)
    ensures
        exists|d: Seq<usize>|
            d.len() == vec.len() && (forall|i: int| 0 <= i < d.len() ==> #[trigger] d[i] < vec.len())
                && r.deep_view() == spec_apply_swaps(vec.deep_view(), d, vec.len() as int),
        r.deep_view().to_multiset() == vec.deep_view().to_multiset(),
{
    let n = vec.len();
    let mut draws: Vec<usize> = Vec::new();
    while draws.len() < n
        invariant
            draws.len() <= n,
            n == vec.len(),
            forall|k: int| 0 <= k < draws.len() ==> #[trigger] draws@[k] < n,
        decreases n - draws.len(),
    {
        let j = random_index(n);
        draws.push(j);
    }
    proof {
        lemma_apply_swaps(vec.deep_view(), draws@, vec.len() as int);
    }
    let ghost orig = vec.deep_view();
    let r = apply_swaps(vec, &draws);
    assert(draws@.len() == orig.len() && (forall|i: int| 0 <= i < draws@.len() ==> #[trigger] draws@[i] < orig.len())
        && r.deep_view() == spec_apply_swaps(orig, draws@, orig.len() as int));
    r
}

/// Moves of `s` are moves of `t` when both hold the same moves.
proof fn lemma_same_moves_well_formed(bb: BitBoard, s: Seq<Seq<u64>>, t: Seq<Seq<u64>>)
    requires
        s.to_multiset() == t.to_multiset(),
        all_well_formed(bb, t),
    ensures
        all_well_formed(bb, s),
{
    broadcast use vstd::seq_lib::to_multiset_contains;

    assert forall|j: int| 0 <= j < s.len() implies #[trigger] well_formed_move(bb, s[j]) by {
        assert(s.contains(s[j]));
        assert(s.to_multiset().count(s[j]) > 0);
        assert(t.contains(s[j]));
        let k = choose|k: int| 0 <= k < t.len() && t[k] == s[j];
        assert(well_formed_move(bb, t[k]));
    }
}

/// The best move for the side to move, `depth` plies deep, over the moves in a
/// random order.
pub fn alpha(bit_board: BitBoard, depth: i32) -> (best: Vec<u64>)
    requires
        root_ok(bit_board, depth),
        king_moves_ok(bit_board),
        0 <= depth <= i32::MAX - 20000,
        bit_board.depth + 1 + depth <= i32::MAX,
    ensures
        exists|order: Seq<Seq<u64>>|
            order.to_multiset() == spec_all_legal_moves(bit_board).to_multiset() && best@
                == spec_best_move(bit_board, order, depth),
{
    proof {
        lemma_moves_well_formed(bit_board);
    }
    let alm = shuffle_vec(all_legal_moves(&bit_board));
    proof {
        lemma_same_moves_well_formed(bit_board, alm.deep_view(), spec_all_legal_moves(bit_board));
    }
    let ghost order = alm.deep_view();
    let best = best_move(&bit_board, alm, depth);
    assert(order.to_multiset() == spec_all_legal_moves(bit_board).to_multiset() && best@ == spec_best_move(
        bit_board,
        order,
        depth,
    ));
    best
}


// ---------------------------------------------------------------------------
// From the board to bitboards and back
// ---------------------------------------------------------------------------

/// An 8x8 board of piece codes.
pub open spec fn is_square_board(b: Seq<Seq<i8>>) -> bool {
    &&& b.len() == 8
    &&& forall|i: int| 0 <= i < 8 ==> #[trigger] b[i].len() == 8
}

/// The piece code on square `k` (row `k / 8`, column `k % 8`).
pub open spec fn at(b: Seq<Seq<i8>>, k: int) -> i8 {
    b[k / 8][k % 8]
}

/// The squares of `x` are the squares `k < n` whose code satisfies `pred`.
pub open spec fn bits_match(x: u64, b: Seq<Seq<i8>>, n: int, pred: spec_fn(i8) -> bool) -> bool {
    forall|k: int| 0 <= k < 64 ==> #[trigger] has_bit(x, k) == (k < n && pred(at(b, k)))
}

pub open spec fn encodes_upto(bb: BitBoard, b: Seq<Seq<i8>>, n: int) -> bool {
    &&& bits_match(bb.white_pawns, b, n, |c: i8| c == 1)
    &&& bits_match(bb.white_knights, b, n, |c: i8| c == 2)
    &&& bits_match(bb.white_bishops, b, n, |c: i8| c == 3)
    &&& bits_match(bb.white_rooks, b, n, |c: i8| c == 4)
    &&& bits_match(bb.white_queen, b, n, |c: i8| c == 5)
    &&& bits_match(bb.white_king, b, n, |c: i8| c == 6)
    &&& bits_match(bb.black_pawns, b, n, |c: i8| c == -1)
    &&& bits_match(bb.black_knights, b, n, |c: i8| c == -2)
    &&& bits_match(bb.black_bishops, b, n, |c: i8| c == -3)
    &&& bits_match(bb.black_rooks, b, n, |c: i8| c == -4)
    &&& bits_match(bb.black_queen, b, n, |c: i8| c == -5)
    &&& bits_match(bb.black_king, b, n, |c: i8| c == -6)
    &&& bits_match(bb.white_pieces, b, n, |c: i8| c > 0)
    &&& bits_match(bb.black_pieces, b, n, |c: i8| c < 0)
}

/// `bb` is the bitboard of `b` (white to move, move counter 0).
pub open spec fn encodes(bb: BitBoard, b: Seq<Seq<i8>>) -> bool {
    &&& bb.depth == 0
    &&& bb.player == 1
    &&& encodes_upto(bb, b, 64)
}

/// The bitboard of `b`.
pub open spec fn bitboard_of(b: Seq<Seq<i8>>) -> BitBoard {
    choose|bb: BitBoard| encodes(bb, b)
}

proof fn lemma_or_square_bit(x: u64, n: u64, k: u64)
    requires
        n < 64,
        k < 64,
    ensures
        ((x | (1u64 << n)) >> k) & 1u64 == 1u64 <==> ((x >> k) & 1u64 == 1u64 || k == n),
{
    assert(((x | (1u64 << n)) >> k) & 1u64 == 1u64 <==> ((x >> k) & 1u64 == 1u64 || k == n))
        by (bit_vector)
        requires
            n < 64,
            k < 64,
    ;
}

proof fn lemma_bits_match_step(x: u64, y: u64, b: Seq<Seq<i8>>, n: int, pred: spec_fn(i8) -> bool)
    requires
        0 <= n < 64,
        bits_match(x, b, n, pred),
        pred(at(b, n)) ==> y == x | (1u64 << (n as u64)),
        !pred(at(b, n)) ==> y == x,
    ensures
        bits_match(y, b, n + 1, pred),
{
    assert forall|k: int| 0 <= k < 64 implies #[trigger] has_bit(y, k) == (k < n + 1 && pred(at(b, k))) by {
        assert(has_bit(x, k) == (k < n && pred(at(b, k))));
        if pred(at(b, n)) {
            lemma_or_square_bit(x, n as u64, k as u64);
        }
    }
}

proof fn lemma_same_bits(x: u64, y: u64)
    requires
        forall|k: int| 0 <= k < 64 ==> #[trigger] has_bit(x, k) == has_bit(y, k),
    ensures
        x == y,
{
    assert forall|k: int| 0 <= k < 64 implies !#[trigger] has_bit(x ^ y, k) by {
        let kk = k as u64;
        assert(has_bit(x, k) == has_bit(y, k));
        assert(((x ^ y) >> kk) & 1u64 == 1u64 <==> (((x >> kk) & 1u64 == 1u64) != ((y >> kk) & 1u64
            == 1u64))) by (bit_vector)
            requires
                kk < 64,
        ;
    }
    lemma_bits_zero(x ^ y);
    assert(x ^ y == 0 ==> x == y) by (bit_vector);
}

/// A board has exactly one bitboard.
pub proof fn lemma_encodes_unique(x: BitBoard, y: BitBoard, b: Seq<Seq<i8>>)
    requires
        encodes(x, b),
        encodes(y, b),
    ensures
        x == y,
{
    assert forall|k: int| 0 <= k < 64 implies #[trigger] has_bit(x.white_pawns, k) == has_bit(y.white_pawns, k) by {
        assert(has_bit(x.white_pawns, k) == has_bit(y.white_pawns, k));
    }
    lemma_same_bits(x.white_pawns, y.white_pawns);
    assert forall|k: int| 0 <= k < 64 implies #[trigger] has_bit(x.white_knights, k) == has_bit(y.white_knights, k) by {
        assert(has_bit(x.white_knights, k) == has_bit(y.white_knights, k));
    }
    lemma_same_bits(x.white_knights, y.white_knights);
    assert forall|k: int| 0 <= k < 64 implies #[trigger] has_bit(x.white_bishops, k) == has_bit(y.white_bishops, k) by {
        assert(has_bit(x.white_bishops, k) == has_bit(y.white_bishops, k));
    }
    lemma_same_bits(x.white_bishops, y.white_bishops);
    assert forall|k: int| 0 <= k < 64 implies #[trigger] has_bit(x.white_rooks, k) == has_bit(y.white_rooks, k) by {
        assert(has_bit(x.white_rooks, k) == has_bit(y.white_rooks, k));
    }
    lemma_same_bits(x.white_rooks, y.white_rooks);
    assert forall|k: int| 0 <= k < 64 implies #[trigger] has_bit(x.white_queen, k) == has_bit(y.white_queen, k) by {
        assert(has_bit(x.white_queen, k) == has_bit(y.white_queen, k));
    }
    lemma_same_bits(x.white_queen, y.white_queen);
    assert forall|k: int| 0 <= k < 64 implies #[trigger] has_bit(x.white_king, k) == has_bit(y.white_king, k) by {
        assert(has_bit(x.white_king, k) == has_bit(y.white_king, k));
    }
    lemma_same_bits(x.white_king, y.white_king);
    assert forall|k: int| 0 <= k < 64 implies #[trigger] has_bit(x.black_pawns, k) == has_bit(y.black_pawns, k) by {
        assert(has_bit(x.black_pawns, k) == has_bit(y.black_pawns, k));
    }
    lemma_same_bits(x.black_pawns, y.black_pawns);
    assert forall|k: int| 0 <= k < 64 implies #[trigger] has_bit(x.black_knights, k) == has_bit(y.black_knights, k) by {
        assert(has_bit(x.black_knights, k) == has_bit(y.black_knights, k));
    }
    lemma_same_bits(x.black_knights, y.black_knights);
    assert forall|k: int| 0 <= k < 64 implies #[trigger] has_bit(x.black_bishops, k) == has_bit(y.black_bishops, k) by {
        assert(has_bit(x.black_bishops, k) == has_bit(y.black_bishops, k));
    }
    lemma_same_bits(x.black_bishops, y.black_bishops);
    assert forall|k: int| 0 <= k < 64 implies #[trigger] has_bit(x.black_rooks, k) == has_bit(y.black_rooks, k) by {
        assert(has_bit(x.black_rooks, k) == has_bit(y.black_rooks, k));
    }
    lemma_same_bits(x.black_rooks, y.black_rooks);
    assert forall|k: int| 0 <= k < 64 implies #[trigger] has_bit(x.black_queen, k) == has_bit(y.black_queen, k) by {
        assert(has_bit(x.black_queen, k) == has_bit(y.black_queen, k));
    }
    lemma_same_bits(x.black_queen, y.black_queen);
    assert forall|k: int| 0 <= k < 64 implies #[trigger] has_bit(x.black_king, k) == has_bit(y.black_king, k) by {
        assert(has_bit(x.black_king, k) == has_bit(y.black_king, k));
    }
    lemma_same_bits(x.black_king, y.black_king);
    assert forall|k: int| 0 <= k < 64 implies #[trigger] has_bit(x.white_pieces, k) == has_bit(y.white_pieces, k) by {
        assert(has_bit(x.white_pieces, k) == has_bit(y.white_pieces, k));
    }
    lemma_same_bits(x.white_pieces, y.white_pieces);
    assert forall|k: int| 0 <= k < 64 implies #[trigger] has_bit(x.black_pieces, k) == has_bit(y.black_pieces, k) by {
        assert(has_bit(x.black_pieces, k) == has_bit(y.black_pieces, k));
    }
    lemma_same_bits(x.black_pieces, y.black_pieces);
}

/// Builds the bitboard of an 8x8 board, white to move.
fn board_to_bit_board(board: &Vec<Vec<i8>>) -> (bb: BitBoard)
    requires
        is_square_board(board.deep_view()),
    ensures
        encodes(bb, board.deep_view()),
        bb == bitboard_of(board.deep_view()),
{
    let ghost b = board.deep_view();
    let mut bb = BitBoard::new();
    assert forall|k: int| 0 <= k < 64 implies !#[trigger] has_bit(0u64, k) by {
        let kk = k as u64;
        assert((0u64 >> kk) & 1u64 == 0u64) by (bit_vector);
    }
    let mut i: usize = 0;
    while i < 8
        invariant
            b == board.deep_view(),
            is_square_board(b),
            i <= 8,
            bb.depth == 0,
            bb.player == 1,
            encodes_upto(bb, b, 8 * i),
        decreases 8 - i,
    {
        let mut j: usize = 0;
        while j < 8
            invariant
                b == board.deep_view(),
                is_square_board(b),
                i < 8,
                j <= 8,
                bb.depth == 0,
                bb.player == 1,
                encodes_upto(bb, b, 8 * i + j),
            decreases 8 - j,
        {
            let ghost old_bb = bb;
            let ghost n = 8 * i + j;
            assert(board@[i as int]@.len() == 8) by {
                assert(b[i as int].len() == 8);
            }
            let p = board[i][j];
            assert(p == at(b, n as int)) by {
                assert((8 * i + j) / 8 == i as int);
                assert((8 * i + j) % 8 == j as int);
            }
            if p != 0 {
                let pos = 1u64 << ((i * 8 + j) as u64);
                match p {
                    1 => bb.white_pawns |= pos,
                    2 => bb.white_knights |= pos,
                    3 => bb.white_bishops |= pos,
                    4 => bb.white_rooks |= pos,
                    5 => bb.white_queen |= pos,
                    6 => bb.white_king |= pos,
                    -1 => bb.black_pawns |= pos,
                    -2 => bb.black_knights |= pos,
                    -3 => bb.black_bishops |= pos,
                    -4 => bb.black_rooks |= pos,
                    -5 => bb.black_queen |= pos,
                    -6 => bb.black_king |= pos,
                    _ => (),
                }
                if p > 0 {
                    bb.white_pieces |= pos;
                } else {
                    bb.black_pieces |= pos;
                }
            }
            proof {
            lemma_bits_match_step(old_bb.white_pawns, bb.white_pawns, b, n, |c: i8| c == 1);
            lemma_bits_match_step(old_bb.white_knights, bb.white_knights, b, n, |c: i8| c == 2);
            lemma_bits_match_step(old_bb.white_bishops, bb.white_bishops, b, n, |c: i8| c == 3);
            lemma_bits_match_step(old_bb.white_rooks, bb.white_rooks, b, n, |c: i8| c == 4);
            lemma_bits_match_step(old_bb.white_queen, bb.white_queen, b, n, |c: i8| c == 5);
            lemma_bits_match_step(old_bb.white_king, bb.white_king, b, n, |c: i8| c == 6);
            lemma_bits_match_step(old_bb.black_pawns, bb.black_pawns, b, n, |c: i8| c == -1);
            lemma_bits_match_step(old_bb.black_knights, bb.black_knights, b, n, |c: i8| c == -2);
            lemma_bits_match_step(old_bb.black_bishops, bb.black_bishops, b, n, |c: i8| c == -3);
            lemma_bits_match_step(old_bb.black_rooks, bb.black_rooks, b, n, |c: i8| c == -4);
            lemma_bits_match_step(old_bb.black_queen, bb.black_queen, b, n, |c: i8| c == -5);
            lemma_bits_match_step(old_bb.black_king, bb.black_king, b, n, |c: i8| c == -6);
            lemma_bits_match_step(old_bb.white_pieces, bb.white_pieces, b, n, |c: i8| c > 0);
            lemma_bits_match_step(old_bb.black_pieces, bb.black_pieces, b, n, |c: i8| c < 0);
            }
            j += 1;
        }
        i += 1;
    }
    proof {
        assert(encodes(bb, b));
        lemma_encodes_unique(bb, bitboard_of(b), b);
    }
    bb
}


/// The search depth of the engine.
pub open spec fn SEARCH_DEPTH() -> i32 {
    5
}

/// `b` can be searched: an 8x8 board whose pawns stand before their last rows,
/// with a white king (or white pieces on squares 56 and 57) and a white move.
pub open spec fn setup_ok(b: Seq<Seq<i8>>) -> bool {
    &&& is_square_board(b)
    &&& search_ok(bitboard_of(b))
    &&& king_moves_ok(bitboard_of(b))
    &&& spec_all_legal_moves(bitboard_of(b)).len() > 0
}

/// A move `[from, to, piece, promote]` as `[from row, from column, to row, to column, promote]`.
pub open spec fn format_move(m: Seq<u64>) -> Seq<usize> {
    let from = m[0].trailing_zeros() as usize;
    let to = m[1].trailing_zeros() as usize;
    seq![
        (from / 8) as usize,
        (from % 8) as usize,
        (to / 8) as usize,
        (to % 8) as usize,
        m[3] as usize,
    ]
}

/// The lowest square of `square(f)` is `f`.
proof fn lemma_square_index(f: int)
    requires
        0 <= f < 64,
    ensures
        square(f).trailing_zeros() == f,
{
    let x = square(f);
    let ff = f as u64;
    vstd::std_specs::bits::axiom_u64_trailing_zeros(x);
    let t = x.trailing_zeros();
    assert(x != 0) by {
        assert((1u64 << ff) != 0) by (bit_vector)
            requires
                ff < 64,
        ;
    }
    assert((x >> (t as u64)) & 1u64 == 1u64);
    let tt = t as u64;
    assert(((1u64 << ff) >> tt) & 1u64 == 1u64 ==> tt == ff) by (bit_vector)
        requires
            ff < 64,
            tt < 64,
    ;
}

/// Sets up the bitboard of `board` (white to move), searches it 5 plies deep and
/// returns the chosen move as `[from row, from column, to row, to column, promote]`.
fn setup_and_start(
    board: &Vec<Vec<i8>>,
    board_history: &Vec<Vec<Vec<i8>>>,
    castle_pieces: &HashSet<usize>,
) -> (m: Vec<usize>)
    requires
        setup_ok(board.deep_view()),
    ensures
        exists|order: Seq<Seq<u64>>|
            order.to_multiset() == spec_all_legal_moves(bitboard_of(board.deep_view())).to_multiset()
                && m@ == format_move(
                spec_best_move(bitboard_of(board.deep_view()), order, SEARCH_DEPTH()),
            ),
        m@.len() == 5,
        m@[0] < 8 && m@[2] < 8,
{
    let bb = board_to_bit_board(board);
    let ghost b = board.deep_view();

    // get best move
    let best_move = alpha(bb, 5);  // best_move: [from, to, piece, promote]
    let ghost order = choose|order: Seq<Seq<u64>>|
        order.to_multiset() == spec_all_legal_moves(bb).to_multiset() && best_move@ == spec_best_move(
            bb,
            order,
            5,
        );
    proof {
        broadcast use vstd::seq_lib::to_multiset_len;

        lemma_moves_well_formed(bb);
        lemma_same_moves_well_formed(bb, order, spec_all_legal_moves(bb));
        assert(order.to_multiset().len() == order.len());
        assert(spec_all_legal_moves(bb).to_multiset().len() == spec_all_legal_moves(bb).len());
        lemma_root_search_picks(bb, order, 0, Map::empty(), -100000i32, seq![], 5, 20005);
        let j = choose|j: int| 0 <= j < order.len() && best_move@ == order[j];
        assert(well_formed_move(bb, order[j]));
        let f = choose|f: int| #[trigger] from_square(bb, order[j], f);
        let t = choose|t: int| #[trigger] to_square(bb, order[j], t);
        lemma_square_index(f);
        lemma_square_index(t);
    }

    // format move
    let mut m: Vec<usize> = Vec::new();
    let from = best_move[0].trailing_zeros() as usize;
    let to = best_move[1].trailing_zeros() as usize;
    let promote = best_move[3] as usize;
    m.push(from / 8);
    m.push(from % 8);
    m.push(to / 8);
    m.push(to % 8);
    m.push(promote);
    assert(m@ =~= format_move(best_move@));
    assert(order.to_multiset() == spec_all_legal_moves(bitboard_of(b)).to_multiset() && m@ == format_move(
        spec_best_move(bitboard_of(b), order, SEARCH_DEPTH()),
    ));
    m
}

/// `b` seen from the side `player`: for black (-1) the rows are reversed and the
/// colours swapped, so that the side to move is always white.
pub open spec fn oriented(b: Seq<Seq<i8>>, player: i8) -> Seq<Seq<i8>> {
    if player == -1 {
        Seq::new(8, |r: int| Seq::new(8, |c: int| (-b[7 - r][c]) as i8))
    } else {
        b
    }
}

/// A move `[from row, from column, to row, to column, promote]` found on the
/// oriented board, given back on the real board: rows are reversed unless `player` is 1.
pub open spec fn restore_move(m: Seq<usize>, player: i8) -> Seq<usize> {
    if player == 1 {
        m
    } else {
        seq![(7 - m[0]) as usize, m[1], (7 - m[2]) as usize, m[3], m[4]]
    }
}

/// For either side, a move found on the board as that side sees it is given back
/// on the real board: its squares there hold the same pieces, with the colours of
/// black swapped back, and giving a move back twice leaves it as it was.
pub proof fn lemma_restore_move_squares(b: Seq<Seq<i8>>, player: i8, m: Seq<usize>)
    requires
        is_square_board(b),
        player == 1 || player == -1,
        player == -1 ==> forall|r: int, c: int| 0 <= r < 8 && 0 <= c < 8 ==> #[trigger] b[r][c] != -128,
        m.len() == 5,
        m[0] < 8 && m[1] < 8 && m[2] < 8 && m[3] < 8,
    ensures
        ({
            let r = restore_move(m, player);
            &&& r.len() == 5 && r[0] < 8 && r[2] < 8
            &&& oriented(b, player)[m[0] as int][m[1] as int] == player * b[r[0] as int][r[1] as int]
            &&& oriented(b, player)[m[2] as int][m[3] as int] == player * b[r[2] as int][r[3] as int]
            &&& restore_move(r, player) == m
        }),
{
    let r = restore_move(m, player);
    if player == -1 {
        assert(b[r[0] as int][r[1] as int] != -128);
        assert(b[r[2] as int][r[3] as int] != -128);
        assert(restore_move(r, player) =~= m);
    }
}

/// Seeing the board from black's side twice gives it back.
pub proof fn lemma_oriented_twice(b: Seq<Seq<i8>>, player: i8)
    requires
        is_square_board(b),
        player == -1 ==> forall|r: int, c: int| 0 <= r < 8 && 0 <= c < 8 ==> #[trigger] b[r][c] != -128,
    ensures
        oriented(oriented(b, player), player) == b,
{
    if player == -1 {
        let once = oriented(b, player);
        let twice = oriented(once, player);
        assert forall|r: int| 0 <= r < 8 implies #[trigger] twice[r] =~= b[r] by {
            assert forall|c: int| 0 <= c < 8 implies twice[r][c] == b[r][c] by {
                assert(once[7 - r][c] == (-b[r][c]) as i8);
                assert(b[r][c] != -128);
            }
        }
        assert(twice =~= b);
    }
}

/// `run` can work: an 8x8 board whose colours can be swapped (no code -128)
/// and which, seen from the side to move, can be searched.
pub open spec fn run_ok(b: Seq<Seq<i8>>, player: i8) -> bool {
    &&& is_square_board(b)
    &&& player == -1 ==> forall|r: int, c: int| 0 <= r < 8 && 0 <= c < 8 ==> #[trigger] b[r][c] != -128
    &&& setup_ok(oriented(b, player))
}

/// The board with rows reversed and colours swapped.
fn flip_board(board: &Vec<Vec<i8>>) -> (r: Vec<Vec<i8>>)
    requires
        is_square_board(board.deep_view()),
        forall|r: int, c: int| 0 <= r < 8 && 0 <= c < 8 ==> #[trigger] board.deep_view()[r][c] != -128,
    ensures
        r.deep_view() == oriented(board.deep_view(), -1i8),
{
    let ghost b = board.deep_view();
    let mut new_board: Vec<Vec<i8>> = Vec::new();
    let mut i: usize = 0;
    while i < 8
        invariant
            b == board.deep_view(),
            is_square_board(b),
            forall|r: int, c: int| 0 <= r < 8 && 0 <= c < 8 ==> #[trigger] b[r][c] != -128,
            i <= 8,
            new_board.deep_view() =~= oriented(b, -1i8).take(i as int),
        decreases 8 - i,
    {
        let row = &board[7 - i];
        assert(row@.len() == 8) by {
            assert(b[7 - i].len() == 8);
        }
        let mut new_row: Vec<i8> = Vec::new();
        let mut j: usize = 0;
        while j < 8
            invariant
                b == board.deep_view(),
                is_square_board(b),
                forall|r: int, c: int| 0 <= r < 8 && 0 <= c < 8 ==> #[trigger] b[r][c] != -128,
                i < 8,
                j <= 8,
                row@ == board@[7 - i as int]@,
                row@.len() == 8,
                new_row@ =~= oriented(b, -1i8)[i as int].take(j as int),
            decreases 8 - j,
        {
            assert(row@[j as int] == b[7 - i as int][j as int]);
            new_row.push(-row[j]);
            j += 1;
        }
        assert(oriented(b, -1i8)[i as int].take(8) =~= oriented(b, -1i8)[i as int]);
        let ghost before = new_board.deep_view();
        let ghost before_v = new_board@;
        assert(new_row.deep_view() =~= new_row@);
        let ghost row_view = new_row@;
        new_board.push(new_row);
        assert(new_board.deep_view()[before.len() as int] == row_view);
        assert forall|k: int| 0 <= k < before.len() implies new_board.deep_view()[k] == before[k] by {
            assert(new_board@[k] == before_v[k]);
        }
        assert(new_board.deep_view() =~= before.push(row_view));
        assert(oriented(b, -1i8).take(i + 1) =~= oriented(b, -1i8).take(i as int).push(oriented(b, -1i8)[i as int]));
        i += 1;
    }
    assert(oriented(b, -1i8).take(8) =~= oriented(b, -1i8));
    new_board
}

/// `m` is the move the bitboard engine gives for `player` on board `b` when it
/// searches the moves in some order (see `run`).
pub open spec fn engine_choice(b: Seq<Seq<i8>>, player: i8, m: Seq<usize>) -> bool {
    exists|order: Seq<Seq<u64>>|
        order.to_multiset() == spec_all_legal_moves(bitboard_of(oriented(b, player))).to_multiset()
            && m == restore_move(
            format_move(#[trigger] spec_best_move(bitboard_of(oriented(b, player)), order, SEARCH_DEPTH())),
            player,
        )
}

/// Black is played as white on the mirrored board: a move the engine gives for
/// black is a move it gives for white on the board with rows reversed and colours
/// swapped, with its rows turned back.
pub proof fn lemma_black_as_white(b: Seq<Seq<i8>>, m: Seq<usize>)
    requires
        engine_choice(b, -1i8, m),
    ensures
        exists|w: Seq<usize>| #[trigger] engine_choice(oriented(b, -1i8), 1i8, w) && m == restore_move(w, -1i8),
{
    let bb = bitboard_of(oriented(b, -1i8));
    let order = choose|order: Seq<Seq<u64>>|
        order.to_multiset() == spec_all_legal_moves(bb).to_multiset() && m == restore_move(
            format_move(#[trigger] spec_best_move(bb, order, SEARCH_DEPTH())),
            -1i8,
        );
    let w = format_move(spec_best_move(bb, order, SEARCH_DEPTH()));
    assert(oriented(oriented(b, -1i8), 1i8) == oriented(b, -1i8));
    assert(restore_move(w, 1i8) == w);
    assert(engine_choice(oriented(b, -1i8), 1i8, w));
}

/// The move the bitboard engine gives is one of the moves generated for the
/// position as the side to move sees it, given back on the real board.
pub proof fn lemma_engine_plays_a_move(b: Seq<Seq<i8>>, player: i8, m: Seq<usize>)
    requires
        run_ok(b, player),
        engine_choice(b, player, m),
    ensures
        exists|k: int|
            0 <= k < spec_all_legal_moves(bitboard_of(oriented(b, player))).len() && m == restore_move(
                format_move(#[trigger] spec_all_legal_moves(bitboard_of(oriented(b, player)))[k]),
                player,
            ),
{
    broadcast use vstd::seq_lib::group_to_multiset_ensures;

    let bb = bitboard_of(oriented(b, player));
    let all = spec_all_legal_moves(bb);
    let order = choose|order: Seq<Seq<u64>>|
        order.to_multiset() == all.to_multiset() && m == restore_move(
            format_move(#[trigger] spec_best_move(bb, order, SEARCH_DEPTH())),
            player,
        );
    assert(order.to_multiset() == all.to_multiset());
    assert(order.len() == order.to_multiset().len());
    assert(all.len() == all.to_multiset().len());
    let c = 20000 + SEARCH_DEPTH();
    assert(cache_within(Map::<BitBoard, i32>::empty(), c));
    lemma_root_search_picks(bb, order, 0, Map::empty(), -100000i32, seq![], SEARCH_DEPTH(), c);
    let best = spec_best_move(bb, order, SEARCH_DEPTH());
    let j = choose|j: int| 0 <= j < order.len() && best == order[j];
    assert(order.contains(order[j]));
    assert(all.to_multiset().count(best) > 0);
    assert(all.contains(best));
    let k = choose|k: int| 0 <= k < all.len() && all[k] == best;
    assert(m == restore_move(format_move(all[k]), player));
}

/// Whether none of the squares `lo..hi` is set in `x`.
fn no_bits_in(x: u64, lo: u64, hi: u64) -> (r: bool)
    requires
        lo <= hi <= 64,
    ensures
        r == (forall|i: int| lo <= i < hi ==> !#[trigger] has_bit(x, i)),
{
    let mut k: u64 = lo;
    while k < hi
        invariant
            lo <= k <= hi <= 64,
            forall|i: int| lo <= i < k ==> !#[trigger] has_bit(x, i),
        decreases hi - k,
    {
        if (x >> k) & 1 == 1 {
            assert(has_bit(x, k as int));
            return false;
        }
        k += 1;
    }
    true
}

/// Whether `run` can work for `player` on `board` (see `run_ok`).
pub fn can_run(board: &Vec<Vec<i8>>, player: i8) -> (r: bool)
    ensures
        r == run_ok(board.deep_view(), player),
{
    let ghost b = board.deep_view();
    if board.len() != 8 {
        return false;
    }
    let mut i: usize = 0;
    while i < 8
        invariant
            b == board.deep_view(),
            board.len() == 8,
            i <= 8,
            forall|q: int| 0 <= q < i ==> #[trigger] b[q].len() == 8,
        decreases 8 - i,
    {
        assert(b[i as int] == board@[i as int]@);
        if board[i].len() != 8 {
            return false;
        }
        i += 1;
    }
    assert(is_square_board(b));
    if player == -1 {
        let mut i: usize = 0;
        while i < 8
            invariant
                b == board.deep_view(),
                is_square_board(b),
                player == -1,
                i <= 8,
                forall|r: int, c: int| 0 <= r < i && 0 <= c < 8 ==> #[trigger] b[r][c] != -128,
            decreases 8 - i,
        {
            assert(board@[i as int]@.len() == 8) by {
                assert(b[i as int].len() == 8);
            }
            let mut j: usize = 0;
            while j < 8
                invariant
                    b == board.deep_view(),
                    is_square_board(b),
                    player == -1,
                    i < 8,
                    j <= 8,
                    board@[i as int]@.len() == 8,
                    forall|r: int, c: int| (0 <= r < i && 0 <= c < 8 || r == i && 0 <= c < j) ==> #[trigger] b[r][c]
                        != -128,
                decreases 8 - j,
            {
                if board[i][j] == -128 {
                    assert(b[i as int][j as int] == -128);
                    return false;
                }
                j += 1;
            }
            i += 1;
        }
    }
    let ghost ob = oriented(b, player);
    let bb = if player == -1 {
        let flipped = flip_board(board);
        assert(is_square_board(flipped.deep_view())) by {
            assert forall|q: int| 0 <= q < 8 implies #[trigger] flipped.deep_view()[q].len() == 8 by {}
        }
        board_to_bit_board(&flipped)
    } else {
        board_to_bit_board(board)
    };
    assert(bb == bitboard_of(ob));
    if bb.player != 1 && bb.player != -1 {
        return false;
    }
    if !no_bits_in(bb.white_pawns, 56, 64) || !no_bits_in(bb.black_pawns, 0, 8) {
        assert(!pawns_placed(bb));
        return false;
    }
    assert(white_placed(bb) && black_placed(bb)) by {
        assert forall|i: int| #[trigger] has_bit(bb.white_pawns, i) implies i < 56 by {}
        assert forall|i: int| #[trigger] has_bit(bb.black_pawns, i) implies i >= 8 by {}
    }
    let king_ok = if bb.player == 1 {
        bb.white_king != 0 || ((bb.white_pieces >> 56) & 1 == 1 && (bb.white_pieces >> 57) & 1 == 1)
    } else {
        bb.black_king != 0 || ((bb.black_pieces >> 56) & 1 == 1 && (bb.black_pieces >> 57) & 1 == 1)
    };
    if !king_ok {
        return false;
    }
    let moves = all_legal_moves(&bb);
    assert(moves.deep_view().len() == moves.len());
    moves.len() > 0
}

/// The move of the bitboard engine for `player` on `board`, as
/// `[from row, from column, to row, to column, promote]`. The board is searched
/// from the side to move (see `oriented`) 5 plies deep over the moves in a random
/// order. `board_history` and `castle_pieces` are not read: the engine plays
/// neither en passant nor castling.
pub fn run(
    board: &Vec<Vec<i8>>,
    board_history: &Vec<Vec<Vec<i8>>>,
    player: i8,
    castle_pieces: &HashSet<usize>,
) -> (m: Vec<usize>)
    requires
        run_ok(board.deep_view(), player),
    ensures
        engine_choice(board.deep_view(), player, m@),
{
    // flip board horizontally if player is -1
    let best_move = if player == -1 {
        let new_board = flip_board(board);
        setup_and_start(&new_board, board_history, castle_pieces)
    } else {
        setup_and_start(board, board_history, castle_pieces)
    };
    let ghost bb = bitboard_of(oriented(board.deep_view(), player));
    let ghost order = choose|order: Seq<Seq<u64>>|
        order.to_multiset() == spec_all_legal_moves(bb).to_multiset() && best_move@ == format_move(
            spec_best_move(bb, order, SEARCH_DEPTH()),
        );

    // adjust move for player
    let mut m = Vec::new();
    if player == 1 {
        m = best_move;
    } else {
        m.push(7 - best_move[0]);
        m.push(best_move[1]);
        m.push(7 - best_move[2]);
        m.push(best_move[3]);
        m.push(best_move[4]);
    }
    assert(m@ =~= restore_move(format_move(spec_best_move(bb, order, SEARCH_DEPTH())), player));
    m
}

} // verus!
