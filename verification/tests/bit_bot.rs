use std::collections::HashSet;

use chess_engine::players::bit_bot::{
    all_legal_moves, alpha_beta, best_move, bishop_moves, c_moves, h_and_v_moves, king_moves, knight_moves, pawn_moves,
    piece_score, queen_moves, rook_moves, run, score, shuffle_vec, apply_swaps, BitBoard, BoardCache,
};

fn print_bit_board(bb: BitBoard) {
    let mut b = Vec::new();
    for i in 0..8 {
        let mut row = Vec::new();
        for j in 0..8 {
            let pos: u64 = 1 << (i * 8 + j);
            if bb.white_pawns & pos != 0 {
                row.push(1);
            } else if bb.white_knights & pos != 0 {
                row.push(2);
            } else if bb.white_bishops & pos != 0 {
                row.push(3);
            } else if bb.white_rooks & pos != 0 {
                row.push(4);
            } else if bb.white_queen & pos != 0 {
                row.push(5);
            } else if bb.white_king & pos != 0 {
                row.push(6);
            } else if bb.black_pawns & pos != 0 {
                row.push(-1);
            } else if bb.black_knights & pos != 0 {
                row.push(-2);
            } else if bb.black_bishops & pos != 0 {
                row.push(-3);
            } else if bb.black_rooks & pos != 0 {
                row.push(-4);
            } else if bb.black_queen & pos != 0 {
                row.push(-5);
            } else if bb.black_king & pos != 0 {
                row.push(-6);
            } else {
                row.push(0);
            }
        }
        b.push(row);
    }
    for r in b.iter().rev() {
        let mut line = String::new();
        for p in r {
            if *p < 0 {
                line.push_str(&format!("{} ", p));
            } else {
                line.push_str(&format!(" {} ", p));
            }
        }
        println!("{}", line)
    }
}

#[test]
fn in_check_1() {
    let mut board = vec![
        vec![-4, -2, -3, -5, -6, -3, -2, -4],
        vec![0, 0, 0, 0, -1, 0, -3, -1],
        vec![-1, 0, -1, 0, 0, 0, 0, 0],
        vec![0, -1, 0, -1, 0, -1, 0, 5],
        vec![0, 0, 0, 0, 0, 0, 0, 0],
        vec![0, 1, 0, 3, 1, 0, 0, 0],
        vec![1, 0, 1, 1, 0, 1, 1, 1],
        vec![4, 2, 3, 0, 6, 0, 2, 4],
    ];
    board.reverse();
    let board_history = vec![];
    let castle_pieces = HashSet::new();
    let result = run(&board, &board_history, -1, &castle_pieces);
    assert_eq!(result, vec![7, 4, 6, 3, 0]);
}

#[test]
fn in_check_2() {
    let mut board = vec![
        vec![-4, -2, 5, 0, -6, 0, 0, -4],
        vec![0, 0, 0, 0, -4, 0, 0, 0],
        vec![0, 0, 0, 0, 0, -1, -1, -2],
        vec![-1, 0, 0, -3, -5, 0, 0, 0],
        vec![0, 0, 0, 0, 1, 0, 1, 0],
        vec![0, 0, -1, 0, 0, 0, 0, 1],
        vec![1, 1, 0, 0, 2, 6, 3, 0],
        vec![4, 2, 0, 0, 0, 0, 0, 0],
    ];
    board.reverse();
    let board_history = vec![];
    let castle_pieces = HashSet::new();
    let result = run(&board, &board_history, -1, &castle_pieces);
    assert_eq!(result, vec![7, 4, 6, 5, 0]);
}

#[test]
fn in_check_3() {
    let mut board = vec![
        vec![0, -6, 0, -3, 0, 0, 0, 0],
        vec![0, 0, 0, 0, 0, 0, 0, 0],
        vec![0, 0, 0, 0, 0, 0, 0, 0],
        vec![-1, 0, -1, 3, 0, -1, 0, 0],
        vec![0, -1, 0, 0, 0, 1, 0, 0],
        vec![0, 4, 0, 0, 0, 0, 0, 2],
        vec![0, 0, 0, 0, 0, 0, 0, 0],
        vec![0, 2, 3, 0, 6, 0, 0, 0],
    ];
    board.reverse();
    let board_history = vec![];
    let castle_pieces = HashSet::new();
    let result = run(&board, &board_history, -1, &castle_pieces);
    assert_ne!(result, vec![7, 1, 7, 0, 0]);
    assert_ne!(result, vec![7, 1, 6, 1, 0]);
}

#[test]
fn queen_moves_1() {
    let bb = BitBoard {
        depth: 0,
        player: 1,
        white_king: 1,
        white_queen: 16,
        white_rooks: 0,
        white_bishops: 0,
        white_knights: 0,
        white_pawns: 0,
        black_king: 65536,
        black_queen: 0,
        black_rooks: 0,
        black_bishops: 64,
        black_knights: 0,
        black_pawns: 0,
        white_pieces: 1 + 16,
        black_pieces: 65536 + 64,
    };
    let qm = queen_moves(&bb);
    println!("{:?}", qm);
    assert_eq!(qm.len(), 3 + 4 + 7 + 3 + 2);
}

#[test]
fn bishop_moves_1() {
    let bb = BitBoard {
        depth: 0,
        player: -1,
        white_king: 2,
        white_queen: 0,
        white_rooks: 0,
        white_bishops: 0,
        white_knights: 1 << 8 * 1 + 5,
        white_pawns: 0,
        black_king: 1 << 8 * 5 + 5,
        black_queen: 0,
        black_rooks: 0,
        black_bishops: 1 << 8 * 3 + 3,
        black_knights: 0,
        black_pawns: 0,
        white_pieces: 2 + (1 << 8 * 1 + 5),
        black_pieces: ((1 as u64) << 8 * 5 + 5) + ((1 as u64) << 8 * 3 + 3),
    };
    let bm = bishop_moves(&bb);
    println!("{:?}", bm);
    println!("bit_board = {:?}", bb);
    print_bit_board(bb);
    assert_eq!(bm.len(), 3 + 3 + 1 + 2);
}

#[test]
fn bishop_moves_2() {
    let bb = BitBoard {
        depth: 0,
        player: -1,
        white_king: 1,
        white_queen: 0,
        white_rooks: 0,
        white_bishops: 8,
        white_knights: 0,
        white_pawns: 9210691584,
        black_king: 1152921504606846976,
        black_queen: 0,
        black_rooks: 2199023255552,
        black_bishops: 288230376285929472,
        black_knights: 144255925564211200,
        black_pawns: 137438953472,
        white_pieces: 9210691593,
        black_pieces: 1585410142919196672,
    };
    let bm = bishop_moves(&bb);
    println!("{:?}", bm);
    println!("bit_board = {:?}", bb);
    print_bit_board(bb);
    assert_eq!(bm.len(), 3 + 1 + 4 + 3 + 2 + 2);
    assert!(bm.contains(&vec![1 << 8 * 3 + 3, 1, 3, 0]));
}

#[test]
fn knight_moves_1() {
    let bb = BitBoard {
        depth: 0,
        player: 1,
        white_king: 4,
        white_queen: 0,
        white_rooks: 0,
        white_bishops: 1 << (2 * 8 + 2),
        white_knights: 2,
        white_pawns: 0,
        black_king: 1 << (1 * 8 + 0),
        black_queen: 0,
        black_rooks: 0,
        black_bishops: 0,
        black_knights: 1 << (2 * 8),
        black_pawns: 0,
        white_pieces: 4 + (1 << (2 * 8 + 2)) + 2,
        black_pieces: (1 << (1 * 8 + 0)) + (1 << (2 * 8)),
    };
    let km = knight_moves(&bb);
    println!("{:?}", km);
    println!("bit_board = {:?}", bb);
    print_bit_board(bb);
    assert_eq!(km.len(), 2);
}

#[test]
fn king_moves_1() {
    let bb = BitBoard {
        depth: 0,
        player: 1,
        white_king: 1,
        white_queen: 0,
        white_rooks: 0,
        white_bishops: 0,
        white_knights: 2,
        white_pawns: 0,
        black_king: 1 << (5 * 8),
        black_queen: 0,
        black_rooks: 0,
        black_bishops: 0,
        black_knights: 1 << (1 * 8),
        black_pawns: 0,
        white_pieces: 1 + 2,
        black_pieces: (1 << (5 * 8)) + (1 << (1 * 8)),
    };
    let km = king_moves(&bb);
    println!("{:?}", km);
    println!("bit_board = {:?}", bb);
    print_bit_board(bb);
    assert_eq!(km.len(), 2);
}

#[test]
fn promotion() {
    let bb = BitBoard {
        depth: 0,
        player: -1,
        white_king: 1,
        white_queen: 0,
        white_rooks: 0,
        white_bishops: 64,
        white_knights: 0,
        white_pawns: 0,
        black_king: 4,
        black_queen: 0,
        black_rooks: 0,
        black_bishops: 0,
        black_knights: 0,
        black_pawns: 1 << 8 * 1 + 5,
        white_pieces: 1 + 64,
        black_pieces: (1 << 8 * 1 + 5) + 4,
    };
    let pm = pawn_moves(&bb);
    println!("{:?}", pm);
    println!("bit_board = {:?}", bb);
    print_bit_board(bb);
    assert_eq!(pm.len(), 4 + 4);
    assert!(pm.contains(&vec![1 << 8 * 1 + 5, 32, 1, 2]));
    assert!(pm.contains(&vec![1 << 8 * 1 + 5, 64, 1, 5]));
}

fn start_bit_board() -> BitBoard {
    BitBoard {
        depth: 0,
        player: 1,
        white_king: 1 << 4,
        white_queen: 1 << 3,
        white_rooks: 1 | 1 << 7,
        white_bishops: 1 << 2 | 1 << 5,
        white_knights: 1 << 1 | 1 << 6,
        white_pawns: 0xff00,
        black_king: 1 << 60,
        black_queen: 1 << 59,
        black_rooks: 1 << 56 | 1 << 63,
        black_bishops: 1 << 58 | 1 << 61,
        black_knights: 1 << 57 | 1 << 62,
        black_pawns: 0xff << 48,
        white_pieces: 0xffff,
        black_pieces: 0xffff << 48,
    }
}

#[test]
fn bit_piece_scores() {
    assert_eq!(piece_score(1), 1);
    assert_eq!(piece_score(2), 3);
    assert_eq!(piece_score(3), 3);
    assert_eq!(piece_score(4), 5);
    assert_eq!(piece_score(5), 9);
    assert_eq!(piece_score(6), 1000);
    assert_eq!(piece_score(-1), -1);
    assert_eq!(piece_score(-5), -9);
    assert_eq!(piece_score(-6), -100);
    assert_eq!(piece_score(0), 0);
    assert_eq!(piece_score(7), 0);
}

#[test]
fn bit_score_of_the_start() {
    // 1039 for white, -139 for black: the count of each board's bits is used
    assert_eq!(score(&start_bit_board()), 900);
    let mut bb = start_bit_board();
    bb.black_queen = 0;
    bb.black_pieces ^= 1 << 59;
    assert_eq!(score(&bb), 909);
}

#[test]
fn bit_board_new_is_empty() {
    let bb = BitBoard::new();
    assert_eq!(bb.depth, 0);
    assert_eq!(bb.player, 1);
    assert_eq!(bb.white_pieces | bb.black_pieces | bb.white_king | bb.black_king | bb.white_pawns, 0);
}

#[test]
fn bit_make_move_takes_and_passes_turn() {
    let mut bb = BitBoard::new();
    bb.white_king = 1;
    bb.white_rooks = 1 << 7;
    bb.white_pieces = 1 | 1 << 7;
    bb.black_king = 1 << 63;
    bb.black_knights = 1 << 15;
    bb.black_pieces = 1 << 63 | 1 << 15;
    // rook from h1 (7) takes the knight on 15
    bb.make_move(&vec![1 << 7, 1 << 15, 4, 0]);
    assert_eq!(bb.white_rooks, 1 << 15);
    assert_eq!(bb.white_pieces, 1 | 1 << 15);
    assert_eq!(bb.black_knights, 0);
    assert_eq!(bb.black_pieces, 1 << 63);
    assert_eq!(bb.player, -1);
    assert_eq!(bb.depth, 1);
    // black king steps
    bb.make_move(&vec![1 << 63, 1 << 62, 6, 0]);
    assert_eq!(bb.black_king, 1 << 62);
    assert_eq!(bb.player, 1);
    assert_eq!(bb.depth, 2);
}

#[test]
fn bit_make_move_promotes() {
    let mut bb = BitBoard::new();
    bb.white_king = 1;
    bb.white_pawns = 1 << 52;
    bb.white_pieces = 1 | 1 << 52;
    bb.black_king = 1 << 63;
    bb.black_pieces = 1 << 63;
    bb.make_move(&vec![1 << 52, 1 << 60, 1, 5]);
    assert_eq!(bb.white_pawns, 0);
    assert_eq!(bb.white_queen, 1 << 60);
    assert_eq!(bb.white_pieces, 1 | 1 << 60);
}

#[test]
fn bit_all_legal_moves_of_the_start() {
    let bb = start_bit_board();
    let moves = all_legal_moves(&bb);
    // 16 pawn moves and 4 knight moves, pawns first
    assert_eq!(moves.len(), 20);
    assert_eq!(pawn_moves(&bb).len(), 16);
    assert_eq!(knight_moves(&bb).len(), 4);
    assert_eq!(rook_moves(&bb).len(), 0);
    assert_eq!(king_moves(&bb).len(), 0);
    assert_eq!(moves[0][2], 1);
    assert_eq!(moves[19][2], 2);
    for m in moves.iter() {
        assert_eq!(m.len(), 4);
        assert_eq!(m[0].count_ones(), 1);
        assert_eq!(m[1].count_ones(), 1);
        assert!(m[0] & bb.white_pieces != 0);
        assert!(m[1] & bb.white_pieces == 0);
    }
}

#[test]
fn bit_slides() {
    // a rook in the corner of an empty board: 7 up and 7 to the right
    let hv = h_and_v_moves(1, 1, 0, 4);
    assert_eq!(hv.len(), 14);
    // blocked by an own piece on square 2 and an opposing one on square 16
    let hv = h_and_v_moves(1, 1 | 4, 1 << 16, 4);
    assert_eq!(hv.len(), 3);
    assert!(hv.contains(&vec![1, 1 << 16, 4, 0]));
    // a bishop in the corner: 7 squares on the diagonal
    let d = c_moves(1, 1, 0, 3);
    assert_eq!(d.len(), 7);
    assert!(d.contains(&vec![1, 1 << 63, 3, 0]));
}

#[test]
fn bit_shuffle_keeps_the_moves() {
    let moves: Vec<Vec<u64>> = (0..20u64).map(|i| vec![i, i + 1, 1, 0]).collect();
    let shuffled = shuffle_vec(moves.clone());
    assert_eq!(shuffled.len(), moves.len());
    let mut a = shuffled.clone();
    a.sort();
    let mut b = moves.clone();
    b.sort();
    assert_eq!(a, b);
}

#[test]
fn bit_cache_reads_back() {
    let mut c = BoardCache::new();
    let bb = start_bit_board();
    assert_eq!(c.get(&bb), None);
    c.insert(bb, 7);
    assert_eq!(c.get(&bb), Some(7));
    c.insert(bb, -3);
    assert_eq!(c.get(&bb), Some(-3));
    let mut other = bb;
    other.player = -1;
    assert_eq!(c.get(&other), None);
}

#[test]
fn bit_alpha_beta_at_depth_zero_scores() {
    let mut c = BoardCache::new();
    let bb = start_bit_board();
    assert_eq!(alpha_beta(&bb, &mut c, -100000, 100000, 1, 0), 900);
}

#[test]
fn bit_alpha_beta_missing_king() {
    let mut c = BoardCache::new();
    let mut bb = BitBoard::new();
    bb.white_king = 1;
    bb.white_pieces = 1;
    // no black king: -20000 * player - depth * player
    assert_eq!(alpha_beta(&bb, &mut c, -100000, 100000, -1, 3), 20003);
    let mut c = BoardCache::new();
    assert_eq!(alpha_beta(&bb, &mut c, -100000, 100000, 1, 2), -20002);
}

#[test]
fn bit_best_move_takes_the_king() {
    let mut bb = BitBoard::new();
    bb.white_king = 1;
    bb.white_rooks = 1 << 7;
    bb.white_pieces = 1 | 1 << 7;
    bb.black_king = 1 << 63;
    bb.black_pieces = 1 << 63;
    let moves = all_legal_moves(&bb);
    let m = best_move(&bb, moves, 2);
    assert_eq!(m, vec![1 << 7, 1 << 63, 4, 0]);
}

#[test]
fn bit_run_kings_only_plays_a_king_move() {
    let mut board = vec![vec![0i8; 8]; 8];
    board[0][0] = 6;
    board[7][7] = -6;
    let m = run(&board, &vec![], 1, &HashSet::new());
    let allowed = vec![vec![0, 0, 0, 1, 0], vec![0, 0, 1, 0, 0], vec![0, 0, 1, 1, 0]];
    assert!(allowed.contains(&m));
    let m = run(&board, &vec![], -1, &HashSet::new());
    let allowed = vec![vec![7, 7, 7, 6, 0], vec![7, 7, 6, 7, 0], vec![7, 7, 6, 6, 0]];
    assert!(allowed.contains(&m));
}

#[test]
fn bit_run_takes_the_king_for_black() {
    // black rook on h1 (row 0, col 7) can take the white king on a1 (row 0, col 0)
    let mut board = vec![vec![0i8; 8]; 8];
    board[0][0] = 6;
    board[0][7] = -4;
    board[7][7] = -6;
    let m = run(&board, &vec![], -1, &HashSet::new());
    assert_eq!(m, vec![0, 7, 0, 0, 0]);
}

#[test]
fn bit_alpha_beta_needs_no_move_generation() {
    // pawns on their last rows are only scored at depth 0
    let mut bb = BitBoard::new();
    bb.white_king = 1;
    bb.white_pawns = 1 << 60;
    bb.white_pieces = 1 | 1 << 60;
    bb.black_king = 1 << 63;
    bb.black_pawns = 1 << 3;
    bb.black_pieces = 1 << 63 | 1 << 3;
    let mut c = BoardCache::new();
    assert_eq!(alpha_beta(&bb, &mut c, -100000, 100000, 1, 0), 1000 + 1 - 100 - 1);
    // a cached position gives its value at any depth
    c.insert(bb, 17);
    assert_eq!(alpha_beta(&bb, &mut c, -100000, 100000, -1, -4), 17);
    // with a king missing the end value comes without moves, also for a negative depth
    let mut nk = bb;
    nk.black_king = 0;
    nk.black_pieces = 1 << 3;
    let mut c = BoardCache::new();
    assert_eq!(alpha_beta(&nk, &mut c, -100000, 100000, 1, -2), -20000 + 2);
}

fn union_holds(bb: &BitBoard) -> bool {
    let w = bb.white_pawns | bb.white_knights | bb.white_bishops | bb.white_rooks | bb.white_queen | bb.white_king;
    let b = bb.black_pawns | bb.black_knights | bb.black_bishops | bb.black_rooks | bb.black_queen | bb.black_king;
    let all = [
        bb.white_pawns, bb.white_knights, bb.white_bishops, bb.white_rooks, bb.white_queen, bb.white_king,
        bb.black_pawns, bb.black_knights, bb.black_bishops, bb.black_rooks, bb.black_queen, bb.black_king,
    ];
    let mut seen = 0u64;
    for x in all.iter() {
        if seen & x != 0 {
            return false;
        }
        seen |= x;
    }
    w == bb.white_pieces && b == bb.black_pieces
}

#[test]
fn bit_generated_moves_keep_the_position_consistent() {
    let bb = start_bit_board();
    assert!(union_holds(&bb));
    for m in all_legal_moves(&bb) {
        let mut b2 = bb;
        b2.make_move(&m);
        assert!(union_holds(&b2));
        let occupied = (b2.white_pieces | b2.black_pieces).count_ones();
        assert_eq!(occupied, 32);
        for r in all_legal_moves(&b2) {
            let mut b3 = b2;
            b3.make_move(&r);
            assert!(union_holds(&b3));
        }
    }
    // a capture takes one square off the occupied ones
    let mut bb = BitBoard::new();
    bb.white_king = 1;
    bb.white_rooks = 1 << 7;
    bb.white_pieces = 1 | 1 << 7;
    bb.black_king = 1 << 63;
    bb.black_knights = 1 << 15;
    bb.black_pieces = 1 << 63 | 1 << 15;
    bb.make_move(&vec![1 << 7, 1 << 15, 4, 0]);
    assert!(union_holds(&bb));
    assert_eq!((bb.white_pieces | bb.black_pieces).count_ones(), 3);
}

#[test]
fn bit_alpha_beta_without_moves_at_any_depth() {
    // white fills rows 1 to 7 and has no move; the black king stands on a1
    let mut bb = BitBoard::new();
    bb.white_pawns = 0x00ff_ffff_ffff_ff00;
    bb.white_king = 1 << 60;
    bb.white_knights = (0xff << 56) ^ (1 << 60);
    bb.white_pieces = 0xffff_ffff_ffff_ff00;
    bb.black_king = 1;
    bb.black_pieces = 1;
    assert!(all_legal_moves(&bb).is_empty());
    let mut c = BoardCache::new();
    assert_eq!(alpha_beta(&bb, &mut c, -100000, 100000, 1, 3), -10003);
    let mut c = BoardCache::new();
    assert_eq!(alpha_beta(&bb, &mut c, -100000, 100000, 1, -1), -9999);
    let mut c = BoardCache::new();
    assert_eq!(alpha_beta(&bb, &mut c, -100000, 100000, -1, -1), 9999);
    // a black pawn on its last row does not matter when white has no move
    let mut bp = bb;
    bp.black_pawns = 1 << 1;
    bp.black_pieces = 1 | 1 << 1;
    let mut c = BoardCache::new();
    assert_eq!(alpha_beta(&bp, &mut c, -100000, 100000, 1, 2), -10002);
    assert_eq!(c.get(&bp), None);
}

#[test]
fn bit_alpha_beta_only_adds_to_the_cache() {
    let mut other = BitBoard::new();
    other.white_king = 1;
    other.white_pieces = 1;
    let mut c = BoardCache::new();
    c.insert(other, 5);
    let bb = start_bit_board();
    let v = alpha_beta(&bb, &mut c, -100000, 100000, 1, 2);
    assert_eq!(c.get(&other), Some(5));
    assert_eq!(c.get(&bb), Some(v));
}

#[test]
fn bit_moves_follow_their_lines() {
    let mut bb = BitBoard::new();
    bb.white_king = 1 << 4;
    bb.white_rooks = 1;
    bb.white_bishops = 1 << 2;
    bb.white_knights = 1 << 6;
    bb.white_queen = 1 << 27;
    bb.white_pawns = 1 << 12;
    bb.white_pieces = 1 << 4 | 1 | 1 << 2 | 1 << 6 | 1 << 27 | 1 << 12;
    bb.black_king = 1 << 60;
    bb.black_rooks = 1 << 35;
    bb.black_knights = 1 << 45;
    bb.black_pieces = 1 << 60 | 1 << 35 | 1 << 45;
    let occupied = bb.white_pieces | bb.black_pieces;
    let moves = all_legal_moves(&bb);
    assert!(!moves.is_empty());
    for m in moves {
        let f = m[0].trailing_zeros() as i32;
        let t = m[1].trailing_zeros() as i32;
        assert_eq!(m[0], 1u64 << f);
        assert_eq!(m[1], 1u64 << t);
        assert!(bb.white_pieces & m[1] == 0);
        let dr = (t / 8 - f / 8).abs();
        let dc = (t % 8 - f % 8).abs();
        let straight = f != t && (dr == 0 || dc == 0);
        let diagonal = f != t && dr == dc;
        match m[2] {
            2 => assert!((dr == 1 && dc == 2) || (dr == 2 && dc == 1)),
            6 => assert!(dr <= 1 && dc <= 1 && f != t),
            3 => assert!(diagonal),
            4 => assert!(straight),
            5 => assert!(straight || diagonal),
            _ => {}
        }
        if m[2] >= 3 && m[2] <= 5 {
            // a sliding piece passes only over empty squares
            let step_r = (t / 8 - f / 8).signum();
            let step_c = (t % 8 - f % 8).signum();
            let mut r = f / 8 + step_r;
            let mut c = f % 8 + step_c;
            while (r, c) != (t / 8, t % 8) {
                assert_eq!(occupied & (1u64 << (r * 8 + c)), 0);
                r += step_r;
                c += step_c;
            }
        }
    }
}

#[test]
fn bit_apply_swaps_in_order() {
    let a = vec![1u64];
    let b = vec![2u64];
    let c = vec![3u64];
    // position 0 with 2, then 1 with 0, then 2 with 1
    let r = apply_swaps(vec![a.clone(), b.clone(), c.clone()], &vec![2, 0, 1]);
    assert_eq!(r, vec![b.clone(), a.clone(), c.clone()]);
    // drawing each position itself keeps the order
    let r = apply_swaps(vec![a.clone(), b.clone(), c.clone()], &vec![0, 1, 2]);
    assert_eq!(r, vec![a, b, c]);
}
