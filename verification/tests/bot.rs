use std::collections::HashSet;

use chess_engine::players::bot::{
    alpha_beta, bishop_queen_attack, find_king, in_check, knight_attack, make_move, pawn_attack, piece_score,
    possible_direction_moves, prep_board, rook_queen_attack, run, score, try_alpha_beta, try_run, BotCache,
};
use chess_engine::legal_moves::pieces_movable;
use chess_engine::players::bit_bot::can_run;

fn start_board() -> Vec<Vec<i8>> {
    vec![
        vec![4, 2, 3, 5, 6, 3, 2, 4],
        vec![1, 1, 1, 1, 1, 1, 1, 1],
        vec![0, 0, 0, 0, 0, 0, 0, 0],
        vec![0, 0, 0, 0, 0, 0, 0, 0],
        vec![0, 0, 0, 0, 0, 0, 0, 0],
        vec![0, 0, 0, 0, 0, 0, 0, 0],
        vec![-1, -1, -1, -1, -1, -1, -1, -1],
        vec![-4, -2, -3, -5, -6, -3, -2, -4],
    ]
}

fn empty_board() -> Vec<Vec<i8>> {
    vec![vec![0; 8]; 8]
}

#[test]
fn bot_piece_scores() {
    assert_eq!(piece_score(6), 1000);
    assert_eq!(piece_score(5), 7);
    assert_eq!(piece_score(4), 5);
    assert_eq!(piece_score(3), 3);
    assert_eq!(piece_score(2), 3);
    assert_eq!(piece_score(1), 1);
    assert_eq!(piece_score(-6), -100);
    assert_eq!(piece_score(-5), -7);
    assert_eq!(piece_score(-1), -1);
    assert_eq!(piece_score(0), 0);
    assert_eq!(piece_score(9), 0);
}

#[test]
fn bot_score_of_the_start() {
    // 1037 for white, -137 for black
    assert_eq!(score(&start_board()), 900);
    let mut b = start_board();
    b[7][3] = 0;
    assert_eq!(score(&b), 907);
}

#[test]
fn bot_prep_board_turns_the_board() {
    let mut b = empty_board();
    b[0][1] = 6;
    b[6][2] = -1;
    assert_eq!(prep_board(&b, 1), b);
    let p = prep_board(&b, -1);
    assert_eq!(p[7][1], -6);
    assert_eq!(p[1][2], 1);
    assert_eq!(p[0][1], 0);
    // twice gives the board back
    assert_eq!(prep_board(&p, -1), b);
    // the start position looks the same from both sides
    assert_eq!(prep_board(&start_board(), -1), start_board());
}

#[test]
fn bot_find_king_first_square() {
    assert_eq!(find_king(6, &start_board()), (0, 4));
    assert_eq!(find_king(-6, &start_board()), (7, 4));
}

#[test]
fn bot_attacks() {
    let mut b = empty_board();
    b[3][3] = 6;
    b[4][2] = -1;
    assert!(pawn_attack(1, (3, 3), &b));
    b[4][2] = 0;
    b[2][2] = -1;
    assert!(!pawn_attack(1, (3, 3), &b));

    let mut b = empty_board();
    b[0][0] = 6;
    b[2][1] = -2;
    assert!(knight_attack(1, (0, 0), &b));
    b[2][1] = 2;
    assert!(!knight_attack(1, (0, 0), &b));

    let mut b = empty_board();
    b[0][0] = 6;
    b[0][5] = -4;
    assert!(rook_queen_attack(1, (0, 0), &b));
    b[0][3] = 1;
    assert!(!rook_queen_attack(1, (0, 0), &b));
    b[3][3] = -5;
    assert!(bishop_queen_attack(1, (0, 0), &b));
    b[3][3] = -4;
    assert!(!bishop_queen_attack(1, (0, 0), &b));
}

#[test]
fn bot_direction_search() {
    let mut b = empty_board();
    b[4][4] = 3;
    let targets: HashSet<i8> = vec![3, 5].into_iter().collect();
    assert!(possible_direction_moves(&b, (0, 0), targets.clone(), vec![(1, 1)]));
    assert!(!possible_direction_moves(&b, (0, 0), targets.clone(), vec![(1, 0), (0, 1)]));
    b[2][2] = -1;
    assert!(!possible_direction_moves(&b, (0, 0), targets, vec![(1, 1)]));
}

#[test]
fn bot_in_check() {
    assert!(!in_check(&start_board(), 1));
    assert!(!in_check(&start_board(), -1));
    let mut b = empty_board();
    b[0][4] = 6;
    b[7][4] = -6;
    b[5][4] = -4;
    assert!(in_check(&b, 1));
    assert!(!in_check(&b, -1));
}

#[test]
fn bot_make_move_moves_and_promotes() {
    let mut b = start_board();
    make_move(&vec![0, 1, 2, 2], &mut b, &mut HashSet::new());
    assert_eq!(b[0][1], 0);
    assert_eq!(b[2][2], 2);
    // a pawn that reaches the far row is multiplied by the chosen piece
    let mut b = empty_board();
    b[6][0] = 1;
    b[7][1] = -2;
    make_move(&vec![6, 0, 7, 1, 5], &mut b, &mut HashSet::new());
    assert_eq!(b[7][1], 5);
    assert_eq!(b[6][0], 0);
    // a pawn step without promotion
    let mut b = empty_board();
    b[1][3] = 1;
    make_move(&vec![1, 3, 3, 3, 0], &mut b, &mut HashSet::new());
    assert_eq!(b[3][3], 1);
}

#[test]
fn bot_make_move_en_passant_and_castling() {
    // a pawn moving sideways onto an empty square takes the pawn beside it
    let mut b = empty_board();
    b[4][4] = 1;
    b[4][5] = -1;
    let mut unmoved: HashSet<usize> = HashSet::new();
    make_move(&vec![4, 4, 5, 5, 0], &mut b, &mut unmoved);
    assert!(unmoved.is_empty());
    assert_eq!(b[5][5], 1);
    assert_eq!(b[4][5], 0);
    assert_eq!(b[4][4], 0);
    // a king moving two columns brings the rook over
    let mut b = empty_board();
    b[0][4] = 6;
    b[0][7] = 4;
    // squares are recorded as 8 * row + column: (0, 4) is 4, (0, 7) is 7, (7, 4) is 60
    let mut unmoved: HashSet<usize> = vec![4usize, 7, 60].into_iter().collect();
    make_move(&vec![0, 4, 0, 6], &mut b, &mut unmoved);
    assert!(!unmoved.contains(&4));
    assert!(unmoved.contains(&7));
    assert!(unmoved.contains(&60));
    assert_eq!(unmoved.len(), 2);
    assert_eq!(b[0][6], 6);
    assert_eq!(b[0][5], 4);
    assert_eq!(b[0][7], 0);
    let mut b = empty_board();
    b[0][4] = 6;
    b[0][0] = 4;
    make_move(&vec![0, 4, 0, 2], &mut b, &mut HashSet::new());
    assert_eq!(b[0][2], 6);
    assert_eq!(b[0][3], 4);
    assert_eq!(b[0][0], 0);
}

#[test]
fn bot_cache_reads_back() {
    let mut c = BotCache::new();
    let b = start_board();
    assert_eq!(c.get(&b), None);
    c.insert(b.clone(), 12);
    assert_eq!(c.get(&b), Some(12));
    c.insert(b.clone(), 13);
    assert_eq!(c.get(&b), Some(13));
    assert_eq!(c.get(&empty_board()), None);
}

#[test]
fn bot_alpha_beta_at_depth_zero_scores() {
    let mut c = BotCache::new();
    assert_eq!(alpha_beta(&start_board(), -10000, 10000, 1, 0, &vec![], &mut c), 900);
}

#[test]
fn bot_alpha_beta_one_ply_of_kings() {
    // black to move with only kings on the board: every reply scores 1000 - 100
    let mut b = empty_board();
    b[0][0] = 6;
    b[7][7] = -6;
    let mut c = BotCache::new();
    assert_eq!(alpha_beta(&b, -10000, 10000, -1, 1, &vec![], &mut c), 900);
    // the value is now cached for the board
    assert_eq!(c.get(&b), Some(900));
}

#[test]
fn bot_run_kings_only_takes_the_first_move() {
    let mut b = empty_board();
    b[0][0] = 6;
    b[7][7] = -6;
    assert_eq!(run(&b, &vec![], 1, &HashSet::new()), vec![0, 0, 0, 1]);
    assert_eq!(run(&b, &vec![], -1, &HashSet::new()), vec![7, 7, 7, 6]);
}

#[test]
fn bot_score_of_any_board() {
    assert_eq!(score(&vec![]), 0);
    assert_eq!(score(&vec![vec![6, -6, 5], vec![1]]), 1000 - 100 + 7 + 1);
}

#[test]
fn bot_long_directions() {
    let mut b = empty_board();
    b[4][4] = 3;
    let targets: HashSet<i8> = vec![3].into_iter().collect();
    // two squares at a time: (2, 2) then (4, 4)
    assert!(possible_direction_moves(&b, (0, 0), targets.clone(), vec![(2, 2)]));
    assert!(!possible_direction_moves(&b, (0, 0), targets.clone(), vec![(3, 3), (100, 0)]));
}

#[test]
fn bot_alpha_beta_cached_at_any_depth() {
    let mut c = BotCache::new();
    let b = start_board();
    c.insert(b.clone(), 42);
    assert_eq!(alpha_beta(&b, -10000, 10000, 1, -3, &vec![], &mut c), 42);
}

#[test]
fn bot_try_run_stops_on_a_pawn_move() {
    let mut b = empty_board();
    b[0][0] = 6;
    b[7][7] = -6;
    assert_eq!(try_run(&b, &vec![], 1, &HashSet::new()), Some(vec![0, 0, 0, 1]));
    // with a pawn the search would have to play a pawn move
    b[1][4] = 1;
    assert_eq!(try_run(&b, &vec![], 1, &HashSet::new()), None);
    let mut c = BotCache::new();
    assert_eq!(try_alpha_beta(&b, -10000, 10000, 1, 2, &vec![], &mut c), None);
    // at depth 0 the board is only scored
    let mut c = BotCache::new();
    assert_eq!(try_alpha_beta(&b, -10000, 10000, 1, 0, &vec![], &mut c), Some(1000 + 1 - 100));
}

#[test]
fn readiness_checks() {
    assert!(pieces_movable(&start_board(), &vec![], 1));
    assert!(pieces_movable(&start_board(), &vec![], -1));
    assert!(can_run(&start_board(), 1));
    assert!(can_run(&start_board(), -1));
    let mut b = empty_board();
    b[0][0] = 6;
    b[7][7] = -6;
    b[7][3] = 1;
    // a white pawn on its last row
    assert!(!pieces_movable(&b, &vec![], 1));
    assert!(pieces_movable(&b, &vec![], -1));
    assert!(!can_run(&b, 1));
    assert!(!can_run(&vec![vec![0i8; 8]; 7], 1));
}
