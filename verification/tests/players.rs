use std::collections::HashSet;

use chess_engine::board::Board;
use chess_engine::legal_moves::get_all_legal_moves;
use chess_engine::players::{human, random, run, Player};

fn start_board() -> Vec<Vec<i8>> {
    vec![
        vec![4, 2, 3, 5, 6, 3, 2, 4],
        vec![1, 1, 1, 1, 1, 1, 1, 1],
        vec![0, 0, 0, 0, 0, 0, 0, 0],
        vec![0, 0, 0, 0, 0, 0, 0, 0],
        vec![0, 0, 0, 0, 0, 0, 0, 0],
        vec![0, 0, 0, 0, 0, 0, 0, 0],
        vec![-1, -1, -1, -1, -1, -1, -1, -1],
        vec![-4, -2, -3, -5, -6, -3, -2, -4],
    ]
}

fn position(board: Vec<Vec<i8>>, turn: i8) -> Board {
    Board { board, board_history: vec![], castle_pieces: HashSet::new(), turn }
}

#[test]
fn player_starts_empty() {
    let p = Player::new(-1, 3);
    assert_eq!(p.get_player_type(), 3);
    assert_eq!(p.get_promote_to(), 0);
    assert!(p.get_clicks().is_empty());
    assert_eq!(p.get_total_time(), 0);
    assert_eq!(p.get_slowest_move(), 0);
}

#[test]
fn player_keeps_the_last_two_clicks() {
    let mut p = Player::new(1, 1);
    p.clicked(vec![1, 1]);
    assert_eq!(p.get_clicks(), &vec![vec![1, 1]]);
    p.clicked(vec![2, 2]);
    assert_eq!(p.get_clicks(), &vec![vec![1, 1], vec![2, 2]]);
    p.clicked(vec![3, 3]);
    assert_eq!(p.get_clicks(), &vec![vec![2, 2], vec![3, 3]]);
    p.clicked(vec![4, 4]);
    assert_eq!(p.get_clicks(), &vec![vec![3, 3], vec![4, 4]]);
    assert!(p.get_clicks().len() <= 2);
    p.clear_clicks();
    assert!(p.get_clicks().is_empty());
}

#[test]
fn player_times_add_up() {
    let mut p = Player::new(1, 2);
    p.add_time(30);
    p.add_time(10);
    p.add_time(50);
    p.add_time(20);
    assert_eq!(p.get_total_time(), 110);
    assert_eq!(p.get_slowest_move(), 50);
}

#[test]
fn player_promotion_choice() {
    let mut p = Player::new(1, 1);
    p.set_promote_to(2);
    assert_eq!(p.get_promote_to(), 2);
    assert_eq!(p.get_player_type(), 1);
}

#[test]
fn human_move_listed_or_empty() {
    let moves = vec![vec![1, 4, 2, 4], vec![1, 4, 3, 4], vec![0, 1, 2, 2, 0]];
    assert_eq!(human::run(moves.clone(), (vec![1, 4, 3, 4], 5)), vec![1, 4, 3, 4, 5]);
    // only the first four entries of a move are compared
    assert_eq!(human::run(moves.clone(), (vec![0, 1, 2, 2], 0)), vec![0, 1, 2, 2, 0]);
    assert_eq!(human::run(moves.clone(), (vec![1, 4, 4, 4], 5)), Vec::<usize>::new());
    assert_eq!(human::run(vec![], (vec![1, 4, 2, 4], 5)), Vec::<usize>::new());
}

#[test]
fn random_move_is_one_of_the_moves() {
    let moves = vec![vec![1, 4, 2, 4], vec![1, 4, 3, 4], vec![0, 1, 2, 2]];
    for _ in 0..20 {
        let m = random::run(moves.clone());
        assert!(moves.contains(&m));
    }
    assert_eq!(random::run(vec![vec![7, 7, 7, 7]]), vec![7, 7, 7, 7]);
}

#[test]
fn run_by_kind_of_player() {
    let b = position(start_board(), 1);
    let all = get_all_legal_moves(&b.board, vec![], 1);
    // a human: the clicked squares with the chosen promotion
    assert_eq!(run(1, 1, &b, (vec![1, 4, 3, 4], 5)), vec![1, 4, 3, 4, 5]);
    assert_eq!(run(1, 1, &b, (vec![1, 4, 4, 4], 5)), Vec::<usize>::new());
    // a random player: one of the legal moves
    for kind in [0u8, 5, 200] {
        let m = run(1, kind, &b, (vec![], 0));
        assert!(all.contains(&m));
    }
    // the engines, on a board with kings only
    let mut kings = vec![vec![0i8; 8]; 8];
    kings[0][0] = 6;
    kings[7][7] = -6;
    let k = position(kings, 1);
    assert_eq!(run(1, 2, &k, (vec![], 0)), vec![0, 0, 0, 1]);
    let m = run(1, 3, &k, (vec![], 0));
    assert!(vec![vec![0, 0, 0, 1, 0], vec![0, 0, 1, 0, 0], vec![0, 0, 1, 1, 0]].contains(&m));
}
