use std::collections::HashSet;

use chess_engine::board::{new_board, Board};
use chess_engine::game::{calculate_power_balance, piece_score, Game, Request};

fn start_board() -> Vec<Vec<i8>> {
    vec![
        vec![4, 2, 3, 5, 6, 3, 2, 4],
        vec![1, 1, 1, 1, 1, 1, 1, 1],
        vec![0, 0, 0, 0, 0, 0, 0, 0],
        vec![0, 0, 0, 0, 0, 0, 0, 0],
        vec![0, 0, 0, 0, 0, 0, 0, 0],
        vec![0, 0, 0, 0, 0, 0, 0, 0],
        vec![-1, -1, -1, -1, -1, -1, -1, -1],
        vec![-4, -2, -3, -5, -6, -3, -2, -4],
    ]
}

fn position(board: Vec<Vec<i8>>, turn: i8) -> Board {
    Board { board, board_history: vec![], castle_pieces: HashSet::new(), turn }
}

#[test]
fn game_piece_scores() {
    assert_eq!(piece_score(5), 7);
    assert_eq!(piece_score(-5), 7);
    assert_eq!(piece_score(4), 5);
    assert_eq!(piece_score(-3), 3);
    assert_eq!(piece_score(2), 3);
    assert_eq!(piece_score(-1), 1);
    assert_eq!(piece_score(6), 0);
    assert_eq!(piece_score(-6), 0);
    assert_eq!(piece_score(0), 0);
}

#[test]
fn power_of_the_start() {
    // 8 pawns, 4 knights and bishops, 2 rooks, a queen: 8 + 12 + 10 + 7 = 37, plus one
    assert_eq!(calculate_power_balance(&start_board()), (38, 38));
    let mut b = start_board();
    b[7][3] = 0;
    assert_eq!(calculate_power_balance(&b), (38, 31));
    // the board made by `new_board` is the same starting position
    assert_eq!(calculate_power_balance(&new_board()), (38, 38));
    // an empty board still gives each side one
    assert_eq!(calculate_power_balance(&vec![vec![0; 8]; 8]), (1, 1));
    assert_eq!(calculate_power_balance(&vec![]), (1, 1));
}

#[test]
fn new_game_state() {
    let g = Game::new_game(position(start_board(), 1));
    assert_eq!(g.get_board(), start_board());
    assert_eq!(g.get_power_balance(), (1, 1));
    assert_eq!(g.get_position().turn, 1);
    // both players are of kind 0: they choose their moves themselves
    assert!(matches!(g.move_request(), Request::Engine(0)));
}

#[test]
fn human_request_waits_for_two_clicks() {
    let mut g = Game::new_game(position(start_board(), 1));
    g.restart(1, 2);
    assert_eq!(g.get_board(), new_board());
    assert!(matches!(g.move_request(), Request::Wait));
    g.clicked(vec![1, 4]);
    assert!(matches!(g.move_request(), Request::Wait));
    g.clicked(vec![3, 4]);
    g.set_promote(1, 4);
    match g.move_request() {
        Request::Human(m, promote) => {
            assert_eq!(m, vec![1, 4, 3, 4]);
            assert_eq!(promote, 4);
        }
        _ => panic!("expected the clicked move"),
    }
    // the promotion of the other player does not change this one
    g.set_promote(-1, 2);
    match g.move_request() {
        Request::Human(_, promote) => assert_eq!(promote, 4),
        _ => panic!("expected the clicked move"),
    }
}

#[test]
fn start_turn_clears_clicks_and_counts_power() {
    let mut g = Game::new_game(position(start_board(), -1));
    g.restart(2, 1);
    // after the restart white (1) is to move; its kind is 2
    assert!(matches!(g.move_request(), Request::Engine(2)));
    let turn = g.start_turn();
    assert_eq!(turn, 1);
    assert_eq!(g.get_power_balance(), (38, 38));
    g.clicked(vec![0, 0]);
    g.clicked(vec![1, 1]);
    g.start_turn();
    assert_eq!(g.get_power_balance(), (38, 38));
}

#[test]
fn restart_resets_the_promotion() {
    let mut g = Game::new_game(position(start_board(), 1));
    g.restart(1, 2);
    g.set_promote(1, 4);
    g.restart(1, 2);
    assert!(g.get_position().castle_pieces.is_empty());
    g.clicked(vec![1, 4]);
    g.clicked(vec![3, 4]);
    match g.move_request() {
        Request::Human(m, promote) => {
            assert_eq!(m, vec![1, 4, 3, 4]);
            assert_eq!(promote, 0);
        }
        _ => panic!("expected the clicked move"),
    }
}
