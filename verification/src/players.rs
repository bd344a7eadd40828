pub mod bit_bot;
pub mod bot;
pub mod human;
pub mod random;

use vstd::prelude::*;

use crate::board::Board;
use crate::legal_moves::{copy_history, get_all_legal_moves, is_side, lemma_moves_shaped, move_shape, pieces_ok, spec_all_legal_moves, valid_board};

verus! {

/// A player: its side, its kind (1 human, 2 and 3 engines, 4 an engine that is
/// not part of this library, other values random moves), the squares it clicked
/// (at most the last two), the piece a pawn promotes to, and its thinking times.
pub struct Player {
    player: i8,
    player_type: u8,
    clicks: Vec<Vec<usize>>,
    promote_to: usize,
    total_time: u128,
    slowest_move: u128,
}

impl Player {
    /// A player holds at most the last two clicked squares.
    #[verifier::type_invariant]
    spec fn at_most_two_clicks(self) -> bool {
        self.clicks.len() <= 2
    }

    pub closed spec fn side(&self) -> i8 {
        self.player
    }

    pub closed spec fn kind(&self) -> u8 {
        self.player_type
    }

    pub closed spec fn clicks_view(&self) -> Seq<Seq<usize>> {
        self.clicks.deep_view()
    }

    pub closed spec fn promotion(&self) -> usize {
        self.promote_to
    }

    pub closed spec fn total(&self) -> u128 {
        self.total_time
    }

    pub closed spec fn slowest(&self) -> u128 {
        self.slowest_move
    }

    pub fn new(player: i8, player_type: u8) -> (r: Player)
        ensures
            r.side() == player,
            r.kind() == player_type,
            r.clicks_view() == Seq::<Seq<usize>>::empty(),
            r.promotion() == 0,
            r.total() == 0,
            r.slowest() == 0,
    {
        let r = Player {
            player: player,
            player_type: player_type,
            clicks: Vec::new(),
            promote_to: 0,
            total_time: 0,
            slowest_move: 0,
        };
        assert(r.clicks.deep_view() =~= Seq::<Seq<usize>>::empty());
        r
    }

    pub fn get_player_type(&self) -> (r: u8)
        ensures
            r == self.kind(),
    {
        self.player_type
    }

    pub fn get_promote_to(&self) -> (r: usize)
        ensures
            r == self.promotion(),
    {
        self.promote_to
    }

    pub fn set_promote_to(&mut self, promote_to: usize)
        ensures
            final(self).promotion() == promote_to,
            final(self).side() == old(self).side(),
            final(self).kind() == old(self).kind(),
            final(self).clicks_view() == old(self).clicks_view(),
            final(self).total() == old(self).total(),
            final(self).slowest() == old(self).slowest(),
    {
        proof {
            use_type_invariant(&*self);
        }
        self.promote_to = promote_to;
    }

    /// The clicked squares, the older one first; never more than two.
    pub fn get_clicks(&self) -> (r: &Vec<Vec<usize>>)
        ensures
            r.deep_view() == self.clicks_view(),
            r.len() <= 2,
    {
        proof {
            use_type_invariant(self);
        }
        &self.clicks
    }

    pub fn get_total_time(&self) -> (r: u128)
        ensures
            r == self.total(),
    {
        self.total_time
    }

    pub fn get_slowest_move(&self) -> (r: u128)
        ensures
            r == self.slowest(),
    {
        self.slowest_move
    }

    /// Adds the time of one move: the total grows by it and the slowest move is
    /// the larger of the two.
    pub fn add_time(&mut self, time: u128)
        requires
            old(self).total() + time <= u128::MAX,
        ensures
            final(self).total() == old(self).total() + time,
            final(self).slowest() == if time > old(self).slowest() {
                time
            } else {
                old(self).slowest()
            },
            final(self).side() == old(self).side(),
            final(self).kind() == old(self).kind(),
            final(self).clicks_view() == old(self).clicks_view(),
            final(self).promotion() == old(self).promotion(),
    {
        proof {
            use_type_invariant(&*self);
        }
        self.total_time += time;
        if time > self.slowest_move {
            self.slowest_move = time;
        }
    }

    /// Records a clicked square: the last two clicks are kept, the older one first.
    pub fn clicked(&mut self, click: Vec<usize>)
        ensures
            final(self).clicks_view() == if old(self).clicks_view().len() == 2 {
                seq![old(self).clicks_view()[1], click@]
            } else {
                old(self).clicks_view().push(click@)
            },
            final(self).side() == old(self).side(),
            final(self).kind() == old(self).kind(),
            final(self).promotion() == old(self).promotion(),
            final(self).total() == old(self).total(),
            final(self).slowest() == old(self).slowest(),
    {
        proof {
            use_type_invariant(&*self);
        }
        let ghost old_clicks = self.clicks.deep_view();
        let ghost click_view = click@;
        assert(click.deep_view() =~= click@);
        let mut clicks: Vec<Vec<usize>> = Vec::new();
        std::mem::swap(&mut clicks, &mut self.clicks);
        if clicks.len() == 2 {
            let last = clicks.pop().unwrap();
            clicks[0] = last;
        }
        let ghost mid = clicks@;
        clicks.push(click);
        assert(clicks.deep_view() =~= if old_clicks.len() == 2 {
            seq![old_clicks[1], click_view]
        } else {
            old_clicks.push(click_view)
        }) by {
            assert(clicks@ == mid.push(clicks@[mid.len() as int]));
        }
        self.clicks = clicks;
    }

    pub fn clear_clicks(&mut self)
        ensures
            final(self).clicks_view() == Seq::<Seq<usize>>::empty(),
            final(self).side() == old(self).side(),
            final(self).kind() == old(self).kind(),
            final(self).promotion() == old(self).promotion(),
            final(self).total() == old(self).total(),
            final(self).slowest() == old(self).slowest(),
    {
        self.clicks = Vec::new();
        assert(self.clicks.deep_view() =~= Seq::<Seq<usize>>::empty());
    }
}

/// What `run` needs for each kind of player: for the bitboard engine (3) a board
/// it can search, for the other engine (2) a board on which it finds a move, and
/// for a human (1) or a random player (any other kind) a valid board of pieces
/// that can be moved, with at least one move for the random player. Kind 4 names
/// an engine that this library does not have.
pub open spec fn run_ready(player: i8, player_type: u8, b: Seq<Seq<i8>>, h: Seq<Seq<Seq<i8>>>) -> bool {
    if player_type == 4 {
        false
    } else if player_type == 3 {
        bit_bot::run_ok(b, player)
    } else if player_type == 2 {
        &&& valid_board(b)
        &&& h.len() > 0 && player != 1 ==> bot::negatable(h.last())
        &&& bot::spec_bot_run(b, h, player) is Some
    } else {
        &&& valid_board(b)
        &&& is_side(player)
        &&& pieces_ok(b, h, player)
        &&& player_type != 1 ==> spec_all_legal_moves(b, h, player).len() > 0
    }
}

/// The move of `player` on `board`, chosen by the kind of player: the bitboard
/// engine (3), the other engine (2), a human whose clicked squares and promotion
/// are `movee` (1: the move, or an empty move when the squares are not a legal
/// move), or a random legal move (any other kind).
pub fn run(player: i8, player_type: u8, board: &Board, movee: (Vec<usize>, usize)) -> (m: Vec<usize>)
    requires
        run_ready(player, player_type, board.board.deep_view(), board.board_history.deep_view()),
    ensures
        player_type == 3 ==> bit_bot::engine_choice(board.board.deep_view(), player, m@),
        player_type == 2 ==> m@ == bot::spec_bot_run(
            board.board.deep_view(),
            board.board_history.deep_view(),
            player,
        )->0,
        player_type == 1 ==> m@ == human::spec_human_move(
            spec_all_legal_moves(board.board.deep_view(), board.board_history.deep_view(), player),
            (movee.0@, movee.1),
        ),
        player_type != 1 && player_type != 2 && player_type != 3 ==> exists|k: int|
            0 <= k < spec_all_legal_moves(
                board.board.deep_view(),
                board.board_history.deep_view(),
                player,
            ).len() && m@ == #[trigger] spec_all_legal_moves(
                board.board.deep_view(),
                board.board_history.deep_view(),
                player,
            )[k],
{
    let ghost b = board.board.deep_view();
    let ghost h = board.board_history.deep_view();
    match player_type {
        3 => bit_bot::run(&board.board, &board.board_history, player, &board.castle_pieces),
        2 => bot::run(&board.board, &board.board_history, player, &board.castle_pieces),
        1 => {
            proof {
                lemma_moves_shaped(b, h, player);
            }
            let all_moves = get_all_legal_moves(&board.board, copy_history(&board.board_history), player);
            assert forall|k: int| 0 <= k < all_moves.len() implies (#[trigger] all_moves@[k])@.len() >= 4 by {
                assert(all_moves.deep_view()[k] == all_moves@[k]@);
                assert(move_shape(b, player, spec_all_legal_moves(b, h, player)[k]));
            }
            human::run(all_moves, movee)
        },
        _ => {
            let all_moves = get_all_legal_moves(&board.board, copy_history(&board.board_history), player);
            let m = random::run(all_moves);
            proof {
                let k = choose|k: int| 0 <= k < all_moves.len() && m@ == (#[trigger] all_moves@[k])@;
                assert(all_moves.deep_view()[k] == all_moves@[k]@);
            }
            m
        },
    }
}

} // verus!
