use rand::seq::SliceRandom;
use vstd::prelude::*;

verus! {

/// `rand::seq::SliceRandom::choose` with the thread's generator: `None` for no
/// moves, otherwise (a copy of) one of the moves; which one is up to the generator.
#[verifier::external_body]
fn choose_move(all_moves: &Vec<Vec<usize>>) -> (r: Option<Vec<usize>>)
    ensures
        r is None <==> all_moves.len() == 0,
        r matches Some(m) ==> exists|k: int| 0 <= k < all_moves.len() && m@ == (#[trigger] all_moves@[k])@,
{
    all_moves.choose(&mut rand::thread_rng()).cloned()
}

/// One of the moves, picked at random.
pub fn run(all_moves: Vec<Vec<usize>>) -> (r: Vec<usize>)
    requires
        all_moves.len() > 0,
    ensures
        exists|k: int| 0 <= k < all_moves.len() && r@ == (#[trigger] all_moves@[k])@,
{
    choose_move(&all_moves).unwrap()
}

} // verus!
