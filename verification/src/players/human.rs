use vstd::prelude::*;

verus! {

/// `m` is among the first four entries (`[from row, from col, to row, to col]`) of the moves.
pub open spec fn is_listed(all_moves: Seq<Seq<usize>>, m: Seq<usize>) -> bool {
    exists|k: int| 0 <= k < all_moves.len() && (#[trigger] all_moves[k]).take(4) == m
}

/// The move clicked by a human: the clicked squares `movee.0` with the chosen
/// promotion `movee.1` appended when they match the squares of a legal move,
/// otherwise nothing (an empty move).
pub open spec fn spec_human_move(all_moves: Seq<Seq<usize>>, movee: (Seq<usize>, usize)) -> Seq<usize> {
    if is_listed(all_moves, movee.0) {
        movee.0.push(movee.1)
    } else {
        seq![]
    }
}

fn same_move(a: &Vec<usize>, b: &Vec<usize>) -> (r: bool)
    ensures
        r == (a@ == b@),
{
    if a.len() != b.len() {
        return false;
    }
    let mut i: usize = 0;
    while i < a.len()
        invariant
            a.len() == b.len(),
            i <= a.len(),
            forall|k: int| 0 <= k < i ==> a@[k] == b@[k],
        decreases a.len() - i,
    {
        if a[i] != b[i] {
            return false;
        }
        i += 1;
    }
    assert(a@ =~= b@);
    true
}

pub fn run(all_moves: Vec<Vec<usize>>, movee: (Vec<usize>, usize)) -> (r: Vec<usize>)
    requires
        forall|k: int| 0 <= k < all_moves.len() ==> (#[trigger] all_moves@[k])@.len() >= 4,
    ensures
        r@ == spec_human_move(all_moves.deep_view(), (movee.0@, movee.1)),
{
    let mut movee = movee;
    let ghost am = all_moves.deep_view();
    let mut moves: Vec<Vec<usize>> = Vec::new();
    let mut k: usize = 0;
    while k < all_moves.len()
        invariant
            am == all_moves.deep_view(),
            forall|q: int| 0 <= q < all_moves.len() ==> (#[trigger] all_moves@[q])@.len() >= 4,
            k <= all_moves.len(),
            moves.len() == k,
            forall|q: int| 0 <= q < k ==> (#[trigger] moves@[q])@ == am[q].take(4),
        decreases all_moves.len() - k,
    {
        let m = &all_moves[k];
        assert(m@.len() >= 4);
        let mut mm: Vec<usize> = Vec::new();
        let mut i: usize = 0;
        while i < 4
            invariant
                m@.len() >= 4,
                i <= 4,
                mm@ == m@.take(i as int),
            decreases 4 - i,
        {
            mm.push(m[i]);
            assert(mm@ =~= m@.take(i + 1));
            i += 1;
        }
        assert(am[k as int] =~= m@);
        moves.push(mm);
        k += 1;
    }
    // moves.contains(&movee.0)
    let mut found = false;
    let mut k: usize = 0;
    while k < moves.len()
        invariant
            k <= moves.len(),
            moves.len() == am.len(),
            forall|q: int| 0 <= q < moves.len() ==> (#[trigger] moves@[q])@ == am[q].take(4),
            found <==> exists|q: int| 0 <= q < k && (#[trigger] am[q]).take(4) == movee.0@,
        decreases moves.len() - k,
    {
        if same_move(&moves[k], &movee.0) {
            found = true;
        }
        assert(moves@[k as int]@ == am[k as int].take(4));
        k += 1;
    }
    if found {
        movee.0.push(movee.1);
        movee.0
    } else {
        let r: Vec<usize> = Vec::new();
        assert(r@ =~= Seq::<usize>::empty());
        r
    }
}

} // verus!
