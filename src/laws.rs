use vstd::prelude::*;
use crate::board::{Position, well_formed};
use crate::moves::{is_lost, legal_moves};
use crate::game::{
    best_child, child, entry_ok, game_value, table_ok, tkey, lemma_child_lowers,
    lemma_value_binary,
};
use crate::solver::solved_from;

verus! {

/// Every value that a right table stores is -1 or +1.
pub proof fn lemma_table_binary(t: Map<u64, i32>)
    requires
        table_ok(t),
    ensures
        forall|k: u64| #[trigger] t.contains_key(k) ==> t[k] == -1 || t[k] == 1,
{
    assert forall|k: u64| #[trigger] t.contains_key(k) implies t[k] == -1 || t[k] == 1 by {
        let q = choose|q: Position| well_formed(q) && tkey(q) == k;
        assert(entry_ok(t, q));
        lemma_value_binary(q);
    }
}

proof fn lemma_best_is_max(p: Position, n: int)
    requires
        well_formed(p),
        1 <= n <= legal_moves(p).len(),
    ensures
        forall|i: int| 0 <= i < n ==> best_child(p, n) >= -game_value(#[trigger] child(p, i)),
        exists|i: int| 0 <= i < n && best_child(p, n) == -game_value(#[trigger] child(p, i)),
    decreases n,
{
    lemma_child_lowers(p, n - 1);
    lemma_value_binary(child(p, n - 1));
    if n > 1 {
        lemma_best_is_max(p, n - 1);
        if best_child(p, n) != -game_value(child(p, n - 1)) {
            let i = choose|i: int|
                0 <= i < n - 1 && best_child(p, n - 1) == -game_value(#[trigger] child(p, i));
            assert(best_child(p, n) == -game_value(child(p, i)));
        }
    } else {
        assert(best_child(p, n) == -game_value(child(p, 0)));
    }
}

/// The value of a position that is not lost is the largest, over its legal
/// moves, of the negated value of the position the move reaches.
pub proof fn lemma_negamax_consistency(p: Position)
    requires
        well_formed(p),
        !is_lost(p),
    ensures
        forall|i: int|
            0 <= i < legal_moves(p).len() ==> game_value(p) >= -game_value(#[trigger] child(p, i)),
        exists|i: int|
            0 <= i < legal_moves(p).len() && game_value(p) == -game_value(#[trigger] child(p, i)),
{
    lemma_best_is_max(p, legal_moves(p).len() as int);
}

/// A lost position is worth -1 to the side to move.
pub proof fn lemma_lost_value(p: Position)
    requires
        well_formed(p),
        is_lost(p),
    ensures
        game_value(p) == -1,
{
}

/// Two finished searches from the same position give the same table.
pub proof fn lemma_solve_deterministic(init: Position, t1: Map<u64, i32>, t2: Map<u64, i32>)
    requires
        solved_from(init, t1),
        solved_from(init, t2),
    ensures
        t1 == t2,
{
    assert forall|k: u64| #[trigger] t1.contains_key(k) implies t2.contains_key(k) && t1[k]
        == t2[k] by {
        let q = choose|q: Position| well_formed(q) && tkey(q) == k;
        assert(t1.contains_key(tkey(q)));
        assert(t2.contains_key(tkey(q)));
    }
    assert forall|k: u64| #[trigger] t2.contains_key(k) implies t1.contains_key(k) by {
        let q = choose|q: Position| well_formed(q) && tkey(q) == k;
        assert(t2.contains_key(tkey(q)));
    }
    assert(t1 =~= t2);
}

} // verus!
