use vstd::prelude::*;
use crate::board::{
    Position, CELLS, apply, key_of, potential, well_formed, lemma_forward_move_lowers,
    lemma_key_injective, key_from, pow4,
};
use crate::moves::{is_lost, legal_moves, lemma_moves_forward};

verus! {

/// The position after the `i`-th legal move of `p`.
pub open spec fn child(p: Position, i: int) -> Position {
    apply(p, legal_moves(p)[i].0, legal_moves(p)[i].1)
}

/// The key under which the table stores a position.
pub open spec fn tkey(p: Position) -> u64 {
    key_of(p) as u64
}

/// The value of a position for the side to move: -1 when it has lost,
/// otherwise the best of the negated values of the positions its moves reach.
pub open spec fn game_value(p: Position) -> int
    decreases potential(p), 1int, 0int,
    when well_formed(p)
{
    if is_lost(p) {
        -1
    } else {
        best_child(p, legal_moves(p).len() as int)
    }
}

/// The largest of -1 and the negated values of the children reached by the
/// first `n` legal moves of `p`.
pub open spec fn best_child(p: Position, n: int) -> int
    decreases potential(p), 0int, n,
    when well_formed(p) && n <= legal_moves(p).len()
{
    if n <= 0 {
        -1
    } else {
        proof {
            lemma_child_lowers(p, n - 1);
        }
        let v = -game_value(child(p, n - 1));
        let rest = best_child(p, n - 1);
        if v > rest {
            v
        } else {
            rest
        }
    }
}

/// A child is well formed and has a lower potential than its parent.
pub proof fn lemma_child_lowers(p: Position, i: int)
    requires
        well_formed(p),
        0 <= i < legal_moves(p).len(),
    ensures
        well_formed(child(p, i)),
        potential(child(p, i)) < potential(p),
{
    lemma_moves_forward(p, CELLS as int, i);
    lemma_forward_move_lowers(p, legal_moves(p)[i].0, legal_moves(p)[i].1);
}

/// The position reached from `a` by playing, in turn, the legal moves whose
/// indices `path` lists; `None` if an index is not that of a legal move, or if
/// a move would be made from a position that is already lost.
pub open spec fn follow(a: Position, path: Seq<int>) -> Option<Position>
    decreases path.len(),
{
    if path.len() == 0 {
        Some(a)
    } else if is_lost(a) || !(0 <= path[0] < legal_moves(a).len()) {
        None
    } else {
        follow(child(a, path[0]), path.drop_first())
    }
}

/// `b` is reached from `a` by the search.
pub open spec fn reachable(a: Position, b: Position) -> bool {
    exists|path: Seq<int>| #[trigger] follow(a, path) == Some(b)
}

/// The table holds the right value of each position it has, and the children
/// of each position it has that is not lost.
pub open spec fn entry_ok(t: Map<u64, i32>, q: Position) -> bool {
    t.contains_key(tkey(q)) ==> {
        &&& t[tkey(q)] == game_value(q)
        &&& !is_lost(q) ==> forall|i: int|
            0 <= i < legal_moves(q).len() ==> t.contains_key(#[trigger] tkey(child(q, i)))
    }
}

/// A transposition table: every key is that of a well-formed position, and
/// every entry is right.
pub open spec fn table_ok(t: Map<u64, i32>) -> bool {
    &&& forall|q: Position| #[trigger] well_formed(q) ==> entry_ok(t, q)
    &&& forall|k: u64|
        #[trigger] t.contains_key(k) ==> exists|q: Position| well_formed(q) && tkey(q) == k
}

/// The value of every well-formed position is -1 or +1.
pub proof fn lemma_value_binary(p: Position)
    requires
        well_formed(p),
    ensures
        game_value(p) == -1 || game_value(p) == 1,
    decreases potential(p), 1int, 0int,
{
    if !is_lost(p) {
        lemma_best_binary(p, legal_moves(p).len() as int);
    }
}

/// The best over the first `n` children is -1 or +1.
pub proof fn lemma_best_binary(p: Position, n: int)
    requires
        well_formed(p),
        n <= legal_moves(p).len(),
    ensures
        best_child(p, n) == -1 || best_child(p, n) == 1,
    decreases potential(p), 0int, n,
{
    if n > 0 {
        lemma_child_lowers(p, n - 1);
        lemma_value_binary(child(p, n - 1));
        lemma_best_binary(p, n - 1);
    }
}

proof fn lemma_key_bound(p: Position)
    requires
        well_formed(p),
    ensures
        key_of(p) < 0x2_0000_0000,
{
    lemma_key_from_bound(p, 0);
    reveal_with_fuel(pow4, 17);
}

proof fn lemma_key_from_bound(p: Position, i: int)
    requires
        well_formed(p),
        0 <= i <= CELLS,
    ensures
        key_from(p.board, p.side, i) < 2 * pow4((CELLS - i) as nat),
    decreases CELLS - i,
{
    if i < CELLS {
        lemma_key_from_bound(p, i + 1);
    }
}

/// Table keys of well-formed positions are distinct when the positions are.
pub proof fn lemma_tkey_injective(p: Position, q: Position)
    requires
        well_formed(p),
        well_formed(q),
        tkey(p) == tkey(q),
    ensures
        p == q,
{
    lemma_key_bound(p);
    lemma_key_bound(q);
    lemma_key_injective(p, q);
}

/// Positions reached from `a` have a potential no higher than that of `a`.
pub proof fn lemma_follow_lowers(a: Position, path: Seq<int>)
    requires
        well_formed(a),
        follow(a, path) is Some,
    ensures
        well_formed(follow(a, path).unwrap()),
        potential(follow(a, path).unwrap()) <= potential(a),
        path.len() > 0 ==> potential(follow(a, path).unwrap()) < potential(a),
    decreases path.len(),
{
    if path.len() > 0 {
        lemma_child_lowers(a, path[0]);
        lemma_follow_lowers(child(a, path[0]), path.drop_first());
    }
}

/// A table that is right holds everything reached from a position it holds.
pub proof fn lemma_table_closed(t: Map<u64, i32>, a: Position, path: Seq<int>)
    requires
        table_ok(t),
        well_formed(a),
        t.contains_key(tkey(a)),
        follow(a, path) is Some,
    ensures
        t.contains_key(tkey(follow(a, path).unwrap())),
    decreases path.len(),
{
    if path.len() > 0 {
        lemma_child_lowers(a, path[0]);
        assert(entry_ok(t, a));
        assert(t.contains_key(tkey(child(a, path[0]))));
        lemma_table_closed(t, child(a, path[0]), path.drop_first());
    }
}

/// Playing move `i` and then `path` is following `path` from the child.
pub proof fn lemma_follow_cons(a: Position, i: int, path: Seq<int>)
    requires
        !is_lost(a),
        0 <= i < legal_moves(a).len(),
    ensures
        follow(a, seq![i] + path) == follow(child(a, i), path),
{
    assert((seq![i] + path).drop_first() =~= path);
}

} // verus!
