use vstd::prelude::*;
use std::collections::HashMap;
use crate::board::{State, Position, CELLS, encode, make_move, well_formed, potential};
use crate::moves::{
    generate_legal_moves, is_lost, is_opponent_win, legal_moves, move_view, lemma_moves_forward,
};
use crate::game::{
    child, entry_ok, follow, game_value, best_child, reachable, table_ok, tkey,
    lemma_child_lowers, lemma_follow_cons, lemma_follow_lowers, lemma_table_closed,
    lemma_tkey_injective, lemma_value_binary,
};

verus! {

/// Adding the right value of a position the table lacks, once the table holds
/// its children, keeps the table right.
proof fn lemma_insert_ok(t: Map<u64, i32>, p: Position, v: i32)
    requires
        table_ok(t),
        well_formed(p),
        !t.contains_key(tkey(p)),
        v == game_value(p),
        !is_lost(p) ==> forall|i: int|
            0 <= i < legal_moves(p).len() ==> t.contains_key(#[trigger] tkey(child(p, i))),
    ensures
        table_ok(t.insert(tkey(p), v)),
{
    let t2 = t.insert(tkey(p), v);
    assert forall|q: Position| #[trigger] well_formed(q) implies entry_ok(t2, q) by {
        if tkey(q) == tkey(p) {
            lemma_tkey_injective(p, q);
        } else {
            assert(entry_ok(t, q));
        }
    }
    assert forall|k: u64| #[trigger] t2.contains_key(k) implies exists|q: Position|
        well_formed(q) && tkey(q) == k by {
        if k != tkey(p) {
            assert(t.contains_key(k));
        }
    }
}

/// From a lost position the search reaches nothing but the position itself.
proof fn lemma_reachable_lost(p: Position, q: Position)
    requires
        is_lost(p),
        reachable(p, q),
    ensures
        q == p,
{
    let path = choose|path: Seq<int>| #[trigger] follow(p, path) == Some(q);
}

/// The search reaches from a position that is not lost the position itself and
/// what it reaches from the children.
proof fn lemma_reachable_step(p: Position, q: Position)
    requires
        well_formed(p),
        !is_lost(p),
    ensures
        reachable(p, q) <==> (p == q || exists|j: int|
            0 <= j < legal_moves(p).len() && #[trigger] reachable(child(p, j), q)),
{
    if reachable(p, q) && p != q {
        let path = choose|path: Seq<int>| #[trigger] follow(p, path) == Some(q);
        let j = path[0];
        assert(follow(child(p, j), path.drop_first()) == Some(q));
        assert(reachable(child(p, j), q));
    }
    if p == q {
        assert(follow(p, Seq::<int>::empty()) == Some(q));
    }
    if exists|j: int| 0 <= j < legal_moves(p).len() && #[trigger] reachable(child(p, j), q) {
        let j = choose|j: int| 0 <= j < legal_moves(p).len() && #[trigger] reachable(child(p, j), q);
        let path = choose|path: Seq<int>| #[trigger] follow(child(p, j), path) == Some(q);
        lemma_follow_cons(p, j, path);
        assert(follow(p, seq![j] + path) == Some(q));
    }
}

/// Recording a lost position adds its key and nothing else: the search goes
/// no further from it.
proof fn lemma_lost_domain(t: Map<u64, i32>, p: Position)
    requires
        well_formed(p),
        is_lost(p),
    ensures
        forall|q: Position|
            well_formed(q) ==> (#[trigger] t.insert(tkey(p), -1i32).contains_key(tkey(q)) <==> (
            t.contains_key(tkey(q)) || reachable(p, q))),
{
    assert forall|q: Position| well_formed(q) implies (#[trigger] t.insert(
        tkey(p),
        -1i32,
    ).contains_key(tkey(q)) <==> (t.contains_key(tkey(q)) || reachable(p, q))) by {
        if reachable(p, q) {
            lemma_reachable_lost(p, q);
        }
        if tkey(q) == tkey(p) {
            lemma_tkey_injective(p, q);
            assert(follow(p, Seq::<int>::empty()) == Some(q));
        }
    }
}

/// Nothing reached from a child reaches back to its parent.
proof fn lemma_parent_unreachable(p: Position, i: int)
    requires
        well_formed(p),
        0 <= i < legal_moves(p).len(),
    ensures
        !reachable(child(p, i), p),
{
    lemma_child_lowers(p, i);
    if reachable(child(p, i), p) {
        let path = choose|path: Seq<int>| #[trigger] follow(child(p, i), path) == Some(p);
        lemma_follow_lowers(child(p, i), path);
    }
}

/// Computes the value of `state` for the side to move, -1 or +1, and records in
/// `tt`, under their keys, the values of `state` and of every position the
/// search reaches from it. A key already in `tt` is answered from it.
pub fn negamax(state: &State, tt: &mut HashMap<u64, i32>) -> (r: i32)
    requires
        state.wf(),
        table_ok(old(tt)@),
    ensures
        r == game_value(state@),
        r == -1 || r == 1,
        table_ok(final(tt)@),
        old(tt)@.contains_key(tkey(state@)) ==> final(tt)@ == old(tt)@,
        !old(tt)@.contains_key(tkey(state@)) && is_lost(state@) ==> final(tt)@ == old(
            tt,
        )@.insert(tkey(state@), -1i32),
        final(tt)@.contains_key(tkey(state@)),
        final(tt)@[tkey(state@)] == r,
        forall|k: u64| #[trigger]
            old(tt)@.contains_key(k) ==> final(tt)@.contains_key(k) && final(tt)@[k] == old(
                tt,
            )@[k],
        forall|q: Position|
            well_formed(q) ==> (#[trigger] final(tt)@.contains_key(tkey(q)) <==> (old(
                tt,
            )@.contains_key(tkey(q)) || reachable(state@, q))),
    decreases potential(state@),
{
    let ghost p = state@;
    let ghost t0 = tt@;
    proof {
        lemma_value_binary(p);
    }
    let key = encode(state);
    assert(key == tkey(p));
    match tt.get(&key) {
        Some(v) => {
            let value = *v;
            proof {
                assert(entry_ok(t0, p));
                assert(t0 == tt@);
                assert forall|q: Position|
                    well_formed(q) && reachable(p, q) implies #[trigger] t0.contains_key(
                    tkey(q),
                ) by {
                    let path = choose|path: Seq<int>| #[trigger] follow(p, path) == Some(q);
                    lemma_table_closed(t0, p, path);
                }
            }
            return value;
        },
        None => {},
    }
    if is_opponent_win(state) {
        proof {
            lemma_insert_ok(t0, p, -1i32);
            lemma_lost_domain(t0, p);
        }
        tt.insert(key, -1);
        return -1;
    }
    let moves = generate_legal_moves(state);
    assert(moves@.len() == legal_moves(p).len());
    if moves.len() == 0 {
        proof {
            lemma_insert_ok(t0, p, -1i32);
            lemma_lost_domain(t0, p);
        }
        tt.insert(key, -1);
        return -1;
    }
    assert(!is_lost(p));
    let mut best: i32 = -1;
    let mut i: usize = 0;
    while i < moves.len()
        invariant
            state.wf(),
            p == state@,
            !is_lost(p),
            key == tkey(p),
            moves@.map_values(|m: (usize, usize)| move_view(m)) == legal_moves(p),
            moves@.len() == legal_moves(p).len(),
            i <= moves@.len(),
            table_ok(tt@),
            !tt@.contains_key(key),
            forall|k: u64| #[trigger]
                t0.contains_key(k) ==> tt@.contains_key(k) && tt@[k] == t0[k],
            forall|j: int| 0 <= j < i ==> tt@.contains_key(#[trigger] tkey(child(p, j))),
            forall|q: Position|
                well_formed(q) ==> (#[trigger] tt@.contains_key(tkey(q)) <==> (t0.contains_key(
                    tkey(q),
                ) || exists|j: int| 0 <= j < i && #[trigger] reachable(child(p, j), q))),
            best == best_child(p, i as int),
        decreases moves.len() - i,
    {
        let (src, dst) = moves[i];
        assert(move_view(moves@[i as int]) == legal_moves(p)[i as int]);
        proof {
            lemma_child_lowers(p, i as int);
            lemma_moves_forward(p, CELLS as int, i as int);
        }
        let next = make_move(state, src, dst);
        assert(next@ == child(p, i as int));
        let ghost before = tt@;
        let v = negamax(&next, tt);
        proof {
            lemma_value_binary(child(p, i as int));
            lemma_parent_unreachable(p, i as int);
            assert(!tt@.contains_key(tkey(p)));
            assert forall|q: Position| well_formed(q) implies (#[trigger] tt@.contains_key(
                tkey(q),
            ) <==> (t0.contains_key(tkey(q)) || exists|j: int|
                0 <= j < i + 1 && #[trigger] reachable(child(p, j), q))) by {
                assert(before.contains_key(tkey(q)) <==> (t0.contains_key(tkey(q)) || exists|
                    j: int,
                | 0 <= j < i && #[trigger] reachable(child(p, j), q)));
                if exists|j: int| 0 <= j < i + 1 && #[trigger] reachable(child(p, j), q) {
                    let j = choose|j: int| 0 <= j < i + 1 && #[trigger] reachable(child(p, j), q);
                    if j < i {
                        assert(before.contains_key(tkey(q)));
                    }
                }
            }
        }
        let candidate = -v;
        if candidate > best {
            best = candidate;
        }
        i = i + 1;
    }
    proof {
        lemma_insert_ok(tt@, p, best);
        assert forall|q: Position| well_formed(q) implies (#[trigger] tt@.insert(
            key,
            best,
        ).contains_key(tkey(q)) <==> (t0.contains_key(tkey(q)) || reachable(p, q))) by {
            lemma_reachable_step(p, q);
            if tkey(q) == tkey(p) {
                lemma_tkey_injective(p, q);
            }
        }
    }
    tt.insert(key, best);
    best
}

/// The table of a finished search from `init`: it holds the key of exactly
/// the positions that the search reaches from `init`, each with its value,
/// and no other key.
pub open spec fn solved_from(init: Position, t: Map<u64, i32>) -> bool {
    &&& forall|q: Position|
        well_formed(q) ==> (#[trigger] t.contains_key(tkey(q)) <==> reachable(init, q))
    &&& forall|q: Position|
        well_formed(q) && #[trigger] t.contains_key(tkey(q)) ==> t[tkey(q)] == game_value(q)
    &&& forall|k: u64|
        #[trigger] t.contains_key(k) ==> exists|q: Position| well_formed(q) && tkey(q) == k
}

/// Solves the game from `initial`: a fresh table with the value of every
/// position that the search reaches from it.
pub fn solve(initial: &State) -> (tt: HashMap<u64, i32>)
    requires
        initial.wf(),
    ensures
        solved_from(initial@, tt@),
{
    let mut tt: HashMap<u64, i32> = HashMap::new();
    assert(table_ok(tt@));
    negamax(initial, &mut tt);
    proof {
        assert forall|q: Position| well_formed(q) && #[trigger] tt@.contains_key(tkey(q)) implies tt@[tkey(q)] == game_value(q) by {
            assert(entry_ok(tt@, q));
        }
    }
    tt
}

} // verus!
