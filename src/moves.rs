use vstd::prelude::*;
use crate::board::{
    Cell, Side, State, Position, CELLS, WIDTH, col_of, row_of, other_side, pawn_of,
};

verus! {

/// Where the pawn on `i` may go, if the side to move owns it. The pawn looks,
/// in this order, at the cell straight ahead (taken only if empty), at the
/// diagonal one index step of 3 away in its direction (White: up and to the
/// next column, Black: down and to the previous column), and at the other
/// diagonal, one index step of 5 away; a diagonal is taken only if it holds a
/// pawn of the opponent. Cells off the grid are never considered.
pub open spec fn move_target(p: Position, i: int) -> Option<int> {
    let b = p.board;
    let mine = pawn_of(p.side);
    let theirs = pawn_of(other_side(p.side));
    if b[i] != mine {
        None
    } else {
        match p.side {
            Side::White => {
                if row_of(i) == 0 {
                    None
                } else if b[i - 4] == Cell::Empty {
                    Some(i - 4)
                } else if col_of(i) < 3 && b[i - 3] == theirs {
                    Some(i - 3)
                } else if col_of(i) > 0 && b[i - 5] == theirs {
                    Some(i - 5)
                } else {
                    None
                }
            },
            Side::Black => {
                if row_of(i) == 3 {
                    None
                } else if b[i + 4] == Cell::Empty {
                    Some(i + 4)
                } else if col_of(i) > 0 && b[i + 3] == theirs {
                    Some(i + 3)
                } else if col_of(i) < 3 && b[i + 5] == theirs {
                    Some(i + 5)
                } else {
                    None
                }
            },
        }
    }
}

/// The moves of the pawns on the first `n` cells, in the order of their cells.
pub open spec fn moves_upto(p: Position, n: int) -> Seq<(int, int)>
    decreases n,
{
    if n <= 0 {
        Seq::empty()
    } else {
        let earlier = moves_upto(p, n - 1);
        match move_target(p, n - 1) {
            Some(d) => earlier.push((n - 1, d)),
            None => earlier,
        }
    }
}

/// The legal moves of a position: one per pawn of the side to move that can go
/// somewhere, as (source, destination), in the order of the source cells.
pub open spec fn legal_moves(p: Position) -> Seq<(int, int)> {
    moves_upto(p, CELLS as int)
}

pub open spec fn move_view(m: (usize, usize)) -> (int, int) {
    (m.0 as int, m.1 as int)
}

/// The column in which the opponent's pawn beats the side to move.
pub open spec fn goal_col(s: Side) -> int {
    match s {
        Side::White => 3,
        Side::Black => 0,
    }
}

/// `i` is the first cell of `b` that holds `c`.
pub open spec fn first_at(b: Seq<Cell>, c: Cell, i: int) -> bool {
    &&& 0 <= i < b.len()
    &&& b[i] == c
    &&& forall|j: int| 0 <= j < i ==> b[j] != c
}

/// The first pawn of the opponent, in cell order, stands in the goal column of
/// the side to move.
pub open spec fn opponent_at_goal(p: Position) -> bool {
    exists|i: int|
        #![trigger first_at(p.board, pawn_of(other_side(p.side)), i)]
        first_at(p.board, pawn_of(other_side(p.side)), i) && col_of(i) == goal_col(p.side)
}

/// The side to move has lost: the opponent stands on its goal, or it cannot move.
pub open spec fn is_lost(p: Position) -> bool {
    opponent_at_goal(p) || legal_moves(p).len() == 0
}

/// Every generated move leaves from a pawn of the side to move and goes one row
/// forward, to a cell of the grid.
pub proof fn lemma_moves_forward(p: Position, n: int, k: int)
    requires
        p.board.len() == CELLS,
        n <= CELLS,
        0 <= k < moves_upto(p, n).len(),
    ensures
        0 <= moves_upto(p, n)[k].0 < CELLS,
        0 <= moves_upto(p, n)[k].1 < CELLS,
        p.board[moves_upto(p, n)[k].0] == pawn_of(p.side),
        p.side == Side::White ==> row_of(moves_upto(p, n)[k].1) == row_of(moves_upto(p, n)[k].0)
            - 1,
        p.side == Side::Black ==> row_of(moves_upto(p, n)[k].1) == row_of(moves_upto(p, n)[k].0)
            + 1,
        p.board[moves_upto(p, n)[k].1] != pawn_of(p.side),
    decreases n,
{
    if n > 0 {
        if k < moves_upto(p, n - 1).len() {
            lemma_moves_forward(p, n - 1, k);
        }
    }
}

/// What the pawn on `index` may do, as `move_target` states.
fn target_of(state: &State, index: usize) -> (r: Option<usize>)
    requires
        state.wf(),
        index < CELLS,
    ensures
        match r {
            Some(d) => move_target(state@, index as int) == Some(d as int),
            None => move_target(state@, index as int) is None,
        },
{
    let b = &state.board;
    let mine = match state.side {
        Side::White => Cell::White,
        Side::Black => Cell::Black,
    };
    let theirs = match state.side {
        Side::White => Cell::Black,
        Side::Black => Cell::White,
    };
    if b[index] != mine {
        return None;
    }
    let col = index % WIDTH;
    match state.side {
        Side::White => {
            if index < WIDTH {
                None
            } else if b[index - 4] == Cell::Empty {
                Some(index - 4)
            } else if col < 3 && b[index - 3] == theirs {
                Some(index - 3)
            } else if col > 0 && b[index - 5] == theirs {
                Some(index - 5)
            } else {
                None
            }
        },
        Side::Black => {
            if index >= CELLS - WIDTH {
                None
            } else if b[index + 4] == Cell::Empty {
                Some(index + 4)
            } else if col > 0 && b[index + 3] == theirs {
                Some(index + 3)
            } else if col < 3 && b[index + 5] == theirs {
                Some(index + 5)
            } else {
                None
            }
        },
    }
}

/// The legal moves of the side to move, in the order of their source cells.
pub fn generate_legal_moves(state: &State) -> (r: Vec<(usize, usize)>)
    requires
        state.wf(),
    ensures
        r@.map_values(|m: (usize, usize)| move_view(m)) == legal_moves(state@),
{
    let mut moves: Vec<(usize, usize)> = Vec::new();
    let mut index: usize = 0;
    while index < CELLS
        invariant
            state.wf(),
            index <= CELLS,
            moves@.map_values(|m: (usize, usize)| move_view(m)) == moves_upto(state@, index as int),
        decreases CELLS - index,
    {
        match target_of(state, index) {
            Some(d) => {
                moves.push((index, d));
            },
            None => {},
        }
        proof {
            assert(moves@.map_values(|m: (usize, usize)| move_view(m)) =~= moves_upto(
                state@,
                index + 1,
            ));
        }
        index = index + 1;
    }
    moves
}

/// Whether the opponent's first pawn, in cell order, stands in the goal column
/// of the side to move.
pub fn is_opponent_win(state: &State) -> (r: bool)
    requires
        state.wf(),
    ensures
        r == opponent_at_goal(state@),
{
    let theirs = match state.side {
        Side::White => Cell::Black,
        Side::Black => Cell::White,
    };
    let goal: usize = match state.side {
        Side::White => 3,
        Side::Black => 0,
    };
    let ghost c = pawn_of(other_side(state.side));
    let mut index: usize = 0;
    while index < CELLS
        invariant
            state.wf(),
            index <= CELLS,
            theirs == c,
            c == pawn_of(other_side(state.side)),
            goal == goal_col(state.side),
            forall|j: int| 0 <= j < index ==> state.board@[j] != c,
        decreases CELLS - index,
    {
        if state.board[index] == theirs {
            let at_goal = index % WIDTH == goal;
            proof {
                if at_goal {
                    assert(first_at(state@.board, pawn_of(other_side(state@.side)), index as int));
                } else {
                    assert forall|k: int|
                        first_at(state.board@, c, k) implies col_of(k) != goal_col(
                        state.side,
                    ) by {
                        if k > index {
                            assert(state.board@[index as int] == c);
                        }
                    }
                }
            }
            return at_goal;
        }
        index = index + 1;
    }
    false
}

/// Whether the side to move has already lost, before any search.
pub fn is_lost_position(state: &State) -> (r: bool)
    requires
        state.wf(),
    ensures
        r == is_lost(state@),
{
    if is_opponent_win(state) {
        return true;
    }
    let moves = generate_legal_moves(state);
    moves.len() == 0
}

} // verus!
