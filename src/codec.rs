use vstd::prelude::*;
use crate::board::{
    Cell, Side, State, Position, CELLS, cell_digit, encode, key_from, key_of, well_formed,
};

verus! {

/// The character that stands for a cell in the text of a position.
pub open spec fn cell_char(c: Cell) -> char {
    match c {
        Cell::Empty => '.',
        Cell::White => 'P',
        Cell::Black => 'p',
    }
}

/// The character that stands for the side to move.
pub open spec fn side_char(s: Side) -> char {
    match s {
        Side::White => 'W',
        Side::Black => 'B',
    }
}

/// The text of a position: its cells row by row, then the side to move.
pub open spec fn text_of(p: Position) -> Seq<char> {
    p.board.map_values(|c: Cell| cell_char(c)).push(side_char(p.side))
}

pub open spec fn char_cell(ch: char) -> Option<Cell> {
    if ch == '.' {
        Some(Cell::Empty)
    } else if ch == 'P' {
        Some(Cell::White)
    } else if ch == 'p' {
        Some(Cell::Black)
    } else {
        None
    }
}

pub open spec fn char_side(ch: char) -> Option<Side> {
    if ch == 'W' {
        Some(Side::White)
    } else if ch == 'B' {
        Some(Side::Black)
    } else {
        None
    }
}

/// The position a text stands for, if it is the text of one.
pub open spec fn parse_text(t: Seq<char>) -> Option<Position> {
    if t.len() == CELLS + 1 && (forall|i: int| 0 <= i < CELLS ==> #[trigger] char_cell(t[i]) is Some)
        && char_side(t[CELLS as int]) is Some {
        Some(
            Position {
                board: t.subrange(0, CELLS as int).map_values(|ch: char| char_cell(ch).unwrap()),
                side: char_side(t[CELLS as int]).unwrap(),
            },
        )
    } else {
        None
    }
}

/// Reading back the text of a well-formed position gives the position.
pub proof fn lemma_text_round_trip(p: Position)
    requires
        well_formed(p),
    ensures
        parse_text(text_of(p)) == Some(p),
{
    let t = text_of(p);
    assert forall|i: int| 0 <= i < CELLS implies #[trigger] char_cell(t[i]) is Some by {
        assert(t[i] == cell_char(p.board[i]));
    }
    let q = parse_text(t).unwrap();
    assert(q.board =~= p.board);
}

/// The text of a position, as the persisted table writes its keys.
pub fn key_text(state: &State) -> (r: String)
    requires
        state.wf(),
    ensures
        r@ == text_of(state@),
{
    let mut text = String::new();
    let mut i: usize = 0;
    proof {
        reveal_strlit(".");
        reveal_strlit("P");
        reveal_strlit("p");
        reveal_strlit("W");
        reveal_strlit("B");
    }
    while i < CELLS
        invariant
            state.wf(),
            i <= CELLS,
            text@ == state.board@.subrange(0, i as int).map_values(|c: Cell| cell_char(c)),
            "."@ == seq!['.'],
            "P"@ == seq!['P'],
            "p"@ == seq!['p'],
        decreases CELLS - i,
    {
        match state.board[i] {
            Cell::Empty => text.append("."),
            Cell::White => text.append("P"),
            Cell::Black => text.append("p"),
        }
        assert(state.board@.subrange(0, i + 1) =~= state.board@.subrange(0, i as int).push(
            state.board@[i as int],
        ));
        i = i + 1;
    }
    match state.side {
        Side::White => text.append("W"),
        Side::Black => text.append("B"),
    }
    assert(state.board@.subrange(0, CELLS as int) =~= state.board@);
    assert(text@ =~= text_of(state@));
    text
}

/// Reads a position from its text: sixteen cells ('.', 'P', 'p'), then the
/// side to move ('W', 'B').
pub fn parse_state(text: &str) -> (r: Option<State>)
    ensures
        match r {
            Some(s) => parse_text(text@) == Some(s@) && s.wf(),
            None => parse_text(text@) is None,
        },
{
    let n = text.unicode_len();
    if n != CELLS + 1 {
        return None;
    }
    let mut board: Vec<Cell> = Vec::new();
    let mut i: usize = 0;
    while i < CELLS
        invariant
            n == CELLS + 1,
            text@.len() == n,
            i <= CELLS,
            board@.len() == i,
            forall|j: int| 0 <= j < i ==> #[trigger] char_cell(text@[j]) == Some(board@[j]),
        decreases CELLS - i,
    {
        let ch = text.get_char(i);
        let cell = if ch == '.' {
            Cell::Empty
        } else if ch == 'P' {
            Cell::White
        } else if ch == 'p' {
            Cell::Black
        } else {
            assert(char_cell(text@[i as int]) is None);
            return None;
        };
        board.push(cell);
        i = i + 1;
    }
    let ch = text.get_char(CELLS);
    let side = if ch == 'W' {
        Side::White
    } else if ch == 'B' {
        Side::Black
    } else {
        return None;
    };
    let state = State { board, side };
    assert(forall|j: int| 0 <= j < CELLS ==> #[trigger] char_cell(text@[j]) is Some);
    assert(parse_text(text@).unwrap().board =~= state.board@);
    Some(state)
}

proof fn lemma_digit_split(d: int, x: int)
    requires
        0 <= d < 4,
        0 <= x,
    ensures
        (d + 4 * x) % 4 == d,
        (d + 4 * x) / 4 == x,
{
    assert((d + 4 * x) % 4 == d && (d + 4 * x) / 4 == x) by (nonlinear_arith)
        requires
            0 <= d < 4,
            0 <= x,
    ;
}

/// The position whose key is `key`, if there is one.
pub fn decode(key: u64) -> (r: Option<State>)
    ensures
        match r {
            Some(s) => s.wf() && key_of(s@) == key,
            None => forall|p: Position| well_formed(p) ==> key_of(p) != key,
        },
{
    let mut board: Vec<Cell> = Vec::new();
    let mut rest: u64 = key;
    let mut i: usize = 0;
    while i < CELLS
        invariant
            i <= CELLS,
            board@.len() == i,
            forall|p: Position|
                well_formed(p) && key_of(p) == key ==> board@ == p.board.subrange(0, i as int)
                    && #[trigger] key_from(p.board, p.side, i as int) == rest,
        decreases CELLS - i,
    {
        let digit = rest % 4;
        proof {
            assert forall|p: Position| well_formed(p) && key_of(p) == key implies rest % 4
                == cell_digit(p.board[i as int]) && rest / 4 == key_from(p.board, p.side, i + 1)
                by {
                assert(key_from(p.board, p.side, i as int) == rest);
                lemma_digit_split(
                    cell_digit(p.board[i as int]) as int,
                    key_from(p.board, p.side, i + 1) as int,
                );
            }
        }
        if digit == 3 {
            return None;
        }
        let cell = if digit == 0 {
            Cell::Empty
        } else if digit == 1 {
            Cell::White
        } else {
            Cell::Black
        };
        let ghost before = board@;
        board.push(cell);
        proof {
            assert forall|p: Position| well_formed(p) && key_of(p) == key implies board@
                == p.board.subrange(0, i + 1) && #[trigger] key_from(p.board, p.side, i + 1)
                == rest / 4 by {
                assert(key_from(p.board, p.side, i as int) == rest);
                lemma_digit_split(
                    cell_digit(p.board[i as int]) as int,
                    key_from(p.board, p.side, i + 1) as int,
                );
                assert(cell_digit(p.board[i as int]) == digit);
                assert(p.board[i as int] == cell);
                assert(p.board.subrange(0, i + 1) =~= p.board.subrange(0, i as int).push(
                    p.board[i as int],
                ));
            }
        }
        rest = rest / 4;
        i = i + 1;
    }
    let side = if rest == 0 {
        Side::White
    } else if rest == 1 {
        Side::Black
    } else {
        proof {
            assert forall|p: Position| well_formed(p) implies key_of(p) != key by {
                if key_of(p) == key {
                    assert(key_from(p.board, p.side, CELLS as int) == rest);
                }
            }
        }
        return None;
    };
    let state = State { board, side };
    if encode(&state) == key {
        Some(state)
    } else {
        proof {
            assert forall|p: Position| well_formed(p) implies key_of(p) != key by {
                if key_of(p) == key {
                    assert(key_from(p.board, p.side, CELLS as int) == rest);
                    assert(p.board.subrange(0, CELLS as int) =~= p.board);
                    assert(state@ == p);
                }
            }
        }
        None
    }
}

} // verus!
