use vstd::prelude::*;

verus! {

/// Number of columns of the grid.
pub const WIDTH: usize = 4;

/// Number of cells of the grid (four rows of four columns).
pub const CELLS: usize = 16;

/// What a cell of the grid holds.
#[derive(Clone, Copy, Debug, PartialEq, Eq, Structural, Hash)]
pub enum Cell {
    Empty,
    /// A pawn of the side that starts on the last row and moves toward row 0.
    White,
    /// A pawn of the side that starts on row 0 and moves toward the last row.
    Black,
}

/// The side to move.
#[derive(Clone, Copy, Debug, PartialEq, Eq, Structural, Hash)]
pub enum Side {
    White,
    Black,
}

/// A position: the grid, row by row, and the side to move.
#[derive(Clone, Debug, PartialEq, Eq, Hash)]
pub struct State {
    pub board: Vec<Cell>,
    pub side: Side,
}

/// The mathematical value of a `State`.
pub struct Position {
    pub board: Seq<Cell>,
    pub side: Side,
}

impl View for State {
    type V = Position;

    open spec fn view(&self) -> Position {
        Position { board: self.board@, side: self.side }
    }
}

pub open spec fn row_of(i: int) -> int {
    i / WIDTH as int
}

pub open spec fn col_of(i: int) -> int {
    i % WIDTH as int
}

/// A position is well formed when its grid has exactly `CELLS` cells.
pub open spec fn well_formed(p: Position) -> bool {
    p.board.len() == CELLS
}

impl State {
    pub open spec fn wf(&self) -> bool {
        well_formed(self@)
    }
}

pub open spec fn other_side(s: Side) -> Side {
    match s {
        Side::White => Side::Black,
        Side::Black => Side::White,
    }
}

/// The pawn marker of a side.
pub open spec fn pawn_of(s: Side) -> Cell {
    match s {
        Side::White => Cell::White,
        Side::Black => Cell::Black,
    }
}

/// The position reached by moving what stands on `src` to `dst`: `dst` takes the
/// marker of `src`, `src` becomes empty, and the other side is to move.
pub open spec fn apply(p: Position, src: int, dst: int) -> Position {
    Position {
        board: p.board.update(dst, p.board[src]).update(src, Cell::Empty),
        side: other_side(p.side),
    }
}

/// The starting position: Black's four pawns on row 0, White's four on the
/// last row, White to move.
pub open spec fn start_position() -> Position {
    Position {
        board: Seq::new(
            CELLS as nat,
            |i: int|
                if i < WIDTH {
                    Cell::Black
                } else if i >= CELLS - WIDTH {
                    Cell::White
                } else {
                    Cell::Empty
                },
        ),
        side: Side::White,
    }
}

/// The position every solve of the game starts from.
pub fn initial_state() -> (r: State)
    ensures
        r@ == start_position(),
        r.wf(),
{
    let mut board: Vec<Cell> = Vec::new();
    let mut i: usize = 0;
    while i < CELLS
        invariant
            i <= CELLS,
            board@ =~= start_position().board.subrange(0, i as int),
        decreases CELLS - i,
    {
        let cell = if i < WIDTH {
            Cell::Black
        } else if i >= CELLS - WIDTH {
            Cell::White
        } else {
            Cell::Empty
        };
        board.push(cell);
        i = i + 1;
    }
    assert(board@ =~= start_position().board);
    State { board, side: Side::White }
}

/// The side that moves after `side`.
pub fn opponent(side: Side) -> (r: Side)
    ensures
        r == other_side(side),
{
    match side {
        Side::White => Side::Black,
        Side::Black => Side::White,
    }
}

/// Moves the marker on `old_pos` to `new_pos`, empties `old_pos` and passes the
/// turn. The move is not checked for legality; `state` is left as it is.
pub fn make_move(state: &State, old_pos: usize, new_pos: usize) -> (r: State)
    requires
        state.wf(),
        old_pos < CELLS,
        new_pos < CELLS,
    ensures
        r@ == apply(state@, old_pos as int, new_pos as int),
        r.wf(),
{
    let mut board = state.board.clone();
    let moving = board[old_pos];
    board.set(new_pos, moving);
    board.set(old_pos, Cell::Empty);
    State { board, side: opponent(state.side) }
}

/// How many rows a marker on cell `i` still has to go: a White pawn moves
/// toward row 0, a Black pawn toward the last row.
pub open spec fn steps_left(c: Cell, i: int) -> nat {
    match c {
        Cell::Empty => 0,
        Cell::White => row_of(i) as nat,
        Cell::Black => (3 - row_of(i)) as nat,
    }
}

/// The steps left to the markers on the first `n` cells.
pub open spec fn steps_upto(b: Seq<Cell>, n: int) -> nat
    decreases n,
{
    if n <= 0 {
        0
    } else {
        steps_upto(b, n - 1) + steps_left(b[n - 1], n - 1)
    }
}

/// The steps left to all pawns of a position; every move lowers it, so play
/// ends.
pub open spec fn potential(p: Position) -> nat {
    steps_upto(p.board, CELLS as int)
}

/// Changing one cell changes the total by the difference on that cell.
pub proof fn lemma_steps_update(b: Seq<Cell>, n: int, j: int, c: Cell)
    requires
        0 <= j < b.len(),
        n <= b.len(),
    ensures
        j < n ==> steps_upto(b.update(j, c), n) + steps_left(b[j], j) == steps_upto(b, n)
            + steps_left(c, j),
        j >= n ==> steps_upto(b.update(j, c), n) == steps_upto(b, n),
    decreases n,
{
    if n > 0 {
        lemma_steps_update(b, n - 1, j, c);
    }
}

/// A pawn that goes one row forward, taking whatever stood there, lowers the
/// potential.
pub proof fn lemma_forward_move_lowers(p: Position, src: int, dst: int)
    requires
        well_formed(p),
        0 <= src < CELLS,
        0 <= dst < CELLS,
        p.board[src] == pawn_of(p.side),
        p.side == Side::White ==> row_of(dst) == row_of(src) - 1,
        p.side == Side::Black ==> row_of(dst) == row_of(src) + 1,
    ensures
        potential(apply(p, src, dst)) < potential(p),
{
    let b1 = p.board.update(dst, p.board[src]);
    lemma_steps_update(p.board, CELLS as int, dst, p.board[src]);
    lemma_steps_update(b1, CELLS as int, src, Cell::Empty);
}

/// The digit of a cell in the numeric key.
pub open spec fn cell_digit(c: Cell) -> nat {
    match c {
        Cell::Empty => 0,
        Cell::White => 1,
        Cell::Black => 2,
    }
}

pub open spec fn side_digit(s: Side) -> nat {
    match s {
        Side::White => 0,
        Side::Black => 1,
    }
}

/// The key of cells `i..` and the side: one base-4 digit per cell, the side
/// above them all.
pub open spec fn key_from(b: Seq<Cell>, s: Side, i: int) -> nat
    decreases b.len() - i,
{
    if i >= b.len() || i < 0 {
        side_digit(s)
    } else {
        cell_digit(b[i]) + 4 * key_from(b, s, i + 1)
    }
}

/// The canonical key of a position.
pub open spec fn key_of(p: Position) -> nat {
    key_from(p.board, p.side, 0)
}

pub open spec fn pow4(n: nat) -> nat
    decreases n,
{
    if n == 0 {
        1
    } else {
        4 * pow4((n - 1) as nat)
    }
}

proof fn lemma_pow4_mono(m: nat, n: nat)
    requires
        m <= n,
    ensures
        pow4(m) <= pow4(n),
    decreases n,
{
    if m < n {
        lemma_pow4_mono(m, (n - 1) as nat);
    }
}

proof fn lemma_pow4_cells()
    ensures
        pow4(CELLS as nat) == 0x1_0000_0000,
{
    reveal_with_fuel(pow4, 17);
}

/// Over grids of one size, equal keys from cell `i` on mean equal sides and
/// equal cells from `i` on.
pub proof fn lemma_key_from_injective(b1: Seq<Cell>, s1: Side, b2: Seq<Cell>, s2: Side, i: int)
    requires
        b1.len() == b2.len(),
        0 <= i <= b1.len(),
        key_from(b1, s1, i) == key_from(b2, s2, i),
    ensures
        s1 == s2,
        b1.subrange(i, b1.len() as int) == b2.subrange(i, b2.len() as int),
    decreases b1.len() - i,
{
    if i < b1.len() {
        lemma_key_from_injective(b1, s1, b2, s2, i + 1);
        assert(b1[i] == b2[i]);
        assert(b1.subrange(i, b1.len() as int) =~= seq![b1[i]] + b1.subrange(
            i + 1,
            b1.len() as int,
        ));
        assert(b2.subrange(i, b2.len() as int) =~= seq![b2[i]] + b2.subrange(
            i + 1,
            b2.len() as int,
        ));
    }
}

/// Distinct well-formed positions have distinct keys.
pub proof fn lemma_key_injective(p: Position, q: Position)
    requires
        well_formed(p),
        well_formed(q),
        key_of(p) == key_of(q),
    ensures
        p == q,
{
    lemma_key_from_injective(p.board, p.side, q.board, q.side, 0);
    assert(p.board =~= p.board.subrange(0, CELLS as int));
    assert(q.board =~= q.board.subrange(0, CELLS as int));
}

/// The canonical key of a position: distinct positions get distinct keys.
pub fn encode(state: &State) -> (r: u64)
    requires
        state.wf(),
    ensures
        r == key_of(state@),
{
    let mut key: u64 = match state.side {
        Side::White => 0,
        Side::Black => 1,
    };
    let mut i: usize = CELLS;
    proof {
        lemma_pow4_cells();
    }
    while i > 0
        invariant
            state.wf(),
            i <= CELLS,
            key == key_from(state.board@, state.side, i as int),
            key < 2 * pow4((CELLS - i) as nat),
            pow4(CELLS as nat) == 0x1_0000_0000,
        decreases i,
    {
        proof {
            lemma_pow4_mono((CELLS - i) as nat, CELLS as nat);
        }
        let digit: u64 = match state.board[i - 1] {
            Cell::Empty => 0,
            Cell::White => 1,
            Cell::Black => 2,
        };
        key = 4 * key + digit;
        i = i - 1;
        assert(pow4((CELLS - i) as nat) == 4 * pow4((CELLS - i - 1) as nat));
    }
    key
}

} // verus!
