//! The grid walk: the agent moves between the squares of a grid and the two
//! opposite corners end an episode.
use vstd::prelude::*;

verus! {

/// A square of the grid.
#[derive(Clone, Copy, Debug, PartialEq, Eq, Hash, Structural)]
pub struct State {
    pub row: i32,
    pub col: i32,
}

#[derive(Clone, Copy, Debug, PartialEq, Eq, Hash, PartialOrd, Ord, Structural)]
pub enum Action {
    Up,
    Down,
    Left,
    Right,
}

impl State {
    pub fn new(r: i32, c: i32) -> (s: State)
        ensures
            s.row == r,
            s.col == c,
    {
        State { row: r, col: c }
    }

    /// The square lies on a grid of `rows` by `cols`.
    pub open spec fn on_grid(&self, rows: int, cols: int) -> bool {
        0 <= self.row < rows && 0 <= self.col < cols
    }
}

/// The top-left and the bottom-right corners end an episode.
pub open spec fn is_final_spec(rows: int, cols: int, s: State) -> bool {
    (s.row == 0 && s.col == 0) || (s.row == rows - 1 && s.col == cols - 1)
}

/// The square reached from `s` by `a`; a move into the edge of the grid
/// leaves the agent where it is.
pub open spec fn move_spec(rows: int, cols: int, s: State, a: Action) -> State {
    match a {
        Action::Up => State { row: if s.row > 0 { (s.row - 1) as i32 } else { 0 }, col: s.col },
        Action::Down => State {
            row: if s.row + 1 < rows { (s.row + 1) as i32 } else { (rows - 1) as i32 },
            col: s.col,
        },
        Action::Left => State { row: s.row, col: if s.col > 0 { (s.col - 1) as i32 } else { 0 } },
        Action::Right => State {
            row: s.row,
            col: if s.col + 1 < cols { (s.col + 1) as i32 } else { (cols - 1) as i32 },
        },
    }
}

pub fn is_final(rows: i32, cols: i32, s: &State) -> (r: bool)
    ensures
        r == is_final_spec(rows as int, cols as int, *s),
{
    (s.row == 0 && s.col == 0) || (s.row as i64 == rows as i64 - 1 && s.col as i64 == cols as i64 - 1)
}

/// The square reached from `s` by `a`.
pub fn move_to(rows: i32, cols: i32, s: &State, a: Action) -> (r: State)
    requires
        s.on_grid(rows as int, cols as int),
    ensures
        r == move_spec(rows as int, cols as int, *s, a),
        r.on_grid(rows as int, cols as int),
{
    match a {
        Action::Up => State::new(if s.row > 0 { s.row - 1 } else { 0 }, s.col),
        Action::Down => State::new(if s.row < rows - 1 { s.row + 1 } else { rows - 1 }, s.col),
        Action::Left => State::new(s.row, if s.col > 0 { s.col - 1 } else { 0 }),
        Action::Right => State::new(s.row, if s.col < cols - 1 { s.col + 1 } else { cols - 1 }),
    }
}

/// The moves open in a square and where they lead: all four actions, but
/// none in a final corner.
pub open spec fn transitions_spec(rows: int, cols: int, s: State) -> Seq<(Action, State)> {
    if is_final_spec(rows, cols, s) {
        seq![]
    } else {
        seq![
            (Action::Up, move_spec(rows, cols, s, Action::Up)),
            (Action::Down, move_spec(rows, cols, s, Action::Down)),
            (Action::Left, move_spec(rows, cols, s, Action::Left)),
            (Action::Right, move_spec(rows, cols, s, Action::Right)),
        ]
    }
}

/// The moves open in a square and where they lead.
pub fn transitions(rows: i32, cols: i32, s: &State) -> (r: Vec<(Action, State)>)
    requires
        s.on_grid(rows as int, cols as int),
    ensures
        r@ == transitions_spec(rows as int, cols as int, *s),
{
    let mut moves: Vec<(Action, State)> = Vec::new();
    if !is_final(rows, cols, s) {
        moves.push((Action::Up, move_to(rows, cols, s, Action::Up)));
        moves.push((Action::Down, move_to(rows, cols, s, Action::Down)));
        moves.push((Action::Left, move_to(rows, cols, s, Action::Left)));
        moves.push((Action::Right, move_to(rows, cols, s, Action::Right)));
    }
    assert(moves@ =~= transitions_spec(rows as int, cols as int, *s));
    moves
}

/// Every square of a grid of `rows` by `cols`, row by row, with the moves
/// open in it.
pub fn grid_transitions(rows: i32, cols: i32) -> (r: Vec<(State, Vec<(Action, State)>)>)
    requires
        rows > 0,
        cols > 0,
        rows * cols <= i32::MAX,
    ensures
        r@.len() == rows * cols,
        forall|k: int|
            0 <= k < r@.len() ==> {
                let (s, moves) = #[trigger] r@[k];
                &&& s.on_grid(rows as int, cols as int)
                &&& s.row * cols + s.col == k
                &&& moves@ == transitions_spec(rows as int, cols as int, s)
            },
{
    let mut all: Vec<(State, Vec<(Action, State)>)> = Vec::new();
    let mut row: i32 = 0;
    while row < rows
        invariant
            0 <= row <= rows,
            rows * cols <= i32::MAX,
            cols > 0,
            all@.len() == row * cols,
            forall|k: int|
                0 <= k < all@.len() ==> {
                    let (s, moves) = #[trigger] all@[k];
                    &&& s.on_grid(rows as int, cols as int)
                    &&& s.row * cols + s.col == k
                    &&& moves@ == transitions_spec(rows as int, cols as int, s)
                },
        decreases rows - row,
    {
        let mut col: i32 = 0;
        while col < cols
            invariant
                0 <= row < rows,
                0 <= col <= cols,
                rows * cols <= i32::MAX,
                all@.len() == row * cols + col,
                forall|k: int|
                    0 <= k < all@.len() ==> {
                        let (s, moves) = #[trigger] all@[k];
                        &&& s.on_grid(rows as int, cols as int)
                        &&& s.row * cols + s.col == k
                        &&& moves@ == transitions_spec(rows as int, cols as int, s)
                    },
            decreases cols - col,
        {
            let s = State::new(row, col);
            let moves = transitions(rows, cols, &s);
            all.push((s, moves));
            col = col + 1;
        }
        assert(row * cols + cols == (row + 1) * cols) by (nonlinear_arith);
        row = row + 1;
    }
    all
}

} // verus!
