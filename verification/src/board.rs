use vstd::prelude::*;

use crate::grid::{at, in_bounds, set_at, square};

verus! {

/// What occupies one intersection of the board.
#[derive(Clone, Copy, PartialEq, Eq, Structural, Debug)]
pub enum Stone {
    Empty,
    Black,
    White,
}

/// The colour that moves after `s`: White after Black, Black otherwise.
pub open spec fn opponent_of(s: Stone) -> Stone {
    match s {
        Stone::Black => Stone::White,
        _ => Stone::Black,
    }
}

/// The stones of a grid, row by row.
pub open spec fn rows(grid: Seq<Vec<Stone>>) -> Seq<Seq<Stone>> {
    grid.map_values(|row: Vec<Stone>| row@)
}

/// The whole state of one game.
///
/// `grid[y][x]` is the intersection in column `x` and row `y`.  Komi is kept
/// in tenths of a point, so that the usual 6.5 points are exactly `65`.
pub struct Board {
    pub size: usize,
    pub grid: Vec<Vec<Stone>>,
    pub turn: Stone,
    pub black_captures: usize,
    pub white_captures: usize,
    pub consecutive_passes: usize,
    pub ko_forbidden: Option<(usize, usize)>,
    pub game_over: bool,
    pub black_territory: usize,
    pub white_territory: usize,
    pub komi_tenths: usize,
    pub overlay_spawned: bool,
}

impl Board {
    /// The stones of the board, row by row.
    pub open spec fn cells(&self) -> Seq<Seq<Stone>> {
        rows(self.grid@)
    }

    /// The board is square with side `size`, its cells can be numbered in a
    /// `usize`, and the player to move is Black or White.
    pub open spec fn wf(&self) -> bool {
        &&& square(self.cells(), self.size as int)
        &&& self.size * self.size <= usize::MAX
        &&& (self.turn == Stone::Black || self.turn == Stone::White)
    }

    /// Everything but the stones is the same in `self` and `other`.
    pub open spec fn same_but_stones(&self, other: &Board) -> bool {
        &&& self.size == other.size
        &&& self.turn == other.turn
        &&& self.black_captures == other.black_captures
        &&& self.white_captures == other.white_captures
        &&& self.consecutive_passes == other.consecutive_passes
        &&& self.ko_forbidden == other.ko_forbidden
        &&& self.game_over == other.game_over
        &&& self.black_territory == other.black_territory
        &&& self.white_territory == other.white_territory
        &&& self.komi_tenths == other.komi_tenths
        &&& self.overlay_spawned == other.overlay_spawned
    }

    /// A board as a new game starts: 19 x 19 and empty, Black to move,
    /// nothing captured or counted, no ko point, komi 6.5.
    pub open spec fn is_fresh(&self) -> bool {
        &&& self.size == 19
        &&& self.wf()
        &&& forall|q: (usize, usize)| in_bounds(19, q) ==> #[trigger] at(self.cells(), q) == Stone::Empty
        &&& self.turn == Stone::Black
        &&& self.black_captures == 0
        &&& self.white_captures == 0
        &&& self.consecutive_passes == 0
        &&& self.ko_forbidden is None
        &&& !self.game_over
        &&& self.black_territory == 0
        &&& self.white_territory == 0
        &&& self.komi_tenths == 65
        &&& !self.overlay_spawned
    }

    /// What holds in every state a game reaches: the game is over exactly
    /// when two passes in a row were made, there are never more than two,
    /// the result is shown only once the game is over, and the ko point is
    /// an empty point of the board.
    pub open spec fn consistent(&self) -> bool {
        &&& self.wf()
        &&& self.game_over == (self.consecutive_passes >= 2)
        &&& self.consecutive_passes <= 2
        &&& (self.overlay_spawned ==> self.game_over)
        &&& (self.ko_forbidden matches Some(q) ==> in_bounds(self.size as int, q) && at(self.cells(), q)
            == Stone::Empty)
    }

    /// The stone at column `x`, row `y`.
    pub fn stone_at(&self, x: usize, y: usize) -> (s: Stone)
        requires
            self.wf(),
            x < self.size,
            y < self.size,
        ensures
            s == at(self.cells(), (x, y)),
    {
        self.grid[y][x]
    }

    /// Puts `s` on column `x`, row `y`, and changes nothing else.
    pub fn put(&mut self, x: usize, y: usize, s: Stone)
        requires
            old(self).wf(),
            x < old(self).size,
            y < old(self).size,
        ensures
            final(self).wf(),
            final(self).same_but_stones(&*old(self)),
            final(self).cells() == set_at(old(self).cells(), (x, y), s),
    {
        let ghost g0 = self.cells();
        assert(self.cells()[y as int].len() == self.size);
        self.grid[y].set(x, s);
        proof {
            assert(self.cells() =~= set_at(g0, (x, y), s));
        }
    }
}

/// An empty square grid of side `n`.
pub fn empty_grid(n: usize) -> (grid: Vec<Vec<Stone>>)
    ensures
        square(rows(grid@), n as int),
        forall|q: (usize, usize)|
            in_bounds(n as int, q) ==> #[trigger] at(rows(grid@), q)
                == Stone::Empty,
{
    let mut grid: Vec<Vec<Stone>> = Vec::new();
    let mut i: usize = 0;
    while i < n
        invariant
            i <= n,
            grid@.len() == i,
            forall|y: int| 0 <= y < i ==> #[trigger] grid@[y]@.len() == n,
            forall|y: int, x: int| 0 <= y < i && 0 <= x < n ==> #[trigger] grid@[y]@[x] == Stone::Empty,
        decreases n - i,
    {
        let mut row: Vec<Stone> = Vec::new();
        let mut j: usize = 0;
        while j < n
            invariant
                j <= n,
                row@.len() == j,
                forall|x: int| 0 <= x < j ==> #[trigger] row@[x] == Stone::Empty,
            decreases n - j,
        {
            row.push(Stone::Empty);
            j = j + 1;
        }
        grid.push(row);
        proof {
            assert forall|y: int, x: int| 0 <= y < i + 1 && 0 <= x < n implies #[trigger] grid@[y]@[x]
                == Stone::Empty by {
                if y == i {
                    assert(grid@[y]@ == row@);
                }
            }
        }
        i = i + 1;
    }
    proof {
        let g = rows(grid@);
        assert forall|y: int| 0 <= y < n implies #[trigger] g[y].len() == n by {
            assert(g[y] == grid@[y]@);
        }
        assert forall|q: (usize, usize)| in_bounds(n as int, q) implies #[trigger] at(g, q) == Stone::Empty by {
            assert(g[q.1 as int] == grid@[q.1 as int]@);
            assert(grid@[q.1 as int]@[q.0 as int] == Stone::Empty);
        }
    }
    grid
}

/// The letter that names column `i`: A to T, leaving out I.
pub open spec fn column_letter(i: int) -> char {
    if i < 8 {
        (65 + i) as char
    } else {
        (66 + i) as char
    }
}

/// The label under column `i` of the 19-line board, if it has one.
pub fn column_label(i: usize) -> (label: Option<char>)
    ensures
        label == if i < 19 {
            Some(column_letter(i as int))
        } else {
            None
        },
{
    if i < 19 {
        let code: u8 = if i < 8 {
            65 + i as u8
        } else {
            66 + i as u8
        };
        Some(code as char)
    } else {
        None
    }
}

impl Default for Board {
    /// A new game: an empty 19 x 19 board with Black to move and komi 6.5.
    fn default() -> (b: Board)
        ensures
            b.is_fresh(),
            b.consistent(),
    {
        let grid = empty_grid(19);
        assert(19 * 19 <= usize::MAX) by (nonlinear_arith);
        Board {
            size: 19,
            grid,
            turn: Stone::Black,
            black_captures: 0,
            white_captures: 0,
            consecutive_passes: 0,
            ko_forbidden: None,
            game_over: false,
            black_territory: 0,
            white_territory: 0,
            komi_tenths: 65,
            overlay_spawned: false,
        }
    }
}

} // verus!
