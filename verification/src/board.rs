use crate::dot::Dot;
use crate::tally::{one_if, tally};
use vstd::prelude::*;

verus! {

/// The mathematical view of a field: its size, the number of mines it was
/// made with, and two grids of `height` rows of `width` cells each. The cell
/// in column `x` of row `y` is `dots[y][x]`, and `opened[y][x]` says whether
/// it has been opened.
pub struct Board {
    pub width: int,
    pub height: int,
    pub mines: int,
    pub dots: Seq<Seq<Dot>>,
    pub opened: Seq<Seq<bool>>,
}

/// Two positions are the same, or touch by a side or a corner.
pub open spec fn near(a: (int, int), b: (int, int)) -> bool {
    a.0 - 1 <= b.0 <= a.0 + 1 && a.1 - 1 <= b.1 <= a.1 + 1
}

impl Board {
    /// The position lies on the board.
    pub open spec fn inside(self, x: int, y: int) -> bool {
        0 <= x < self.width && 0 <= y < self.height
    }

    /// Both grids have `height` rows of `width` cells, and neither is zero.
    pub open spec fn shaped(self) -> bool {
        &&& 0 < self.width
        &&& 0 < self.height
        &&& self.dots.len() == self.height
        &&& self.opened.len() == self.height
        &&& forall|y: int| 0 <= y < self.height ==> (#[trigger] self.dots[y]).len() == self.width
        &&& forall|y: int|
            0 <= y < self.height ==> (#[trigger] self.opened[y]).len() == self.width
    }

    /// The cell at a position.
    pub open spec fn dot(self, x: int, y: int) -> Dot {
        self.dots[y][x]
    }

    /// Whether the cell at a position has been opened.
    pub open spec fn shown(self, x: int, y: int) -> bool {
        self.opened[y][x]
    }

    /// The position lies on the board and holds a mine, flagged or not.
    pub open spec fn mine(self, x: int, y: int) -> bool {
        self.inside(x, y) && self.dot(x, y).mined()
    }

    /// The position lies on the board and holds a safe cell with no mine
    /// around it, flagged or not.
    pub open spec fn blank(self, x: int, y: int) -> bool {
        self.inside(x, y) && self.dot(x, y).blank()
    }

    /// The number of mines among the up to eight neighbours of a position.
    /// Neighbours beyond the edge do not count.
    pub open spec fn mines_near(self, x: int, y: int) -> int {
        one_if(self.mine(x - 1, y - 1)) + one_if(self.mine(x, y - 1)) + one_if(
            self.mine(x + 1, y - 1),
        ) + one_if(self.mine(x - 1, y)) + one_if(self.mine(x + 1, y)) + one_if(
            self.mine(x - 1, y + 1),
        ) + one_if(self.mine(x, y + 1)) + one_if(self.mine(x + 1, y + 1))
    }

    /// The grid that says of each cell whether it holds a mine.
    pub open spec fn mine_mask(self) -> Seq<Seq<bool>> {
        Seq::new(
            self.height as nat,
            |y: int| Seq::new(self.width as nat, |x: int| self.dot(x, y).mined()),
        )
    }

    /// The number of cells that hold a mine, flagged or not.
    pub open spec fn mine_total(self) -> int {
        tally(self.mine_mask())
    }

    /// The number of cells that have been opened.
    pub open spec fn opened_total(self) -> int {
        tally(self.opened)
    }

    /// The cells are those of a generated board: each is a mine or a safe
    /// cell under at most one flag, each safe cell holds the number of mines
    /// around it, and the board holds as many mines as it was made for, fewer
    /// than it has cells.
    pub open spec fn generated(self) -> bool {
        &&& 0 <= self.mines < self.width * self.height
        &&& self.mine_total() == self.mines
        &&& forall|x: int, y: int| self.inside(x, y) ==> (#[trigger] self.dot(x, y)).settled()
        &&& forall|x: int, y: int|
            self.inside(x, y) ==> ((#[trigger] self.dot(x, y)).base() matches Dot::Safe(n)
                ==> n == self.mines_near(x, y))
    }

    /// Every neighbour of the position, and the position itself, has been
    /// opened.
    pub open spec fn ringed(self, x: int, y: int) -> bool {
        forall|u: int, v: int|
            self.inside(u, v) && near((x, y), (u, v)) ==> #[trigger] self.shown(u, v)
    }

    /// No opened cell holds a mine, and around an opened cell that has no
    /// mine near it every cell is opened too.
    pub open spec fn swept(self) -> bool {
        &&& forall|x: int, y: int|
            self.inside(x, y) && #[trigger] self.shown(x, y) ==> !self.dot(x, y).mined()
        &&& forall|x: int, y: int|
            self.inside(x, y) && #[trigger] self.shown(x, y) && self.dot(x, y).blank()
                ==> self.ringed(x, y)
    }

    /// The board is one that a game can reach.
    pub open spec fn wf(self) -> bool {
        &&& self.shaped()
        &&& self.generated()
        &&& self.swept()
    }

    /// A walk over blank cells: it is not empty, every position on it is a
    /// safe cell of the board with no mine around it, and each position
    /// touches the one before.
    pub open spec fn blank_walk(self, path: Seq<(int, int)>) -> bool {
        &&& path.len() > 0
        &&& forall|k: int| 0 <= k < path.len() ==> self.blank((#[trigger] path[k]).0, path[k].1)
        &&& forall|k: int| 0 <= k < path.len() - 1 ==> #[trigger] hop(path, k)
    }

    /// The walk over blank cells leads from `a` to `b`.
    pub open spec fn joins(self, path: Seq<(int, int)>, a: (int, int), b: (int, int)) -> bool {
        self.blank_walk(path) && path[0] == a && path.last() == b
    }

    /// `a` and `b` lie in one region of blank cells: some walk over blank cells
    /// leads from one to the other.
    pub open spec fn linked(self, a: (int, int), b: (int, int)) -> bool {
        exists|path: Seq<(int, int)>| #[trigger] self.joins(path, a, b)
    }

    /// `c` lies in the blank region of `from` or at its border: it is, or
    /// touches, a blank cell that is linked to `from`.
    pub open spec fn reached(self, from: (int, int), c: (int, int)) -> bool {
        exists|z: (int, int)| #[trigger] self.linked(from, z) && near(z, c)
    }

    /// The board after the player has opened a position.
    ///
    /// A position off the board, one that holds a mine, and one that is open
    /// already leave the board as it is. Otherwise the position is opened, and
    /// if it has no mine around it, so are its whole region of blank cells and
    /// every cell at the border of that region.
    pub open spec fn after_open(self, x: int, y: int) -> Board {
        if !self.inside(x, y) || self.mine(x, y) || self.shown(x, y) {
            self
        } else {
            Board {
                opened: Seq::new(
                    self.height as nat,
                    |j: int|
                        Seq::new(
                            self.width as nat,
                            |i: int|
                                self.shown(i, j) || (i == x && j == y) || self.reached(
                                    (x, y),
                                    (i, j),
                                ),
                        ),
                ),
                ..self
            }
        }
    }

    /// The board after the player has toggled the flag at a position.
    ///
    /// A closed cell on the board gains a flag, or loses the one it has. A
    /// position off the board and an opened cell leave the board as it is.
    pub open spec fn after_flag(self, x: int, y: int) -> Board {
        if self.inside(x, y) && !self.shown(x, y) {
            Board {
                dots: self.dots.update(y, self.dots[y].update(x, self.dot(x, y).toggled())),
                ..self
            }
        } else {
            self
        }
    }
}

/// Step `k` of a walk leads to a position that touches the one it leaves.
pub open spec fn hop(path: Seq<(int, int)>, k: int) -> bool {
    near(path[k], path[k + 1])
}

} // verus!
