use crate::board::Board;
use crate::dot::Dot;
use crate::laws::{lemma_flag_keeps_wf, lemma_won_iff_cleared};
use crate::point::Point;
use crate::region::lemma_same_mines_near;
use crate::shuffle::shuffle;
use crate::tally::{lemma_tally_set, lemma_tally_zero, one_if, row_tally, tally};
use vstd::prelude::*;

verus! {

/// A game field.
pub struct Field {
    /// The number of columns.
    pub x_size: usize,
    /// The number of rows.
    pub y_size: usize,
    /// The number of mines the field was made with.
    pub mines: u32,
    /// The cells, row by row.
    pub field: Vec<Vec<Dot>>,
    /// Which cells have been opened, row by row.
    pub opened: Vec<Vec<bool>>,
    /// Where the field stands on the screen.
    pub position: Point,
}

impl View for Field {
    type V = Board;

    open spec fn view(&self) -> Board {
        Board {
            width: self.x_size as int,
            height: self.y_size as int,
            mines: self.mines as int,
            dots: Seq::new(self.field.len() as nat, |y: int| self.field[y]@),
            opened: Seq::new(self.opened.len() as nat, |y: int| self.opened[y]@),
        }
    }
}

/// The position is one of the first `n` of the list.
pub open spec fn picked(order: Seq<Point>, n: int, x: int, y: int) -> bool {
    exists|k: int| 0 <= k < n && 0 <= k < order.len() && (#[trigger] order[k])@ == (x, y)
}

/// The first `n` positions of the list lie on a field of the given size, and
/// no two of them are the same.
pub open spec fn orderly(order: Seq<Point>, n: int, width: int, height: int) -> bool {
    &&& 0 <= n <= order.len()
    &&& forall|k: int| 0 <= k < n ==> (#[trigger] order[k]).x < width && order[k].y < height
    &&& forall|j: int, k: int| 0 <= j < k < n ==> #[trigger] order[j] != #[trigger] order[k]
}

impl Field {
    /// The field is one that a game can reach.
    pub open spec fn wf(&self) -> bool {
        self@.wf()
    }

    /// Makes a field of `x_size` columns and `y_size` rows with `mines` mines
    /// at places drawn at random, every cell closed.
    ///
    /// The places are drawn from the random number generator of the running
    /// thread, which the system seeds and reseeds. Where the system cannot
    /// seed or reseed it, the call stops the program. [`Field::with_order`]
    /// makes a field without drawing.
    pub fn new(x_size: usize, y_size: usize, mines: u32, pos: Point) -> (f: Field)
        requires
            0 < x_size,
            0 < y_size,
            mines < x_size * y_size,
        ensures
            f.x_size == x_size,
            f.y_size == y_size,
            f.mines == mines,
            f.position == pos,
            f.wf(),
            f@.mine_total() == mines,
            forall|x: int, y: int|
                f@.inside(x, y) ==> !f@.shown(x, y) && (#[trigger] f@.dot(x, y) == Dot::Mine
                    || f@.dot(x, y) == Dot::Safe(f@.mines_near(x, y) as u8)),
    {
        let mut order = Self::grid_points(x_size, y_size);
        let ghost sorted = order@;
        let mut rng = rand::thread_rng();
        shuffle(&mut order, &mut rng);
        proof {
            sorted.to_multiset_ensures();
            order@.to_multiset_ensures();
            sorted.lemma_multiset_has_no_duplicates();
            order@.lemma_multiset_has_no_duplicates_conv();
            assert forall|k: int| 0 <= k < order@.len() implies (#[trigger] order@[k]).x < x_size
                && order@[k].y < y_size by {
                let p = order@[k];
                assert(order@.contains(p));
                assert(sorted.to_multiset().count(p) > 0);
                assert(sorted.contains(p));
                let j = choose|j: int| 0 <= j < sorted.len() && sorted[j] == p;
                assert(sorted[j].x < x_size);
            }
        }
        Self::with_order(x_size, y_size, mines, pos, &order)
    }

    /// Every position of a field of the given size, row by row.
    pub fn grid_points(x_size: usize, y_size: usize) -> (points: Vec<Point>)
        ensures
            points.len() == x_size * y_size,
            forall|k: int|
                0 <= k < points.len() ==> (#[trigger] points[k]).x < x_size && points[k].y < y_size
                    && k == points[k].y * x_size + points[k].x,
            points@.no_duplicates(),
    {
        let mut points: Vec<Point> = Vec::new();
        let mut y: usize = 0;
        assert(0 * x_size == 0);
        while y < y_size
            invariant
                y <= y_size,
                points.len() == y * x_size,
                forall|k: int|
                    0 <= k < points.len() ==> (#[trigger] points[k]).x < x_size && points[k].y
                        < y_size && k == points[k].y * x_size + points[k].x,
            decreases y_size - y,
        {
            let mut x: usize = 0;
            while x < x_size
                invariant
                    y < y_size,
                    x <= x_size,
                    points.len() == y * x_size + x,
                    forall|k: int|
                        0 <= k < points.len() ==> (#[trigger] points[k]).x < x_size
                            && points[k].y < y_size && k == points[k].y * x_size + points[k].x,
                decreases x_size - x,
            {
                points.push(Point::new(x, y));
                x += 1;
            }
            assert((y + 1) * x_size == y * x_size + x_size) by (nonlinear_arith);
            y += 1;
        }
        assert(points.len() == x_size * y_size) by (nonlinear_arith)
            requires
                points.len() == y * x_size,
                y == y_size,
        ;
        points
    }

    /// Makes a field of `x_size` columns and `y_size` rows whose mines lie at
    /// the first `mines` positions of `order`, every cell closed.
    pub fn with_order(
        x_size: usize,
        y_size: usize,
        mines: u32,
        pos: Point,
        order: &Vec<Point>,
    ) -> (f: Field)
        requires
            0 < x_size,
            0 < y_size,
            mines < x_size * y_size,
            orderly(order@, mines as int, x_size as int, y_size as int),
        ensures
            f.x_size == x_size,
            f.y_size == y_size,
            f.mines == mines,
            f.position == pos,
            f.wf(),
            f@.mine_total() == mines,
            forall|x: int, y: int| f@.inside(x, y) ==> !#[trigger] f@.shown(x, y),
            forall|x: int, y: int|
                f@.inside(x, y) ==> #[trigger] f@.dot(x, y) == (if picked(
                    order@,
                    mines as int,
                    x,
                    y,
                ) {
                    Dot::Mine
                } else {
                    Dot::Safe(f@.mines_near(x, y) as u8)
                }),
    {
        let mut field: Vec<Vec<Dot>> = Vec::new();
        let mut opened: Vec<Vec<bool>> = Vec::new();
        let mut y: usize = 0;
        while y < y_size
            invariant
                y <= y_size,
                field.len() == y,
                opened.len() == y,
                forall|j: int| 0 <= j < y ==> (#[trigger] field[j]).len() == x_size,
                forall|j: int| 0 <= j < y ==> (#[trigger] opened[j]).len() == x_size,
                forall|i: int, j: int|
                    0 <= i < x_size && 0 <= j < y ==> #[trigger] field[j][i] == Dot::Null,
                forall|i: int, j: int| 0 <= i < x_size && 0 <= j < y ==> !#[trigger] opened[j][i],
            decreases y_size - y,
        {
            let mut dots: Vec<Dot> = Vec::new();
            let mut flags: Vec<bool> = Vec::new();
            let mut x: usize = 0;
            while x < x_size
                invariant
                    x <= x_size,
                    dots.len() == x,
                    flags.len() == x,
                    forall|i: int| 0 <= i < x ==> #[trigger] dots[i] == Dot::Null,
                    forall|i: int| 0 <= i < x ==> !#[trigger] flags[i],
                decreases x_size - x,
            {
                dots.push(Dot::Null);
                flags.push(false);
                x += 1;
            }
            field.push(dots);
            opened.push(flags);
            y += 1;
        }
        let mut obj = Field {
            x_size: x_size,
            y_size: y_size,
            mines: mines,
            field: field,
            opened: opened,
            position: pos,
        };
        obj.init(order);
        obj
    }

    /// Lays the mines of a field whose cells are all still to be generated at
    /// the first `mines` positions of `order`, and gives every other cell the
    /// number of mines around it.
    fn init(&mut self, order: &Vec<Point>)
        requires
            old(self)@.shaped(),
            old(self).mines < old(self).x_size * old(self).y_size,
            orderly(order@, old(self)@.mines, old(self)@.width, old(self)@.height),
            forall|x: int, y: int|
                old(self)@.inside(x, y) ==> #[trigger] old(self)@.dot(x, y) == Dot::Null,
            forall|x: int, y: int| old(self)@.inside(x, y) ==> !#[trigger] old(self)@.shown(x, y),
        ensures
            final(self).x_size == old(self).x_size,
            final(self).y_size == old(self).y_size,
            final(self).mines == old(self).mines,
            final(self).position == old(self).position,
            final(self).opened == old(self).opened,
            final(self)@.wf(),
            forall|x: int, y: int|
                final(self)@.inside(x, y) ==> #[trigger] final(self)@.dot(x, y) == (if picked(
                    order@,
                    old(self)@.mines,
                    x,
                    y,
                ) {
                    Dot::Mine
                } else {
                    Dot::Safe(final(self)@.mines_near(x, y) as u8)
                }),
    {
        self.set_mines(order);
        let ghost laid = self@;
        self.set_numbers();
        proof {
            let done = self@;
            assert forall|i: int, j: int| done.inside(i, j) implies (#[trigger] done.dot(
                i,
                j,
            )).mined() == laid.dot(i, j).mined() by {}
            assert(done.mine_mask() =~~= laid.mine_mask());
            assert forall|i: int, j: int| done.inside(i, j) implies #[trigger] done.dot(i, j) == (
            if picked(order@, done.mines, i, j) {
                Dot::Mine
            } else {
                Dot::Safe(done.mines_near(i, j) as u8)
            }) && done.dot(i, j).settled() && (done.dot(i, j).base() matches Dot::Safe(n) ==> n
                == done.mines_near(i, j)) by {
                lemma_same_mines_near(done, laid, i, j);
            }
            assert forall|x: int, y: int| done.inside(x, y) implies !#[trigger] done.shown(
                x,
                y,
            ) by {
                assert(!old(self)@.shown(x, y));
            }
        }
    }

    /// Puts a mine at each of the first `mines` positions of `order`, on a
    /// field whose cells are all still to be generated.
    fn set_mines(&mut self, order: &Vec<Point>)
        requires
            old(self)@.shaped(),
            orderly(order@, old(self)@.mines, old(self)@.width, old(self)@.height),
            forall|x: int, y: int|
                old(self)@.inside(x, y) ==> #[trigger] old(self)@.dot(x, y) == Dot::Null,
        ensures
            final(self).x_size == old(self).x_size,
            final(self).y_size == old(self).y_size,
            final(self).mines == old(self).mines,
            final(self).position == old(self).position,
            final(self).opened == old(self).opened,
            final(self)@.shaped(),
            final(self)@.mine_total() == old(self).mines,
            forall|x: int, y: int|
                final(self)@.inside(x, y) ==> #[trigger] final(self)@.dot(x, y) == (if picked(
                    order@,
                    old(self)@.mines,
                    x,
                    y,
                ) {
                    Dot::Mine
                } else {
                    Dot::Null
                }),
    {
        let ghost b0 = self@;
        proof {
            let mask = b0.mine_mask();
            assert forall|x: int, y: int|
                0 <= y < mask.len() && 0 <= x < mask[y].len() implies !#[trigger] mask[y][x] by {
                assert(b0.dot(x, y) == Dot::Null);
            }
            lemma_tally_zero(mask);
        }
        let mut k: usize = 0;
        while k < self.mines as usize
            invariant
                self.x_size == old(self).x_size,
                self.y_size == old(self).y_size,
                self.mines == old(self).mines,
                self.position == old(self).position,
                self.opened == old(self).opened,
                self@.shaped(),
                orderly(order@, self@.mines, self@.width, self@.height),
                k <= self.mines,
                self@.mine_total() == k,
                forall|x: int, y: int|
                    self@.inside(x, y) ==> #[trigger] self@.dot(x, y) == (if picked(
                        order@,
                        k as int,
                        x,
                        y,
                    ) {
                        Dot::Mine
                    } else {
                        Dot::Null
                    }),
            decreases self.mines - k,
        {
            let p = order[k];
            let ghost before = self@;
            let ghost px = p.x as int;
            let ghost py = p.y as int;
            assert(before.dots[py].len() == before.width);
            assert(before.dot(px, py) == Dot::Null) by {
                if picked(order@, k as int, px, py) {
                    let j = choose|j: int|
                        0 <= j < k && 0 <= j < order@.len() && (#[trigger] order@[j])@ == (px, py);
                    assert(order@[j] == order@[k as int]);
                }
            }
            self.field[p.y][p.x] = Dot::Mine;
            proof {
                let mask = before.mine_mask();
                assert(self@.dots =~= before.dots.update(
                    py,
                    before.dots[py].update(px, Dot::Mine),
                ));
                assert(self@.mine_mask() =~~= mask.update(py, mask[py].update(px, true))) by {
                    assert forall|x: int, y: int| self@.inside(x, y) implies self@.dot(
                        x,
                        y,
                    ).mined() == (if x == px && y == py {
                        true
                    } else {
                        before.dot(x, y).mined()
                    }) by {}
                }
                lemma_tally_set(mask, px, py, true);
                assert forall|x: int, y: int| self@.inside(x, y) implies #[trigger] self@.dot(
                    x,
                    y,
                ) == (if picked(order@, k + 1, x, y) {
                    Dot::Mine
                } else {
                    Dot::Null
                }) by {
                    if x == px && y == py {
                        assert(order@[k as int]@ == (x, y));
                    } else {
                        assert(self@.dot(x, y) == before.dot(x, y));
                        if picked(order@, k + 1, x, y) {
                            let j = choose|j: int|
                                0 <= j < k + 1 && 0 <= j < order@.len() && (#[trigger] order@[j])@
                                    == (x, y);
                            assert(j != k);
                            assert(picked(order@, k as int, x, y));
                        }
                    }
                }
            }
            k += 1;
        }
    }

    /// Gives every cell that is still to be generated the number of mines
    /// around it.
    fn set_numbers(&mut self)
        requires
            old(self)@.shaped(),
            forall|x: int, y: int|
                old(self)@.inside(x, y) ==> #[trigger] old(self)@.dot(x, y) == Dot::Mine || old(
                    self,
                )@.dot(x, y) == Dot::Null,
        ensures
            final(self).x_size == old(self).x_size,
            final(self).y_size == old(self).y_size,
            final(self).mines == old(self).mines,
            final(self).position == old(self).position,
            final(self).opened == old(self).opened,
            final(self)@.shaped(),
            forall|x: int, y: int|
                final(self)@.inside(x, y) ==> #[trigger] final(self)@.dot(x, y) == (if old(
                    self,
                )@.dot(x, y) == Dot::Mine {
                    Dot::Mine
                } else {
                    Dot::Safe(old(self)@.mines_near(x, y) as u8)
                }),
    {
        let ghost b1 = self@;
        let mut y: usize = 0;
        while y < self.y_size
            invariant
                self.x_size == old(self).x_size,
                self.y_size == old(self).y_size,
                self.mines == old(self).mines,
                self.position == old(self).position,
                self.opened == old(self).opened,
                self@.shaped(),
                y <= self.y_size,
                b1 == old(self)@,
                b1.width == self@.width,
                b1.height == self@.height,
                forall|i: int, j: int|
                    b1.inside(i, j) ==> #[trigger] b1.dot(i, j) == Dot::Mine || b1.dot(i, j)
                        == Dot::Null,
                forall|i: int, j: int|
                    self@.inside(i, j) ==> #[trigger] self@.dot(i, j) == (if b1.dot(i, j)
                        == Dot::Mine {
                        Dot::Mine
                    } else if j < y {
                        Dot::Safe(b1.mines_near(i, j) as u8)
                    } else {
                        Dot::Null
                    }),
            decreases self.y_size - y,
        {
            let mut x: usize = 0;
            while x < self.x_size
                invariant
                    self.x_size == old(self).x_size,
                    self.y_size == old(self).y_size,
                    self.mines == old(self).mines,
                    self.position == old(self).position,
                    self.opened == old(self).opened,
                    self@.shaped(),
                    y < self.y_size,
                    x <= self.x_size,
                    b1 == old(self)@,
                    b1.width == self@.width,
                    b1.height == self@.height,
                    forall|i: int, j: int|
                        b1.inside(i, j) ==> #[trigger] b1.dot(i, j) == Dot::Mine || b1.dot(i, j)
                            == Dot::Null,
                    forall|i: int, j: int|
                        self@.inside(i, j) ==> #[trigger] self@.dot(i, j) == (if b1.dot(i, j)
                            == Dot::Mine {
                            Dot::Mine
                        } else if j < y || (j == y && i < x) {
                            Dot::Safe(b1.mines_near(i, j) as u8)
                        } else {
                            Dot::Null
                        }),
                decreases self.x_size - x,
            {
                let ghost before = self@;
                assert(before.dots[y as int].len() == before.width);
                assert(before.dot(x as int, y as int) == self.field[y as int][x as int]);
                let is_null = match self.field[y][x] {
                    Dot::Null => true,
                    _ => false,
                };
                if is_null {
                    let pos = Point::new(x, y);
                    let n = self.count_mine(pos);
                    proof {
                        lemma_same_mines_near(before, b1, x as int, y as int);
                    }
                    self.field[pos.y][pos.x] = Dot::Safe(n);
                    assert(self@.dots =~= before.dots.update(
                        y as int,
                        before.dots[y as int].update(x as int, Dot::Safe(n)),
                    ));
                    assert forall|i: int, j: int| self@.inside(i, j) implies #[trigger] self@.dot(
                        i,
                        j,
                    ) == (if i == x && j == y {
                        Dot::Safe(n)
                    } else {
                        before.dot(i, j)
                    }) by {}
                }
                x += 1;
            }
            y += 1;
        }
    }

    /// The rows above and below a position and the columns left and right of
    /// it, as `(up, right, down, left)`. At an edge of the field the
    /// position's own row or column takes the place of the missing one.
    pub fn get_around(&self, pos: Point) -> (around: (usize, usize, usize, usize))
        requires
            self@.inside(pos.x as int, pos.y as int),
        ensures
            around.0 == (if pos.y > 0 { pos.y - 1 } else { pos.y as int }),
            around.1 == (if pos.x + 1 < self.x_size { pos.x + 1 } else { pos.x as int }),
            around.2 == (if pos.y + 1 < self.y_size { pos.y + 1 } else { pos.y as int }),
            around.3 == (if pos.x > 0 { pos.x - 1 } else { pos.x as int }),
    {
        let up = if pos.y > 0 {
            pos.y - 1
        } else {
            pos.y
        };
        let down = if pos.y < self.y_size - 1 {
            pos.y + 1
        } else {
            pos.y
        };
        let right = if pos.x < self.x_size - 1 {
            pos.x + 1
        } else {
            pos.x
        };
        let left = if pos.x > 0 {
            pos.x - 1
        } else {
            pos.x
        };
        (up, right, down, left)
    }

    /// The mines in one column right above and right below a row.
    spec fn column_mines(&self, x: int, y: int) -> int {
        one_if(self@.mine(x, y - 1)) + one_if(self@.mine(x, y + 1))
    }

    /// The number of mines among the up to eight neighbours of a position.
    pub fn count_mine(&self, pos: Point) -> (count: u8)
        requires
            self@.shaped(),
            self@.inside(pos.x as int, pos.y as int),
        ensures
            count == self@.mines_near(pos.x as int, pos.y as int),
    {
        let mut count: u8 = 0;
        let (up, right, down, left) = self.get_around(pos);
        let ghost px = pos.x as int;
        let ghost py = pos.y as int;
        assert(self@.dots[py].len() == self@.width);
        assert(self@.dots[up as int].len() == self@.width);
        assert(self@.dots[down as int].len() == self@.width);

        // the rows above and below
        let mut x = left;
        while x <= right
            invariant
                self@.shaped(),
                self@.inside(px, py),
                px == pos.x,
                py == pos.y,
                up == (if pos.y > 0 { pos.y - 1 } else { pos.y as int }),
                down == (if pos.y + 1 < self.y_size { pos.y + 1 } else { pos.y as int }),
                left == (if pos.x > 0 { pos.x - 1 } else { pos.x as int }),
                right == (if pos.x + 1 < self.x_size { pos.x + 1 } else { pos.x as int }),
                left <= x <= right + 1,
                self.field[up as int].len() == self.x_size,
                self.field[down as int].len() == self.x_size,
                count == (if px - 1 < x { self.column_mines(px - 1, py) } else { 0 }) + (if px < x {
                    self.column_mines(px, py)
                } else {
                    0
                }) + (if px + 1 < x { self.column_mines(px + 1, py) } else { 0 }),
            decreases right + 1 - x,
        {
            assert(self@.dot(x as int, up as int) == self.field[up as int][x as int]);
            assert(self@.dot(x as int, down as int) == self.field[down as int][x as int]);
            if up != pos.y && self.field[up][x].is_mine() {
                count += 1;
            }
            if down != pos.y && self.field[down][x].is_mine() {
                count += 1;
            }
            x += 1;
        }
        // left and right in the position's own row
        assert(self@.dot(left as int, py) == self.field[py][left as int]);
        assert(self@.dot(right as int, py) == self.field[py][right as int]);
        if left != pos.x && self.field[pos.y][left].is_mine() {
            count += 1;
        }
        if right != pos.x && self.field[pos.y][right].is_mine() {
            count += 1;
        }
        count
    }

    /// Puts a flag on the closed cell at a position, or takes off the flag it
    /// has. A position off the field and an opened cell are left as they
    /// are.
    pub fn set_flag(&mut self, pos: Point)
        requires
            old(self).wf(),
        ensures
            final(self).wf(),
            final(self).position == old(self).position,
            final(self)@ == old(self)@.after_flag(pos.x as int, pos.y as int),
            old(self)@.inside(pos.x as int, pos.y as int) && old(self)@.shown(
                pos.x as int,
                pos.y as int,
            ) ==> final(self)@ == old(self)@,
    {
        if pos.x >= self.x_size || pos.y >= self.y_size {
            return ;
        }
        let ghost before = self@;
        let ghost px = pos.x as int;
        let ghost py = pos.y as int;
        assert(before.dots[py].len() == before.width);
        assert(before.opened[py].len() == before.width);
        assert(before.dot(px, py) == self.field[py][px]);
        assert(before.dot(px, py).settled());
        if !self.opened[pos.y][pos.x] {
            let toggled = match &self.field[pos.y][pos.x] {
                Dot::Flag(f) => (**f).clone(),
                other => Dot::Flag(Box::new(other.clone())),
            };
            self.field[pos.y][pos.x] = toggled;
            proof {
                let after = self@;
                assert(after.dots =~= before.dots.update(
                    py,
                    before.dots[py].update(px, before.dot(px, py).toggled()),
                ));
                assert(after.opened =~= before.opened);
                lemma_flag_keeps_wf(before, px, py);
            }
        }
    }

    /// The number of cells that have been opened.
    pub fn open_count(&self) -> (cnt: u32)
        requires
            self@.shaped(),
            self@.width * self@.height <= u32::MAX,
        ensures
            cnt == self@.opened_total(),
    {
        let mut cnt: u32 = 0;
        let mut y: usize = 0;
        let ghost grid = self@.opened;
        assert(grid.take(0) =~= Seq::<Seq<bool>>::empty());
        assert(0 * self@.width == 0);
        while y < self.y_size
            invariant
                self@.shaped(),
                self@.width * self@.height <= u32::MAX,
                grid == self@.opened,
                y <= self.y_size,
                cnt == tally(grid.take(y as int)),
                cnt <= y * self@.width,
            decreases self.y_size - y,
        {
            let mut x: usize = 0;
            let ghost row = grid[y as int];
            assert(row.len() == self@.width);
            assert(row.take(0) =~= Seq::<bool>::empty());
            assert((y + 1) * self@.width <= self@.height * self@.width) by (nonlinear_arith)
                requires
                    y + 1 <= self@.height,
                    0 <= self@.width,
            ;
            assert((y + 1) * self@.width == y * self@.width + self@.width) by (nonlinear_arith);
            assert(self@.height * self@.width == self@.width * self@.height) by (nonlinear_arith);
            while x < self.x_size
                invariant
                    self@.shaped(),
                    grid == self@.opened,
                    y < self.y_size,
                    x <= self.x_size,
                    row == grid[y as int],
                    row.len() == self@.width,
                    self.opened[y as int].len() == self.x_size,
                    cnt == tally(grid.take(y as int)) + row_tally(row.take(x as int)),
                    cnt <= y * self@.width + x,
                    y * self@.width + self@.width <= u32::MAX,
                decreases self.x_size - x,
            {
                assert(row.take(x + 1).drop_last() =~= row.take(x as int));
                if self.opened[y][x] {
                    cnt += 1;
                }
                x += 1;
            }
            assert(row.take(x as int) =~= row);
            assert(grid.take(y + 1).drop_last() =~= grid.take(y as int));
            y += 1;
        }
        assert(grid.take(y as int) =~= grid);
        cnt
    }

    /// Whether the game is won: the closed cells are as many as the mines,
    /// which is the case exactly when every cell without a mine is opened.
    pub fn is_won(&self) -> (won: bool)
        requires
            self.wf(),
            self@.width * self@.height <= u32::MAX,
        ensures
            won == (self@.width * self@.height - self@.opened_total() == self@.mines),
            won <==> (forall|x: int, y: int|
                self@.inside(x, y) && !self@.mine(x, y) ==> #[trigger] self@.shown(x, y)),
    {
        proof {
            lemma_won_iff_cleared(self@);
        }
        let cells = (self.x_size * self.y_size) as u32;
        cells - self.open_count() == self.mines
    }

    /// The text of the field, one row of characters for each row of cells,
    /// each cell drawn as [`Dot::glyph`] says.
    pub fn print(&self) -> (rows: Vec<Vec<char>>)
        requires
            self@.shaped(),
        ensures
            rows.len() == self@.height,
            forall|y: int| 0 <= y < self@.height ==> (#[trigger] rows[y]).len() == self@.width,
            forall|x: int, y: int|
                self@.inside(x, y) ==> #[trigger] rows[y][x] == self@.dot(x, y).glyph(
                    self@.shown(x, y),
                ),
    {
        let mut rows: Vec<Vec<char>> = Vec::new();
        let mut y: usize = 0;
        while y < self.y_size
            invariant
                self@.shaped(),
                y <= self.y_size,
                rows.len() == y,
                forall|j: int| 0 <= j < y ==> (#[trigger] rows[j]).len() == self@.width,
                forall|i: int, j: int|
                    0 <= i < self@.width && 0 <= j < y ==> #[trigger] rows[j][i] == self@.dot(
                        i,
                        j,
                    ).glyph(self@.shown(i, j)),
            decreases self.y_size - y,
        {
            let mut row: Vec<char> = Vec::new();
            let mut x: usize = 0;
            assert(self@.dots[y as int].len() == self@.width);
            assert(self@.opened[y as int].len() == self@.width);
            while x < self.x_size
                invariant
                    self@.shaped(),
                    y < self.y_size,
                    x <= self.x_size,
                    row.len() == x,
                    self.field[y as int].len() == self.x_size,
                    self.opened[y as int].len() == self.x_size,
                    forall|i: int|
                        0 <= i < x ==> #[trigger] row[i] == self@.dot(i, y as int).glyph(
                            self@.shown(i, y as int),
                        ),
                decreases self.x_size - x,
            {
                let c = self.field[y][x].to_char(self.opened[y][x]);
                row.push(c);
                x += 1;
            }
            rows.push(row);
            y += 1;
        }
        rows
    }
}

} // verus!
