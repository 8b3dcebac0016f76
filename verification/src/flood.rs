//! Opening cells, and flooding the blank region around a cell that has no
//! mine near it.

use crate::board::{near, Board};
use crate::field::Field;
use crate::laws::{lemma_open_keeps_wf, lemma_open_single};
use crate::point::Point;
use crate::region::{
    lemma_linked_self, lemma_linked_step, lemma_reached_same_blanks, lemma_reached_shown,
    lemma_ringed_grows,
};
use crate::tally::{lemma_tally_bounds, lemma_tally_set};
use vstd::prelude::*;

verus! {

/// The position is on the work list.
spec fn waiting(work: Seq<Point>, c: (int, int)) -> bool {
    exists|k: int| 0 <= k < work.len() && (#[trigger] work[k])@ == c
}

/// What holds while the blank region of `start` is being opened on a board
/// that began as `b0`. `work` lists the blank cells whose neighbours are
/// still to be opened, and `busy` is the one being worked on.
spec fn flooding(
    now: Board,
    b0: Board,
    start: (int, int),
    work: Seq<Point>,
    busy: Option<(int, int)>,
) -> bool {
    &&& now.width == b0.width
    &&& now.height == b0.height
    &&& now.mines == b0.mines
    &&& now.dots == b0.dots
    &&& now.shaped()
    &&& b0.shaped()
    &&& b0.blank(start.0, start.1)
    &&& now.shown(start.0, start.1)
    &&& forall|x: int, y: int| b0.inside(x, y) && #[trigger] b0.shown(x, y) ==> now.shown(x, y)
    &&& forall|x: int, y: int|
        now.inside(x, y) && #[trigger] now.shown(x, y) ==> b0.shown(x, y) || b0.reached(
            start,
            (x, y),
        )
    &&& forall|k: int|
        0 <= k < work.len() ==> b0.blank((#[trigger] work[k])@.0, work[k]@.1) && b0.linked(
            start,
            work[k]@,
        ) && now.shown(work[k]@.0, work[k]@.1)
    &&& forall|x: int, y: int|
        now.blank(x, y) && #[trigger] now.shown(x, y) ==> now.ringed(x, y) || waiting(
            work,
            (x, y),
        ) || busy == Some((x, y))
}

/// Writing `true` into one cell of the grid of opened cells gives a board on
/// which that cell is opened and every other cell is as before.
proof fn lemma_opened_one(before: Board, after: Board, x: int, y: int)
    requires
        before.shaped(),
        before.inside(x, y),
        after.width == before.width,
        after.height == before.height,
        after.mines == before.mines,
        after.dots == before.dots,
        after.opened == before.opened.update(y, before.opened[y].update(x, true)),
    ensures
        after.shaped(),
        after.shown(x, y),
        forall|u: int, v: int|
            before.inside(u, v) && (u != x || v != y) ==> #[trigger] after.shown(u, v)
                == before.shown(u, v),
        forall|u: int, v: int|
            before.inside(u, v) && #[trigger] before.shown(u, v) ==> after.shown(u, v),
        after.opened_total() == before.opened_total() + (if before.shown(x, y) { 0int } else { 1 }),
        0 <= after.opened_total() <= after.width * after.height,
{
    assert(before.opened[y].len() == before.width);
    lemma_tally_set(before.opened, x, y, true);
    assert forall|v: int| 0 <= v < after.height implies (#[trigger] after.opened[v]).len()
        == after.width by {
        assert(before.opened[v].len() == before.width);
    }
    lemma_tally_bounds(after.opened, after.width);
    assert(after.opened.len() * after.width == after.width * after.height) by (nonlinear_arith)
        requires
            after.opened.len() == after.height,
    ;
}

impl Field {
    /// Whether the cell at a position has been opened.
    pub fn is_opened(&self, pos: Point) -> (r: bool)
        requires
            self@.shaped(),
            self@.inside(pos.x as int, pos.y as int),
        ensures
            r == self@.shown(pos.x as int, pos.y as int),
    {
        assert(self@.opened[pos.y as int].len() == self@.width);
        self.opened[pos.y][pos.x]
    }

    /// Opens the cell at a position and reports whether that was safe.
    ///
    /// A position that holds a mine, under a flag or not, is reported as
    /// unsafe and stays closed. Any other cell is opened, and if no mine lies
    /// around it, so are its whole region of blank cells and the cells at the
    /// border of that region. A position off the field is reported as safe
    /// and changes nothing, and neither does a cell that is open already.
    /// Flags play no part: the cell under a flag decides.
    pub fn open(&mut self, pos: Point) -> (safe: bool)
        requires
            old(self).wf(),
        ensures
            final(self).wf(),
            final(self).position == old(self).position,
            safe == !old(self)@.mine(pos.x as int, pos.y as int),
            final(self)@ == old(self)@.after_open(pos.x as int, pos.y as int),
            old(self)@.inside(pos.x as int, pos.y as int) && old(self)@.shown(
                pos.x as int,
                pos.y as int,
            ) ==> final(self)@.opened_total() == old(self)@.opened_total(),
    {
        if pos.x >= self.x_size || pos.y >= self.y_size {
            return true;
        }
        let ghost b0 = self@;
        let ghost px = pos.x as int;
        let ghost py = pos.y as int;
        assert(b0.dots[py].len() == b0.width);
        assert(b0.opened[py].len() == b0.width);
        assert(b0.dot(px, py) == self.field[py][px]);
        let res = !self.field[pos.y][pos.x].is_mine();
        if self.field[pos.y][pos.x].is_blank() {
            self.open_if_zero(pos);
        }
        let ghost b1 = self@;
        assert(b1.opened[py].len() == b1.width);
        if res && !self.opened[pos.y][pos.x] {
            self.opened[pos.y][pos.x] = true;
            proof {
                let b2 = self@;
                assert(!b0.blank(px, py));
                assert(b1 == b0);
                assert(b2.dots =~= b0.dots);
                assert(b2.opened =~= b0.opened.update(py, b0.opened[py].update(px, true)));
                lemma_opened_one(b0, b2, px, py);
                assert forall|x: int, y: int| b0.inside(x, y) implies !b0.reached(
                    (px, py),
                    (x, y),
                ) by {
                    lemma_open_single(b0, px, py, x, y);
                }
                assert(b2.opened =~~= b0.after_open(px, py).opened);
                lemma_open_keeps_wf(b0, px, py);
            }
        }
        res
    }

    /// Opens the blank region of a position and the cells at its border, if
    /// the position is closed and has no mine around it, and reports whether
    /// it did.
    pub fn open_if_zero(&mut self, pos: Point) -> (res: bool)
        requires
            old(self).wf(),
            old(self)@.inside(pos.x as int, pos.y as int),
        ensures
            final(self).wf(),
            final(self).position == old(self).position,
            res == (old(self)@.blank(pos.x as int, pos.y as int) && !old(self)@.shown(
                pos.x as int,
                pos.y as int,
            )),
            res ==> final(self)@ == old(self)@.after_open(pos.x as int, pos.y as int),
            !res ==> final(self)@ == old(self)@,
    {
        let ghost b0 = self@;
        let ghost px = pos.x as int;
        let ghost py = pos.y as int;
        let ghost start = (px, py);
        assert(b0.dots[py].len() == b0.width);
        assert(b0.opened[py].len() == b0.width);
        assert(b0.dot(px, py) == self.field[py][px]);
        if !self.field[pos.y][pos.x].is_blank() || self.is_opened(pos) {
            return false;
        }
        self.opened[pos.y][pos.x] = true;
        let mut work: Vec<Point> = Vec::new();
        work.push(pos);
        proof {
            let b1 = self@;
            assert(b1.dots =~= b0.dots);
            assert(b1.opened =~= b0.opened.update(py, b0.opened[py].update(px, true)));
            lemma_opened_one(b0, b1, px, py);
            lemma_linked_self(b0, start);
            assert(work@[0]@ == start);
            assert forall|x: int, y: int| b1.blank(x, y) && #[trigger] b1.shown(
                x,
                y,
            ) implies b1.ringed(x, y) || waiting(work@, (x, y)) || None::<(int, int)> == Some(
                (x, y),
            ) by {
                if x == px && y == py {
                    assert(waiting(work@, (x, y)));
                } else {
                    assert(b0.shown(x, y));
                    lemma_ringed_grows(b0, b1, x, y);
                }
            }
            assert(flooding(b1, b0, start, work@, None));
        }
        while work.len() > 0
            invariant
                flooding(self@, b0, start, work@, None),
                self.position == old(self).position,
                self@.opened_total() <= self@.width * self@.height,
            decreases 2 * (self@.width * self@.height - self@.opened_total()) + work.len(),
        {
            let ghost before = self@;
            let ghost listed = work@;
            let p = work.pop().unwrap();
            proof {
                assert(listed[listed.len() - 1] == p);
                assert forall|x: int, y: int| before.blank(x, y) && #[trigger] before.shown(
                    x,
                    y,
                ) implies before.ringed(x, y) || waiting(work@, (x, y)) || Some(p@) == Some(
                    (x, y),
                ) by {
                    if !before.ringed(x, y) {
                        let k = choose|k: int|
                            0 <= k < listed.len() && (#[trigger] listed[k])@ == (x, y);
                        if k < listed.len() - 1 {
                            assert(work@[k]@ == (x, y));
                        }
                    }
                }
                assert forall|k: int| 0 <= k < work@.len() implies b0.blank(
                    (#[trigger] work@[k])@.0,
                    work@[k]@.1,
                ) && b0.linked(start, work@[k]@) && before.shown(work@[k]@.0, work@[k]@.1) by {
                    assert(work@[k] == listed[k]);
                }
                assert(flooding(before, b0, start, work@, Some(p@)));
            }
            self.open_around(p, &mut work, Ghost(b0), Ghost(start));
        }
        proof {
            let b2 = self@;
            assert forall|x: int, y: int| b2.blank(x, y) && #[trigger] b2.shown(
                x,
                y,
            ) implies b2.ringed(x, y) by {
                assert(!waiting(work@, (x, y)));
            }
            lemma_linked_self(b0, start);
            assert forall|x: int, y: int| b2.inside(x, y) implies b2.shown(x, y) == (b0.shown(x, y)
                || (x == px && y == py) || b0.reached(start, (x, y))) by {
                if b0.reached(start, (x, y)) {
                    lemma_reached_same_blanks(b0, b2, start, (x, y));
                    lemma_reached_shown(b2, start, (x, y));
                }
            }
            assert(b2.opened =~~= b0.after_open(px, py).opened);
            lemma_open_keeps_wf(b0, px, py);
        }
        true
    }

    /// Opens every cell around the blank cell `pos`, whatever it was before,
    /// and puts on the work list each of them that was closed and is blank
    /// itself. Cells that do not touch `pos` keep their marks, and no cell
    /// changes its value.
    fn open_around(
        &mut self,
        pos: Point,
        work: &mut Vec<Point>,
        Ghost(b0): Ghost<Board>,
        Ghost(start): Ghost<(int, int)>,
    )
        requires
            flooding(old(self)@, b0, start, old(work)@, Some(pos@)),
            old(self)@.blank(pos.x as int, pos.y as int),
            b0.linked(start, pos@),
            old(self)@.opened_total() <= old(self)@.width * old(self)@.height,
        ensures
            flooding(final(self)@, b0, start, final(work)@, None),
            final(self).position == old(self).position,
            final(self)@.dots == old(self)@.dots,
            final(self)@.ringed(pos.x as int, pos.y as int),
            forall|u: int, v: int|
                old(self)@.inside(u, v) && !near(pos@, (u, v)) ==> #[trigger] final(self)@.shown(
                    u,
                    v,
                ) == old(self)@.shown(u, v),
            2 * final(self)@.opened_total() - final(work).len() >= 2 * old(self)@.opened_total()
                - old(work).len(),
            final(self)@.opened_total() <= final(self)@.width * final(self)@.height,
    {
        let (up, right, down, left) = self.get_around(pos);
        let mut y = up;
        while y <= down
            invariant
                flooding(self@, b0, start, work@, Some(pos@)),
                self.position == old(self).position,
                b0.linked(start, pos@),
                self@.inside(pos.x as int, pos.y as int),
                up == (if pos.y > 0 { pos.y - 1 } else { pos.y as int }),
                down == (if pos.y + 1 < self.y_size { pos.y + 1 } else { pos.y as int }),
                left == (if pos.x > 0 { pos.x - 1 } else { pos.x as int }),
                right == (if pos.x + 1 < self.x_size { pos.x + 1 } else { pos.x as int }),
                up <= y <= down + 1,
                forall|u: int, v: int|
                    left <= u <= right && up <= v < y ==> #[trigger] self@.shown(u, v),
                forall|u: int, v: int|
                    self@.inside(u, v) && !near(pos@, (u, v)) ==> #[trigger] self@.shown(u, v)
                        == old(self)@.shown(u, v),
                2 * self@.opened_total() - work.len() >= 2 * old(self)@.opened_total() - old(
                    work,
                ).len(),
                self@.opened_total() <= self@.width * self@.height,
            decreases down + 1 - y,
        {
            let mut x = left;
            while x <= right
                invariant
                    flooding(self@, b0, start, work@, Some(pos@)),
                    self.position == old(self).position,
                    b0.linked(start, pos@),
                    self@.inside(pos.x as int, pos.y as int),
                    up == (if pos.y > 0 { pos.y - 1 } else { pos.y as int }),
                    down == (if pos.y + 1 < self.y_size { pos.y + 1 } else { pos.y as int }),
                    left == (if pos.x > 0 { pos.x - 1 } else { pos.x as int }),
                    right == (if pos.x + 1 < self.x_size { pos.x + 1 } else { pos.x as int }),
                    up <= y <= down,
                    left <= x <= right + 1,
                    forall|u: int, v: int|
                        left <= u <= right && (up <= v < y || (v == y && u < x))
                            ==> #[trigger] self@.shown(u, v),
                    forall|u: int, v: int|
                        self@.inside(u, v) && !near(pos@, (u, v)) ==> #[trigger] self@.shown(u, v)
                            == old(self)@.shown(u, v),
                    2 * self@.opened_total() - work.len() >= 2 * old(self)@.opened_total() - old(
                        work,
                    ).len(),
                    self@.opened_total() <= self@.width * self@.height,
                decreases right + 1 - x,
            {
                let ghost before = self@;
                self.open_one(Point::new(x, y), work, Ghost(b0), Ghost(start), Ghost(pos@));
                assert forall|u: int, v: int|
                    left <= u <= right && (up <= v < y || (v == y && u < x + 1))
                        implies #[trigger] self@.shown(u, v) by {
                    if v == y && u == x {
                    } else {
                        assert(before.shown(u, v));
                    }
                }
                x += 1;
            }
            y += 1;
        }
        proof {
            let now = self@;
            assert(now.ringed(pos.x as int, pos.y as int)) by {
                assert forall|u: int, v: int|
                    now.inside(u, v) && near((pos.x as int, pos.y as int), (u, v))
                        implies #[trigger] now.shown(u, v) by {
                    assert(left <= u <= right && up <= v < y);
                }
            }
        }
    }

    /// Opens one neighbour `d` of the blank cell `p` that is being worked on,
    /// and puts it on the work list if it was closed and is blank itself.
    /// Every other cell keeps its mark, and no cell changes its value.
    fn open_one(
        &mut self,
        d: Point,
        work: &mut Vec<Point>,
        Ghost(b0): Ghost<Board>,
        Ghost(start): Ghost<(int, int)>,
        Ghost(p): Ghost<(int, int)>,
    )
        requires
            flooding(old(self)@, b0, start, old(work)@, Some(p)),
            b0.linked(start, p),
            old(self)@.inside(d.x as int, d.y as int),
            near(p, d@),
        ensures
            flooding(final(self)@, b0, start, final(work)@, Some(p)),
            final(self).position == old(self).position,
            final(self)@.dots == old(self)@.dots,
            final(self)@.shown(d.x as int, d.y as int),
            forall|u: int, v: int|
                old(self)@.inside(u, v) && (u != d.x || v != d.y) ==> #[trigger] final(self)@.shown(
                    u,
                    v,
                ) == old(self)@.shown(u, v),
            2 * final(self)@.opened_total() - final(work).len() >= 2 * old(self)@.opened_total()
                - old(work).len(),
            final(self)@.opened_total() <= final(self)@.width * final(self)@.height,
    {
        let ghost before = self@;
        let ghost dx = d.x as int;
        let ghost dy = d.y as int;
        assert(before.opened[dy].len() == before.width);
        assert(before.dots[dy].len() == before.width);
        proof {
            lemma_tally_bounds(before.opened, before.width);
            assert(before.opened.len() * before.width == before.width * before.height)
                by (nonlinear_arith)
                requires
                    before.opened.len() == before.height,
            ;
        }
        if !self.opened[d.y][d.x] {
            self.opened[d.y][d.x] = true;
            let ghost after = self@;
            assert(after.dots =~= before.dots);
            assert(after.opened =~= before.opened.update(dy, before.opened[dy].update(dx, true)));
            proof {
                lemma_opened_one(before, after, dx, dy);
                assert(b0.reached(start, (dx, dy)));
            }
            assert(before.dot(dx, dy) == self.field[dy][dx]);
            let blank = self.field[d.y][d.x].is_blank();
            if blank {
                work.push(d);
                proof {
                    lemma_linked_step(b0, start, p, (dx, dy));
                    assert(waiting(work@, (dx, dy))) by {
                        assert(work@[work@.len() - 1]@ == (dx, dy));
                    }
                }
            }
            proof {
                assert forall|x: int, y: int| after.blank(x, y) && #[trigger] after.shown(
                    x,
                    y,
                ) implies after.ringed(x, y) || waiting(work@, (x, y)) || Some(p) == Some(
                    (x, y),
                ) by {
                    if x == dx && y == dy {
                    } else {
                        assert(before.shown(x, y));
                        if before.ringed(x, y) {
                            lemma_ringed_grows(before, after, x, y);
                        } else if waiting(old(work)@, (x, y)) {
                            let k = choose|k: int|
                                0 <= k < old(work)@.len() && (#[trigger] old(work)@[k])@ == (x, y);
                            assert(work@[k]@ == (x, y));
                        }
                    }
                }
                assert forall|k: int| 0 <= k < work@.len() implies b0.blank(
                    (#[trigger] work@[k])@.0,
                    work@[k]@.1,
                ) && b0.linked(start, work@[k]@) && after.shown(work@[k]@.0, work@[k]@.1) by {
                    if k < old(work)@.len() {
                        assert(work@[k] == old(work)@[k]);
                        assert(before.shown(work@[k]@.0, work@[k]@.1));
                    }
                }
            }
        }
    }
}

} // verus!
