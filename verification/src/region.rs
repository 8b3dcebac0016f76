//! What holds of the cells of a board and of its regions of blank cells.

use crate::board::{hop, near, Board};
use crate::dot::Dot;
use vstd::prelude::*;

verus! {

/// Two boards of one size with mines in the same places have the same number
/// of mines around every position.
pub proof fn lemma_same_mines_near(a: Board, b: Board, x: int, y: int)
    requires
        a.width == b.width,
        a.height == b.height,
        forall|i: int, j: int|
            a.inside(i, j) ==> (#[trigger] a.dot(i, j)).mined() == b.dot(i, j).mined(),
    ensures
        a.mines_near(x, y) == b.mines_near(x, y),
        0 <= a.mines_near(x, y) <= 8,
{
    assert(a.mine(x - 1, y - 1) == b.mine(x - 1, y - 1));
    assert(a.mine(x, y - 1) == b.mine(x, y - 1));
    assert(a.mine(x + 1, y - 1) == b.mine(x + 1, y - 1));
    assert(a.mine(x - 1, y) == b.mine(x - 1, y));
    assert(a.mine(x + 1, y) == b.mine(x + 1, y));
    assert(a.mine(x - 1, y + 1) == b.mine(x - 1, y + 1));
    assert(a.mine(x, y + 1) == b.mine(x, y + 1));
    assert(a.mine(x + 1, y + 1) == b.mine(x + 1, y + 1));
}

/// A walk over blank cells can be taken one step further, to a blank cell
/// that touches its end.
pub proof fn lemma_linked_step(b: Board, a: (int, int), p: (int, int), d: (int, int))
    requires
        b.linked(a, p),
        b.blank(d.0, d.1),
        near(p, d),
    ensures
        b.linked(a, d),
{
    let path = choose|path: Seq<(int, int)>| #[trigger] b.joins(path, a, p);
    let longer = path.push(d);
    assert forall|k: int| 0 <= k < longer.len() implies b.blank(
        (#[trigger] longer[k]).0,
        longer[k].1,
    ) by {
        if k < path.len() {
            assert(longer[k] == path[k]);
        }
    }
    assert forall|k: int| 0 <= k < longer.len() - 1 implies #[trigger] hop(longer, k) by {
        if k < path.len() - 1 {
            assert(hop(path, k));
            assert(longer[k] == path[k]);
            assert(longer[k + 1] == path[k + 1]);
        } else {
            assert(longer[k] == p);
            assert(longer[k + 1] == d);
        }
    }
    assert(b.joins(longer, a, d));
}

/// A walk over blank cells can be taken the other way round.
pub proof fn lemma_linked_symmetric(b: Board, p: (int, int), q: (int, int))
    requires
        b.linked(p, q),
    ensures
        b.linked(q, p),
{
    let path = choose|path: Seq<(int, int)>| #[trigger] b.joins(path, p, q);
    let n = path.len() as int;
    let back = Seq::new(path.len(), |k: int| path[n - 1 - k]);
    assert forall|k: int| 0 <= k < back.len() implies b.blank(
        (#[trigger] back[k]).0,
        back[k].1,
    ) by {
        assert(b.blank(path[n - 1 - k].0, path[n - 1 - k].1));
    }
    assert forall|k: int| 0 <= k < back.len() - 1 implies #[trigger] hop(back, k) by {
        assert(hop(path, n - 2 - k));
    }
    assert(b.joins(back, q, p));
}

/// Two walks over blank cells, one ending where the other starts, make one
/// walk.
pub proof fn lemma_linked_transitive(b: Board, p: (int, int), q: (int, int), r: (int, int))
    requires
        b.linked(p, q),
        b.linked(q, r),
    ensures
        b.linked(p, r),
{
    let first = choose|path: Seq<(int, int)>| #[trigger] b.joins(path, p, q);
    let second = choose|path: Seq<(int, int)>| #[trigger] b.joins(path, q, r);
    let both = first + second;
    assert forall|k: int| 0 <= k < both.len() implies b.blank(
        (#[trigger] both[k]).0,
        both[k].1,
    ) by {
        if k < first.len() {
            assert(both[k] == first[k]);
        } else {
            assert(both[k] == second[k - first.len()]);
        }
    }
    assert forall|k: int| 0 <= k < both.len() - 1 implies #[trigger] hop(both, k) by {
        if k < first.len() - 1 {
            assert(hop(first, k));
        } else if k == first.len() - 1 {
            assert(both[k] == q);
            assert(both[k + 1] == second[0]);
        } else {
            assert(hop(second, k - first.len()));
            assert(both[k] == second[k - first.len()]);
            assert(both[k + 1] == second[k - first.len() + 1]);
        }
    }
    assert(b.joins(both, p, r));
}

/// A blank cell is linked to itself.
pub proof fn lemma_linked_self(b: Board, a: (int, int))
    requires
        b.blank(a.0, a.1),
    ensures
        b.linked(a, a),
        b.reached(a, a),
{
    let path = seq![a];
    assert(path[0] == a);
    assert(b.joins(path, a, a));
    assert(b.linked(a, a) && near(a, a));
}

/// Around a cell whose every neighbour is opened, every neighbour stays opened
/// while cells are only opened and none is closed.
pub proof fn lemma_ringed_grows(a: Board, b: Board, x: int, y: int)
    requires
        a.ringed(x, y),
        a.width == b.width,
        a.height == b.height,
        forall|u: int, v: int| a.inside(u, v) && #[trigger] a.shown(u, v) ==> b.shown(u, v),
    ensures
        b.ringed(x, y),
{
    assert forall|u: int, v: int| b.inside(u, v) && near((x, y), (u, v)) implies #[trigger] b.shown(
        u,
        v,
    ) by {
        assert(a.shown(u, v));
    }
}

/// On a board where every opened blank cell has its neighbours opened, a walk
/// over blank cells that starts on an opened cell stays on opened cells.
pub proof fn lemma_walk_shown(now: Board, path: Seq<(int, int)>, k: int)
    requires
        now.blank_walk(path),
        now.shown(path[0].0, path[0].1),
        forall|x: int, y: int| now.blank(x, y) && #[trigger] now.shown(x, y) ==> now.ringed(x, y),
        0 <= k < path.len(),
    ensures
        now.shown(path[k].0, path[k].1),
    decreases k,
{
    if k > 0 {
        lemma_walk_shown(now, path, k - 1);
        let a = path[k - 1];
        let b = path[k];
        assert(hop(path, k - 1));
        assert(now.blank(a.0, a.1));
        assert(now.blank(b.0, b.1));
        assert(now.ringed(a.0, a.1));
    }
}

/// On a board where every opened blank cell has its neighbours opened, every
/// cell that is reached from an opened blank cell is opened.
pub proof fn lemma_reached_shown(now: Board, start: (int, int), c: (int, int))
    requires
        now.shown(start.0, start.1),
        forall|x: int, y: int| now.blank(x, y) && #[trigger] now.shown(x, y) ==> now.ringed(x, y),
        now.reached(start, c),
        now.inside(c.0, c.1),
    ensures
        now.shown(c.0, c.1),
{
    let z = choose|z: (int, int)| #[trigger] now.linked(start, z) && near(z, c);
    let path = choose|path: Seq<(int, int)>| #[trigger] now.joins(path, start, z);
    lemma_walk_shown(now, path, path.len() - 1);
    assert(now.blank(path[path.len() - 1].0, path[path.len() - 1].1));
    assert(now.ringed(z.0, z.1));
}

/// Which cells are reached from a position depends on which cells are blank
/// alone: not on which are opened, nor on which carry a flag.
pub proof fn lemma_reached_same_blanks(a: Board, b: Board, start: (int, int), c: (int, int))
    requires
        forall|i: int, j: int| a.blank(i, j) ==> b.blank(i, j),
        a.reached(start, c),
    ensures
        b.reached(start, c),
{
    let z = choose|z: (int, int)| #[trigger] a.linked(start, z) && near(z, c);
    let path = choose|path: Seq<(int, int)>| #[trigger] a.joins(path, start, z);
    assert forall|k: int| 0 <= k < path.len() implies b.blank(
        (#[trigger] path[k]).0,
        path[k].1,
    ) by {
        assert(a.blank(path[k].0, path[k].1));
    }
    assert(b.joins(path, start, z));
    assert(b.linked(start, z) && near(z, c));
}

/// No cell that is, or touches, a blank cell of a generated board holds a
/// mine.
pub proof fn lemma_no_mine_near_blank(b: Board, z: (int, int), c: (int, int))
    requires
        b.generated(),
        b.blank(z.0, z.1),
        near(z, c),
        b.inside(c.0, c.1),
    ensures
        !b.dot(c.0, c.1).mined(),
{
    assert(b.dot(z.0, z.1).base() == Dot::Safe(0));
    assert(b.mines_near(z.0, z.1) == 0);
    if c.0 != z.0 || c.1 != z.1 {
        lemma_no_mine_around(b, z.0, z.1, c.0, c.1);
    }
}

/// Where no mine is counted around a position, no cell that touches it holds
/// one.
pub proof fn lemma_no_mine_around(b: Board, x: int, y: int, u: int, v: int)
    requires
        b.mines_near(x, y) == 0,
        near((x, y), (u, v)),
        u != x || v != y,
    ensures
        !b.mine(u, v),
{
    if u == x - 1 {
        if v == y - 1 {
        } else if v == y {
        } else {
        }
    } else if u == x {
        if v == y - 1 {
        } else {
        }
    } else {
        if v == y - 1 {
        } else if v == y {
        } else {
        }
    }
}

/// Nothing that is reached from a blank cell of a generated board holds a
/// mine.
pub proof fn lemma_no_mine_reached(b: Board, start: (int, int), c: (int, int))
    requires
        b.generated(),
        b.reached(start, c),
        b.inside(c.0, c.1),
    ensures
        !b.dot(c.0, c.1).mined(),
{
    let z = choose|z: (int, int)| #[trigger] b.linked(start, z) && near(z, c);
    let path = choose|path: Seq<(int, int)>| #[trigger] b.joins(path, start, z);
    assert(b.blank(path[path.len() - 1].0, path[path.len() - 1].1));
    lemma_no_mine_near_blank(b, z, c);
}

/// Whether a board is a generated one depends on its cells alone, not on
/// which of them are opened.
pub proof fn lemma_generated_same_dots(a: Board, b: Board)
    requires
        a.generated(),
        a.width == b.width,
        a.height == b.height,
        a.mines == b.mines,
        a.dots == b.dots,
    ensures
        b.generated(),
{
    assert(b.mine_mask() =~~= a.mine_mask());
    assert forall|x: int, y: int| b.inside(x, y) implies (#[trigger] b.dot(x, y)).settled()
        && (b.dot(x, y).base() matches Dot::Safe(n) ==> n == b.mines_near(x, y)) by {
        assert(a.dot(x, y).settled());
        lemma_same_mines_near(a, b, x, y);
    }
}

} // verus!
