//! What holds of every board that a game can reach, whatever the player
//! does.

use crate::board::{near, Board};
use crate::dot::Dot;
use crate::region::{
    lemma_generated_same_dots, lemma_linked_self, lemma_linked_step, lemma_linked_symmetric,
    lemma_linked_transitive, lemma_no_mine_reached, lemma_reached_same_blanks, lemma_ringed_grows,
    lemma_same_mines_near,
};
use crate::tally::{
    lemma_tally_full, lemma_tally_nonnegative, lemma_tally_split, lemma_tally_zero, one_if, tally,
};
use vstd::prelude::*;

verus! {

/// Toggling the flag of a position twice gives back the board as it was:
/// every cell and every opened mark.
pub proof fn lemma_flag_twice(b: Board, x: int, y: int)
    requires
        b.wf(),
    ensures
        b.after_flag(x, y).after_flag(x, y) == b,
{
    if b.inside(x, y) && !b.shown(x, y) {
        let once = b.after_flag(x, y);
        let twice = once.after_flag(x, y);
        assert(b.dots[y].len() == b.width);
        assert(b.dot(x, y).settled());
        assert(once.dot(x, y).toggled() == b.dot(x, y));
        assert(twice.dots =~~= b.dots);
    }
}

/// Toggling the flag of an opened cell changes nothing.
pub proof fn lemma_flag_opened(b: Board, x: int, y: int)
    requires
        b.wf(),
        b.inside(x, y),
        b.shown(x, y),
    ensures
        b.after_flag(x, y) == b,
{
}

/// Toggling a flag leaves a board one that a game can reach: it has the
/// mines it was made with, every number is the count of the mines around its
/// cell, and no opened cell holds a mine.
pub proof fn lemma_flag_keeps_wf(b: Board, x: int, y: int)
    requires
        b.wf(),
    ensures
        b.after_flag(x, y).wf(),
{
    let a = b.after_flag(x, y);
    if b.inside(x, y) && !b.shown(x, y) {
        assert(b.dots[y].len() == b.width);
        assert(b.dot(x, y).settled());
        assert forall|i: int, j: int| a.inside(i, j) implies (#[trigger] a.dot(i, j)).mined()
            == b.dot(i, j).mined() && a.dot(i, j).base() == b.dot(i, j).base() by {
            assert(b.dots[j].len() == b.width);
            assert(b.dot(i, j).settled());
        }
        assert(a.shaped()) by {
            assert forall|j: int| 0 <= j < a.height implies (#[trigger] a.dots[j]).len()
                == a.width by {
                assert(b.dots[j].len() == b.width);
            }
        }
        assert(a.mine_mask() =~~= b.mine_mask());
        assert forall|i: int, j: int| a.inside(i, j) implies (#[trigger] a.dot(i, j)).settled()
            && (a.dot(i, j).base() matches Dot::Safe(n) ==> n == a.mines_near(i, j)) by {
            assert(b.dot(i, j).settled());
            lemma_same_mines_near(a, b, i, j);
        }
        assert forall|i: int, j: int|
            a.inside(i, j) && #[trigger] a.shown(i, j) && a.dot(i, j).blank() implies a.ringed(
            i,
            j,
        ) by {
            assert(b.shown(i, j));
            assert(b.ringed(i, j));
            assert forall|u: int, v: int|
                a.inside(u, v) && near((i, j), (u, v)) implies #[trigger] a.shown(u, v) by {
                assert(b.shown(u, v));
            }
        }
        assert forall|i: int, j: int| a.inside(i, j) && #[trigger] a.shown(i, j) implies !a.dot(
            i,
            j,
        ).mined() by {
            assert(b.shown(i, j));
        }
    }
}

/// A flag hides nothing from the game: whatever flag is toggled, every cell
/// holds a mine or not as before and has the same number under the flag, the
/// same cells are opened, and the counts of mines and of opened cells stay.
pub proof fn lemma_flag_keeps_cells(b: Board, u: int, v: int, x: int, y: int)
    requires
        b.wf(),
        b.inside(x, y),
    ensures
        b.after_flag(u, v).dot(x, y).base() == b.dot(x, y).base(),
        b.after_flag(u, v).mine(x, y) == b.mine(x, y),
        b.after_flag(u, v).blank(x, y) == b.blank(x, y),
        b.after_flag(u, v).shown(x, y) == b.shown(x, y),
        b.after_flag(u, v).mine_total() == b.mine_total(),
        b.after_flag(u, v).opened_total() == b.opened_total(),
{
    let a = b.after_flag(u, v);
    if b.inside(u, v) && !b.shown(u, v) {
        assert(b.dots[v].len() == b.width);
        assert(b.dots[y].len() == b.width);
        assert(b.dot(u, v).settled());
        assert forall|i: int, j: int| a.inside(i, j) implies (#[trigger] a.dot(i, j)).mined()
            == b.dot(i, j).mined() by {
            assert(b.dots[j].len() == b.width);
            assert(b.dot(i, j).settled());
        }
        assert(a.mine_mask() =~~= b.mine_mask());
    }
}

/// A flag does not change what opening does: with or without a toggled flag,
/// at the position itself or elsewhere, opening a position opens the same
/// cells.
pub proof fn lemma_flag_then_open(b: Board, u: int, v: int, x: int, y: int)
    requires
        b.wf(),
    ensures
        b.after_flag(u, v).mine(x, y) == b.mine(x, y),
        b.after_flag(u, v).after_open(x, y).opened == b.after_open(x, y).opened,
{
    let a = b.after_flag(u, v);
    assert forall|i: int, j: int| #[trigger] a.blank(i, j) == b.blank(i, j) by {
        if b.inside(i, j) {
            lemma_flag_keeps_cells(b, u, v, i, j);
        }
    }
    if b.inside(x, y) {
        lemma_flag_keeps_cells(b, u, v, x, y);
    }
    lemma_open_same_blanks(a, b, x, y);
}

/// On two boards of one size with the same cells blank and the same cells
/// opened, opening a position that holds a mine on both or on neither opens
/// the same cells.
proof fn lemma_open_same_blanks(a: Board, b: Board, x: int, y: int)
    requires
        a.width == b.width,
        a.height == b.height,
        a.opened == b.opened,
        a.mine(x, y) == b.mine(x, y),
        forall|i: int, j: int| #[trigger] a.blank(i, j) == b.blank(i, j),
    ensures
        a.after_open(x, y).opened == b.after_open(x, y).opened,
{
    if b.inside(x, y) && !b.mine(x, y) && !b.shown(x, y) {
        assert forall|i: int, j: int| a.reached((x, y), (i, j)) == b.reached((x, y), (i, j)) by {
            if a.reached((x, y), (i, j)) {
                lemma_reached_same_blanks(a, b, (x, y), (i, j));
            }
            if b.reached((x, y), (i, j)) {
                lemma_reached_same_blanks(b, a, (x, y), (i, j));
            }
        }
        assert(a.after_open(x, y).opened =~~= b.after_open(x, y).opened);
    }
}

/// Opening a position that is opened already changes nothing, and so the
/// number of opened cells stays.
pub proof fn lemma_open_opened(b: Board, x: int, y: int)
    requires
        b.wf(),
        b.inside(x, y),
        b.shown(x, y),
    ensures
        b.after_open(x, y) == b,
        b.after_open(x, y).opened_total() == b.opened_total(),
{
}

/// Opening a position leaves a board one that a game can reach: it has the
/// mines it was made with, every number is the count of the mines around its
/// cell, no opened cell holds a mine, and around every opened blank cell all
/// cells are opened.
pub proof fn lemma_open_keeps_wf(b: Board, x: int, y: int)
    requires
        b.wf(),
    ensures
        b.after_open(x, y).wf(),
{
    let a = b.after_open(x, y);
    if b.inside(x, y) && !b.mine(x, y) && !b.shown(x, y) {
        let start = (x, y);
        assert forall|i: int, j: int| a.inside(i, j) implies #[trigger] a.shown(i, j) == (b.shown(
            i,
            j,
        ) || (i == x && j == y) || b.reached(start, (i, j))) by {
            assert(a.opened[j][i] == a.shown(i, j));
        }
        assert(a.shaped());
        lemma_generated_same_dots(b, a);
        assert forall|i: int, j: int| a.inside(i, j) && #[trigger] a.shown(i, j) implies !a.dot(
            i,
            j,
        ).mined() by {
            if b.shown(i, j) {
            } else if b.reached(start, (i, j)) {
                lemma_no_mine_reached(b, start, (i, j));
            }
        }
        assert forall|i: int, j: int|
            a.inside(i, j) && #[trigger] a.shown(i, j) && a.dot(i, j).blank() implies a.ringed(
            i,
            j,
        ) by {
            if b.shown(i, j) {
                lemma_ringed_grows(b, a, i, j);
            } else {
                if i == x && j == y {
                    lemma_linked_self(b, start);
                } else {
                    let z = choose|z: (int, int)| #[trigger] b.linked(start, z) && near(z, (i, j));
                    lemma_linked_step(b, start, z, (i, j));
                }
                assert(b.linked(start, (i, j)));
                assert forall|u: int, v: int|
                    a.inside(u, v) && near((i, j), (u, v)) implies #[trigger] a.shown(u, v) by {
                    assert(b.linked(start, (i, j)) && near((i, j), (u, v)));
                    assert(b.reached(start, (u, v)));
                }
            }
        }
    }
}

/// Opening a position a second time changes nothing.
pub proof fn lemma_open_twice(b: Board, x: int, y: int)
    requires
        b.wf(),
    ensures
        b.after_open(x, y).after_open(x, y) == b.after_open(x, y),
{
    let once = b.after_open(x, y);
    if b.inside(x, y) && !b.mine(x, y) && !b.shown(x, y) {
        assert(once.opened[y][x]);
        assert(once.shown(x, y));
    }
}

/// Opening a position that holds a mine, under a flag or not, changes
/// nothing.
pub proof fn lemma_open_mine(b: Board, x: int, y: int)
    requires
        b.wf(),
        b.mine(x, y),
    ensures
        b.after_open(x, y) == b,
{
}

/// Opening a position closes no cell and changes no cell's value.
pub proof fn lemma_open_keeps(b: Board, x: int, y: int, i: int, j: int)
    requires
        b.wf(),
        b.inside(i, j),
    ensures
        b.after_open(x, y).dot(i, j) == b.dot(i, j),
        b.shown(i, j) ==> b.after_open(x, y).shown(i, j),
{
}

/// Opening a closed cell that has no mine around it opens every blank cell
/// of the region it lies in and every cell that touches one of them, and
/// beyond the position itself nothing else.
pub proof fn lemma_open_floods(b: Board, x: int, y: int, i: int, j: int)
    requires
        b.wf(),
        b.blank(x, y),
        !b.shown(x, y),
        b.inside(i, j),
    ensures
        b.after_open(x, y).shown(i, j) <==> b.shown(i, j) || (exists|z: (int, int)| #[trigger]
            b.linked((x, y), z) && near(z, (i, j))),
{
    let a = b.after_open(x, y);
    assert(!b.mine(x, y));
    assert(a.shown(i, j) == (b.shown(i, j) || (i == x && j == y) || b.reached((x, y), (i, j))));
    if i == x && j == y {
        let path = seq![(x, y)];
        assert(path[0] == (x, y));
        assert(b.joins(path, (x, y), (x, y)));
        assert(b.linked((x, y), (x, y)) && near((x, y), (i, j)));
    }
}

/// Opening any closed cell of a region of blank cells opens the same cells.
pub proof fn lemma_open_anywhere(b: Board, x: int, y: int, u: int, v: int)
    requires
        b.wf(),
        b.linked((x, y), (u, v)),
        !b.shown(x, y),
        !b.shown(u, v),
    ensures
        b.after_open(x, y) == b.after_open(u, v),
{
    lemma_linked_symmetric(b, (x, y), (u, v));
    let there = choose|path: Seq<(int, int)>| #[trigger] b.joins(path, (x, y), (u, v));
    let back = choose|path: Seq<(int, int)>| #[trigger] b.joins(path, (u, v), (x, y));
    assert(b.blank(there[0].0, there[0].1));
    assert(b.blank(back[0].0, back[0].1));
    lemma_linked_self(b, (x, y));
    lemma_linked_self(b, (u, v));
    assert(!b.mine(x, y) && !b.mine(u, v));
    assert forall|i: int, j: int|
        b.reached((x, y), (i, j)) == b.reached((u, v), (i, j)) by {
        if b.reached((x, y), (i, j)) {
            let z = choose|z: (int, int)| #[trigger] b.linked((x, y), z) && near(z, (i, j));
            lemma_linked_transitive(b, (u, v), (x, y), z);
            assert(b.linked((u, v), z) && near(z, (i, j)));
        }
        if b.reached((u, v), (i, j)) {
            let z = choose|z: (int, int)| #[trigger] b.linked((u, v), z) && near(z, (i, j));
            lemma_linked_transitive(b, (x, y), (u, v), z);
            assert(b.linked((x, y), z) && near(z, (i, j)));
        }
    }
    assert forall|i: int, j: int| b.inside(i, j) implies ((i == x && j == y) ==> b.reached(
        (u, v),
        (i, j),
    )) && ((i == u && j == v) ==> b.reached((x, y), (i, j))) by {
        assert(b.linked((u, v), (x, y)) && near((x, y), (x, y)));
        assert(b.linked((x, y), (u, v)) && near((u, v), (u, v)));
    }
    assert(b.after_open(x, y).opened =~~= b.after_open(u, v).opened);
}

/// Opening a closed safe cell that has a mine around it opens that cell
/// alone.
pub proof fn lemma_open_single(b: Board, x: int, y: int, i: int, j: int)
    requires
        b.wf(),
        b.inside(x, y),
        !b.mine(x, y),
        !b.blank(x, y),
        !b.shown(x, y),
        b.inside(i, j),
    ensures
        b.after_open(x, y).shown(i, j) <==> b.shown(i, j) || (i == x && j == y),
{
    if b.reached((x, y), (i, j)) {
        let z = choose|z: (int, int)| #[trigger] b.linked((x, y), z) && near(z, (i, j));
        let path = choose|path: Seq<(int, int)>| #[trigger] b.joins(path, (x, y), z);
        assert(b.blank(path[0].0, path[0].1));
    }
}

/// The closed cells of a board that a game can reach are never fewer than
/// its mines, and they are as many as the mines exactly when every cell
/// without a mine is opened: that is when the game is won.
pub proof fn lemma_won_iff_cleared(b: Board)
    requires
        b.wf(),
    ensures
        0 <= b.opened_total(),
        b.opened_total() + b.mines <= b.width * b.height,
        b.width * b.height - b.opened_total() == b.mines <==> (forall|x: int, y: int|
            b.inside(x, y) && !b.mine(x, y) ==> #[trigger] b.shown(x, y)),
{
    let h = b.height as nat;
    let w = b.width as nat;
    let full = Seq::new(h, |y: int| Seq::new(w, |x: int| true));
    let safe = Seq::new(h, |y: int| Seq::new(w, |x: int| !b.dot(x, y).mined()));
    let rest = Seq::new(h, |y: int| Seq::new(w, |x: int| !b.dot(x, y).mined() && !b.shown(x, y)));
    lemma_tally_full(full, b.width);
    assert(full.len() * b.width == b.width * b.height) by (nonlinear_arith)
        requires
            full.len() == b.height,
    ;
    lemma_tally_split(full, b.mine_mask(), safe);
    assert forall|x: int, y: int|
        0 <= y < safe.len() && 0 <= x < safe[y].len() implies one_if(#[trigger] safe[y][x])
        == one_if(b.opened[y][x]) + one_if(rest[y][x]) by {
        assert(b.inside(x, y));
        if b.shown(x, y) {
            assert(!b.dot(x, y).mined());
        }
    }
    lemma_tally_split(safe, b.opened, rest);
    lemma_tally_zero(rest);
    lemma_tally_nonnegative(rest);
    lemma_tally_nonnegative(b.opened);
    if tally(rest) == 0 {
        assert forall|x: int, y: int| b.inside(x, y) && !b.mine(x, y) implies #[trigger] b.shown(
            x,
            y,
        ) by {
            assert(!rest[y][x]);
        }
    }
    if forall|x: int, y: int| b.inside(x, y) && !b.mine(x, y) ==> #[trigger] b.shown(x, y) {
        assert forall|x: int, y: int|
            0 <= y < rest.len() && 0 <= x < rest[y].len() implies !#[trigger] rest[y][x] by {
            assert(b.inside(x, y));
            if !b.mine(x, y) {
                assert(b.shown(x, y));
            }
        }
    }
}

} // verus!
