//! One round of dwarves spreading out, worked out on whole bit grids at
//! once: the grid of dwarves is shifted, combined and masked until each
//! cell says whether a dwarf comes to stand there.
//!
//! The round is a simpler one than that of single dwarves: a dwarf
//! without neighbours leaves the board, and so does one whose square a
//! dwarf from another side has picked too.

use crate::bit_grid::{lemma_snapshot_bit, BitGrid, Bitmap};
use crate::views::{And, AndNot, Or, Prim, Shifted};
use vstd::prelude::*;

verus! {

/// Whether a place lies on a bitmap.
pub open spec fn on(b: Bitmap, x: int, y: int) -> bool {
    0 <= x < b.width && 0 <= y < b.height
}

/// Whether a dwarf stands on a place of the bitmap.
pub open spec fn at(b: Bitmap, x: int, y: int) -> bool {
    on(b, x, y) && b.bit(x, y)
}

/// Whether a dwarf stands on one of the three squares to the north.
pub open spec fn north(b: Bitmap, x: int, y: int) -> bool {
    at(b, x + 1, y - 1) || at(b, x, y - 1) || at(b, x - 1, y - 1)
}

/// Whether a dwarf stands on one of the three squares to the south.
pub open spec fn south(b: Bitmap, x: int, y: int) -> bool {
    at(b, x + 1, y + 1) || at(b, x, y + 1) || at(b, x - 1, y + 1)
}

/// Whether a dwarf stands on one of the three squares to the west.
pub open spec fn west(b: Bitmap, x: int, y: int) -> bool {
    at(b, x - 1, y + 1) || at(b, x - 1, y) || at(b, x - 1, y - 1)
}

/// Whether a dwarf stands on one of the three squares to the east.
pub open spec fn east(b: Bitmap, x: int, y: int) -> bool {
    at(b, x + 1, y + 1) || at(b, x + 1, y) || at(b, x + 1, y - 1)
}

/// Whether a dwarf with a neighbour stands on a place.
pub open spec fn live(b: Bitmap, x: int, y: int) -> bool {
    at(b, x, y) && (north(b, x, y) || south(b, x, y) || west(b, x, y) || east(b, x, y))
}

/// Whether the dwarf on a place sets out in direction `k`, counted
/// north, south, west, east: it has a neighbour, the directions before
/// `k` are not free, and `k` is.
pub open spec fn goes(b: Bitmap, k: int, x: int, y: int) -> bool {
    if k == 0 {
        live(b, x, y) && !north(b, x, y)
    } else if k == 1 {
        live(b, x, y) && north(b, x, y) && !south(b, x, y)
    } else if k == 2 {
        live(b, x, y) && north(b, x, y) && south(b, x, y) && !west(b, x, y)
    } else {
        live(b, x, y) && north(b, x, y) && south(b, x, y) && west(b, x, y) && !east(b, x, y)
    }
}

/// Whether the dwarf on a place has a neighbour and no free direction.
pub open spec fn stuck(b: Bitmap, x: int, y: int) -> bool {
    live(b, x, y) && north(b, x, y) && south(b, x, y) && west(b, x, y) && east(b, x, y)
}

/// Whether a dwarf that set out in direction `k` comes to a place.
pub open spec fn lands(b: Bitmap, k: int, x: int, y: int) -> bool {
    on(b, x, y) && if k == 0 {
        goes(b, 0, x, y + 1)
    } else if k == 1 {
        goes(b, 1, x, y - 1)
    } else if k == 2 {
        goes(b, 2, x + 1, y)
    } else {
        goes(b, 3, x - 1, y)
    }
}

/// Whether a dwarf stands on a place after the round: one that was stuck
/// there, or one that came from one side while none came from another.
pub open spec fn spread(b: Bitmap, x: int, y: int) -> bool {
    ||| stuck(b, x, y)
    ||| lands(b, 0, x, y) && !lands(b, 1, x, y) && !lands(b, 2, x, y) && !lands(b, 3, x, y)
    ||| lands(b, 1, x, y) && !lands(b, 0, x, y) && !lands(b, 2, x, y) && !lands(b, 3, x, y)
    ||| lands(b, 2, x, y) && !lands(b, 0, x, y) && !lands(b, 1, x, y) && !lands(b, 3, x, y)
    ||| lands(b, 3, x, y) && !lands(b, 0, x, y) && !lands(b, 1, x, y) && !lands(b, 2, x, y)
}

/// Whether two grids have the same width and height.
pub open spec fn same_extent(a: &BitGrid, b: &BitGrid) -> bool {
    a@.width == b@.width && a@.height == b@.height
}

/// The grid that holds a dwarf wherever `bg`, moved by one of three
/// offsets, holds one.
fn seen_from(bg: &BitGrid, a: (isize, isize), b: (isize, isize), c: (isize, isize)) -> (g: BitGrid)
    requires
        bg.wf(),
    ensures
        g.wf(),
        same_extent(&g, bg),
        forall|x: int, y: int|
            #[trigger] g@.bit(x, y) == (on(bg@, x, y) && (at(bg@, x - a.0, y - a.1) || at(
                bg@,
                x - b.0,
                y - b.1,
            ) || at(bg@, x - c.0, y - c.1))),
{
    let s0 = Shifted::new(bg, a.0, a.1);
    let s1 = Shifted::new(bg, b.0, b.1);
    let s2 = Shifted::new(bg, c.0, c.1);
    let two = Or::new(&s0, &s1);
    let all = Or::new(&two, &s2);
    let g = BitGrid::from_view(&all);
    proof {
        assert forall|x: int, y: int| #[trigger] g@.bit(x, y) == (on(bg@, x, y) && (at(
            bg@,
            x - a.0,
            y - a.1,
        ) || at(bg@, x - b.0, y - b.1) || at(bg@, x - c.0, y - c.1))) by {
            lemma_snapshot_bit(&all, x, y);
            all.lemma_raw_cell(x, y);
            two.lemma_raw_cell(x, y);
            s0.lemma_raw_cell(x, y);
            s1.lemma_raw_cell(x, y);
            s2.lemma_raw_cell(x, y);
            bg.lemma_raw_cell(x - a.0, y - a.1);
            bg.lemma_raw_cell(x - b.0, y - b.1);
            bg.lemma_raw_cell(x - c.0, y - c.1);
        }
    }
    g
}

/// The grid moved by an offset: what leaves the grid is lost.
fn moved(a: &BitGrid, dx: isize, dy: isize) -> (g: BitGrid)
    requires
        a.wf(),
    ensures
        g.wf(),
        same_extent(&g, a),
        forall|x: int, y: int| #[trigger] g@.bit(x, y) == (on(a@, x, y) && at(a@, x - dx, y - dy)),
{
    let s = Shifted::new(a, dx, dy);
    let g = BitGrid::from_view(&s);
    proof {
        assert forall|x: int, y: int| #[trigger] g@.bit(x, y) == (on(a@, x, y) && at(
            a@,
            x - dx,
            y - dy,
        )) by {
            lemma_snapshot_bit(&s, x, y);
            s.lemma_raw_cell(x, y);
            a.lemma_raw_cell(x - dx, y - dy);
        }
    }
    g
}

/// The grid of the bits that both grids hold.
fn both(a: &BitGrid, b: &BitGrid) -> (g: BitGrid)
    requires
        a.wf(),
        b.wf(),
        same_extent(a, b),
    ensures
        g.wf(),
        same_extent(&g, a),
        forall|x: int, y: int| #[trigger] g@.bit(x, y) == (a@.bit(x, y) && b@.bit(x, y)),
{
    let p = Prim::new(a, b, And);
    let g = BitGrid::from_view(&p);
    proof {
        assert forall|x: int, y: int| #[trigger] g@.bit(x, y) == (a@.bit(x, y) && b@.bit(x, y)) by {
            lemma_snapshot_bit(&p, x, y);
            p.lemma_raw_cell(x, y);
            a.lemma_raw_cell(x, y);
            b.lemma_raw_cell(x, y);
        }
    }
    g
}

/// The grid of the bits that the first grid holds and the second does
/// not.
fn without(a: &BitGrid, b: &BitGrid) -> (g: BitGrid)
    requires
        a.wf(),
        b.wf(),
        same_extent(a, b),
    ensures
        g.wf(),
        same_extent(&g, a),
        forall|x: int, y: int| #[trigger] g@.bit(x, y) == (a@.bit(x, y) && !b@.bit(x, y)),
{
    let p = Prim::new(a, b, AndNot);
    let g = BitGrid::from_view(&p);
    proof {
        assert forall|x: int, y: int| #[trigger] g@.bit(x, y) == (a@.bit(x, y) && !b@.bit(x, y)) by {
            lemma_snapshot_bit(&p, x, y);
            p.lemma_raw_cell(x, y);
            a.lemma_raw_cell(x, y);
            b.lemma_raw_cell(x, y);
        }
    }
    g
}

/// The grid of the bits that one of the grids holds.
fn either(a: &BitGrid, b: &BitGrid) -> (g: BitGrid)
    requires
        a.wf(),
        b.wf(),
        same_extent(a, b),
    ensures
        g.wf(),
        same_extent(&g, a),
        forall|x: int, y: int| #[trigger] g@.bit(x, y) == (a@.bit(x, y) || b@.bit(x, y)),
{
    let p = Or::new(a, b);
    let g = BitGrid::from_view(&p);
    proof {
        assert forall|x: int, y: int| #[trigger] g@.bit(x, y) == (a@.bit(x, y) || b@.bit(x, y)) by {
            lemma_snapshot_bit(&p, x, y);
            p.lemma_raw_cell(x, y);
            a.lemma_raw_cell(x, y);
            b.lemma_raw_cell(x, y);
        }
    }
    g
}

/// The grid of the dwarves after a round.
pub fn round(bg: &BitGrid) -> (res: BitGrid)
    requires
        bg.wf(),
    ensures
        res.wf(),
        same_extent(&res, bg),
        forall|x: int, y: int| #[trigger] res@.bit(x, y) == (on(bg@, x, y) && spread(bg@, x, y)),
{
    let ghost b = bg@;
    let a_seen = seen_from(bg, (-1, 1), (0, 1), (1, 1));
    let b_seen = seen_from(bg, (-1, -1), (0, -1), (1, -1));
    let c_seen = seen_from(bg, (1, -1), (1, 0), (1, 1));
    let d_seen = seen_from(bg, (-1, -1), (-1, 0), (-1, 1));
    let any = either(&a_seen, &b_seen);
    let any = either(&any, &c_seen);
    let any = either(&any, &d_seen);
    let live = both(&any, bg);
    assert forall|x: int, y: int| #[trigger] live@.bit(x, y) == crate::spread::live(b, x, y) by {}

    let a_goes = without(&live, &a_seen);
    let live = both(&live, &a_seen);
    let a_move = moved(&a_goes, 0, -1);
    assert forall|x: int, y: int| #[trigger] a_move@.bit(x, y) == lands(b, 0, x, y) by {}

    let b_goes = without(&live, &b_seen);
    let live = both(&live, &b_seen);
    let b_move = moved(&b_goes, 0, 1);
    assert forall|x: int, y: int| #[trigger] b_move@.bit(x, y) == lands(b, 1, x, y) by {}

    let c_goes = without(&live, &c_seen);
    let live = both(&live, &c_seen);
    let c_move = moved(&c_goes, -1, 0);
    assert forall|x: int, y: int| #[trigger] c_move@.bit(x, y) == lands(b, 2, x, y) by {}

    let d_goes = without(&live, &d_seen);
    let live = both(&live, &d_seen);
    let d_move = moved(&d_goes, 1, 0);
    assert forall|x: int, y: int| #[trigger] d_move@.bit(x, y) == lands(b, 3, x, y) by {}
    assert forall|x: int, y: int| #[trigger] live@.bit(x, y) == stuck(b, x, y) by {}

    let a_free = without(&a_move, &b_move);
    let a_free = without(&a_free, &c_move);
    let a_free = without(&a_free, &d_move);

    let b_free = without(&b_move, &a_move);
    let b_free = without(&b_free, &c_move);
    let b_free = without(&b_free, &d_move);

    let c_free = without(&c_move, &a_move);
    let c_free = without(&c_free, &b_move);
    let c_free = without(&c_free, &d_move);

    let d_free = without(&d_move, &a_move);
    let d_free = without(&d_free, &b_move);
    let d_free = without(&d_free, &c_move);

    let res = either(&live, &a_free);
    let res = either(&res, &b_free);
    let res = either(&res, &c_free);
    let res = either(&res, &d_free);
    res
}

} // verus!
