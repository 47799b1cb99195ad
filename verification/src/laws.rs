//! What holds of materialized views, whatever the grid and the offsets.

use vstd::prelude::*;
use crate::bit_grid::{
    cell, clean, lemma_snapshot_bit, raw_cell, snapshot, words_for, BitGrid, BitView,
};
use crate::views::{
    larger, lemma_function_ready, result_of, total, Known, Or, Prim, Shifted, ShiftedWrap, Window,
};
use crate::word::BitWidth;
use crate::word::lemma_pack_same;

verus! {

/// Materializing a grid itself gives back its content word for word, the
/// bits past its width in the last word of a row included.
pub proof fn law_round_trip(g: &BitGrid)
    requires
        g.wf(),
    ensures
        snapshot(g) == g@,
{
    assert forall|y: int, k: int| 0 <= y < g@.height && 0 <= k < words_for(g@.width) implies g.word(
        128 * k,
        y,
    ) == g@.words[y][k] by {
        g.lemma_aligned_word(k, y);
    }
    g.lemma_view_is_wf();
    assert(snapshot(g).words =~~= g@.words);
}

/// No set cell of `g` leaves the extent when moved by `(dx, dy)`.
pub open spec fn stays_inside(g: &BitGrid, dx: int, dy: int) -> bool {
    forall|x: int, y: int| #[trigger] cell(g, x, y) ==> 0 <= x + dx < g.cols() && 0 <= y + dy < g.rows()
}

/// Shifting a grid by `(dx, dy)` and the result by `(-dx, -dy)` shows, when
/// materialized, every cell of the grid as it was, provided that the first
/// shift pushed no set cell over the edge. A cell that is pushed out is
/// lost: the second shift brings back a blank.
pub proof fn law_shift_inverse<'a>(
    g: &BitGrid,
    there: &Shifted<'a, BitGrid>,
    back: &Shifted<'a, Shifted<'a, BitGrid>>,
    dx: int,
    dy: int,
)
    requires
        g.wf(),
        -g.cols() < dx < g.cols(),
        -g.rows() < dy < g.rows(),
        there.operand() == g,
        there.dx() == dx,
        there.dy() == dy,
        back.operand() == there,
        back.dx() == -dx,
        back.dy() == -dy,
        stays_inside(g, dx, dy),
    ensures
        snapshot(back).width == g@.width,
        snapshot(back).height == g@.height,
        forall|x: int, y: int|
            0 <= x < g.cols() && 0 <= y < g.rows() ==> snapshot(back).bit(x, y) == g@.bit(x, y),
{
    assert forall|x: int, y: int| 0 <= x < g.cols() && 0 <= y < g.rows() implies snapshot(back).bit(
        x,
        y,
    ) == g@.bit(x, y) by {
        lemma_snapshot_bit(back, x, y);
        back.lemma_raw_cell(x, y);
        there.lemma_raw_cell(x + dx, y + dy);
        g.lemma_raw_cell(x, y);
        assert(cell(g, x, y) == g@.bit(x, y));
    }
}

/// What the two shifts of `law_shift_inverse` show in general: a cell of the
/// grid survives exactly when the first shift keeps it inside the extent.
pub proof fn law_shift_there_and_back<'a>(
    g: &BitGrid,
    there: &Shifted<'a, BitGrid>,
    back: &Shifted<'a, Shifted<'a, BitGrid>>,
)
    requires
        g.wf(),
        there.operand() == g,
        back.operand() == there,
        back.dx() == -there.dx(),
        back.dy() == -there.dy(),
    ensures
        forall|x: int, y: int|
            0 <= x < g.cols() && 0 <= y < g.rows() ==> snapshot(back).bit(x, y) == (g@.bit(x, y)
                && 0 <= x + there.dx() < g.cols() && 0 <= y + there.dy() < g.rows()),
{
    assert forall|x: int, y: int| 0 <= x < g.cols() && 0 <= y < g.rows() implies snapshot(back).bit(
        x,
        y,
    ) == (g@.bit(x, y) && 0 <= x + there.dx() < g.cols() && 0 <= y + there.dy() < g.rows()) by {
        lemma_snapshot_bit(back, x, y);
        back.lemma_raw_cell(x, y);
        there.lemma_raw_cell(x + there.dx(), y + there.dy());
        g.lemma_raw_cell(x, y);
    }
}

/// A toroidal shift by one full width more is the same view: both yield the
/// same word at every column and row, so they materialize alike.
pub proof fn law_wrap_period<'a, T: BitView>(a: &ShiftedWrap<'a, T>, b: &ShiftedWrap<'a, T>)
    requires
        a.operand() == b.operand(),
        b.dx() == a.dx() + a.operand().cols(),
        b.dy() == a.dy(),
    ensures
        forall|x: int, y: int| a.word(x, y) == b.word(x, y),
        snapshot(a) == snapshot(b),
{
    let w = a.operand().cols() as int;
    assert forall|x: int, y: int| a.word(x, y) == b.word(x, y) by {
        let p = a.rule(x, y);
        let q = b.rule(x, y);
        assert forall|i: int| 0 <= i < 128 implies #[trigger] p(i) == q(i) by {
            if w > 0 {
                vstd::arithmetic::div_mod::lemma_mod_sub_multiples_vanish(x + i - a.dx(), w);
            }
        }
        lemma_pack_same(p, q);
    }
    assert(snapshot(a).words =~~= snapshot(b).words);
}

/// A materialized window is blank from its declared width on: in every row,
/// every stored bit at a column not below the width is clear, whatever the
/// operand holds there.
pub proof fn law_window_masks<'a, T: BitView>(win: &Window<'a, T>)
    requires
        win.wf(),
    ensures
        snapshot(win).width == win.span_x(),
        snapshot(win).height == win.span_y(),
        forall|x: int, y: int| x >= win.span_x() ==> !snapshot(win).bit(x, y),
        forall|x: int, y: int|
            0 <= x < win.span_x() && 0 <= y < win.span_y() ==> snapshot(win).bit(x, y) == cell(
                win.operand(),
                x + win.left(),
                y + win.top(),
            ),
{
    assert forall|x: int, y: int| x >= win.span_x() implies !snapshot(win).bit(x, y) by {
        lemma_snapshot_bit(win, x, y);
        win.lemma_raw_cell(x, y);
    }
    assert forall|x: int, y: int| 0 <= x < win.span_x() && 0 <= y < win.span_y() implies snapshot(
        win,
    ).bit(x, y) == cell(win.operand(), x + win.left(), y + win.top()) by {
        lemma_snapshot_bit(win, x, y);
        win.lemma_raw_cell(x, y);
    }
}

/// The OR of two views has the larger width and the larger height, and a
/// cell of its snapshot is set when either operand shows it set, a cell
/// outside an operand's extent counting as clear. This needs operands that
/// are clear outside their extents: a grid whose last word holds set bits
/// past its width would show them through a wider partner.
pub proof fn law_or_extent<'a, Ta: BitView, Tb: BitView>(or: &Or<'a, Ta, Tb>)
    requires
        or.wf(),
        clean(or.first()),
        clean(or.second()),
    ensures
        snapshot(or).width == larger(or.first().cols(), or.second().cols()),
        snapshot(or).height == larger(or.first().rows(), or.second().rows()),
        forall|x: int, y: int|
            0 <= x < snapshot(or).width && 0 <= y < snapshot(or).height ==> snapshot(or).bit(x, y)
                == (cell(or.first(), x, y) || cell(or.second(), x, y)),
{
    assert forall|x: int, y: int|
        0 <= x < snapshot(or).width && 0 <= y < snapshot(or).height implies snapshot(or).bit(x, y)
        == (cell(or.first(), x, y) || cell(or.second(), x, y)) by {
        lemma_snapshot_bit(or, x, y);
        or.lemma_raw_cell(x, y);
        assert(raw_cell(or.first(), x, y) ==> cell(or.first(), x, y));
        assert(raw_cell(or.second(), x, y) ==> cell(or.second(), x, y));
    }
}

/// Without any condition on the operands, a stored bit of the OR's snapshot
/// is set when it is set in the aligned word of either operand.
pub proof fn law_or_words<'a, Ta: BitView, Tb: BitView>(or: &Or<'a, Ta, Tb>, x: int, y: int)
    requires
        0 <= y < or.rows(),
        0 <= x < 128 * words_for(or.cols()),
    ensures
        snapshot(or).bit(x, y) == (raw_cell(or.first(), x, y) || raw_cell(or.second(), x, y)),
{
    lemma_snapshot_bit(or, x, y);
    or.lemma_raw_cell(x, y);
}

/// A grid that holds a single set bit, at column `p` of row `row`, shows
/// after a shift to the right by `s` a single set bit at column `p + s` of
/// that row, or none at all when `p + s` is not below the width. This holds
/// for every `s`, below the word width, at it and beyond it.
pub proof fn law_single_bit_shift<'a>(g: &BitGrid, moved: &Shifted<'a, BitGrid>, p: int, row: int)
    requires
        g.wf(),
        0 <= p < g.cols(),
        0 <= row < g.rows(),
        forall|x: int, y: int| g@.bit(x, y) == (x == p && y == row),
        moved.operand() == g,
        moved.dx() >= 0,
        moved.dy() == 0,
    ensures
        forall|x: int, y: int|
            snapshot(moved).bit(x, y) == (x == p + moved.dx() && y == row && p + moved.dx()
                < g.cols()),
{
    assert forall|x: int, y: int|
        snapshot(moved).bit(x, y) == (x == p + moved.dx() && y == row && p + moved.dx()
            < g.cols()) by {
        lemma_snapshot_bit(moved, x, y);
        moved.lemma_raw_cell(x, y);
        g.lemma_raw_cell(x - moved.dx(), y);
    }
}

/// Two views combined with a function that is known to compute `model`
/// are a valid view where the operands are, and every stored word of the
/// snapshot is what `model` makes of the operands' words there.
pub proof fn law_prim_known<'a, Ta: BitView, Tb: BitView, F: Fn(BitWidth, BitWidth) -> BitWidth>(
    p: &Prim<'a, Ta, Tb, Known<F>>,
    k: int,
    y: int,
)
    requires
        p.operator().faithful(),
        0 <= y < p.rows(),
        0 <= k < words_for(p.cols()),
    ensures
        p.wf() == (p.first().wf() && p.second().wf()),
        snapshot(p).width == larger(p.first().cols(), p.second().cols()),
        snapshot(p).height == larger(p.first().rows(), p.second().rows()),
        snapshot(p).words[y][k] == (p.operator().model())(
            p.first().word(128 * k, y),
            p.second().word(128 * k, y),
        ),
{
    p.operator().lemma_known();
    p.lemma_parts();
}

/// Two views combined with any function that accepts every pair of words
/// and determines what it returns are a valid view where the operands
/// are; and where the function can return `r` for the operands' words, the
/// stored word of the snapshot is `r`.
pub proof fn law_prim_function<'a, Ta: BitView, Tb: BitView, F: Fn(BitWidth, BitWidth) -> BitWidth>(
    p: &Prim<'a, Ta, Tb, F>,
    k: int,
    y: int,
    r: u128,
)
    requires
        total(p.operator()),
        0 <= y < p.rows(),
        0 <= k < words_for(p.cols()),
    ensures
        p.wf() == (p.first().wf() && p.second().wf()),
        call_ensures(p.operator(), (p.first().word(128 * k, y), p.second().word(128 * k, y)), r)
            ==> snapshot(p).words[y][k] == r,
{
    lemma_function_ready(p.operator());
    p.lemma_parts();
    assert(snapshot(p).words[y][k] == result_of(
        p.operator(),
        p.first().word(128 * k, y),
        p.second().word(128 * k, y),
    ));
}

} // verus!
