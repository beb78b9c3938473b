//! Laws of sliding the byte grid sideways.

use crate::laws::nav;
use crate::model::Model;
use crate::nav as navigation;
use crate::rows;
use crate::rows::Shape;
use crate::view;
use vstd::prelude::*;

verus! {

/// Sliding the grid right and left again, or left and right, anchors it where
/// it was.
pub proof fn law_sliding_back_restores_the_anchor(m: Model, hay: Seq<u8>)
    requires
        m.record is None,
        0 <= m.align < m.row_bytes(),
    ensures
        m.shift_grid(hay, true).shift_grid(hay, false).align == m.align,
        m.shift_grid(hay, false).shift_grid(hay, true).align == m.align,
        0 <= m.shift_grid(hay, true).align < m.row_bytes(),
        0 <= m.shift_grid(hay, false).align < m.row_bytes(),
{
    let bpl = m.row_bytes();
    navigation::lemma_slide(m.align, bpl);
    let right = m.shift_grid(hay, true);
    let left = m.shift_grid(hay, false);
    assert(right.align == (m.align + 1) % bpl);
    assert(left.align == (m.align + bpl - 1) % bpl);
    assert(m.align % bpl == m.align) by {
        vstd::arithmetic::div_mod::lemma_small_mod(m.align as nat, bpl as nat);
    }
    assert(right.align % bpl == right.align) by {
        vstd::arithmetic::div_mod::lemma_small_mod(right.align as nat, bpl as nat);
    }
    assert(left.align % bpl == left.align) by {
        vstd::arithmetic::div_mod::lemma_small_mod(left.align as nat, bpl as nat);
    }
    navigation::lemma_slide(right.align, bpl);
    navigation::lemma_slide(left.align, bpl);
}

/// Every line moves together, by the same byte: where the grid is slid right,
/// each row of it starts one byte further on.
pub proof fn law_sliding_moves_every_line_by_the_same_byte(m: Model, hay: Seq<u8>, off: int)
    requires
        m.record is None,
        0 <= m.align < m.row_bytes(),
        m.align <= off,
        off + 1 < hay.len(),
    ensures
        m.shift_grid(hay, true).shape(hay).row_at(off + 1).start == m.shape(hay).row_at(off).start
            + 1,
{
    reveal(Shape::row_at);
    let bpl = m.row_bytes();
    navigation::lemma_slide(m.align, bpl);
    vstd::arithmetic::div_mod::lemma_small_mod(m.align as nat, bpl as nat);
    let slid = m.shift_grid(hay, true);
    assert(slid.shape(hay).align == slid.align);
    assert(slid.shape(hay).bpl == bpl);
    let q = (off - m.align) / bpl;
    rows::lemma_floor(off - m.align, bpl);
    if m.align + 1 == bpl {
        // the anchor is back at the start, a line further on
        assert(slid.align == 0);
        assert((q + 1) * bpl == q * bpl + bpl) by (nonlinear_arith);
        vstd::arithmetic::div_mod::lemma_fundamental_div_mod_converse(
            off + 1,
            bpl,
            q + 1,
            off - m.align - q * bpl,
        );
    } else {
        assert(slid.align == m.align + 1);
    }
}

/// Sliding the grid settles the view on a row of the new one, so the first
/// line moves with the others — also in a file that fits on one screen.
pub proof fn law_a_slid_view_starts_with_a_row(m: Model, hay: Seq<u8>, right: bool)
    requires
        nav::sane(m),
        m.record is None,
    ensures
        nav::at_row(m.shift_grid(hay, right).shape(hay), m.shift_grid(hay, right).top),
{
    let bpl = m.row_bytes();
    navigation::lemma_slide(m.align, bpl);
    let slid = Model {
        align: if right {
            (m.align + 1) % bpl
        } else {
            (m.align + bpl - 1) % bpl
        },
        ..m
    };
    let shape = slid.shape(hay);
    let near = if right {
        m.top + 1
    } else {
        rows::above(m.top, 1)
    };
    rows::lemma_row_at(shape, near);
    let at = rows::least(near, rows::above(hay.len() as int, 1));
    assert(shape.row_at(near) == shape.row_at(at)) by {
        reveal(Shape::row_at);
    }
    nav::lemma_is_row(shape, at);
    let top = shape.row_at(near).start;
    let put = Model {
        top,
        cur: if m.cur >= top {
            m.cur
        } else {
            top
        },
        ..slid
    };
    assert(put.shape(hay) == shape);
    nav::lemma_settled_row(put, hay);
    assert(m.shift_grid(hay, right) == put.ensure_visible(hay));
    assert(m.shift_grid(hay, right).shape(hay) == shape);
}

/// The anchor is state of its own: nothing but a slide or a new line width
/// moves it.
pub proof fn law_the_anchor_survives_navigation(
    m: Model,
    hay: Seq<u8>,
    delta: int,
    n: int,
    down: bool,
    off: int,
)
    ensures
        m.ensure_visible(hay).align == m.align,
        m.move_cursor(hay, delta).align == m.align,
        m.step_rows(hay, n, down).align == m.align,
        m.page_rows(hay, n, down).align == m.align,
        m.go_row_edge(hay, down).align == m.align,
        m.go_to(hay, off).align == m.align,
        m.go_end(hay).align == m.align,
        m.run_search(hay, off).align == m.align,
        m.reloaded(hay).align == m.align,
{
}

/// Scrolling records sideways leaves the cursor alone, and as far as its record
/// reaches a scroll one way takes back one the other way.
pub proof fn law_scrolling_sideways_leaves_the_cursor_alone(m: Model, hay: Seq<u8>, right: bool)
    requires
        m.record is Some,
        !m.wrap,
    ensures
        m.shift_grid(hay, right).cur == m.cur,
        m.shift_grid(hay, right).top == m.top,
        0 <= m.hoff < m.shape(hay).most_hoff(m.cur) ==> m.shift_grid(hay, true).hoff == m.hoff + 1
            && m.shift_grid(hay, true).shift_grid(hay, false).hoff == m.hoff,
        0 < m.hoff <= m.shape(hay).most_hoff(m.cur) ==> m.shift_grid(hay, false).hoff == m.hoff - 1
            && m.shift_grid(hay, false).shift_grid(hay, true).hoff == m.hoff,
{
    assert(m.shift_grid(hay, true).shape(hay) == m.shape(hay));
    assert(m.shift_grid(hay, false).shape(hay) == m.shape(hay));
}

/// However often records are scrolled sideways, the record of the cursor still
/// shows a byte, in the frames that follow too.
pub proof fn law_a_scroll_by_hand_leaves_something_to_see(
    m: Model,
    hay: Seq<u8>,
    right: bool,
    w: int,
    h: int,
)
    requires
        nav::sane(m),
        m.record is Some,
        !m.wrap,
        m.cur < hay.len(),
    ensures
        ({
            let r = m.shift_grid(hay, right);
            r.shape(hay).clip(r.shape(hay).row_at(r.cur), r.hoff).len >= 1
        }),
        ({
            let r = m.shift_grid(hay, right).measured(hay, w, h);
            r.shape(hay).clip(r.shape(hay).row_at(r.cur), r.hoff).len >= 1
        }),
{
    let shape = m.shape(hay);
    rows::lemma_row_at(shape, m.cur);
    let r = m.shift_grid(hay, right);
    assert(r.shape(hay) == shape);
    let drawn = r.measured(hay, w, h);
    lemma_cut_rows(shape, drawn.shape(hay), m.cur);
    view::lemma_bpl(m.mode, w, hay.len() as int, m.fixed_bpl);
}

/// Records on a single line are the same in every window.
proof fn lemma_cut_rows(a: Shape, b: Shape, off: int)
    requires
        a.hay == b.hay,
        a.record is Some,
        a.record == b.record,
        !a.wrap,
        !b.wrap,
    ensures
        a.row_at(off) == b.row_at(off),
{
    reveal(Shape::row_at);
}

/// A scroll by hand is not undone by the frames that follow, nor by a reload
/// that leaves the byte under the cursor in the file: both the scroll and the
/// cursor stay until the cursor is moved.
pub proof fn law_a_scroll_by_hand_outlasts_frames(
    m: Model,
    hay: Seq<u8>,
    right: bool,
    w: int,
    h: int,
)
    requires
        m.record is Some,
        !m.wrap,
        0 <= m.cur < hay.len(),
    ensures
        ({
            let r = m.shift_grid(hay, right);
            let drawn = r.measured(hay, w, h);
            &&& drawn.hoff == r.hoff && drawn.cur == m.cur
            &&& drawn.measured(hay, w, h).hoff == r.hoff && drawn.measured(hay, w, h).cur == m.cur
            &&& drawn.shift_grid(hay, right).hoff == r.shift_grid(hay, right).hoff
            &&& r.reloaded(hay).hoff == r.hoff && r.reloaded(hay).cur == m.cur
        }),
{
    let shape = m.shape(hay);
    let r = m.shift_grid(hay, right);
    assert(r.shape(hay) == shape);
    let drawn = r.measured(hay, w, h);
    let len = hay.len() as int;
    let bpl = view::bpl_for(r.mode, w, len, r.fixed_bpl);
    let sized = Model {
        rows: h - 2,
        bpl,
        fit_bpl: view::fit_for(r.mode, w, len),
        align: r.align % bpl,
        ..r
    };
    assert(drawn == sized.settle(hay));
    lemma_cut_rows(shape, sized.shape(hay), m.cur);
    lemma_cut_rows(shape, drawn.shape(hay), m.cur);
    let again = Model {
        rows: h - 2,
        bpl,
        fit_bpl: view::fit_for(drawn.mode, w, len),
        align: drawn.align % bpl,
        ..drawn
    };
    assert(drawn.measured(hay, w, h) == again.settle(hay));
    lemma_cut_rows(shape, again.shape(hay), m.cur);
    let back = Model { top: rows::least(r.top, len), ..r };
    lemma_cut_rows(shape, back.shape(hay), m.cur);
}

/// Once the cursor moves, the records scroll with it again: the row of the
/// cursor is shown from at most the byte under it on.
pub proof fn law_moving_the_cursor_ends_a_scroll_by_hand(m: Model, hay: Seq<u8>, off: int)
    requires
        nav::sane(m),
        m.record is Some,
        !m.wrap,
        0 <= off < hay.len(),
    ensures
        ({
            let r = m.go_to(hay, off);
            let rel = off - m.shape(hay).row_at(off).start;
            !r.held && r.hoff <= rel < r.hoff + m.row_bytes()
        }),
{
    rows::lemma_row_at(m.shape(hay), off);
}

} // verus!
