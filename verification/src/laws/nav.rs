//! Laws of navigation: the cursor moves, and the view follows it.

use crate::laws::rows as row_laws;
use crate::model::Model;
use crate::rows;
use crate::rows::{Shape, Span};
use crate::view;
use vstd::prelude::*;

verus! {

/// A state that the viewer can be in.
pub open spec fn sane(m: Model) -> bool {
    &&& m.cur >= 0
    &&& m.top >= 0
    &&& m.align >= 0
    &&& m.hoff >= 0
    &&& m.rows >= 0
    &&& m.record matches Some(p) ==> p.items.len() > 0
}

/// Does the view start where a row does?
pub open spec fn at_row(shape: Shape, top: int) -> bool {
    top == 0 || 0 <= top < shape.len() && shape.row_at(top).start == top
}

/// Is a byte in one of these rows?
pub open spec fn shown(screen: Seq<Span>, x: int) -> bool {
    exists|i: int| 0 <= i < screen.len() && (#[trigger] screen[i]).holds(x)
}

// ── Screens ─────────────────────────────────────────────────────────────────

/// Is this a row of the file?
pub open spec fn is_row(shape: Shape, row: Span) -> bool {
    &&& shape.row_at(row.start) == row
    &&& 0 <= row.start < shape.len() || row == Span { start: 0, len: 0 } && shape.len() == 0
}

pub proof fn lemma_is_row(shape: Shape, off: int)
    requires
        shape.well_formed(),
        0 <= off < shape.len() || off == 0,
    ensures
        is_row(shape, shape.row_at(off)),
        shape.len() > 0 ==> shape.row_at(off).holds(off),
{
    rows::lemma_row_at(shape, off);
    if shape.len() > 0 {
        row_laws::law_rows_tile_the_file(shape, off);
        assert(shape.row_at(off).holds(shape.row_at(off).start));
    }
}

/// The row after a row of the file is one, and starts where it ends.
pub proof fn lemma_next_row(shape: Shape, row: Span)
    requires
        shape.well_formed(),
        is_row(shape, row),
    ensures
        match shape.row_after(row) {
            Some(next) => {
                &&& is_row(shape, next)
                &&& next.start == row.next_start()
                &&& next.start > row.start
                &&& shape.row_before(next) == Some(row)
            },
            None => row.next_start() >= shape.len(),
        },
{
    if let Some(next) = shape.row_after(row) {
        rows::lemma_row_at(shape, row.start);
        row_laws::law_rows_tile_the_file(shape, row.start);
        lemma_is_row(shape, row.next_start());
        row_laws::law_stepping_over_rows_and_back(shape, row.start);
    }
}

/// The rows from a row on: they follow each other without a gap, and only the
/// end of the file leaves fewer than were asked for.
pub proof fn lemma_rows_from(shape: Shape, row: Span, n: int)
    requires
        shape.well_formed(),
        is_row(shape, row),
        n >= 1,
    ensures
        ({
            let s = shape.rows_from(row, n);
            &&& 1 <= s.len() <= n
            &&& s[0] == row
            &&& forall|i: int|
                0 <= i < s.len() ==> is_row(shape, #[trigger] s[i]) && row.start <= s[i].start
                    && s[i].next_start() <= s.last().next_start()
            &&& s.len() < n ==> shape.row_after(s.last()) is None
            &&& forall|i: int|
                0 <= i < s.len() ==> row_laws::nth_row(shape, row, i) == Some(#[trigger] s[i])
            &&& forall|x: int|
                row.start <= x < s.last().next_start() && shape.len() > 0 ==> #[trigger] shown(s, x)
        }),
    decreases n,
{
    let s = shape.rows_from(row, n);
    lemma_next_row(shape, row);
    if shape.len() > 0 {
        lemma_is_row(shape, row.start);
    }
    match shape.row_after(row) {
        Some(next) => {
            let t = shape.rows_from(next, n - 1);
            assert(s == seq![row] + t);
            if n > 1 {
                lemma_rows_from(shape, next, n - 1);
                assert(s.last() == t.last());
                assert(t[0].next_start() <= t.last().next_start());
                assert forall|i: int| 0 <= i < s.len() implies is_row(shape, #[trigger] s[i])
                    && row.start <= s[i].start && s[i].next_start() <= s.last().next_start() by {
                    if i > 0 {
                        assert(s[i] == t[i - 1]);
                    }
                }
                assert forall|i: int| 0 <= i < s.len() implies row_laws::nth_row(shape, row, i)
                    == Some(#[trigger] s[i]) by {
                    if i > 0 {
                        assert(s[i] == t[i - 1]);
                    }
                }
                assert forall|x: int|
                    row.start <= x < s.last().next_start() && shape.len() > 0 implies #[trigger] shown(s, x) by {
                    if x < row.next_start() {
                        assert(s[0].holds(x));
                    } else {
                        assert(shown(t, x));
                        let k = choose|k: int| 0 <= k < t.len() && (#[trigger] t[k]).holds(x);
                        assert(s[k + 1] == t[k]);
                    }
                }
            } else {
                assert(t =~= Seq::<Span>::empty());
                assert(s =~= seq![row]);
                assert forall|x: int|
                    row.start <= x < s.last().next_start() && shape.len() > 0 implies #[trigger] shown(s, x) by {
                    assert(s[0].holds(x));
                }
            }
        },
        None => {
            assert(s =~= seq![row]);
            assert forall|x: int|
                row.start <= x < s.last().next_start() && shape.len() > 0 implies #[trigger] shown(s, x) by {
                assert(s[0].holds(x));
            }
        },
    }
}

/// Past a full screen comes the next row: a screen that starts a row further
/// down ends with it.
proof fn lemma_scrolled_screen(shape: Shape, row: Span, n: int)
    requires
        shape.well_formed(),
        is_row(shape, row),
        n >= 1,
        shape.row_after(shape.rows_from(row, n).last()) is Some,
    ensures
        ({
            let s = shape.rows_from(row, n);
            &&& s.len() == n
            &&& shape.row_after(row) is Some
            &&& shape.rows_from(shape.row_after(row)->0, n) == s.drop_first().push(
                shape.row_after(s.last())->0,
            )
        }),
    decreases n,
{
    let s = shape.rows_from(row, n);
    lemma_rows_from(shape, row, n);
    lemma_next_row(shape, row);
    if let Some(next) = shape.row_after(row) {
        let t = shape.rows_from(next, n - 1);
        assert(s == seq![row] + t);
        if n > 1 {
            lemma_rows_from(shape, next, n - 1);
            assert(s.last() == t.last());
            lemma_scrolled_screen(shape, next, n - 1);
            let after = shape.row_after(s.last())->0;
            let u = shape.rows_from(next, n);
            let over = shape.row_after(next)->0;
            assert(u == seq![next] + shape.rows_from(over, n - 1));
            assert(t == seq![next] + shape.rows_from(over, n - 2));
            assert(shape.rows_from(over, n - 1) == t.drop_first().push(after));
            assert(u =~= s.drop_first().push(after));
        } else {
            assert(t =~= Seq::<Span>::empty());
            assert(s =~= seq![row]);
            if let Some(over) = shape.row_after(next) {
                assert(shape.rows_from(over, 0) =~= Seq::<Span>::empty());
            }
            assert(shape.rows_from(next, 1) =~= seq![next]);
            assert(shape.rows_from(next, 1) =~= s.drop_first().push(next));
        }
    } else {
        assert(s =~= seq![row]);
    }
}

// ── Keeping the view inside the file ────────────────────────────────────────

/// A view that starts with a row still does once it is kept from running off
/// the end.
pub proof fn lemma_clamped_row(shape: Shape, top: int)
    requires
        shape.well_formed(),
        at_row(shape, top),
    ensures
        at_row(shape, shape.clamp_top(top)),
        shape.clamp_top(shape.clamp_top(top)) == shape.clamp_top(top),
{
    reveal(Shape::last_top);
    let last = shape.last_top();
    let bpl = shape.bpl;
    let align = shape.align;
    if shape.record is None {
        assert(shape.rows * bpl >= 0) by (nonlinear_arith)
            requires
                shape.rows >= 0,
                bpl >= 1,
        ;
        let want = rows::above(shape.len(), shape.rows * bpl);
        if want > align {
            rows::lemma_floor(want - align + bpl - 1, bpl);
        }
        if last < top {
            reveal(Shape::row_at);
            if want <= align {
                assert(last == align);
                vstd::arithmetic::div_mod::lemma_fundamental_div_mod_converse(0, bpl, 0, 0);
            } else {
                let q = (want - align + bpl - 1) / bpl;
                vstd::arithmetic::div_mod::lemma_fundamental_div_mod_converse(q * bpl, bpl, q, 0);
            }
        }
    }
}

/// A neighbouring row starts a view as well.
proof fn lemma_scrolled_row(shape: Shape, top: int, n: int, down: bool)
    requires
        shape.well_formed(),
        at_row(shape, top),
    ensures
        at_row(shape, shape.far_row(top, n, down)),
        at_row(shape, shape.scroll(top, n, down)),
        shape.clamp_top(shape.scroll(top, n, down)) == shape.scroll(top, n, down),
    decreases n,
{
    if n > 0 {
        lemma_is_row(shape, top);
        let row = shape.row_at(top);
        if let Some(r) = shape.neighbour(row, down) {
            if down {
                lemma_next_row(shape, row);
            } else {
                lemma_is_row(shape, row.start - 1);
            }
            lemma_scrolled_row(shape, r.start, n - 1, down);
        }
    }
    lemma_clamped_row(shape, shape.far_row(top, n, down));
}

/// The view that follows the cursor starts with a row, inside the file.
proof fn lemma_follow_row(shape: Shape, top: int, cur: int, tries: int)
    requires
        shape.well_formed(),
        at_row(shape, top),
        shape.clamp_top(top) == top,
        0 <= cur <= rows::above(shape.len(), 1),
    ensures
        at_row(shape, shape.follow(top, cur, tries)),
        shape.clamp_top(shape.follow(top, cur, tries)) == shape.follow(top, cur, tries),
    decreases tries,
{
    let screen = shape.screen(top, shape.rows);
    if tries <= 0 || screen.len() == 0 {
        lemma_is_row(shape, cur);
        lemma_clamped_row(shape, shape.row_at(cur).start);
    } else if cur < screen.first().start {
        lemma_scrolled_row(shape, top, 1, false);
        lemma_follow_row(shape, shape.scroll(top, 1, false), cur, tries - 1);
    } else if cur >= screen.last().next_start() {
        lemma_scrolled_row(shape, top, 1, true);
        lemma_follow_row(shape, shape.scroll(top, 1, true), cur, tries - 1);
    }
}

/// Rows of the grid are a line apart.
proof fn lemma_grid_reach(shape: Shape, row: Span, n: int)
    requires
        shape.well_formed(),
        shape.record is None,
        is_row(shape, row),
        row.start >= shape.align,
        n >= 1,
    ensures
        shape.rows_from(row, n).last().next_start() >= rows::least(
            shape.len(),
            row.start + n * shape.bpl,
        ),
    decreases n,
{
    lemma_rows_from(shape, row, n);
    lemma_next_row(shape, row);
    rows::lemma_row_at(shape, row.start);
    assert(shape.len() > 0 ==> row.len == rows::least(shape.bpl, shape.len() - row.start)) by {
        reveal(Shape::row_at);
    }
    if let Some(next) = shape.row_after(row) {
        if n > 1 {
            lemma_grid_reach(shape, next, n - 1);
            lemma_rows_from(shape, next, n - 1);
            let t = shape.rows_from(next, n - 1);
            assert(shape.rows_from(row, n) == seq![row] + t);
            assert(shape.rows_from(row, n).last() == t.last());
            assert(n * shape.bpl == shape.bpl + (n - 1) * shape.bpl) by (nonlinear_arith);
        } else {
            assert(shape.rows_from(next, 0) =~= Seq::<Span>::empty());
            assert(shape.rows_from(row, 1) =~= seq![row]);
            assert(1 * shape.bpl == shape.bpl);
        }
    } else {
        assert(shape.rows_from(row, n) =~= seq![row]);
    }
}

/// A view put at the row of the cursor shows it.
proof fn lemma_put_there(shape: Shape, cur: int)
    requires
        shape.well_formed(),
        shape.rows >= 1,
        0 <= cur <= rows::above(shape.len(), 1),
    ensures
        shape.on_screen(shape.clamp_top(shape.row_at(cur).start), cur),
{
    let row = shape.row_at(cur);
    let n = shape.rows;
    rows::lemma_row_at(shape, cur);
    let top = shape.clamp_top(row.start);
    match shape.record {
        None => {
            reveal(Shape::screen);
            reveal(Shape::last_top);
            let bpl = shape.bpl;
            let want = rows::above(shape.len(), n * bpl);
            assert(n * bpl >= bpl) by (nonlinear_arith)
                requires
                    n >= 1,
                    bpl >= 1,
            ;
            if want > shape.align {
                rows::lemma_floor(want - shape.align + bpl - 1, bpl);
            }
            lemma_is_row(shape, cur);
            if shape.len() == 0 {
                lemma_rows_from(shape, shape.row_at(top), n);
            } else {
                lemma_clamped_row(shape, row.start);
                lemma_is_row(shape, top);
                let first = shape.row_at(top);
                lemma_rows_from(shape, first, n);
                if top < row.start {
                    assert(top == shape.last_top());
                    assert(top >= shape.align);
                    lemma_grid_reach(shape, first, n);
                } else {
                    assert(first == row);
                    let s = shape.rows_from(first, n);
                    assert(s[0].next_start() <= s.last().next_start());
                }
            }
        },
        Some(_) => {
            reveal(Shape::last_top);
            assert(top == row.start);
            reveal(Shape::screen);
            lemma_is_row(shape, cur);
            lemma_rows_from(shape, row, n);
            let s = shape.rows_from(row, n);
            assert(s[0].next_start() <= s.last().next_start());
        },
    }
}

/// Following the cursor ends with it on screen.
proof fn lemma_follow_shows(shape: Shape, top: int, cur: int, tries: int)
    requires
        shape.well_formed(),
        shape.rows >= 1,
        0 <= cur <= rows::above(shape.len(), 1),
    ensures
        shape.on_screen(shape.follow(top, cur, tries), cur),
    decreases tries,
{
    let screen = shape.screen(top, shape.rows);
    if tries <= 0 || screen.len() == 0 {
        lemma_put_there(shape, cur);
    } else if cur < screen.first().start {
        lemma_follow_shows(shape, shape.scroll(top, 1, false), cur, tries - 1);
    } else if cur >= screen.last().next_start() {
        lemma_follow_shows(shape, shape.scroll(top, 1, true), cur, tries - 1);
    }
}

// ── The cursor ──────────────────────────────────────────────────────────────

/// The cursor is inside the file once the view is settled.
pub proof fn law_the_cursor_stays_inside_the_file(m: Model, hay: Seq<u8>)
    requires
        sane(m),
    ensures
        0 <= m.ensure_visible(hay).cur <= rows::above(hay.len() as int, 1),
        m.cur < hay.len() ==> m.ensure_visible(hay).cur == m.cur,
{
}

/// The view follows the cursor: once it is settled the cursor is on screen.
pub proof fn law_the_view_follows_the_cursor(m: Model, hay: Seq<u8>)
    requires
        sane(m),
        m.rows >= 1,
    ensures
        m.shape(hay).on_screen(m.ensure_visible(hay).top, m.ensure_visible(hay).cur),
{
    let shape = m.shape(hay);
    let cur = m.ensure_visible(hay).cur;
    lemma_follow_shows(shape, shape.clamp_top(m.top), cur, 3);
}

/// The byte under the cursor is among those that the lines of the screen draw,
/// also where a long record is scrolled sideways.
pub proof fn law_the_byte_under_the_cursor_is_drawn(m: Model, hay: Seq<u8>)
    requires
        sane(m),
        m.rows >= 1,
        hay.len() > 0,
        m.record is None ==> m.align < m.row_bytes(),
    ensures
        ({
            let r = m.ensure_visible(hay);
            let shape = m.shape(hay);
            let screen = shape.screen(r.top, r.rows);
            exists|i: int|
                0 <= i < screen.len() && drawn(shape, #[trigger] screen[i], r.hoff, r.cur)
        }),
{
    let r = m.ensure_visible(hay);
    let shape = m.shape(hay);
    let screen = shape.screen(r.top, r.rows);
    lemma_first_row(m, hay);
    law_the_view_follows_the_cursor(m, hay);
    lemma_rows_from(shape, shape.row_at(r.top), r.rows);
    assert(shown(screen, r.cur));
    let i = choose|i: int| 0 <= i < screen.len() && (#[trigger] screen[i]).holds(r.cur);
    let row = screen[i];
    assert(is_row(shape, row));
    if m.record is None || m.wrap {
        row_laws::law_wrapped_rows_are_shown_whole(shape, row.start, r.hoff);
    } else {
        row_laws::law_rows_tile_the_file(shape, row.start);
        assert(shape.row_at(r.cur) == row);
    }
    assert(drawn(shape, row, r.hoff, r.cur));
}

proof fn lemma_clamp_positive(shape: Shape, top: int)
    requires
        shape.well_formed(),
        0 <= top,
    ensures
        0 <= shape.clamp_top(top),
{
    reveal(Shape::last_top);
    let bpl = shape.bpl;
    let want = rows::above(shape.len(), shape.rows * bpl);
    if shape.record is None && want > shape.align {
        rows::lemma_floor(want - shape.align + bpl - 1, bpl);
    }
}

proof fn lemma_follow_positive(shape: Shape, top: int, cur: int, tries: int)
    requires
        shape.well_formed(),
        0 <= top,
        0 <= cur,
    ensures
        0 <= shape.follow(top, cur, tries),
    decreases tries,
{
    let screen = shape.screen(top, shape.rows);
    if tries <= 0 || screen.len() == 0 {
        rows::lemma_row_at(shape, cur);
        lemma_clamp_positive(shape, shape.row_at(cur).start);
    } else if cur < screen.first().start {
        lemma_scroll_positive(shape, top, false);
        lemma_follow_positive(shape, shape.scroll(top, 1, false), cur, tries - 1);
    } else if cur >= screen.last().next_start() {
        lemma_scroll_positive(shape, top, true);
        lemma_follow_positive(shape, shape.scroll(top, 1, true), cur, tries - 1);
    }
}

pub proof fn lemma_scroll_positive(shape: Shape, top: int, down: bool)
    requires
        shape.well_formed(),
        0 <= top,
    ensures
        0 <= shape.scroll(top, 1, down),
{
    let row = shape.row_at(top);
    rows::lemma_row_at(shape, top);
    if let Some(r) = shape.neighbour(row, down) {
        if down {
            rows::lemma_row_at(shape, row.next_start());
        } else {
            rows::lemma_row_at(shape, row.start - 1);
        }
        assert(shape.far_row(r.start, 0, down) == r.start);
        lemma_clamp_positive(shape, r.start);
    } else {
        lemma_clamp_positive(shape, top);
    }
}

/// Every frame shows the byte under the cursor: measuring the window, whatever
/// its size became, brings it back on screen. The one exception are cut records
/// that were scrolled sideways by hand since the cursor last moved.
pub proof fn law_a_measured_view_shows_the_cursor(m: Model, hay: Seq<u8>, w: int, h: int)
    requires
        sane(m),
        h >= 3,
        hay.len() > 0,
        m.record is Some && !m.wrap ==> !m.held,
    ensures
        ({
            let r = m.measured(hay, w, h);
            let shape = r.shape(hay);
            let screen = shape.screen(r.top, r.rows);
            exists|i: int|
                0 <= i < screen.len() && drawn(shape, #[trigger] screen[i], r.hoff, r.cur)
        }),
{
    let len = hay.len() as int;
    let bpl = view::bpl_for(m.mode, w, len, m.fixed_bpl);
    view::lemma_bpl(m.mode, w, len, m.fixed_bpl);
    let sized = Model {
        rows: h - 2,
        bpl,
        fit_bpl: view::fit_for(m.mode, w, len),
        align: m.align % bpl,
        ..m
    };
    vstd::arithmetic::div_mod::lemma_mod_bound(m.align, bpl);
    law_the_byte_under_the_cursor_is_drawn(sized, hay);
    assert(m.measured(hay, w, h) == sized.ensure_visible(hay));
    assert(m.measured(hay, w, h).shape(hay) == sized.shape(hay));
}

/// Does the line of a row draw this byte?
pub open spec fn drawn(shape: Shape, row: Span, hoff: int, x: int) -> bool {
    let ln = shape.clip(row, hoff);
    ln.off <= x < ln.off + ln.len
}

// ── The view ────────────────────────────────────────────────────────────────

/// The view starts with a row, and every movement of the cursor keeps it so.
pub proof fn law_the_view_starts_with_a_row(
    m: Model,
    hay: Seq<u8>,
    delta: int,
    n: int,
    down: bool,
    off: int,
)
    requires
        sane(m),
        at_row(m.shape(hay), m.top),
        0 <= off,
    ensures
        at_row(m.shape(hay), m.ensure_visible(hay).top),
        at_row(m.shape(hay), m.move_cursor(hay, delta).top),
        at_row(m.shape(hay), m.step_rows(hay, n, down).top),
        at_row(m.shape(hay), m.page_rows(hay, n, down).top),
        at_row(m.shape(hay), m.go_row_edge(hay, down).top),
        at_row(m.shape(hay), m.go_to(hay, off).top),
        at_row(m.shape(hay), m.go_end(hay).top),
{
    let shape = m.shape(hay);
    lemma_settled_row(m, hay);
    let moved = Model {
        cur: if m.cur + delta < 0 {
            0
        } else {
            m.cur + delta
        },
        ..m
    };
    assert(moved.shape(hay) == shape);
    lemma_settled_row(moved, hay);
    lemma_walk(shape, m.cur, n, down);
    let walked = m.walk_cursor(hay, n, down);
    assert(walked.shape(hay) == shape);
    lemma_settled_row(walked, hay);
    lemma_scrolled_row(shape, m.top, n, down);
    let paged = walked.scroll_rows(hay, n, down);
    assert(paged.shape(hay) == shape);
    lemma_settled_row(paged, hay);
    rows::lemma_row_at(shape, m.cur);
    let row = shape.row_at(m.cur);
    let edge = Model {
        cur: if down {
            row.last()
        } else {
            row.start
        },
        ..m
    };
    assert(edge.shape(hay) == shape);
    lemma_settled_row(edge, hay);
    let there = Model { cur: off, ..m };
    assert(there.shape(hay) == shape);
    lemma_settled_row(there, hay);
    let last = rows::above(hay.len() as int, 1);
    lemma_is_row(shape, last);
    let end = Model { cur: last, top: shape.row_at(last).start, ..m };
    assert(end.shape(hay) == shape);
    lemma_scrolled_row(shape, end.top, rows::above(m.rows, 1), false);
    let backed = end.scroll_rows(hay, rows::above(m.rows, 1), false);
    assert(backed.shape(hay) == shape);
    lemma_settled_row(backed, hay);
}

pub proof fn lemma_settled_row(m: Model, hay: Seq<u8>)
    requires
        sane(m),
        at_row(m.shape(hay), m.top),
    ensures
        at_row(m.shape(hay), m.ensure_visible(hay).top),
        m.shape(hay).clamp_top(m.ensure_visible(hay).top) == m.ensure_visible(hay).top,
{
    let shape = m.shape(hay);
    lemma_clamped_row(shape, m.top);
    lemma_follow_row(shape, shape.clamp_top(m.top), m.ensure_visible(hay).cur, 3);
}

/// The cursor walks inside the file.
pub proof fn lemma_walk(shape: Shape, cur: int, n: int, down: bool)
    requires
        shape.well_formed(),
        0 <= cur,
    ensures
        0 <= shape.walk(cur, n, down),
    decreases n,
{
    if n > 0 {
        let row = shape.row_at(cur);
        rows::lemma_row_at(shape, cur);
        if let Some(r) = shape.neighbour(row, down) {
            if down {
                rows::lemma_row_at(shape, row.next_start());
            } else {
                rows::lemma_row_at(shape, row.start - 1);
            }
            lemma_walk(shape, rows::least(r.start + (cur - row.start), r.last()), n - 1, down);
        }
    }
}

/// The view never starts past where it may.
proof fn lemma_follow_clamped(shape: Shape, top: int, cur: int, tries: int)
    requires
        shape.clamp_top(top) == top,
    ensures
        shape.clamp_top(shape.follow(top, cur, tries)) == shape.follow(top, cur, tries),
    decreases tries,
{
    let screen = shape.screen(top, shape.rows);
    if tries <= 0 || screen.len() == 0 {
    } else if cur < screen.first().start {
        lemma_follow_clamped(shape, shape.scroll(top, 1, false), cur, tries - 1);
    } else if cur >= screen.last().next_start() {
        lemma_follow_clamped(shape, shape.scroll(top, 1, true), cur, tries - 1);
    }
}

/// The view holds still while the cursor moves inside it.
pub proof fn law_the_view_holds_still(m: Model, hay: Seq<u8>, to: int)
    requires
        0 <= to <= rows::above(hay.len() as int, 1),
        m.shape(hay).on_screen(m.ensure_visible(hay).top, to),
    ensures
        m.ensure_visible(hay).go_to(hay, to).top == m.ensure_visible(hay).top,
        m.ensure_visible(hay).go_to(hay, to).cur == to,
{
    let shape = m.shape(hay);
    let r = m.ensure_visible(hay);
    lemma_follow_clamped(shape, shape.clamp_top(m.top), r.cur, 3);
    let there = Model { cur: to, ..r };
    assert(there.shape(hay) == shape);
}

/// The screen scrolls only once the cursor would leave it, and then by one
/// row: a cursor on the row below the screen brings exactly that row in.
pub proof fn law_the_view_scrolls_down_by_one_row(m: Model, hay: Seq<u8>, to: int)
    requires
        sane(m),
        m.rows >= 1,
        ({
            let shape = m.shape(hay);
            let below = shape.row_after(shape.screen(m.ensure_visible(hay).top, m.rows).last());
            below is Some && below->0.holds(to)
        }),
    ensures
        ({
            let shape = m.shape(hay);
            let top = m.ensure_visible(hay).top;
            m.ensure_visible(hay).go_to(hay, to).top == shape.row_after(shape.row_at(top))->0.start
        }),
        m.ensure_visible(hay).go_to(hay, to).cur == to,
{
    let shape = m.shape(hay);
    let r = m.ensure_visible(hay);
    let top = r.top;
    let n = m.rows;
    lemma_first_row(m, hay);
    let first = shape.row_at(top);
    let screen = shape.screen(top, n);
    lemma_rows_from(shape, first, n);
    lemma_next_row(shape, screen.last());
    let below = shape.row_after(screen.last())->0;
    lemma_scrolled_screen(shape, first, n);
    lemma_next_row(shape, first);
    let second = shape.row_after(first)->0;
    rows::lemma_row_at(shape, screen.last().next_start());
    // the view may start there
    assert(shape.clamp_top(second.start) == second.start) by {
        lemma_room_below(shape, first, n);
    }
    assert(shape.far_row(second.start, 0, true) == second.start);
    assert(shape.far_row(top, 1, true) == second.start);
    rows::lemma_row_at(shape, second.start);
    row_laws::law_the_layout_agrees_with_single_rows(shape, second.start, n);
    let moved = shape.screen(second.start, n);
    lemma_rows_from(shape, second, n);
    assert(moved.last() == below);
    let there = Model { cur: to, ..r };
    assert(there.shape(hay) == shape);
    assert(moved[0].start <= below.start);
    assert(shape.follow(second.start, to, 2) == second.start);
    assert(shape.follow(top, to, 3) == second.start);
}

/// The screen of a settled view starts with a row of the file.
proof fn lemma_first_row(m: Model, hay: Seq<u8>)
    requires
        sane(m),
        m.rows >= 1,
    ensures
        ({
            let shape = m.shape(hay);
            let top = m.ensure_visible(hay).top;
            &&& 0 <= top
            &&& shape.clamp_top(top) == top
            &&& is_row(shape, shape.row_at(top))
            &&& shape.row_at(top).start <= top
            &&& shape.screen(top, m.rows) == shape.rows_from(shape.row_at(top), m.rows)
        }),
{
    let shape = m.shape(hay);
    let r = m.ensure_visible(hay);
    lemma_clamp_positive(shape, m.top);
    lemma_follow_positive(shape, shape.clamp_top(m.top), r.cur, 3);
    lemma_follow_clamped(shape, shape.clamp_top(m.top), r.cur, 3);
    rows::lemma_row_at(shape, r.top);
    law_the_view_follows_the_cursor(m, hay);
    reveal(Shape::screen);
    let at = rows::least(r.top, rows::above(shape.len(), 1));
    assert(shape.row_at(r.top) == shape.row_at(at)) by {
        reveal(Shape::row_at);
    }
    lemma_is_row(shape, at);
}

/// With a row below the screen, the view may start a row further down.
proof fn lemma_room_below(shape: Shape, first: Span, n: int)
    requires
        shape.well_formed(),
        is_row(shape, first),
        n == shape.rows,
        n >= 1,
        shape.row_after(first) is Some,
        shape.row_after(shape.rows_from(first, n).last()) is Some,
    ensures
        shape.clamp_top(shape.row_after(first)->0.start) == shape.row_after(first)->0.start,
{
    reveal(Shape::last_top);
    lemma_next_row(shape, first);
    let second = shape.row_after(first)->0;
    rows::lemma_row_at(shape, first.start);
    let bpl = shape.bpl;
    let align = shape.align;
    let len = shape.len();
    if shape.record is None {
        let last = shape.rows_from(first, n).last();
        lemma_rows_from(shape, first, n);
        lemma_next_row(shape, last);
        let want = rows::above(len, n * bpl);
        assert(n * bpl >= bpl) by (nonlinear_arith)
            requires
                n >= 1,
                bpl >= 1,
        ;
        if first.start >= align {
            lemma_grid_reach(shape, first, n);
            // so the screen ends before the file does
            assert(first.start + n * bpl < len) by {
                lemma_grid_end(shape, first, n);
            }
            assert(second.start == first.start + bpl) by {
                reveal(Shape::row_at);
            }
            let q = (first.start - align) / bpl;
            assert(first.start == align + q * bpl) by {
                reveal(Shape::row_at);
            }
            let k = (want - align + bpl - 1) / bpl;
            rows::lemma_floor(want - align + bpl - 1, bpl);
            rows::lemma_floor(first.start - align, bpl);
            assert(k >= q + 1) by (nonlinear_arith)
                requires
                    want - align + bpl - 1 < k * bpl + bpl,
                    want - align >= q * bpl + 1,
                    bpl >= 1,
            ;
            assert(k * bpl >= q * bpl + bpl) by (nonlinear_arith)
                requires
                    k >= q + 1,
                    bpl >= 1,
            ;
        } else {
            // below the anchor sits one short row
            assert(second.start == align) by {
                reveal(Shape::row_at);
            }
            if want > align {
                rows::lemma_floor(want - align + bpl - 1, bpl);
            }
        }
    }
}

/// A full screen of the grid that is not the last covers that many lines.
proof fn lemma_grid_end(shape: Shape, row: Span, n: int)
    requires
        shape.well_formed(),
        shape.record is None,
        is_row(shape, row),
        row.start >= shape.align,
        n >= 1,
        shape.row_after(shape.rows_from(row, n).last()) is Some,
    ensures
        row.start + n * shape.bpl < shape.len(),
    decreases n,
{
    lemma_rows_from(shape, row, n);
    lemma_next_row(shape, row);
    lemma_scrolled_screen(shape, row, n);
    rows::lemma_row_at(shape, row.start);
    assert(row.len == rows::least(shape.bpl, shape.len() - row.start)) by {
        reveal(Shape::row_at);
    }
    let next = shape.row_after(row)->0;
    if n > 1 {
        let t = shape.rows_from(next, n - 1);
        assert(shape.rows_from(row, n) == seq![row] + t);
        lemma_rows_from(shape, next, n - 1);
        assert(shape.rows_from(row, n).last() == t.last());
        lemma_grid_end(shape, next, n - 1);
        assert(n * shape.bpl == shape.bpl + (n - 1) * shape.bpl) by (nonlinear_arith);
    } else {
        assert(1 * shape.bpl == shape.bpl);
    }
}

/// The same at the top: a cursor on the row above the screen brings exactly
/// that row in.
pub proof fn law_the_view_scrolls_up_by_one_row(m: Model, hay: Seq<u8>, to: int)
    requires
        sane(m),
        m.rows >= 1,
        ({
            let shape = m.shape(hay);
            let over = shape.row_before(shape.row_at(m.ensure_visible(hay).top));
            over is Some && over->0.holds(to)
        }),
    ensures
        ({
            let shape = m.shape(hay);
            let top = m.ensure_visible(hay).top;
            m.ensure_visible(hay).go_to(hay, to).top == shape.row_before(shape.row_at(top))->0.start
        }),
        m.ensure_visible(hay).go_to(hay, to).cur == to,
{
    let shape = m.shape(hay);
    let r = m.ensure_visible(hay);
    let top = r.top;
    let n = m.rows;
    lemma_first_row(m, hay);
    let first = shape.row_at(top);
    lemma_rows_from(shape, first, n);
    let over = shape.row_before(first)->0;
    lemma_is_row(shape, first.start - 1);
    row_laws::law_stepping_over_rows_and_back(shape, first.start);
    rows::lemma_row_at(shape, first.start - 1);
    assert(shape.far_row(over.start, 0, false) == over.start);
    assert(shape.far_row(top, 1, false) == over.start);
    rows::lemma_row_at(shape, over.start);
    row_laws::law_the_layout_agrees_with_single_rows(shape, over.start, n);
    lemma_rows_from(shape, over, n);
    let moved = shape.screen(over.start, n);
    assert(moved[0].next_start() <= moved.last().next_start());
    let there = Model { cur: to, ..r };
    assert(there.shape(hay) == shape);
    assert(shape.follow(over.start, to, 2) == over.start);
    lemma_next_row(shape, over);
    assert(shape.scroll(top, 1, false) == over.start);
    assert(to < shape.screen(top, n).first().start);
    assert(shape.follow(top, to, 3) == over.start);
}

} // verus!
