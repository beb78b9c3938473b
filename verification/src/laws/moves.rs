//! Laws of moving about: where the cursor lands, and what the view does.

use crate::laws::nav;
use crate::laws::rows as row_laws;
use crate::model::Model;
use crate::rows;
use crate::rows::{Shape, Span};
use vstd::prelude::*;

verus! {

// ── What the rows depend on ─────────────────────────────────────────────────

/// The rows on screen are those of the file, with the pattern, the wrapping,
/// the line width, the anchor and the height that the state says.
pub proof fn law_the_rows_follow_the_state(m: Model, hay: Seq<u8>)
    ensures
        ({
            let shape = m.shape(hay);
            &&& shape.hay == hay
            &&& shape.record is Some <==> m.record is Some
            &&& m.record matches Some(p) ==> shape.record == Some(p.items)
            &&& shape.wrap == m.wrap && shape.align == m.align && shape.rows == m.rows
            &&& m.bpl >= 1 ==> shape.bpl == m.bpl
            &&& m.bpl < 1 ==> shape.bpl == 1
        }),
{
}

// ── The cursor ──────────────────────────────────────────────────────────────

/// A movement by bytes goes just that far, and no further than the file on
/// either side.
pub proof fn law_moving_by_bytes(m: Model, hay: Seq<u8>, delta: int)
    requires
        0 <= m.cur,
        hay.len() > 0,
    ensures
        ({
            let to = m.cur + delta;
            let r = m.move_cursor(hay, delta);
            &&& 0 <= to < hay.len() ==> r.cur == to
            &&& to < 0 ==> r.cur == 0
            &&& to >= hay.len() ==> r.cur == hay.len() - 1
        }),
{
}

/// Going to an offset goes there, or to the last byte when it is past the end.
pub proof fn law_going_to_an_offset(m: Model, hay: Seq<u8>, off: int)
    requires
        0 <= off,
        hay.len() > 0,
    ensures
        m.go_to(hay, off).cur == if off < hay.len() {
            off
        } else {
            hay.len() - 1
        },
{
}

/// A step of one row keeps the column, up as well as down: the cursor lands as
/// far into the neighbouring row as it was into its own, or on its last byte
/// where that row is too short. Past the first row it goes to the start of the
/// file, past the last one to its end.
pub proof fn law_a_step_keeps_the_column(m: Model, hay: Seq<u8>, down: bool)
    requires
        nav::sane(m),
        m.cur < hay.len(),
    ensures
        ({
            let shape = m.shape(hay);
            let row = shape.row_at(m.cur);
            let column = m.cur - row.start;
            let to = m.step_rows(hay, 1, down).cur;
            if down && row.start + row.len < hay.len() {
                let next = shape.row_at(row.start + row.len);
                &&& column < next.len ==> to == row.start + row.len + column
                &&& column >= next.len ==> to == row.start + row.len + next.len - 1
            } else if down {
                to == hay.len() - 1
            } else if row.start > 0 {
                let last = shape.row_at(row.start - 1);
                &&& column < last.len ==> to == row.start - last.len + column
                &&& column >= last.len ==> to == row.start - 1
            } else {
                to == 0
            }
        }),
{
    let shape = m.shape(hay);
    let row = shape.row_at(m.cur);
    rows::lemma_row_at(shape, m.cur);
    row_laws::law_neighbours_of_a_row(shape, m.cur);
    let walked = m.walk_cursor(hay, 1, down);
    if let Some(r) = shape.neighbour(row, down) {
        let to = rows::least(r.start + (m.cur - row.start), r.last());
        assert(shape.walk(to, 0, down) == to);
        if down {
            rows::lemma_row_at(shape, row.start + row.len);
        } else {
            rows::lemma_row_at(shape, row.start - 1);
        }
    }
}

/// Several rows at once are as many steps of one.
pub proof fn law_rows_are_walked_one_by_one(m: Model, hay: Seq<u8>, n: int, down: bool)
    requires
        nav::sane(m),
        m.cur < hay.len(),
        n >= 1,
    ensures
        ({
            let one = m.walk_cursor(hay, 1, down);
            let row = m.shape(hay).row_at(m.cur);
            let on = if down {
                row.start + row.len < hay.len()
            } else {
                row.start > 0
            };
            &&& on ==> m.walk_cursor(hay, n, down).cur == one.walk_cursor(hay, n - 1, down).cur
            &&& !on ==> m.walk_cursor(hay, n, down).cur == one.cur
        }),
        m.walk_cursor(hay, 0, down).cur == m.cur,
        m.walk_cursor(hay, 1, down).cur == m.step_rows(hay, 1, down).cur,
        m.walk_cursor(hay, n, down) == (Model { cur: m.walk_cursor(hay, n, down).cur, ..m }),
{
    let shape = m.shape(hay);
    let row = shape.row_at(m.cur);
    rows::lemma_row_at(shape, m.cur);
    row_laws::law_neighbours_of_a_row(shape, m.cur);
    let one = m.walk_cursor(hay, 1, down);
    assert(one.shape(hay) == shape);
    if let Some(r) = shape.neighbour(row, down) {
        let to = rows::least(r.start + (m.cur - row.start), r.last());
        assert(shape.walk(to, 0, down) == to);
        if down {
            rows::lemma_row_at(shape, row.start + row.len);
        } else {
            rows::lemma_row_at(shape, row.start - 1);
        }
    }
}

/// Stepping and paging move the cursor by the same rows, and inside the file.
pub proof fn law_steps_and_pages_move_the_cursor_alike(
    m: Model,
    hay: Seq<u8>,
    n: int,
    down: bool,
)
    requires
        nav::sane(m),
        m.cur < hay.len(),
        n >= 0,
    ensures
        m.step_rows(hay, n, down).cur == m.walk_cursor(hay, n, down).cur,
        m.page_rows(hay, n, down).cur == m.walk_cursor(hay, n, down).cur,
        0 <= m.walk_cursor(hay, n, down).cur < hay.len(),
{
    lemma_walk_inside(m.shape(hay), m.cur, n, down);
}

proof fn lemma_walk_inside(shape: Shape, cur: int, n: int, down: bool)
    requires
        shape.well_formed(),
        0 <= cur < shape.len(),
    ensures
        0 <= shape.walk(cur, n, down) < shape.len(),
    decreases n,
{
    if n > 0 {
        let row = shape.row_at(cur);
        rows::lemma_row_at(shape, cur);
        row_laws::law_neighbours_of_a_row(shape, cur);
        if let Some(r) = shape.neighbour(row, down) {
            if down {
                rows::lemma_row_at(shape, row.start + row.len);
            } else {
                rows::lemma_row_at(shape, row.start - 1);
            }
            lemma_walk_inside(shape, rows::least(r.start + (cur - row.start), r.last()), n - 1, down);
        }
    }
}

/// The ends of the line are the first and the last byte of the cursor's row, and
/// those of the file its first and last byte.
pub proof fn law_the_ends_are_first_and_last_bytes(m: Model, hay: Seq<u8>)
    requires
        nav::sane(m),
        m.cur < hay.len(),
    ensures
        ({
            let row = m.shape(hay).row_at(m.cur);
            &&& m.go_row_edge(hay, false).cur == row.start
            &&& m.go_row_edge(hay, true).cur == row.start + row.len - 1
            &&& m.go_to(hay, 0).cur == 0
            &&& m.go_end(hay).cur == hay.len() - 1
        }),
{
    rows::lemma_row_at(m.shape(hay), m.cur);
}

/// No movement of the cursor changes anything but where it is, what is on
/// screen, and the end of a scroll by hand.
pub proof fn law_moving_changes_no_setting(
    m: Model,
    hay: Seq<u8>,
    delta: int,
    n: int,
    down: bool,
    off: int,
)
    ensures
        only_moved(m, m.ensure_visible(hay)),
        only_moved(m, m.move_cursor(hay, delta)),
        only_moved(m, m.step_rows(hay, n, down)),
        only_moved(m, m.page_rows(hay, n, down)),
        only_moved(m, m.go_row_edge(hay, down)),
        only_moved(m, m.go_to(hay, off)),
        only_moved(m, m.go_end(hay)),
{
}

pub open spec fn only_moved(m: Model, r: Model) -> bool {
    &&& r == Model { cur: r.cur, top: r.top, hoff: r.hoff, held: r.held, ..m }
    &&& !r.held
}

// ── The view ────────────────────────────────────────────────────────────────

/// The view of a place does not depend on how the cursor got there: every
/// movement settles it as going there from the same view would; a page from the
/// view it scrolled to.
pub proof fn law_the_view_depends_on_where_the_cursor_landed(
    m: Model,
    hay: Seq<u8>,
    delta: int,
    n: int,
    down: bool,
)
    requires
        nav::sane(m),
        m.cur < hay.len(),
        n >= 0,
    ensures
        ({
            let r = m.move_cursor(hay, delta);
            r == m.go_to(hay, r.cur)
        }),
        ({
            let r = m.step_rows(hay, n, down);
            r == m.go_to(hay, r.cur)
        }),
        ({
            let r = m.go_row_edge(hay, down);
            r == m.go_to(hay, r.cur)
        }),
        ({
            let r = m.page_rows(hay, n, down);
            r == m.scroll_rows(hay, n, down).go_to(hay, r.cur)
        }),
{
    let shape = m.shape(hay);
    let moved = Model {
        cur: if m.cur + delta < 0 {
            0
        } else {
            m.cur + delta
        },
        ..m
    };
    let r = m.move_cursor(hay, delta);
    assert(moved.shape(hay) == shape);
    assert(Model { cur: r.cur, ..m }.shape(hay) == shape);
    lemma_walk_inside(shape, m.cur, n, down);
    let walked = m.walk_cursor(hay, n, down);
    assert(walked.shape(hay) == shape);
    assert(Model { cur: walked.cur, ..m } == walked);
    rows::lemma_row_at(shape, m.cur);
    let row = shape.row_at(m.cur);
    let edge = Model {
        cur: if down {
            row.last()
        } else {
            row.start
        },
        ..m
    };
    assert(edge.shape(hay) == shape);
    let scrolled = m.scroll_rows(hay, n, down);
    assert(scrolled.shape(hay) == shape);
    assert(walked.scroll_rows(hay, n, down) == Model { cur: walked.cur, ..scrolled });
}

/// Scrolling the view goes row by row, as far as there are rows and no further
/// than the last full screen, and leaves everything else alone.
pub proof fn law_the_view_scrolls_row_by_row(m: Model, hay: Seq<u8>, n: int, down: bool)
    requires
        nav::sane(m),
        n >= 1,
    ensures
        ({
            let shape = m.shape(hay);
            let row = shape.row_at(m.top);
            let next = if down {
                shape.row_after(row)
            } else {
                shape.row_before(row)
            };
            let r = m.scroll_rows(hay, n, down);
            &&& r == Model { top: r.top, ..m }
            &&& r.top == match next {
                Some(to) => Model { top: to.start, ..m }.scroll_rows(hay, n - 1, down).top,
                None => shape.clamp_top(m.top),
            }
            &&& m.scroll_rows(hay, 0, down).top == shape.clamp_top(m.top)
        }),
{
    let shape = m.shape(hay);
    let row = shape.row_at(m.top);
    if let Some(to) = shape.neighbour(row, down) {
        assert(Model { top: to.start, ..m }.shape(hay) == shape);
    }
}

/// The view moves as little as it has to. It stays where the cursor is on it
/// already; it scrolls a row, or two, where that brings the cursor in; anything
/// further is a jump, and the row of the cursor goes to the top.
pub proof fn law_the_view_moves_as_little_as_possible(m: Model, hay: Seq<u8>, to: int)
    requires
        nav::sane(m),
        m.rows >= 1,
        0 <= to < hay.len(),
        m.shape(hay).clamp_top(m.top) == m.top,
    ensures
        ({
            let shape = m.shape(hay);
            let down = to >= shape.row_at(m.top).start;
            let one = shape.scroll(m.top, 1, down);
            let two = shape.scroll(one, 1, down);
            let r = m.go_to(hay, to);
            &&& shape.on_screen(m.top, to) ==> r.top == m.top
            &&& !shape.on_screen(m.top, to) && shape.on_screen(one, to) && m.top < hay.len()
                ==> r.top == one
            &&& !shape.on_screen(m.top, to) && !shape.on_screen(one, to) && shape.on_screen(
                two,
                to,
            ) && same_side(shape, m.top, one, to) ==> r.top == two
            &&& !shape.on_screen(m.top, to) && !shape.on_screen(one, to) && !shape.on_screen(
                two,
                to,
            ) && same_side(shape, m.top, one, to) && same_side(shape, one, two, to) ==> r.top
                == shape.clamp_top(shape.row_at(to).start)
            &&& shape.screen(m.top, m.rows).len() == 0 ==> r.top == shape.clamp_top(
                shape.row_at(to).start,
            )
        }),
{
    let shape = m.shape(hay);
    let there = Model { cur: to, ..m };
    assert(there.shape(hay) == shape);
    let r = m.go_to(hay, to);
    assert(r.top == shape.follow(m.top, to, 3));
    let down = to >= shape.row_at(m.top).start;
    let one = shape.scroll(m.top, 1, down);
    let two = shape.scroll(one, 1, down);
    let s = shape.screen(m.top, shape.rows);
    if m.top < hay.len() {
        assert(s.len() > 0 && s.first() == shape.row_at(m.top)) by {
            reveal(Shape::screen);
        }
    }
    nav::lemma_scroll_positive(shape, m.top, down);
    nav::lemma_scroll_positive(shape, one, down);
    if s.len() > 0 && !shape.on_screen(m.top, to) {
        assert(s.first() == shape.row_at(m.top)) by {
            reveal(Shape::screen);
        }
        assert(down <==> to >= s.last().next_start()) by {
            lemma_screen_grows(shape, m.top);
        }
        assert(shape.follow(m.top, to, 3) == shape.follow(one, to, 2));
        if shape.on_screen(one, to) {
            assert(shape.follow(one, to, 2) == one);
        } else if same_side(shape, m.top, one, to) {
            lemma_screen_grows(shape, one);
            assert(shape.follow(one, to, 2) == shape.follow(two, to, 1));
            if shape.on_screen(two, to) {
                assert(shape.follow(two, to, 1) == two);
            } else if same_side(shape, one, two, to) {
                lemma_screen_grows(shape, two);
                let three = shape.scroll(two, 1, down);
                assert(shape.follow(two, to, 1) == shape.follow(three, to, 0));
            }
        }
    }
}

/// A screen ends past the row it starts with.
proof fn lemma_screen_grows(shape: Shape, top: int)
    requires
        shape.well_formed(),
        0 <= top,
        shape.screen(top, shape.rows).len() > 0,
    ensures
        shape.screen(top, shape.rows).first().start < shape.screen(
            top,
            shape.rows,
        ).last().next_start(),
{
    reveal(Shape::screen);
    let at = rows::least(top, rows::above(shape.len(), 1));
    assert(shape.row_at(top) == shape.row_at(at)) by {
        reveal(Shape::row_at);
    }
    nav::lemma_is_row(shape, at);
    if shape.rows >= 1 {
        nav::lemma_rows_from(shape, shape.row_at(at), shape.rows);
        let s = shape.rows_from(shape.row_at(at), shape.rows);
        assert(s[0].next_start() <= s.last().next_start());
    }
}

/// Does the byte lie on the same side of both screens?
pub open spec fn same_side(shape: Shape, a: int, b: int, x: int) -> bool {
    let s = shape.screen(a, shape.rows);
    let t = shape.screen(b, shape.rows);
    &&& s.len() > 0 && t.len() > 0
    &&& x < s.first().start && x < t.first().start || x >= s.last().next_start() && x
        >= t.last().next_start()
}

/// Records scroll sideways no more than it takes: where the cursor is inside the
/// window of its row nothing moves, on the left its byte becomes the first one
/// shown, on the right the last. Without cut records nothing is scrolled.
pub proof fn law_records_scroll_no_more_than_it_takes(m: Model, hay: Seq<u8>, off: int)
    requires
        nav::sane(m),
        0 <= off < hay.len(),
    ensures
        ({
            let column = off - m.shape(hay).row_at(off).start;
            let wide = m.shape(hay).bpl;
            let r = m.go_to(hay, off);
            &&& m.record is None || m.wrap ==> r.hoff == 0
            &&& m.record is Some && !m.wrap ==> {
                &&& m.hoff <= column < m.hoff + wide ==> r.hoff == m.hoff
                &&& column < m.hoff ==> r.hoff == column
                &&& column >= m.hoff + wide ==> r.hoff + wide == column + 1
            }
        }),
{
    let there = Model { cur: off, ..m };
    assert(there.shape(hay) == m.shape(hay));
}

/// At the end of the file the last row is on screen, with as many rows above it
/// as there are and fit.
pub proof fn law_the_end_of_the_file_fills_the_screen(m: Model, hay: Seq<u8>)
    requires
        nav::sane(m),
        m.rows >= 1,
        hay.len() > 0,
    ensures
        ({
            let shape = m.shape(hay);
            let r = m.go_end(hay);
            let s = shape.screen(r.top, m.rows);
            &&& s.len() >= 1
            &&& s.last() == shape.row_at(hay.len() - 1)
            &&& s.len() == m.rows || r.top == 0
        }),
{
    let shape = m.shape(hay);
    let last = hay.len() - 1;
    let row = shape.row_at(last);
    rows::lemma_row_at(shape, last);
    row_laws::law_rows_tile_the_file(shape, last);
    nav::lemma_is_row(shape, last);
    row_laws::law_neighbours_of_a_row(shape, last);
    lemma_up_from_the_end(shape, row, m.rows - 1);
    let end = Model { cur: last, top: row.start, ..m };
    assert(end.shape(hay) == shape);
    let t = shape.far_row(row.start, m.rows - 1, false);
    assert(shape.clamp_top(t) == t) by {
        let first = shape.row_at(t);
        let k = choose|k: int|
            0 <= k <= m.rows - 1 && #[trigger] row_laws::nth_row(shape, first, k) == Some(row) && (k
                == m.rows - 1 || t == 0);
        nav::lemma_is_row(shape, t);
        lemma_room_for_the_end(shape, first, k, row);
    }
    reveal(Shape::screen);
    let backed = end.scroll_rows(hay, m.rows - 1, false);
    assert(backed.shape(hay) == shape);
    assert(backed.top == t);
    nav::lemma_is_row(shape, t);
    let s = shape.rows_from(shape.row_at(t), m.rows);
    nav::lemma_rows_from(shape, shape.row_at(t), m.rows);
    assert(s.last() == row);
    assert(shape.follow(t, last, 3) == t);
    assert(m.go_end(hay) == backed.ensure_visible(hay));
}

/// The last screen of rows may be where the view starts.
proof fn lemma_room_for_the_end(shape: Shape, first: Span, k: int, row: Span)
    requires
        shape.well_formed(),
        shape.rows >= 1,
        shape.len() > 0,
        nav::is_row(shape, first),
        nav::is_row(shape, row),
        0 <= k <= shape.rows - 1,
        row_laws::nth_row(shape, first, k) == Some(row),
        k == shape.rows - 1 || first.start == 0,
    ensures
        shape.clamp_top(first.start) == first.start,
{
    let t = first.start;
    let bpl = shape.bpl;
    let n = shape.rows;
    let max = shape.last_top();
    row_laws::law_the_view_stops_at_the_last_screen(shape, t);
    if shape.record is None && t > max {
        if t >= shape.align {
            lemma_grid_nth(shape, first, k, row);
            row_laws::law_rows_of_the_grid(shape, t);
            let q = (t - shape.align) / bpl;
            vstd::arithmetic::div_mod::lemma_fundamental_div_mod(t - shape.align, bpl);
            assert(t == shape.align + bpl * q);
            assert(k * bpl == n * bpl - bpl) by (nonlinear_arith)
                requires
                    k == n - 1,
            ;
            if max > shape.align {
                let p = (max - shape.align) / bpl;
                vstd::arithmetic::div_mod::lemma_fundamental_div_mod(max - shape.align, bpl);
                assert(max == shape.align + bpl * p);
                assert(q >= p + 1) by (nonlinear_arith)
                    requires
                        bpl * q > bpl * p,
                        bpl >= 1,
                ;
                assert(bpl * q >= bpl * p + bpl) by (nonlinear_arith)
                    requires
                        q >= p + 1,
                        bpl >= 1,
                ;
            } else {
                assert(q >= 1) by (nonlinear_arith)
                    requires
                        bpl * q > 0,
                        bpl >= 1,
                ;
                assert(bpl * q >= bpl) by (nonlinear_arith)
                    requires
                        q >= 1,
                        bpl >= 1,
                ;
            }
        } else {
            row_laws::law_rows_of_the_grid(shape, t);
        }
    }
}

/// Rows of the grid further down start as many lines on.
proof fn lemma_grid_nth(shape: Shape, first: Span, k: int, row: Span)
    requires
        shape.well_formed(),
        shape.record is None,
        shape.len() > 0,
        nav::is_row(shape, first),
        first.start >= shape.align,
        k >= 0,
        row_laws::nth_row(shape, first, k) == Some(row),
    ensures
        row.start == first.start + k * shape.bpl,
    decreases k,
{
    if k > 0 {
        nav::lemma_next_row(shape, first);
        row_laws::law_rows_of_the_grid(shape, first.start);
        let next = shape.row_after(first)->0;
        lemma_grid_nth(shape, next, k - 1, row);
        assert(k * shape.bpl == (k - 1) * shape.bpl + shape.bpl) by (nonlinear_arith);
    } else {
        assert(k * shape.bpl == 0) by (nonlinear_arith)
            requires
                k == 0,
        ;
    }
}

proof fn lemma_up_from_the_end(shape: Shape, row: Span, n: int)
    requires
        shape.well_formed(),
        shape.len() > 0,
        nav::is_row(shape, row),
        n >= 0,
    ensures
        ({
            let t = shape.far_row(row.start, n, false);
            let first = shape.row_at(t);
            &&& 0 <= t <= row.start && first.start == t
            &&& exists|k: int|
                0 <= k <= n && #[trigger] row_laws::nth_row(shape, first, k) == Some(row) && (k == n
                    || t == 0)
            &&& shape.row_after(row) is None ==> shape.rows_from(first, n + 1).last() == row && (
            shape.rows_from(first, n + 1).len() == n + 1 || t == 0)
        }),
    decreases n,
{
    let t = shape.far_row(row.start, n, false);
    nav::lemma_is_row(shape, row.start);
    row_laws::law_neighbours_of_a_row(shape, row.start);
    if n == 0 {
        assert(row_laws::nth_row(shape, row, 0) == Some(row));
    } else if let Some(up) = shape.row_before(row) {
        nav::lemma_is_row(shape, row.start - 1);
        row_laws::law_stepping_over_rows_and_back(shape, row.start);
        lemma_up_from_the_end(shape, up, n - 1);
        assert(t == shape.far_row(up.start, n - 1, false));
        let first = shape.row_at(t);
        let k = choose|k: int|
            0 <= k <= n - 1 && #[trigger] row_laws::nth_row(shape, first, k) == Some(up) && (k == n
                - 1 || t == 0);
        lemma_one_further(shape, first, k, up);
        assert(row_laws::nth_row(shape, first, k + 1) == Some(row));
    } else {
        assert(t == row.start);
        assert(row_laws::nth_row(shape, row, 0) == Some(row));
    }
    if shape.row_after(row) is None {
        let first = shape.row_at(t);
        let k = choose|k: int|
            0 <= k <= n && #[trigger] row_laws::nth_row(shape, first, k) == Some(row) && (k == n
                || t == 0);
        lemma_screen_ends(shape, first, k, n + 1, row);
    }
}

proof fn lemma_one_further(shape: Shape, first: Span, k: int, row: Span)
    requires
        k >= 0,
        row_laws::nth_row(shape, first, k) == Some(row),
    ensures
        row_laws::nth_row(shape, first, k + 1) == shape.row_after(row),
    decreases k,
{
    if k > 0 {
        let next = shape.row_after(first)->0;
        lemma_one_further(shape, next, k - 1, row);
    } else {
        if let Some(next) = shape.row_after(first) {
            assert(row_laws::nth_row(shape, next, 0) == Some(next));
        }
    }
}

proof fn lemma_screen_ends(shape: Shape, first: Span, k: int, n: int, row: Span)
    requires
        0 <= k < n,
        row_laws::nth_row(shape, first, k) == Some(row),
        shape.row_after(row) is None,
    ensures
        shape.rows_from(first, n).len() == k + 1,
        shape.rows_from(first, n).last() == row,
    decreases k,
{
    if k > 0 {
        let next = shape.row_after(first)->0;
        lemma_screen_ends(shape, next, k - 1, n - 1, row);
        assert(shape.rows_from(first, n) == seq![first] + shape.rows_from(next, n - 1));
        assert(shape.rows_from(first, n).last() == shape.rows_from(next, n - 1).last());
    } else {
        assert(shape.rows_from(first, n) =~= seq![first]);
    }
}

// ── Sliding the grid ────────────────────────────────────────────────────────

/// A slide moves the anchor by one byte, round the width of a line. The cursor
/// points at a byte and stays on it, unless the view slid past it; no setting
/// changes.
pub proof fn law_a_slide_moves_the_anchor_by_one_byte(m: Model, hay: Seq<u8>, right: bool)
    requires
        nav::sane(m),
        m.record is None,
        m.align < m.row_bytes(),
        m.cur < hay.len(),
    ensures
        ({
            let r = m.shift_grid(hay, right);
            let bpl = m.row_bytes();
            &&& right && m.align + 1 < bpl ==> r.align == m.align + 1
            &&& right && m.align + 1 == bpl ==> r.align == 0
            &&& !right && m.align > 0 ==> r.align == m.align - 1
            &&& !right && m.align == 0 ==> r.align == bpl - 1
            &&& m.cur > m.top ==> r.cur == m.cur
            &&& r.cur >= m.cur
            &&& r == Model {
                align: r.align,
                cur: r.cur,
                top: r.top,
                hoff: r.hoff,
                held: false,
                ..m
            }
            &&& r.hoff == 0
        }),
{
    let bpl = m.row_bytes();
    crate::nav::lemma_slide(m.align, bpl);
    vstd::arithmetic::div_mod::lemma_small_mod(m.align as nat, bpl as nat);
    let slid = Model {
        align: if right {
            (m.align + 1) % bpl
        } else {
            (m.align + bpl - 1) % bpl
        },
        ..m
    };
    let near = if right {
        m.top + 1
    } else {
        rows::above(m.top, 1)
    };
    let shape = slid.shape(hay);
    rows::lemma_row_at(shape, near);
    let top = shape.row_at(near).start;
    let put = Model {
        top,
        cur: if m.cur >= top {
            m.cur
        } else {
            top
        },
        ..slid
    };
    assert(m.shift_grid(hay, right) == put.ensure_visible(hay));
}

/// Where the view starts with a row of the grid and has room to, the first line
/// slides with the others: it starts one byte further on, or further back.
pub proof fn law_the_first_line_slides_too(m: Model, hay: Seq<u8>, right: bool)
    requires
        nav::sane(m),
        m.rows >= 1,
        m.record is None,
        m.align < m.row_bytes(),
        m.top >= m.align,
        (m.top - m.align) % m.row_bytes() == 0,
        right ==> m.top + 1 < hay.len(),
        !right ==> m.top >= 1 && m.top < hay.len(),
        ({
            let r = m.shift_grid(hay, right);
            let near = if right {
                m.top + 1
            } else {
                m.top - 1
            };
            &&& r.shape(hay).clamp_top(near) == near
            &&& r.shape(hay).on_screen(near, m.cur)
        }),
        m.cur < hay.len(),
    ensures
        m.shift_grid(hay, right).top == if right {
            m.top + 1
        } else {
            m.top - 1
        },
        m.shift_grid(hay, right).cur == m.cur,
{
    let bpl = m.row_bytes();
    crate::nav::lemma_slide(m.align, bpl);
    vstd::arithmetic::div_mod::lemma_small_mod(m.align as nat, bpl as nat);
    let slid = Model {
        align: if right {
            (m.align + 1) % bpl
        } else {
            (m.align + bpl - 1) % bpl
        },
        ..m
    };
    let near = if right {
        m.top + 1
    } else {
        rows::above(m.top, 1)
    };
    let shape = slid.shape(hay);
    rows::lemma_row_at(shape, near);
    let q = (m.top - m.align) / bpl;
    vstd::arithmetic::div_mod::lemma_fundamental_div_mod(m.top - m.align, bpl);
    assert(m.top == m.align + bpl * q);
    assert(bpl * q == q * bpl) by (nonlinear_arith);
    assert(shape.row_at(near).start == near) by {
        reveal(Shape::row_at);
        if right {
            if m.align + 1 == bpl {
                assert((q + 1) * bpl == q * bpl + bpl) by (nonlinear_arith);
                vstd::arithmetic::div_mod::lemma_fundamental_div_mod_converse(near, bpl, q + 1, 0);
            } else {
                vstd::arithmetic::div_mod::lemma_fundamental_div_mod_converse(
                    near - slid.align,
                    bpl,
                    q,
                    0,
                );
            }
        } else {
            if m.align == 0 {
                assert((q - 1) * bpl == q * bpl - bpl) by (nonlinear_arith);
                assert(q >= 1) by (nonlinear_arith)
                    requires
                        q * bpl >= 1,
                        bpl >= 1,
                ;
                vstd::arithmetic::div_mod::lemma_fundamental_div_mod_converse(
                    near - slid.align,
                    bpl,
                    q - 1,
                    0,
                );
            } else {
                vstd::arithmetic::div_mod::lemma_fundamental_div_mod_converse(
                    near - slid.align,
                    bpl,
                    q,
                    0,
                );
            }
        }
    }
    let r = m.shift_grid(hay, right);
    assert(r.shape(hay) == shape);
    reveal(Shape::screen);
    let s = shape.screen(near, m.rows);
    assert(s.first() == shape.row_at(near));
    let put = Model { top: near, cur: m.cur, ..slid };
    assert(put.shape(hay) == shape);
    assert(r == put.ensure_visible(hay));
}

} // verus!
