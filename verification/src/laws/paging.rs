//! Laws of paging: the view and the cursor move by as many rows.

use crate::laws::nav;
use crate::laws::rows as row_laws;
use crate::model::Model;
use crate::rows;
use crate::rows::{Shape, Span};
use vstd::prelude::*;

verus! {

/// Rows further down are rows of the file.
proof fn lemma_nth(shape: Shape, row: Span, n: int)
    requires
        shape.well_formed(),
        nav::is_row(shape, row),
    ensures
        row_laws::nth_row(shape, row, n) matches Some(r) ==> nav::is_row(shape, r) && row.start
            <= r.start,
    decreases n,
{
    if n > 0 {
        nav::lemma_next_row(shape, row);
        if let Some(next) = shape.row_after(row) {
            lemma_nth(shape, next, n - 1);
        }
    }
}

/// Going down in two goes.
proof fn lemma_nth_sum(shape: Shape, row: Span, i: int, n: int)
    requires
        0 <= i,
        0 <= n,
    ensures
        row_laws::nth_row(shape, row, i + n) == match row_laws::nth_row(shape, row, i) {
            Some(r) => row_laws::nth_row(shape, r, n),
            None => None,
        },
    decreases i,
{
    if i > 0 {
        if let Some(next) = shape.row_after(row) {
            lemma_nth_sum(shape, next, i - 1, n);
        }
    }
}

/// A row that far down is that far down the screen.
proof fn lemma_nth_on_screen(shape: Shape, row: Span, k: int, i: int)
    requires
        0 <= i < k,
        row_laws::nth_row(shape, row, i) is Some,
    ensures
        i < shape.rows_from(row, k).len(),
        row_laws::nth_row(shape, row, i) == Some(shape.rows_from(row, k)[i]),
    decreases k,
{
    if i > 0 {
        let next = shape.row_after(row)->0;
        lemma_nth_on_screen(shape, next, k - 1, i - 1);
        assert(shape.rows_from(row, k) == seq![row] + shape.rows_from(next, k - 1));
    }
}

/// Scrolling down goes to that row.
proof fn lemma_far_down(shape: Shape, top: int, n: int)
    requires
        shape.well_formed(),
        nav::is_row(shape, shape.row_at(top)),
        shape.row_at(top).start == top,
        row_laws::nth_row(shape, shape.row_at(top), n) is Some,
    ensures
        shape.far_row(top, n, true) == row_laws::nth_row(shape, shape.row_at(top), n)->0.start,
    decreases n,
{
    if n > 0 {
        let row = shape.row_at(top);
        nav::lemma_next_row(shape, row);
        lemma_far_down(shape, shape.row_after(row)->0.start, n - 1);
    }
}

/// Walking down goes to that row.
proof fn lemma_walk_down(shape: Shape, cur: int, n: int)
    requires
        shape.well_formed(),
        0 <= cur < shape.len(),
        row_laws::nth_row(shape, shape.row_at(cur), n) is Some,
    ensures
        row_laws::nth_row(shape, shape.row_at(cur), n)->0.holds(shape.walk(cur, n, true)),
    decreases n,
{
    let row = shape.row_at(cur);
    nav::lemma_is_row(shape, cur);
    if n > 0 {
        nav::lemma_next_row(shape, row);
        let next = shape.row_after(row)->0;
        nav::lemma_is_row(shape, next.start);
        row_laws::law_rows_tile_the_file(shape, next.start);
        let to = rows::least(next.start + (cur - row.start), next.last());
        assert(next.holds(to));
        lemma_walk_down(shape, to, n - 1);
    }
}

/// Going up undoes going down.
proof fn lemma_back_up(shape: Shape, row: Span, n: int)
    requires
        shape.well_formed(),
        nav::is_row(shape, row),
        n >= 1,
        row_laws::nth_row(shape, row, n) is Some,
    ensures
        row_laws::nth_row(shape, row, n - 1) is Some,
        shape.row_before(row_laws::nth_row(shape, row, n)->0) == row_laws::nth_row(
            shape,
            row,
            n - 1,
        ),
{
    lemma_nth_sum(shape, row, n - 1, 1);
    let last = row_laws::nth_row(shape, row, n - 1)->0;
    lemma_nth(shape, row, n - 1);
    nav::lemma_next_row(shape, last);
    let next = shape.row_after(last)->0;
    assert(row_laws::nth_row(shape, next, 0) == Some(next));
    assert(row_laws::nth_row(shape, last, 1) == Some(next));
}

/// Scrolling up goes back to the row it is that far below.
proof fn lemma_far_up(shape: Shape, row: Span, n: int)
    requires
        shape.well_formed(),
        nav::is_row(shape, row),
        n >= 0,
        row_laws::nth_row(shape, row, n) is Some,
    ensures
        shape.far_row(row_laws::nth_row(shape, row, n)->0.start, n, false) == row.start,
    decreases n,
{
    if n > 0 {
        lemma_nth(shape, row, n);
        lemma_back_up(shape, row, n);
        lemma_far_up(shape, row, n - 1);
    }
}

/// Walking up goes back to the row it is that far below.
proof fn lemma_walk_up(shape: Shape, row: Span, cur: int, n: int)
    requires
        shape.well_formed(),
        shape.len() > 0,
        nav::is_row(shape, row),
        n >= 0,
        row_laws::nth_row(shape, row, n) matches Some(r) && r.holds(cur),
    ensures
        row.holds(shape.walk(cur, n, false)),
    decreases n,
{
    if n > 0 {
        let low = row_laws::nth_row(shape, row, n)->0;
        lemma_nth(shape, row, n);
        lemma_back_up(shape, row, n);
        let over = row_laws::nth_row(shape, row, n - 1)->0;
        lemma_nth(shape, row, n - 1);
        row_laws::law_rows_tile_the_file(shape, low.start);
        assert(shape.row_at(cur) == low);
        nav::lemma_is_row(shape, over.start);
        let to = rows::least(over.start + (cur - low.start), over.last());
        assert(over.holds(to));
        lemma_walk_up(shape, row, to, n - 1);
    }
}

/// A page down moves the view by as many rows as the cursor, so the cursor
/// keeps its place on the screen: the row of the screen it was on is the row
/// it is on. That is where there are that many rows below both.
pub proof fn law_a_page_down_keeps_the_cursor_on_its_screen_row(
    m: Model,
    hay: Seq<u8>,
    n: int,
    i: int,
)
    requires
        nav::sane(m),
        nav::at_row(m.shape(hay), m.top),
        0 <= n,
        0 <= i < m.shape(hay).screen(m.top, m.rows).len(),
        m.shape(hay).screen(m.top, m.rows)[i].holds(m.cur),
        row_laws::nth_row(m.shape(hay), m.shape(hay).row_at(m.cur), n) is Some,
        row_laws::nth_row(m.shape(hay), m.shape(hay).row_at(m.top), n) matches Some(t)
            && m.shape(hay).clamp_top(t.start) == t.start,
    ensures
        ({
            let shape = m.shape(hay);
            let r = m.page_rows(hay, n, true);
            &&& Some(r.top) == (match row_laws::nth_row(shape, shape.row_at(m.top), n) {
                Some(t) => Some(t.start),
                None => None,
            })
            &&& i < shape.screen(r.top, r.rows).len()
            &&& shape.screen(r.top, r.rows)[i].holds(r.cur)
        }),
{
    let shape = m.shape(hay);
    let first = shape.row_at(m.top);
    let screen = shape.screen(m.top, m.rows);
    rows::lemma_row_at(shape, m.top);
    lemma_screen_len(shape, m.top, m.rows);
    nav::lemma_is_row(shape, m.top);
    row_laws::law_the_layout_agrees_with_single_rows(shape, m.top, m.rows);
    nav::lemma_rows_from(shape, first, m.rows);
    let row = screen[i];
    assert(nav::is_row(shape, row));
    rows::lemma_row_at(shape, row.start);
    row_laws::law_rows_tile_the_file(shape, row.start);
    assert(shape.row_at(m.cur) == row);
    let t = row_laws::nth_row(shape, first, n)->0;
    let c = row_laws::nth_row(shape, row, n)->0;
    lemma_nth_sum(shape, first, i, n);
    lemma_nth_sum(shape, first, n, i);
    assert(row_laws::nth_row(shape, t, i) == Some(c));
    lemma_nth(shape, first, n);
    lemma_nth(shape, row, n);
    lemma_far_down(shape, m.top, n);
    lemma_walk_down(shape, m.cur, n);
    let paged = m.walk_cursor(hay, n, true).scroll_rows(hay, n, true);
    assert(paged.shape(hay) == shape);
    assert(paged.top == t.start);
    lemma_page_lands(paged, hay, t, c, i);
}

/// A page up is the same the other way round: the cursor goes back to where
/// it stands on the screen `n` rows further up.
pub proof fn law_a_page_up_keeps_the_cursor_on_its_screen_row(
    m: Model,
    hay: Seq<u8>,
    n: int,
    i: int,
    to: int,
)
    requires
        nav::sane(m),
        nav::at_row(m.shape(hay), m.top),
        m.shape(hay).clamp_top(m.top) == m.top,
        0 <= n,
        0 <= i < m.shape(hay).screen(m.top, m.rows).len(),
        m.shape(hay).screen(m.top, m.rows)[i].holds(m.cur),
        nav::at_row(m.shape(hay), to),
        row_laws::nth_row(m.shape(hay), m.shape(hay).row_at(to), n) == Some(
            m.shape(hay).row_at(m.top),
        ),
    ensures
        ({
            let shape = m.shape(hay);
            let r = m.page_rows(hay, n, false);
            &&& r.top == to
            &&& i < shape.screen(r.top, r.rows).len()
            &&& shape.screen(r.top, r.rows)[i].holds(r.cur)
        }),
{
    let shape = m.shape(hay);
    let first = shape.row_at(m.top);
    let t = shape.row_at(to);
    let screen = shape.screen(m.top, m.rows);
    rows::lemma_row_at(shape, m.top);
    rows::lemma_row_at(shape, to);
    lemma_screen_len(shape, m.top, m.rows);
    nav::lemma_is_row(shape, m.top);
    nav::lemma_is_row(shape, to);
    row_laws::law_the_layout_agrees_with_single_rows(shape, m.top, m.rows);
    nav::lemma_rows_from(shape, first, m.rows);
    let row = screen[i];
    assert(nav::is_row(shape, row));
    rows::lemma_row_at(shape, row.start);
    lemma_nth_sum(shape, t, n, i);
    lemma_nth_sum(shape, t, i, n);
    let c = row_laws::nth_row(shape, t, i)->0;
    lemma_nth(shape, t, i);
    lemma_nth(shape, t, n);
    lemma_far_up(shape, t, n);
    lemma_walk_up(shape, c, m.cur, n);
    let paged = m.walk_cursor(hay, n, false).scroll_rows(hay, n, false);
    assert(paged.shape(hay) == shape);
    assert(paged.top == to);
    lemma_page_lands(paged, hay, t, c, i);
}

/// Only a screen with rows has any.
proof fn lemma_screen_len(shape: Shape, top: int, n: int)
    ensures
        n <= 0 ==> shape.screen(top, n).len() == 0,
{
    reveal(Shape::screen);
}

/// A cursor on the screen stays on its row when the view is settled.
proof fn lemma_page_lands(paged: Model, hay: Seq<u8>, t: Span, c: Span, i: int)
    requires
        nav::sane(paged),
        nav::is_row(paged.shape(hay), t),
        paged.top == t.start,
        paged.shape(hay).clamp_top(t.start) == t.start,
        0 <= i < paged.rows,
        row_laws::nth_row(paged.shape(hay), t, i) == Some(c),
        c.holds(paged.cur),
    ensures
        ({
            let shape = paged.shape(hay);
            let r = paged.ensure_visible(hay);
            &&& r.top == t.start
            &&& i < shape.screen(r.top, r.rows).len()
            &&& shape.screen(r.top, r.rows)[i].holds(r.cur)
        }),
{
    let shape = paged.shape(hay);
    lemma_nth_on_screen(shape, t, paged.rows, i);
    row_laws::law_the_layout_agrees_with_single_rows(shape, t.start, paged.rows);
    nav::lemma_rows_from(shape, t, paged.rows);
    let s = shape.screen(t.start, paged.rows);
    assert(s[i] == c);
    rows::lemma_row_at(shape, c.start);
    assert(c.next_start() <= s.last().next_start());
    assert(paged.ensure_visible(hay).cur == paged.cur);
    assert(shape.follow(t.start, paged.cur, 3) == t.start);
}

} // verus!
