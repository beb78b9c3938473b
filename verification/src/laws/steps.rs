//! Laws of single steps of the cursor.

use crate::laws::nav;
use crate::laws::rows as row_laws;
use crate::model::Model;
use crate::rows;
use vstd::prelude::*;

verus! {

/// A byte right and a byte left lead back.
pub proof fn law_a_byte_right_and_left_leads_back(m: Model, hay: Seq<u8>)
    requires
        0 <= m.cur,
        m.cur + 1 < hay.len(),
    ensures
        m.move_cursor(hay, 1).cur == m.cur + 1,
        m.move_cursor(hay, 1).move_cursor(hay, -1).cur == m.cur,
{
}

/// A step down keeps the column where the next row is long enough to have one,
/// and a step up from there leads back.
pub proof fn law_a_row_down_and_up_leads_back(m: Model, hay: Seq<u8>)
    requires
        nav::sane(m),
        m.cur < hay.len(),
        ({
            let shape = m.shape(hay);
            let row = shape.row_at(m.cur);
            shape.row_after(row) matches Some(next) && m.cur - row.start < next.len
        }),
    ensures
        ({
            let shape = m.shape(hay);
            let row = shape.row_at(m.cur);
            m.step_rows(hay, 1, true).cur == row.next_start() + (m.cur - row.start)
        }),
        m.step_rows(hay, 1, true).step_rows(hay, 1, false).cur == m.cur,
{
    let shape = m.shape(hay);
    let row = shape.row_at(m.cur);
    nav::lemma_is_row(shape, m.cur);
    nav::lemma_next_row(shape, row);
    let next = shape.row_after(row)->0;
    rows::lemma_row_at(shape, next.start);
    row_laws::law_rows_tile_the_file(shape, next.start);
    let to = next.start + (m.cur - row.start);
    assert(next.holds(to));
    assert(shape.walk(to, 0, true) == to);
    assert(shape.walk(m.cur, 1, true) == to);
    let down = m.step_rows(hay, 1, true);
    assert(down.shape(hay) == shape);
    assert(down.cur == to);
    assert(shape.row_at(to) == next);
    assert(shape.walk(m.cur, 0, false) == m.cur);
    assert(shape.walk(to, 1, false) == m.cur);
}

/// A step down onto a shorter row goes to its last byte.
pub proof fn law_a_short_row_stops_the_cursor_at_its_end(m: Model, hay: Seq<u8>)
    requires
        nav::sane(m),
        m.cur < hay.len(),
        ({
            let shape = m.shape(hay);
            let row = shape.row_at(m.cur);
            shape.row_after(row) matches Some(next) && m.cur - row.start >= next.len
        }),
    ensures
        ({
            let shape = m.shape(hay);
            m.step_rows(hay, 1, true).cur == shape.row_after(shape.row_at(m.cur))->0.last()
        }),
{
    let shape = m.shape(hay);
    let row = shape.row_at(m.cur);
    nav::lemma_is_row(shape, m.cur);
    nav::lemma_next_row(shape, row);
    let next = shape.row_after(row)->0;
    rows::lemma_row_at(shape, next.start);
    row_laws::law_rows_tile_the_file(shape, next.start);
    assert(shape.walk(next.last(), 0, true) == next.last());
    assert(shape.walk(m.cur, 1, true) == next.last());
}

/// On the first row a step up goes to the start of the file, on the last row a
/// step down goes to its end: the key always does something.
pub proof fn law_a_step_off_the_file_goes_to_its_end(m: Model, hay: Seq<u8>)
    requires
        nav::sane(m),
        m.cur < hay.len(),
    ensures
        m.shape(hay).row_before(m.shape(hay).row_at(m.cur)) is None ==> m.step_rows(
            hay,
            1,
            false,
        ).cur == 0,
        m.shape(hay).row_after(m.shape(hay).row_at(m.cur)) is None ==> m.step_rows(
            hay,
            1,
            true,
        ).cur == hay.len() - 1,
{
    let shape = m.shape(hay);
    row_laws::law_rows_tile_the_file(shape, m.cur);
}

/// The ends of the line: the cursor goes to the first or the last byte of its
/// row, and stays there when asked again.
pub proof fn law_the_ends_of_the_line(m: Model, hay: Seq<u8>, end: bool)
    requires
        nav::sane(m),
        m.cur < hay.len(),
    ensures
        ({
            let row = m.shape(hay).row_at(m.cur);
            &&& m.go_row_edge(hay, end).cur == if end {
                row.last()
            } else {
                row.start
            }
            &&& m.go_row_edge(hay, end).go_row_edge(hay, end).cur == m.go_row_edge(hay, end).cur
        }),
{
    let shape = m.shape(hay);
    let row = shape.row_at(m.cur);
    rows::lemma_row_at(shape, m.cur);
    row_laws::law_rows_tile_the_file(shape, m.cur);
    assert(row.holds(row.start));
    assert(row.holds(row.last()));
    let r = m.go_row_edge(hay, end);
    assert(r.shape(hay) == shape);
    assert(shape.row_at(r.cur) == row);
}

/// The end of a record that runs off the screen brings its tail into view: no
/// byte of it is left hidden on the right.
pub proof fn law_the_end_of_a_record_brings_its_tail_into_view(m: Model, hay: Seq<u8>)
    requires
        nav::sane(m),
        m.record is Some,
        !m.wrap,
        m.cur < hay.len(),
    ensures
        ({
            let r = m.go_row_edge(hay, true);
            m.shape(hay).clip(m.shape(hay).row_at(r.cur), r.hoff).hidden == 0
        }),
{
    let shape = m.shape(hay);
    let row = shape.row_at(m.cur);
    law_the_ends_of_the_line(m, hay, true);
    rows::lemma_row_at(shape, m.cur);
    row_laws::law_rows_tile_the_file(shape, m.cur);
    assert(row.holds(row.last()));
    let r = m.go_row_edge(hay, true);
    assert(shape.row_at(r.cur) == row);
    let edge = Model { cur: row.last(), ..m };
    assert(edge.shape(hay) == shape);
    assert(r.hoff == shape.fix_hoff(row.last(), m.hoff));
}

/// The start of the file and its end are one key away.
pub proof fn law_the_ends_of_the_file(m: Model, hay: Seq<u8>)
    ensures
        m.go_to(hay, 0).cur == 0,
        m.go_end(hay).cur == rows::above(hay.len() as int, 1),
{
}

} // verus!
