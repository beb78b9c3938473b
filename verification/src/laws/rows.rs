//! Laws of rows: every byte is in exactly one, and one starts where the one
//! before it ends.

use crate::pattern;
use crate::reader;
use crate::rows;
use crate::rows::{Clip, Shape, Span};
use vstd::prelude::*;

verus! {

/// Is `rec` where the record of a byte starts, given where all records do?
spec fn begins(starts: Seq<int>, off: int, rec: int) -> bool {
    ||| rec == 0 && (starts.len() == 0 || off < starts[0])
    ||| exists|k: int| begins_at(starts, off, rec, k)
}

spec fn begins_at(starts: Seq<int>, off: int, rec: int, k: int) -> bool {
    &&& 0 <= k < starts.len()
    &&& starts[k] == rec
    &&& rec <= off
    &&& k + 1 < starts.len() ==> off < starts[k + 1]
}

/// A record starts at the last of all matches up to the byte.
proof fn lemma_begins(items: Seq<Option<u8>>, hay: Seq<u8>, off: int)
    requires
        items.len() > 0,
        0 <= off < hay.len(),
    ensures
        begins(
            pattern::all_matches(items, hay, 0, hay.len() as int),
            off,
            rows::record_start(items, hay, off),
        ),
{
    let len = hay.len() as int;
    let n = items.len() as int;
    let all = pattern::all_matches(items, hay, 0, len);
    let e = rows::least(off + n, len);
    let upto = pattern::all_matches(items, hay, 0, e);
    rows::lemma_record_start(items, hay, off);
    pattern::lemma_all_matches(items, hay, 0, e);
    pattern::lemma_all_matches(items, hay, 0, len);
    reader::lemma_resume(items, hay, 0, e, len);
    let q = reader::resume(upto, n, 0, e);
    let rest = pattern::all_matches(items, hay, q, len);
    pattern::lemma_all_matches(items, hay, q, len);
    assert(all == upto + rest);
    assert(upto == reader::matches_upto(items, hay, off + 1));
    if rest.len() > 0 {
        assert(all[upto.len() as int] == rest[0]);
        assert(rest[0] >= q && rest[0] + n <= len);
        assert(off < rest[0]);
    }
    if upto.len() > 0 {
        let k = upto.len() - 1;
        assert(all[k] == upto[k]);
        assert(begins_at(all, off, upto[k], k));
    } else {
        if all.len() > 0 {
            assert(all[0] == rest[0]);
        }
    }
}

/// Where a record starts is one place.
proof fn lemma_begins_once(starts: Seq<int>, off: int, a: int, b: int)
    requires
        forall|i: int, j: int| 0 <= i < j < starts.len() ==> #[trigger] starts[i] < #[trigger] starts[j],
        0 <= off,
        begins(starts, off, a),
        begins(starts, off, b),
    ensures
        a == b,
{
    if exists|k: int| begins_at(starts, off, a, k) {
        let i = choose|k: int| begins_at(starts, off, a, k);
        if i > 0 {
            assert(starts[0] < starts[i]);
        }
        if exists|k: int| begins_at(starts, off, b, k) {
            let j = choose|k: int| begins_at(starts, off, b, k);
            if i < j {
                if i + 1 < j {
                    assert(starts[i + 1] < starts[j]);
                }
            } else if j < i {
                if j + 1 < i {
                    assert(starts[j + 1] < starts[i]);
                }
            }
        }
    } else {
        if exists|k: int| begins_at(starts, off, b, k) {
            let j = choose|k: int| begins_at(starts, off, b, k);
            if j > 0 {
                assert(starts[0] < starts[j]);
            }
        }
    }
}

/// Records follow each other: every byte of one has the same start, and where
/// one ends the next one starts.
pub proof fn lemma_records(items: Seq<Option<u8>>, hay: Seq<u8>, off: int)
    requires
        items.len() > 0,
        0 <= off < hay.len(),
    ensures
        ({
            let rec = rows::record_start(items, hay, off);
            let end = rows::record_end(items, hay, rec);
            &&& 0 <= rec <= off < end <= hay.len()
            &&& forall|x: int| rec <= x < end ==> #[trigger] rows::record_start(items, hay, x) == rec
            &&& end < hay.len() ==> rows::record_start(items, hay, end) == end && pattern::matches(
                items,
                hay,
                end,
            )
        }),
{
    let len = hay.len() as int;
    let n = items.len() as int;
    let rec = rows::record_start(items, hay, off);
    let end = rows::record_end(items, hay, rec);
    let all = pattern::all_matches(items, hay, 0, len);
    rows::lemma_record_holds(items, hay, off);
    pattern::lemma_all_matches(items, hay, 0, len);
    lemma_begins(items, hay, off);
    let from = if pattern::matches(items, hay, rec) {
        rec + n
    } else {
        rec + 1
    };
    pattern::lemma_next_match(items, hay, from, len);
    // where the list of all matches goes on after this record
    let next: int = if exists|k: int| begins_at(all, off, rec, k) {
        let k = choose|k: int| begins_at(all, off, rec, k);
        pattern::lemma_following(items, hay, 0, len, k);
        k + 1
    } else {
        pattern::lemma_next_match(items, hay, 0, len);
        if pattern::matches(items, hay, 0) {
            assert(all[0] == 0);
        }
        pattern::lemma_nothing_between(items, hay, 0, 1, len);
        0
    };
    assert(next < all.len() ==> end == all[next]);
    assert(next >= all.len() ==> end == len);
    assert forall|x: int| rec <= x < end implies #[trigger] rows::record_start(items, hay, x)
        == rec by {
        lemma_begins(items, hay, x);
        if next > 0 {
            assert(begins_at(all, x, rec, next - 1));
        }
        lemma_begins_once(all, x, rec, rows::record_start(items, hay, x));
    }
    if end < len {
        lemma_begins(items, hay, end);
        assert(begins_at(all, end, end, next));
        lemma_begins_once(all, end, end, rows::record_start(items, hay, end));
    }
}

/// Rounding down gives the same multiple all the way to the next one.
proof fn lemma_floor_same(x: int, y: int, m: int)
    requires
        0 <= x,
        m >= 1,
        (x / m) * m <= y < (x / m) * m + m,
    ensures
        y / m == x / m,
{
    let q = x / m;
    assert(y == q * m + (y - q * m));
    vstd::arithmetic::div_mod::lemma_fundamental_div_mod_converse(y, m, q, y - q * m);
}

/// A multiple is where rounding down stops.
proof fn lemma_floor_multiple(q: int, m: int)
    requires
        m >= 1,
    ensures
        (q * m) / m == q,
{
    vstd::arithmetic::div_mod::lemma_fundamental_div_mod_converse(q * m, m, q, 0);
}

/// Every byte of a row is in that row and no other, and where a row ends the
/// next one starts.
pub proof fn law_rows_tile_the_file(shape: Shape, off: int)
    requires
        shape.well_formed(),
        0 <= off < shape.len(),
    ensures
        ({
            let row = shape.row_at(off);
            &&& row.holds(off)
            &&& forall|x: int| row.holds(x) ==> #[trigger] shape.row_at(x) == row
            &&& row.next_start() == row.start + row.len <= shape.len()
            &&& row.next_start() < shape.len() ==> shape.row_at(row.next_start()).start
                == row.next_start()
        }),
{
    let row = shape.row_at(off);
    let len = shape.len();
    let bpl = shape.bpl;
    rows::lemma_row_at(shape, off);
    reveal(Shape::row_at);
    let next = row.start + row.len;
    match shape.record {
        None => {
            let align = shape.align;
            if off >= align {
                let q = (off - align) / bpl;
                rows::lemma_floor(off - align, bpl);
                assert forall|x: int| row.holds(x) implies #[trigger] shape.row_at(x) == row by {
                    lemma_floor_same(off - align, x - align, bpl);
                }
                if next < len {
                    assert((q + 1) * bpl == q * bpl + bpl) by (nonlinear_arith);
                    lemma_floor_multiple(q + 1, bpl);
                }
            } else if next < len {
                lemma_floor_multiple(0, bpl);
            }
        },
        Some(items) => {
            let hay = shape.hay;
            let rec = rows::record_start(items, hay, off);
            let end = rows::record_end(items, hay, rec);
            lemma_records(items, hay, off);
            if shape.wrap {
                let q = (off - rec) / bpl;
                rows::lemma_floor(off - rec, bpl);
                assert forall|x: int| row.holds(x) implies #[trigger] shape.row_at(x) == row by {
                    assert(rows::record_start(items, hay, x) == rec);
                    lemma_floor_same(off - rec, x - rec, bpl);
                }
                if next < len {
                    if next < end {
                        assert(rows::record_start(items, hay, next) == rec);
                        assert((q + 1) * bpl == q * bpl + bpl) by (nonlinear_arith);
                        lemma_floor_multiple(q + 1, bpl);
                    } else {
                        lemma_floor_multiple(0, bpl);
                    }
                }
            } else {
                assert forall|x: int| row.holds(x) implies #[trigger] shape.row_at(x) == row by {
                    assert(rows::record_start(items, hay, x) == rec);
                }
            }
        },
    }
}

/// The row that contains a byte contains it, whatever the layout; past the end
/// it is the last one.
pub proof fn law_the_row_at_an_offset_holds_it(shape: Shape, off: int)
    requires
        shape.well_formed(),
        0 <= off,
        shape.len() > 0,
    ensures
        shape.row_at(off).holds(rows::least(off, shape.len() - 1)),
        0 <= shape.row_at(off).start,
        shape.row_at(off).start + shape.row_at(off).len <= shape.len(),
{
    rows::lemma_row_at(shape, off);
}

/// The row after a row starts where it ends, and the last row ends with the
/// file.
pub proof fn law_the_row_after_one_starts_where_it_ends(shape: Shape, off: int)
    requires
        shape.well_formed(),
        0 <= off < shape.len(),
    ensures
        match shape.row_after(shape.row_at(off)) {
            Some(next) => next.start == shape.row_at(off).start + shape.row_at(off).len,
            None => shape.row_at(off).start + shape.row_at(off).len == shape.len(),
        },
{
    law_rows_tile_the_file(shape, off);
}

/// A step to the next row and one back, or the other way round, lead to where
/// they began.
pub proof fn law_stepping_over_rows_and_back(shape: Shape, off: int)
    requires
        shape.well_formed(),
        0 <= off < shape.len(),
    ensures
        shape.row_after(shape.row_at(off)) matches Some(next) ==> shape.row_before(next) == Some(
            shape.row_at(off),
        ),
        shape.row_before(shape.row_at(off)) matches Some(last) ==> shape.row_after(last) == Some(
            shape.row_at(off),
        ),
{
    let row = shape.row_at(off);
    law_rows_tile_the_file(shape, off);
    rows::lemma_row_at(shape, off);
    if let Some(next) = shape.row_after(row) {
        assert(row.holds(next.start - 1));
    }
    if let Some(last) = shape.row_before(row) {
        assert(row.holds(row.start));
        law_rows_tile_the_file(shape, row.start - 1);
        if last.next_start() > row.start {
            assert(last.holds(row.start));
        }
    }
}

/// Rows below each other, from the row of an offset on.
pub open spec fn nth_row(shape: Shape, row: Span, n: int) -> Option<Span>
    decreases n,
{
    if n <= 0 {
        Some(row)
    } else {
        match shape.row_after(row) {
            Some(next) => nth_row(shape, next, n - 1),
            None => None,
        }
    }
}

/// The rows of the records from a place on are those that looking them up one
/// by one gives.
pub proof fn lemma_record_rows(shape: Shape, items: Seq<Option<u8>>, at: int, n: int)
    requires
        shape.well_formed(),
        shape.record == Some(items),
        0 <= at < shape.len(),
        shape.row_at(at).start == at,
    ensures
        shape.record_rows(
            items,
            at,
            rows::record_end(items, shape.hay, rows::record_start(items, shape.hay, at)),
            n,
        ) == shape.rows_from(shape.row_at(at), n),
    decreases n,
{
    if n > 0 {
        let hay = shape.hay;
        let rec = rows::record_start(items, hay, at);
        let end = rows::record_end(items, hay, rec);
        let row = shape.row_at(at);
        law_rows_tile_the_file(shape, at);
        lemma_records(items, hay, at);
        let next = row.next_start();
        assert(row.len == if shape.wrap {
            rows::least(shape.bpl, end - at)
        } else {
            end - at
        }) by {
            reveal(Shape::row_at);
        }
        if next < shape.len() {
            lemma_record_rows(shape, items, next, n - 1);
            if next < end {
                assert(rows::record_start(items, hay, next) == rec);
            }
        }
        assert(shape.record_rows(items, at, end, n) =~= shape.rows_from(row, n));
    }
}

/// The rows laid out for a screen are those that looking them up one by one
/// gives.
pub proof fn law_the_layout_agrees_with_single_rows(shape: Shape, top: int, n: int)
    requires
        shape.well_formed(),
        0 <= top < shape.len() || top == 0,
    ensures
        shape.screen(top, n) == shape.rows_from(shape.row_at(top), n),
{
    reveal(Shape::screen);
}

// ── What of a row is drawn ──────────────────────────────────────────────────

/// What is scrolled off, what is drawn and what does not fit make up the row,
/// and no more is drawn than a line holds.
pub proof fn law_clipping_loses_no_byte(shape: Shape, row: Span, hoff: int)
    requires
        shape.well_formed(),
        0 <= row.len,
        0 <= hoff,
    ensures
        ({
            let ln = shape.clip(row, hoff);
            &&& 0 <= ln.skipped
            &&& 0 <= ln.len <= shape.bpl
            &&& 0 <= ln.hidden
            &&& ln.skipped + ln.len + ln.hidden == row.len
            &&& ln.off == row.start + ln.skipped
        }),
{
}

/// Nothing is ever cut off a row of the grid or of a wrapped record.
pub proof fn law_wrapped_rows_are_shown_whole(shape: Shape, off: int, hoff: int)
    requires
        shape.well_formed(),
        shape.record is None || shape.wrap,
        shape.record is None ==> shape.align < shape.bpl,
        0 <= off,
    ensures
        ({
            let row = shape.row_at(off);
            shape.clip(row, hoff) == (Clip { off: row.start, len: row.len, skipped: 0, hidden: 0 })
        }),
{
    reveal(Shape::row_at);
    rows::lemma_row_at(shape, off);
}

/// With wrapping off a record is one row, however long it is.
pub proof fn law_a_cut_record_is_one_row(shape: Shape, off: int)
    requires
        shape.well_formed(),
        shape.record is Some,
        !shape.wrap,
        0 <= off < shape.len(),
    ensures
        shape.row_at(off).start == rows::record_start(shape.record->0, shape.hay, off),
        shape.row_at(off).start + shape.row_at(off).len == rows::record_end(
            shape.record->0,
            shape.hay,
            rows::record_start(shape.record->0, shape.hay, off),
        ),
{
    reveal(Shape::row_at);
    rows::lemma_record_holds(shape.record->0, shape.hay, off);
}

/// With wrapping on a row is a slice of one record, a full line of it or the
/// rest: the next record starts a row of its own.
pub proof fn law_a_wrapped_row_stays_in_its_record(shape: Shape, off: int)
    requires
        shape.well_formed(),
        shape.record is Some,
        shape.wrap,
        0 <= off < shape.len(),
    ensures
        ({
            let rec = rows::record_start(shape.record->0, shape.hay, off);
            let end = rows::record_end(shape.record->0, shape.hay, rec);
            let row = shape.row_at(off);
            &&& rec <= row.start
            &&& (row.start - rec) % shape.bpl == 0
            &&& row.start + row.len <= end
            &&& row.len == shape.bpl || row.start + row.len == end
        }),
{
    reveal(Shape::row_at);
    rows::lemma_record_holds(shape.record->0, shape.hay, off);
    let rec = rows::record_start(shape.record->0, shape.hay, off);
    let q = (off - rec) / shape.bpl;
    rows::lemma_floor(off - rec, shape.bpl);
    vstd::arithmetic::div_mod::lemma_fundamental_div_mod_converse(q * shape.bpl, shape.bpl, q, 0);
}

// ── What the rows are ───────────────────────────────────────────────────────

/// The byte grid: rows of so many bytes, counted from the anchor, with one
/// short row below it. Only the end of the file makes a row shorter.
pub proof fn law_rows_of_the_grid(shape: Shape, off: int)
    requires
        shape.well_formed(),
        shape.record is None,
        0 <= off < shape.len(),
    ensures
        ({
            let row = shape.row_at(off);
            let end = row.start + row.len;
            &&& off < shape.align ==> row.start == 0 && (end == shape.align || end == shape.len())
                && end <= shape.align
            &&& off >= shape.align ==> {
                &&& row.start >= shape.align && (row.start - shape.align) % shape.bpl == 0
                &&& row.start <= off < row.start + shape.bpl
                &&& row.len == shape.bpl || row.len < shape.bpl && end == shape.len()
            }
        }),
{
    reveal(Shape::row_at);
    rows::lemma_row_at(shape, off);
    if off >= shape.align {
        let q = (off - shape.align) / shape.bpl;
        rows::lemma_floor(off - shape.align, shape.bpl);
        vstd::arithmetic::div_mod::lemma_fundamental_div_mod_converse(
            q * shape.bpl,
            shape.bpl,
            q,
            0,
        );
    }
}

/// Records break at every match and nowhere else: a record starts at one, or
/// with the file, ends where the next one is, or with the file, and there is
/// none inside it.
pub proof fn law_records_break_at_every_match(items: Seq<Option<u8>>, hay: Seq<u8>, off: int)
    requires
        items.len() > 0,
        0 <= off < hay.len(),
    ensures
        ({
            let all = pattern::all_matches(items, hay, 0, hay.len() as int);
            let rec = rows::record_start(items, hay, off);
            let end = rows::record_end(items, hay, rec);
            &&& 0 <= rec <= off < end <= hay.len()
            &&& rec == 0 || all.contains(rec)
            &&& end == hay.len() || all.contains(end)
            &&& forall|i: int| 0 <= i < all.len() ==> !(rec < #[trigger] all[i] < end)
        }),
{
    let len = hay.len() as int;
    let all = pattern::all_matches(items, hay, 0, len);
    let rec = rows::record_start(items, hay, off);
    let end = rows::record_end(items, hay, rec);
    pattern::lemma_all_matches(items, hay, 0, len);
    lemma_records(items, hay, off);
    lemma_begins(items, hay, off);
    if exists|k: int| begins_at(all, off, rec, k) {
        let k = choose|k: int| begins_at(all, off, rec, k);
        assert(all[k] == rec);
    }
    if end < len {
        lemma_begins(items, hay, end);
        assert(exists|k: int| begins_at(all, end, end, k));
        let k = choose|k: int| begins_at(all, end, end, k);
        assert(all[k] == end);
    }
    assert forall|i: int| 0 <= i < all.len() implies !(rec < #[trigger] all[i] < end) by {
        if rec < all[i] < end {
            assert(rows::record_start(items, hay, all[i]) == rec);
            lemma_begins(items, hay, all[i]);
            assert(begins_at(all, all[i], all[i], i));
            lemma_begins_once(all, all[i], all[i], rec);
        }
    }
}

/// With one line to a record, a row is the record; wrapped, it is a full line of
/// it counted from its start, or what is left at its end.
pub proof fn law_rows_of_a_record(shape: Shape, off: int)
    requires
        shape.well_formed(),
        shape.record is Some,
        0 <= off < shape.len(),
    ensures
        ({
            let rec = rows::record_start(shape.record->0, shape.hay, off);
            let end = rows::record_end(shape.record->0, shape.hay, rec);
            let row = shape.row_at(off);
            &&& !shape.wrap ==> row.start == rec && row.start + row.len == end
            &&& shape.wrap ==> {
                &&& row.start >= rec && (row.start - rec) % shape.bpl == 0
                &&& row.start <= off < row.start + shape.bpl
                &&& row.len == shape.bpl && row.start + row.len <= end || row.len < shape.bpl
                    && row.start + row.len == end
            }
        }),
{
    rows::lemma_row_at(shape, off);
    if shape.wrap {
        law_a_wrapped_row_stays_in_its_record(shape, off);
        reveal(Shape::row_at);
        let rec = rows::record_start(shape.record->0, shape.hay, off);
        rows::lemma_floor(off - rec, shape.bpl);
        rows::lemma_record_holds(shape.record->0, shape.hay, off);
    } else {
        law_a_cut_record_is_one_row(shape, off);
    }
}

/// The neighbours of a row: the one below starts where it ends and holds the
/// byte behind it, the one above ends where it starts and holds the byte before
/// it. There is none past either end of the file.
pub proof fn law_neighbours_of_a_row(shape: Shape, off: int)
    requires
        shape.well_formed(),
        0 <= off < shape.len(),
    ensures
        ({
            let row = shape.row_at(off);
            let end = row.start + row.len;
            &&& end >= shape.len() <==> shape.row_after(row) is None
            &&& shape.row_after(row) matches Some(next) ==> next.start == end && next.len > 0
                && next == shape.row_at(end)
            &&& row.start == 0 <==> shape.row_before(row) is None
            &&& shape.row_before(row) matches Some(last) ==> last.start + last.len == row.start
                && last.len > 0 && last == shape.row_at(row.start - 1)
        }),
{
    let row = shape.row_at(off);
    rows::lemma_row_at(shape, off);
    law_rows_tile_the_file(shape, off);
    law_stepping_over_rows_and_back(shape, off);
    if let Some(next) = shape.row_after(row) {
        rows::lemma_row_at(shape, next.start);
    }
    if let Some(last) = shape.row_before(row) {
        rows::lemma_row_at(shape, row.start - 1);
        law_rows_tile_the_file(shape, row.start - 1);
        assert(last.holds(row.start - 1));
        law_the_row_after_one_starts_where_it_ends(shape, row.start - 1);
        assert(shape.row_after(last) == Some(row));
    }
}

/// A line is its row from the sideways scroll on, cut at the width of a line;
/// without cut records nothing is scrolled.
pub proof fn law_a_line_is_its_row_from_the_scroll_on(shape: Shape, row: Span, hoff: int)
    requires
        shape.well_formed(),
        0 <= row.len,
        0 <= hoff,
    ensures
        ({
            let ln = shape.clip(row, hoff);
            let cut = shape.record is Some && !shape.wrap;
            &&& !cut ==> ln.skipped == 0
            &&& cut && hoff <= row.len ==> ln.skipped == hoff
            &&& cut && hoff > row.len ==> ln.skipped == row.len
            &&& ln.off == row.start + ln.skipped
            &&& ln.len == shape.bpl || ln.len < shape.bpl && ln.hidden == 0
            &&& ln.skipped + ln.len + ln.hidden == row.len
            &&& ln.hidden >= 0
        }),
{
}

/// The view may start anywhere up to the last full screen: from there on no more
/// than a screen is left, and from a row above more would be. Never further down
/// than that, but for the anchor; with records, up to the end of the file.
pub proof fn law_the_view_stops_at_the_last_screen(shape: Shape, top: int)
    requires
        shape.well_formed(),
        shape.rows >= 1,
        0 <= top,
    ensures
        ({
            let t = shape.clamp_top(top);
            let max = shape.last_top();
            &&& t == if top <= max {
                top
            } else {
                max
            }
            &&& shape.record is Some ==> max == shape.len()
            &&& shape.record is None && max > shape.align ==> {
                &&& (max - shape.align) % shape.bpl == 0
                &&& max + shape.rows * shape.bpl >= shape.len()
                &&& max - shape.bpl + shape.rows * shape.bpl < shape.len()
            }
            &&& shape.record is None && max <= shape.align ==> {
                &&& max == shape.align || max == shape.len()
                &&& shape.align + shape.rows * shape.bpl >= shape.len()
            }
        }),
{
    reveal(Shape::last_top);
    if shape.record is None {
        let bpl = shape.bpl;
        let want = rows::above(shape.len(), shape.rows * bpl);
        assert(shape.rows * bpl >= bpl) by (nonlinear_arith)
            requires
                shape.rows >= 1,
                bpl >= 1,
        ;
        if want > shape.align {
            let x = want - shape.align + bpl - 1;
            let q = x / bpl;
            rows::lemma_floor(x, bpl);
            vstd::arithmetic::div_mod::lemma_fundamental_div_mod_converse(q * bpl, bpl, q, 0);
        }
    }
}

/// The screen starts with the row of its first byte; only behind the last record
/// there is nothing to show.
pub proof fn law_the_screen_starts_with_the_row_of_its_first_byte(shape: Shape, top: int, n: int)
    requires
        n > 0,
    ensures
        ({
            let rows = shape.screen(top, n);
            let past = shape.record is Some && shape.len() > 0 && top >= shape.len();
            &&& past ==> rows.len() == 0
            &&& !past ==> rows.len() > 0 && rows[0] == shape.row_at(top)
        }),
{
    reveal(Shape::screen);
}

} // verus!
