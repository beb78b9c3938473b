//! Rows: how a file is cut into lines.
//!
//! Everything derives from one rule: a row is a run of bytes, and the row
//! after a row starts right where it ends. The three layouts — the byte grid,
//! one record per line, a record wrapped over several — differ only in what a
//! row is.

use crate::pattern;
use crate::reader;
use vstd::prelude::*;

verus! {

/// One row of the layout: the bytes it logically holds, before the window
/// width is applied.
///
/// In the plain modes a row is `bpl` bytes of the grid. With record splitting
/// and wrapping off, a row is a whole record however long it is; with wrapping
/// on, a row is one `bpl`-sized slice of a record.
#[derive(Copy, Clone, PartialEq, Eq, Structural, Debug)]
pub struct Row {
    pub start: u64,
    pub len: u64,
}

/// A row, over mathematical integers.
pub struct Span {
    pub start: int,
    pub len: int,
}

impl Row {
    pub open spec fn span(self) -> Span {
        Span { start: self.start as int, len: self.len as int }
    }

    /// Last byte of the row, or `start` for an empty file.
    pub fn last(&self) -> (res: u64)
        requires
            self.start + self.len <= u64::MAX,
        ensures
            res == self.span().last(),
    {
        if self.len > 0 {
            self.start + (self.len - 1)
        } else {
            self.start
        }
    }
}

impl Span {
    /// Last byte of the row, or its start for an empty file.
    pub open spec fn last(self) -> int {
        if self.len > 0 {
            self.start + self.len - 1
        } else {
            self.start
        }
    }

    /// Where the row after this one starts.
    pub open spec fn next_start(self) -> int {
        if self.len > 0 {
            self.start + self.len
        } else {
            self.start + 1
        }
    }

    /// Does the row hold this byte?
    pub open spec fn holds(self, off: int) -> bool {
        self.start <= off < self.start + self.len
    }
}

/// The smaller of two numbers.
pub open spec fn least(a: int, b: int) -> int {
    if a <= b {
        a
    } else {
        b
    }
}

/// A difference, or zero where it would be negative.
pub open spec fn above(a: int, b: int) -> int {
    if a <= b {
        0
    } else {
        a - b
    }
}

// ── Records ─────────────────────────────────────────────────────────────────

/// Start of the record containing `off`: the last match that starts at or
/// before it, or the start of the file.
pub open spec fn record_start(items: Seq<Option<u8>>, hay: Seq<u8>, off: int) -> int {
    let found = reader::matches_before(items, hay, off + 1, 1);
    if found.len() > 0 {
        found[0]
    } else {
        0
    }
}

/// One past the last byte of the record starting at `rec`: where the next
/// match starts, or the end of the file. Matches do not overlap, so when the
/// record starts with one the next is looked for past its end.
pub open spec fn record_end(items: Seq<Option<u8>>, hay: Seq<u8>, rec: int) -> int {
    let from = if pattern::matches(items, hay, rec) {
        rec + items.len()
    } else {
        rec + 1
    };
    match pattern::next_match(items, hay, from, hay.len() as int) {
        Some(p) => p,
        None => hay.len() as int,
    }
}

/// A record starts at the last of the matches up to the byte.
pub proof fn lemma_record_start(items: Seq<Option<u8>>, hay: Seq<u8>, off: int)
    requires
        items.len() > 0,
        0 <= off,
    ensures
        ({
            let upto = reader::matches_upto(items, hay, off + 1);
            record_start(items, hay, off) == if upto.len() > 0 {
                upto.last()
            } else {
                0
            }
        }),
{
    let upto = reader::matches_upto(items, hay, off + 1);
    reader::lemma_upto(items, hay, off + 1);
    let found = reader::matches_before(items, hay, off + 1, 1);
    if upto.len() > 0 {
        assert(found[0] == upto.reverse()[0]);
    } else {
        assert(upto.reverse() =~= Seq::<int>::empty());
        assert(found =~= Seq::<int>::empty());
    }
}

/// Past the last of all matches there is none.
pub proof fn lemma_nothing_after(items: Seq<Option<u8>>, hay: Seq<u8>, from: int, end: int)
    requires
        items.len() > 0,
    ensures
        ({
            let m = pattern::all_matches(items, hay, from, end);
            &&& m.len() > 0 ==> forall|q: int|
                m.last() + items.len() <= q && q + items.len() <= end ==> !pattern::matches(
                    items,
                    hay,
                    q,
                )
            &&& m.len() == 0 ==> forall|q: int|
                from <= q && q + items.len() <= end ==> !pattern::matches(items, hay, q)
        }),
    decreases end + 1 - from,
{
    pattern::lemma_next_match(items, hay, from, end);
    match pattern::next_match(items, hay, from, end) {
        None => {},
        Some(p) => {
            lemma_nothing_after(items, hay, p + items.len(), end);
            let rest = pattern::all_matches(items, hay, p + items.len(), end);
            assert(pattern::all_matches(items, hay, from, end) == seq![p] + rest);
            if rest.len() > 0 {
                assert((seq![p] + rest).last() == rest.last());
            }
        },
    }
}

/// A record holds the byte it was looked up for.
pub proof fn lemma_record_holds(items: Seq<Option<u8>>, hay: Seq<u8>, off: int)
    requires
        items.len() > 0,
        0 <= off < hay.len(),
    ensures
        0 <= record_start(items, hay, off) <= off,
        off < record_end(items, hay, record_start(items, hay, off)) <= hay.len(),
        record_start(items, hay, off) == 0 || pattern::matches(
            items,
            hay,
            record_start(items, hay, off),
        ),
{
    let rec = record_start(items, hay, off);
    let stop = reader::stop_for(items, hay, off + 1);
    lemma_record_start(items, hay, off);
    pattern::lemma_all_matches(items, hay, 0, stop);
    lemma_nothing_after(items, hay, 0, stop);
    let from = if pattern::matches(items, hay, rec) {
        rec + items.len()
    } else {
        rec + 1
    };
    pattern::lemma_next_match(items, hay, from, hay.len() as int);
}

/// A record ends past its start.
pub proof fn lemma_record_end(items: Seq<Option<u8>>, hay: Seq<u8>, rec: int)
    requires
        items.len() > 0,
        0 <= rec < hay.len(),
    ensures
        rec < record_end(items, hay, rec) <= hay.len(),
{
    let from = if pattern::matches(items, hay, rec) {
        rec + items.len()
    } else {
        rec + 1
    };
    pattern::lemma_next_match(items, hay, from, hay.len() as int);
}

// ── Layout geometry ─────────────────────────────────────────────────────────

/// All that the rows of a file depend on.
pub struct Shape {
    /// The bytes of the file.
    pub hay: Seq<u8>,
    /// The bytes a record starts with, if lines are records.
    pub record: Option<Seq<Option<u8>>>,
    /// Does a long record take up several rows?
    pub wrap: bool,
    /// Bytes per row, at least one.
    pub bpl: int,
    /// Where the byte grid is anchored.
    pub align: int,
    /// How many rows the screen has.
    pub rows: int,
}

/// What a row shows on screen.
pub struct Clip {
    /// First byte drawn.
    pub off: int,
    /// How many bytes are drawn.
    pub len: int,
    /// Bytes of the row scrolled off to the left.
    pub skipped: int,
    /// Bytes of the row that did not fit on the right.
    pub hidden: int,
}

impl Shape {
    pub open spec fn well_formed(self) -> bool {
        &&& self.bpl >= 1
        &&& self.align >= 0
        &&& self.rows >= 0
        &&& self.record matches Some(items) ==> items.len() > 0
    }

    /// Length of the file.
    pub open spec fn len(self) -> int {
        self.hay.len() as int
    }

    /// The row that contains `off`; past the end, the last one.
    #[verifier::opaque]
    pub open spec fn row_at(self, off: int) -> Span {
        let at = least(off, above(self.len(), 1));
        match self.record {
            None => {
                // Below the anchor sits one short row: the bytes the view was
                // shifted past still have to live somewhere.
                let start = if at < self.align {
                    0
                } else {
                    self.align + ((at - self.align) / self.bpl) * self.bpl
                };
                let full = if start < self.align {
                    self.align
                } else {
                    self.bpl
                };
                Span { start, len: least(full, above(self.len(), start)) }
            },
            Some(items) => {
                let rec = record_start(items, self.hay, at);
                let end = record_end(items, self.hay, rec);
                if self.wrap {
                    let start = rec + ((at - rec) / self.bpl) * self.bpl;
                    Span { start, len: least(self.bpl, above(end, start)) }
                } else {
                    Span { start: rec, len: above(end, rec) }
                }
            },
        }
    }

    /// The row that follows, if there is one.
    pub open spec fn row_after(self, row: Span) -> Option<Span> {
        if row.next_start() >= self.len() {
            None
        } else {
            Some(self.row_at(row.next_start()))
        }
    }

    /// The row in front, if there is one.
    pub open spec fn row_before(self, row: Span) -> Option<Span> {
        if row.start == 0 {
            None
        } else {
            Some(self.row_at(row.start - 1))
        }
    }

    /// The row on the given side, if there is one.
    pub open spec fn neighbour(self, row: Span, down: bool) -> Option<Span> {
        if down {
            self.row_after(row)
        } else {
            self.row_before(row)
        }
    }

    /// A row and those that follow it, `n` at most.
    pub open spec fn rows_from(self, row: Span, n: int) -> Seq<Span>
        decreases n,
    {
        if n <= 0 {
            seq![]
        } else {
            seq![row] + match self.row_after(row) {
                Some(next) => self.rows_from(next, n - 1),
                None => seq![],
            }
        }
    }

    /// The same laid out in one pass, where rows are records or parts of them:
    /// the rows from `at` on, in a record that ends at `end`.
    pub open spec fn record_rows(self, items: Seq<Option<u8>>, at: int, end: int, n: int) -> Seq<
        Span,
    >
        decreases n,
    {
        if n <= 0 {
            seq![]
        } else {
            let take = if self.wrap {
                least(self.bpl, end - at)
            } else {
                end - at
            };
            seq![Span { start: at, len: take }] + if at + take < end {
                self.record_rows(items, at + take, end, n - 1)
            } else if end < self.len() {
                self.record_rows(items, end, record_end(items, self.hay, end), n - 1)
            } else {
                seq![]
            }
        }
    }

    /// The first `n` rows of a screen whose first row is that of `top`. Past the
    /// last record there is nothing to show.
    #[verifier::opaque]
    pub open spec fn screen(self, top: int, n: int) -> Seq<Span> {
        if self.record is Some && 0 < self.len() <= top {
            seq![]
        } else {
            self.rows_from(self.row_at(top), n)
        }
    }

    /// A row clipped to the window: scrolled sideways by `hoff`, and cut where
    /// it still does not fit.
    pub open spec fn clip(self, row: Span, hoff: int) -> Clip {
        let skipped = if self.record is Some && !self.wrap {
            least(hoff, row.len)
        } else {
            0
        };
        let shown = least(row.len - skipped, self.bpl);
        Clip {
            off: row.start + skipped,
            len: shown,
            skipped,
            hidden: row.len - skipped - shown,
        }
    }

    /// The last place the view may start at: in the plain modes the last full
    /// screen, and never below the anchor itself.
    #[verifier::opaque]
    pub open spec fn last_top(self) -> int {
        if self.record is Some {
            self.len()
        } else {
            let want = above(self.len(), self.rows * self.bpl);
            if want <= self.align {
                least(self.align, self.len())
            } else {
                // the first row start that leaves no more than a screen
                self.align + ((want - self.align + self.bpl - 1) / self.bpl) * self.bpl
            }
        }
    }

    /// The view kept from running off the end.
    pub open spec fn clamp_top(self, top: int) -> int {
        least(top, self.last_top())
    }

    /// The start of the row `n` rows away, or as far as there are rows.
    pub open spec fn far_row(self, top: int, n: int, down: bool) -> int
        decreases n,
    {
        if n <= 0 {
            top
        } else {
            match self.neighbour(self.row_at(top), down) {
                Some(r) => self.far_row(r.start, n - 1, down),
                None => top,
            }
        }
    }

    /// The view scrolled by whole rows.
    pub open spec fn scroll(self, top: int, n: int, down: bool) -> int {
        self.clamp_top(self.far_row(top, n, down))
    }

    /// Is the byte on one of the rows of the screen?
    pub open spec fn on_screen(self, top: int, cur: int) -> bool {
        let rows = self.screen(top, self.rows);
        &&& rows.len() > 0
        &&& rows.first().start <= cur < rows.last().next_start()
    }

    /// The view brought to the cursor: nudged a row at a time, `tries` times at
    /// most, and then put where the cursor's row starts.
    pub open spec fn follow(self, top: int, cur: int, tries: int) -> int
        decreases tries,
    {
        let rows = self.screen(top, self.rows);
        if tries <= 0 || rows.len() == 0 {
            self.clamp_top(self.row_at(cur).start)
        } else if cur < rows.first().start {
            self.follow(self.scroll(top, 1, false), cur, tries - 1)
        } else if cur >= rows.last().next_start() {
            self.follow(self.scroll(top, 1, true), cur, tries - 1)
        } else {
            top
        }
    }

    /// How far rows can be scrolled sideways with a byte of the cursor's row
    /// still shown.
    pub open spec fn most_hoff(self, cur: int) -> int {
        above(self.row_at(cur).len, 1)
    }

    /// The sideways scroll that keeps the cursor inside its row's window.
    pub open spec fn fix_hoff(self, cur: int, hoff: int) -> int {
        if self.record is None || self.wrap {
            0
        } else {
            let rel = cur - self.row_at(cur).start;
            if rel < hoff {
                rel
            } else if rel >= hoff + self.bpl {
                rel - self.bpl + 1
            } else {
                hoff
            }
        }
    }

    /// The cursor moved by rows, keeping its column where the row is long
    /// enough to have one. On the first or last row it goes to the far end.
    pub open spec fn walk(self, cur: int, n: int, down: bool) -> int
        decreases n,
    {
        if n <= 0 {
            cur
        } else {
            let row = self.row_at(cur);
            match self.neighbour(row, down) {
                Some(r) => self.walk(least(r.start + (cur - row.start), r.last()), n - 1, down),
                None => if down {
                    row.last()
                } else {
                    0
                },
            }
        }
    }
}

/// Rows lie inside the file.
pub proof fn lemma_row_at(shape: Shape, off: int)
    requires
        shape.well_formed(),
        0 <= off,
    ensures
        ({
            let row = shape.row_at(off);
            &&& 0 <= row.start <= off
            &&& 0 <= row.len
            &&& row.start + row.len <= shape.len()
            &&& shape.len() > 0 ==> row.holds(least(off, shape.len() - 1))
            &&& shape.len() == 0 ==> row == Span { start: 0, len: 0 }
        }),
{
    reveal(Shape::row_at);
    let at = least(off, above(shape.len(), 1));
    let bpl = shape.bpl;
    match shape.record {
        None => {
            if at >= shape.align {
                lemma_floor(at - shape.align, bpl);
            }
        },
        Some(items) => {
            if shape.len() > 0 {
                lemma_record_holds(items, shape.hay, at);
                let rec = record_start(items, shape.hay, at);
                lemma_floor(at - rec, bpl);
            } else {
                lemma_record_start(items, shape.hay, 0);
                pattern::lemma_all_matches(items, shape.hay, 0, 0);
                lemma_floor(0, bpl);
                assert(record_end(items, shape.hay, 0) == 0);
            }
        },
    }
}

/// Past the end, every offset stands for the last byte.
pub proof fn lemma_past_the_end(shape: Shape, a: int, b: int)
    requires
        a >= above(shape.len(), 1),
        b >= above(shape.len(), 1),
    ensures
        shape.row_at(a) == shape.row_at(b),
{
    reveal(Shape::row_at);
}

/// Rounding down to a multiple.
pub proof fn lemma_floor(x: int, m: int)
    requires
        0 <= x,
        m >= 1,
    ensures
        0 <= (x / m) * m <= x < (x / m) * m + m,
{
    assert(0 <= (x / m) * m <= x < (x / m) * m + m) by (nonlinear_arith)
        requires
            0 <= x,
            m >= 1,
    ;
}

} // verus!
