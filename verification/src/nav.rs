//! Navigation: the cursor moves and the view follows it.

use crate::app::{self, App};
use crate::model::Model;
use crate::rows;
use crate::rows::{Row, Shape};
use vstd::prelude::*;

verus! {

/// A product of two 64-bit numbers fits 128 bits.
proof fn lemma_product(a: int, b: int)
    requires
        0 <= a <= u64::MAX,
        0 <= b <= u64::MAX,
    ensures
        0 <= a * b <= u64::MAX * u64::MAX,
{
    assert(0 <= a * b <= u64::MAX * u64::MAX) by (nonlinear_arith)
        requires
            0 <= a <= u64::MAX,
            0 <= b <= u64::MAX,
    ;
}

impl<E, F: Fn(u64, u64) -> Result<Vec<u8>, E>> App<F> {
    /// What a navigation key leaves as it is.
    pub open spec fn same_file(&self, other: &Self) -> bool {
        &&& self.reader == other.reader
        &&& self.record == other.record
        &&& self.name == other.name
    }

    /// The same file is seen whatever the position.
    pub proof fn lemma_sees(now: &Self, before: &Self)
        requires
            now.same_file(before),
        ensures
            forall|hay: Seq<u8>| #[trigger] before.sees(hay) ==> now.sees(hay),
    {
    }

    /// Keep a view position from running off the end. In the plain modes it
    /// stops at the last full screen: otherwise a jump near the end would leave
    /// a mostly empty screen and the next key would snap backwards.
    fn clamped(&self, top: u64) -> (res: u64)
        ensures
            forall|hay: Seq<u8>|
                hay.len() == self.reader.size() ==> res == #[trigger] self.shape(hay).clamp_top(
                    top as int,
                ),
    {
        proof {
            reveal(Shape::last_top);
        }
        let len: u64 = self.reader.len();
        if self.record.is_some() {
            return if top < len {
                top
            } else {
                len
            };
        }
        let bpl: u128 = self.bpl64() as u128;
        let align: u128 = self.align as u128;
        let rows: u128 = self.rows as u128;
        proof {
            lemma_product(rows as int, bpl as int);
        }
        let screen: u128 = rows * bpl;
        let want: u128 = if len as u128 > screen {
            len as u128 - screen
        } else {
            0
        };
        // Rounded up to a row start, so that the end of the file still fits,
        // and never below the anchor itself: a file that fits on one screen
        // would otherwise undo the slide immediately.
        let max: u128 = if want <= align {
            if align < len as u128 {
                align
            } else {
                len as u128
            }
        } else {
            proof {
                rows::lemma_floor(want - align + bpl - 1, bpl as int);
            }
            align + ((want - align + bpl - 1) / bpl) * bpl
        };
        if (top as u128) < max {
            top
        } else {
            max as u64
        }
    }

    /// Keep `top` from running off the end.
    pub fn clamp_top(&mut self)
        ensures
            final(self).same_file(old(self)),
            forall|hay: Seq<u8>|
                hay.len() == old(self).reader.size() ==> final(self).model() == (Model {
                    top: (#[trigger] old(self).shape(hay)).clamp_top(old(self).top as int),
                    ..old(self).model()
                }),
    {
        self.top = self.clamped(self.top);
    }

    /// The start of the row `n` rows away from `top`, kept from running off
    /// the end.
    fn scrolled(&self, top: u64, n: usize, down: bool) -> (res: Result<u64, E>)
        requires
            self.well_formed(),
        ensures
            forall|hay: Seq<u8>| #[trigger]
                self.sees(hay) ==> (res matches Ok(t) ==> t == self.shape(hay).scroll(
                    top as int,
                    n as int,
                    down,
                )),
            self.record is None ==> res is Ok,
            res matches Err(e) ==> self.reader.fails_with(e),
    {
        let mut at: u64 = top;
        let mut left: usize = n;
        while left > 0
            invariant
                self.well_formed(),
                forall|hay: Seq<u8>| #[trigger]
                    self.sees(hay) ==> self.shape(hay).far_row(top as int, n as int, down)
                        == self.shape(hay).far_row(at as int, left as int, down),
            decreases left,
        {
            let row: Row = match self.row_at(at) {
                Ok(row) => row,
                Err(e) => return Err(e),
            };
            match self.neighbour(row, down) {
                Ok(Some(r)) => {
                    at = r.start;
                    left -= 1;
                },
                Ok(None) => {
                    return Ok(self.clamped(at));
                },
                Err(e) => return Err(e),
            }
        }
        Ok(self.clamped(at))
    }

    /// Scroll the view by whole rows, leaving the cursor where it is.
    pub fn scroll_rows(&mut self, n: usize, down: bool) -> (res: Result<(), E>)
        requires
            old(self).well_formed(),
        ensures
            final(self).same_file(old(self)),
            final(self).well_formed(),
            forall|hay: Seq<u8>| #[trigger]
                old(self).sees(hay) ==> (res is Ok ==> final(self).model()
                    == old(self).model().scroll_rows(hay, n as int, down)),
            old(self).record is None ==> res is Ok,
            res matches Err(e) ==> old(self).reader.fails_with(e),
    {
        match self.scrolled(self.top, n, down) {
            Ok(top) => {
                self.top = top;
                Ok(())
            },
            Err(e) => Err(e),
        }
    }

    /// Bring the cursor into view, moving the screen as little as possible.
    ///
    /// A key step only ever overshoots by a row, so nudging covers it and the
    /// screen scrolls one line at a time the way it should. Anything further
    /// out is a jump — searches, goto — and there the cursor's row goes to the
    /// top instead.
    pub fn ensure_visible(&mut self) -> (res: Result<(), E>)
        requires
            old(self).well_formed(),
        ensures
            final(self).same_file(old(self)),
            final(self).well_formed(),
            forall|hay: Seq<u8>| #[trigger]
                old(self).sees(hay) ==> (res is Ok ==> final(self).model()
                    == old(self).model().ensure_visible(hay)),
            old(self).record is None ==> res is Ok,
            res matches Err(e) ==> old(self).reader.fails_with(e),
    {
        self.follow_cursor()?;
        self.held = false;
        proof {
            Self::lemma_sees(self, old(self));
        }
        self.fix_hoff()
    }

    /// Settle the view although the cursor did not move: the rows may lie
    /// elsewhere now. A sideways scroll set by hand stays, as far as the
    /// cursor's row reaches.
    pub fn settle(&mut self) -> (res: Result<(), E>)
        requires
            old(self).well_formed(),
        ensures
            final(self).same_file(old(self)),
            final(self).well_formed(),
            forall|hay: Seq<u8>| #[trigger]
                old(self).sees(hay) ==> (res is Ok ==> final(self).model()
                    == old(self).model().settle(hay)),
            old(self).record is None ==> res is Ok,
            res matches Err(e) ==> old(self).reader.fails_with(e),
    {
        let len: u64 = self.reader.len();
        let inside: bool = self.cur < len || self.cur == 0;
        if self.held && self.record.is_some() && !self.wrap && inside {
            self.follow_cursor()?;
            proof {
                Self::lemma_sees(self, old(self));
            }
            let row: Row = self.row_at(self.cur)?;
            let most: u64 = row.last() - row.start;
            if self.hoff > most {
                self.hoff = most;
            }
            Ok(())
        } else {
            self.ensure_visible()
        }
    }

    /// Pull the cursor inside the file and bring its row into view.
    fn follow_cursor(&mut self) -> (res: Result<(), E>)
        requires
            old(self).well_formed(),
        ensures
            final(self).same_file(old(self)),
            final(self).well_formed(),
            forall|hay: Seq<u8>| #[trigger]
                old(self).sees(hay) ==> (res is Ok ==> final(self).model() == (Model {
                    hoff: old(self).hoff as int,
                    held: old(self).held,
                    ..old(self).model().ensure_visible(hay)
                })),
            old(self).record is None ==> res is Ok,
            res matches Err(e) ==> old(self).reader.fails_with(e),
    {
        let len: u64 = self.reader.len();
        let last: u64 = if len > 0 {
            len - 1
        } else {
            0
        };
        let cur: u64 = if self.cur < last {
            self.cur
        } else {
            last
        };
        let mut top: u64 = self.clamped(self.top);
        let mut tries: u8 = 3;
        let mut settled: bool = false;
        while tries > 0 && !settled
            invariant
                self.well_formed(),
                *self == *old(self),
                forall|hay: Seq<u8>| #[trigger]
                    self.sees(hay) ==> {
                        let shape = self.shape(hay);
                        let goal = shape.follow(shape.clamp_top(self.top as int), cur as int, 3);
                        &&& settled ==> goal == top
                        &&& !settled ==> goal == shape.follow(top as int, cur as int, tries as int)
                    },
            decreases tries + if settled { 0int } else { 1int },
        {
            let rows = match self.rows_at(top, self.rows) {
                Ok(rows) => rows,
                Err(e) => return Err(e),
            };
            assert(app::spans(rows@).len() == rows@.len());
            if rows.len() == 0 {
                tries = 0;
            } else {
                let first: Row = rows[0];
                let end: Row = rows[rows.len() - 1];
                assert(app::spans(rows@).first() == first.span());
                assert(app::spans(rows@).last() == end.span());
                if cur < first.start {
                    match self.scrolled(top, 1, false) {
                        Ok(t) => {
                            top = t;
                        },
                        Err(e) => return Err(e),
                    }
                    tries -= 1;
                } else if cur - first.start >= 0 && (cur < end.start || cur - end.start < if end.len
                    > 0 {
                    end.len
                } else {
                    1
                }) {
                    settled = true;
                } else {
                    match self.scrolled(top, 1, true) {
                        Ok(t) => {
                            top = t;
                        },
                        Err(e) => return Err(e),
                    }
                    tries -= 1;
                }
            }
        }
        if !settled {
            let row: Row = match self.row_at(cur) {
                Ok(row) => row,
                Err(e) => return Err(e),
            };
            top = self.clamped(row.start);
        }
        self.cur = cur;
        self.top = top;
        proof {
            Self::lemma_sees(self, old(self));
        }
        Ok(())
    }

    /// Keep the cursor inside the sideways window of its row. This is what
    /// makes a long record readable without wrapping: walk the cursor right
    /// and the line follows.
    pub fn fix_hoff(&mut self) -> (res: Result<(), E>)
        requires
            old(self).well_formed(),
        ensures
            final(self).same_file(old(self)),
            final(self).well_formed(),
            forall|hay: Seq<u8>| #[trigger]
                old(self).sees(hay) ==> (res is Ok ==> final(self).model() == (Model {
                    hoff: old(self).shape(hay).fix_hoff(old(self).cur as int, old(self).hoff as int),
                    ..old(self).model()
                })),
            old(self).record is None || old(self).wrap ==> res is Ok,
            res matches Err(e) ==> old(self).reader.fails_with(e),
    {
        if self.record.is_none() || self.wrap {
            self.hoff = 0;
            return Ok(());
        }
        let bpl: u64 = self.bpl64();
        let row: Row = match self.row_at(self.cur) {
            Ok(row) => row,
            Err(e) => return Err(e),
        };
        let rel: u64 = self.cur - row.start;
        if rel < self.hoff {
            self.hoff = rel;
        } else if rel - self.hoff >= bpl {
            self.hoff = rel - bpl + 1;
        }
        Ok(())
    }

    /// Move the cursor by bytes.
    pub fn move_cursor(&mut self, delta: i64) -> (res: Result<(), E>)
        requires
            old(self).well_formed(),
        ensures
            final(self).same_file(old(self)),
            final(self).well_formed(),
            forall|hay: Seq<u8>| #[trigger]
                old(self).sees(hay) ==> (res is Ok ==> final(self).model()
                    == old(self).model().move_cursor(hay, delta as int)),
            old(self).record is None ==> res is Ok,
            res matches Err(e) ==> old(self).reader.fails_with(e),
    {
        let ghost before = self.model();
        self.cur = if delta >= 0 {
            self.cur.saturating_add(delta as u64)
        } else {
            let back: u64 = (-(delta + 1)) as u64 + 1;
            if self.cur > back {
                self.cur - back
            } else {
                0
            }
        };
        proof {
            // Where adding ran into the end of the number range, both sides
            // are past the end of the file and are pulled back alike.
            assert forall|hay: Seq<u8>| #[trigger] self.sees(hay) implies self.model().ensure_visible(
                hay,
            ) == before.move_cursor(hay, delta as int) by {
                self.reader.lemma_size();
                let there = Model {
                    cur: if before.cur + delta < 0 {
                        0
                    } else {
                        before.cur + delta
                    },
                    ..before
                };
                assert(there.shape(hay) == self.model().shape(hay));
                assert(self.model().ensure_visible(hay) =~= there.ensure_visible(hay));
            }
        }
        proof {
            Self::lemma_sees(self, old(self));
        }
        self.ensure_visible()
    }

    /// Move the cursor `n` rows, keeping its column where the next row is long
    /// enough to have one. Leaves the view alone: the callers decide whether
    /// it should follow or move with it.
    pub fn walk_cursor(&mut self, n: usize, down: bool) -> (res: Result<(), E>)
        requires
            old(self).well_formed(),
        ensures
            final(self).same_file(old(self)),
            final(self).well_formed(),
            forall|hay: Seq<u8>| #[trigger]
                old(self).sees(hay) ==> (res is Ok ==> final(self).model()
                    == old(self).model().walk_cursor(hay, n as int, down)),
            old(self).record is None ==> res is Ok,
            res matches Err(e) ==> old(self).reader.fails_with(e),
    {
        let mut cur: u64 = self.cur;
        let mut left: usize = n;
        while left > 0
            invariant
                self.well_formed(),
                *self == *old(self),
                forall|hay: Seq<u8>| #[trigger]
                    self.sees(hay) ==> self.shape(hay).walk(self.cur as int, n as int, down)
                        == self.shape(hay).walk(cur as int, left as int, down),
            decreases left,
        {
            proof {
                self.reader.lemma_size();
            }
            let row: Row = match self.row_at(cur) {
                Ok(row) => row,
                Err(e) => return Err(e),
            };
            let rel: u64 = cur - row.start;
            match self.neighbour(row, down) {
                Ok(Some(r)) => {
                    let last: u64 = r.last();
                    cur = if rel < last - r.start {
                        r.start + rel
                    } else {
                        last
                    };
                    left -= 1;
                },
                // Already on the first or last row: go to its far end rather
                // than sit still, so the key always does something.
                Ok(None) => {
                    self.cur = if down {
                        row.last()
                    } else {
                        0
                    };
                    return Ok(());
                },
                Err(e) => return Err(e),
            }
        }
        self.cur = cur;
        Ok(())
    }

    /// One row at a time: the cursor walks the screen and the view only
    /// follows once the cursor would leave it.
    pub fn step_rows(&mut self, n: usize, down: bool) -> (res: Result<(), E>)
        requires
            old(self).well_formed(),
        ensures
            final(self).same_file(old(self)),
            final(self).well_formed(),
            forall|hay: Seq<u8>| #[trigger]
                old(self).sees(hay) ==> (res is Ok ==> final(self).model()
                    == old(self).model().step_rows(hay, n as int, down)),
            old(self).record is None ==> res is Ok,
            res matches Err(e) ==> old(self).reader.fails_with(e),
    {
        self.walk_cursor(n, down)?;
        proof {
            Self::lemma_sees(self, old(self));
        }
        self.ensure_visible()
    }

    /// A page moves the view by as many rows as the cursor, so the cursor
    /// keeps its place on the screen instead of sliding to an edge. Both have
    /// to move before the view is settled, or settling the cursor first would
    /// scroll the screen and the page step would land twice as far.
    pub fn page_rows(&mut self, n: usize, down: bool) -> (res: Result<(), E>)
        requires
            old(self).well_formed(),
        ensures
            final(self).same_file(old(self)),
            final(self).well_formed(),
            forall|hay: Seq<u8>| #[trigger]
                old(self).sees(hay) ==> (res is Ok ==> final(self).model()
                    == old(self).model().page_rows(hay, n as int, down)),
            old(self).record is None ==> res is Ok,
            res matches Err(e) ==> old(self).reader.fails_with(e),
    {
        self.walk_cursor(n, down)?;
        proof {
            Self::lemma_sees(self, old(self));
        }
        self.scroll_rows(n, down)?;
        proof {
            Self::lemma_sees(self, old(self));
        }
        self.ensure_visible()
    }

    /// Jump to the start or the end of the current row — the record, in the
    /// record modes.
    pub fn go_row_edge(&mut self, end: bool) -> (res: Result<(), E>)
        requires
            old(self).well_formed(),
        ensures
            final(self).same_file(old(self)),
            final(self).well_formed(),
            forall|hay: Seq<u8>| #[trigger]
                old(self).sees(hay) ==> (res is Ok ==> final(self).model()
                    == old(self).model().go_row_edge(hay, end)),
            old(self).record is None ==> res is Ok,
            res matches Err(e) ==> old(self).reader.fails_with(e),
    {
        proof {
            self.reader.lemma_size();
        }
        let row: Row = self.row_at(self.cur)?;
        self.cur = if end {
            row.last()
        } else {
            row.start
        };
        proof {
            Self::lemma_sees(self, old(self));
        }
        self.ensure_visible()
    }

    /// Move the cursor to an offset.
    pub fn go_to(&mut self, off: u64) -> (res: Result<(), E>)
        requires
            old(self).well_formed(),
        ensures
            final(self).same_file(old(self)),
            final(self).well_formed(),
            forall|hay: Seq<u8>| #[trigger]
                old(self).sees(hay) ==> (res is Ok ==> final(self).model()
                    == old(self).model().go_to(hay, off as int)),
            old(self).record is None ==> res is Ok,
            res matches Err(e) ==> old(self).reader.fails_with(e),
    {
        self.cur = off;
        proof {
            Self::lemma_sees(self, old(self));
        }
        self.ensure_visible()
    }

    /// Move the cursor to the end of the file.
    pub fn go_end(&mut self) -> (res: Result<(), E>)
        requires
            old(self).well_formed(),
        ensures
            final(self).same_file(old(self)),
            final(self).well_formed(),
            forall|hay: Seq<u8>| #[trigger]
                old(self).sees(hay) ==> (res is Ok ==> final(self).model()
                    == old(self).model().go_end(hay)),
            old(self).record is None ==> res is Ok,
            res matches Err(e) ==> old(self).reader.fails_with(e),
    {
        let len: u64 = self.reader.len();
        self.cur = if len > 0 {
            len - 1
        } else {
            0
        };
        proof {
            Self::lemma_sees(self, old(self));
        }
        let row: Row = self.row_at(self.cur)?;
        self.top = row.start;
        // Back up a screen so the last row is the cursor's, not the only one.
        let n: usize = if self.rows > 0 {
            self.rows - 1
        } else {
            0
        };
        proof {
            Self::lemma_sees(self, old(self));
        }
        self.scroll_rows(n, false)?;
        proof {
            Self::lemma_sees(self, old(self));
        }
        self.ensure_visible()
    }

    /// Slide the byte grid sideways by one byte.
    ///
    /// This is the one movement that is not the cursor's: in the plain modes it
    /// re-anchors the grid so a structure that does not start on a line
    /// boundary can be lined up, and every line moves together. With records
    /// on a single line the grid is record-relative, so the same keys scroll
    /// the records sideways instead, without moving the cursor and no further
    /// than its record reaches.
    pub fn shift_grid(&mut self, right: bool) -> (res: Result<(), E>)
        requires
            old(self).well_formed(),
        ensures
            final(self).same_file(old(self)),
            final(self).well_formed(),
            forall|hay: Seq<u8>| #[trigger]
                old(self).sees(hay) ==> (res is Ok ==> final(self).model()
                    == old(self).model().shift_grid(hay, right)),
            old(self).record is None || old(self).wrap ==> res is Ok && forall|hay: Seq<u8>|
                hay.len() == old(self).reader.size() ==> final(self).model()
                    == #[trigger] old(self).model().shift_grid(hay, right),
            res matches Err(e) ==> old(self).reader.fails_with(e),
    {
        let ghost before = self.model();
        let bpl: u64 = self.bpl64();
        proof {
            self.reader.lemma_size();
        }
        if self.record.is_some() {
            if self.wrap {
                self.status = "Wrapped records have no sideways scroll — turn wrap off (9)".to_string();
                return Ok(());
            }
            let row: Row = self.row_at(self.cur)?;
            let most: u64 = row.last() - row.start;
            let hoff: u64 = if right {
                self.hoff.saturating_add(1)
            } else if self.hoff > 0 {
                self.hoff - 1
            } else {
                0
            };
            self.hoff = if hoff < most {
                hoff
            } else {
                most
            };
            self.held = true;
            return Ok(());
        }
        proof {
            lemma_slide(self.align as int, bpl as int);
        }
        let a: u64 = self.align % bpl;
        self.align = if right {
            if a + 1 == bpl {
                0
            } else {
                a + 1
            }
        } else if a == 0 {
            bpl - 1
        } else {
            a - 1
        };
        // Slide the view along with the grid, then settle it back onto a real
        // row start so every line moves by the same byte.
        let near: u64 = if right {
            self.top.saturating_add(1)
        } else if self.top > 0 {
            self.top - 1
        } else {
            0
        };
        proof {
            Self::lemma_sees(self, old(self));
        }
        let row: Row = self.row_at(near)?;
        proof {
            assert forall|hay: Seq<u8>| #[trigger] self.sees(hay) implies row.span() == self.shape(
                hay,
            ).row_at(
                if right {
                    before.top + 1
                } else {
                    rows::above(before.top, 1)
                },
            ) by {
                if right {
                    self.reader.lemma_size();
                    if near != before.top + 1 {
                        rows::lemma_past_the_end(self.shape(hay), near as int, before.top + 1);
                    }
                }
            }
        }
        self.top = row.start;
        // The cursor points at a byte and the grid moved under it; only drag
        // it along if it fell off the top.
        if self.cur < self.top {
            self.cur = self.top;
        }
        proof {
            Self::lemma_sees(self, old(self));
        }
        let ghost put = *self;
        self.ensure_visible()?;
        proof {
            assert forall|hay: Seq<u8>| hay.len() == old(self).reader.size() implies self.model()
                == #[trigger] old(self).model().shift_grid(hay, right) by {
                assert(old(self).sees(hay));
                assert(put.sees(hay));
            }
        }
        Ok(())
    }
}

/// Stepping round a circle of `m` places.
pub proof fn lemma_slide(a: int, m: int)
    requires
        0 <= a,
        m >= 1,
    ensures
        0 <= a % m < m,
        (a + 1) % m == if a % m + 1 == m {
            0
        } else {
            a % m + 1
        },
        (a + m - 1) % m == if a % m == 0 {
            m - 1
        } else {
            a % m - 1
        },
{
    let q = a / m;
    let r = a % m;
    assert(a == q * m + r && 0 <= r < m) by (nonlinear_arith)
        requires
            q == a / m,
            r == a % m,
            m >= 1,
    ;
    if r + 1 == m {
        assert((q + 1) * m == q * m + m) by (nonlinear_arith);
        vstd::arithmetic::div_mod::lemma_fundamental_div_mod_converse(a + 1, m, q + 1, 0);
    } else {
        vstd::arithmetic::div_mod::lemma_fundamental_div_mod_converse(a + 1, m, q, r + 1);
    }
    if r == 0 {
        vstd::arithmetic::div_mod::lemma_fundamental_div_mod_converse(a + m - 1, m, q, m - 1);
    } else {
        assert((q + 1) * m == q * m + m) by (nonlinear_arith);
        vstd::arithmetic::div_mod::lemma_fundamental_div_mod_converse(a + m - 1, m, q + 1, r - 1);
    }
}

} // verus!
