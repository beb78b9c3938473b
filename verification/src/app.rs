//! The viewer: its state, and how navigation moves it.

use crate::encoding::Encoding;
use crate::laws::rows as row_laws;
use crate::model;
use crate::model::{InputModel, Model};
use crate::pattern;
use crate::pattern::Pattern;
use crate::reader;
use crate::reader::FileWindow;
use crate::rows;
use crate::rows::{Clip, Row, Shape, Span};
use crate::view;
use crate::view::Mode;
use vstd::prelude::*;

verus! {

/// What the user is typing into.
#[derive(Debug)]
pub enum Input {
    Normal,
    Goto(String),
    Search(String),
    Record(String),
}

impl Input {
    pub open spec fn model(self) -> InputModel {
        match self {
            Input::Normal => InputModel::Normal,
            Input::Goto(s) => InputModel::Goto(s@),
            Input::Search(s) => InputModel::Search(s@),
            Input::Record(s) => InputModel::Record(s@),
        }
    }
}

/// A row clipped to the window: what actually gets drawn.
#[derive(Debug)]
pub struct Line {
    /// First byte drawn.
    pub off: u64,
    /// How many bytes are drawn.
    pub len: usize,
    /// Bytes of the row scrolled off to the left.
    pub skipped: u64,
    /// Bytes of the row that did not fit on the right.
    pub hidden: u64,
}

impl Line {
    pub open spec fn model(self) -> Clip {
        Clip {
            off: self.off as int,
            len: self.len as int,
            skipped: self.skipped as int,
            hidden: self.hidden as int,
        }
    }
}

/// The viewer over a file read through `F`.
pub struct App<F> {
    pub reader: FileWindow<F>,
    pub name: String,
    pub mode: Mode,
    /// Code page used for the text cells, and for encoding text typed into the
    /// search and record prompts.
    pub enc: Encoding,
    /// Where the view starts: in the first row on screen, and at its start but
    /// for the moment when the rows moved under it.
    pub top: u64,
    /// Where the byte grid is anchored, 0..bpl. Sliding the view sideways in
    /// the plain modes moves this off zero, which is how a structure that does
    /// not start on a line boundary gets lined up. It is state of its own
    /// rather than `top % bpl`: `top` moves for all sorts of reasons, and the
    /// anchor has to survive every one of them.
    pub align: u64,
    /// The byte the cursor sits on. This is what navigation moves — the view
    /// follows it instead of being steered directly, so lines never slide out
    /// from under each other.
    pub cur: u64,
    /// Bytes of each record scrolled off to the left. Only meaningful for
    /// records shown on a single line; wrapping makes it pointless.
    pub hoff: u64,
    /// The records were scrolled sideways by hand. The view then leaves `hoff`
    /// alone until the cursor moves, as far as its record reaches.
    pub held: bool,
    /// Wrap a long record onto as many lines as it needs, instead of cutting
    /// it at the window edge.
    pub wrap: bool,
    /// A line width the user asked for, in bytes. `None` fills the window.
    pub fixed_bpl: Option<usize>,
    /// The widest line the window can hold right now — the ceiling the line
    /// width keys stop at. Measured by the last frame.
    pub fit_bpl: usize,
    pub input: Input,
    pub status: String,
    /// What we search for and what we highlight.
    pub needle: Option<Pattern>,
    /// Record start pattern. When set, a row is a record and row length
    /// becomes variable.
    pub record: Option<Pattern>,
    pub highlight: bool,
    /// Geometry of the last frame. Key handling runs right after a draw, so
    /// these are the numbers the user is actually looking at.
    pub rows: usize,
    pub bpl: usize,
}

/// Rows over mathematical integers.
pub open spec fn spans(v: Seq<Row>) -> Seq<Span> {
    v.map_values(|r: Row| r.span())
}

impl<E, F: Fn(u64, u64) -> Result<Vec<u8>, E>> App<F> {
    /// Can the viewer work at all: the file can be read, and the number of
    /// rows leaves room to count one more.
    pub open spec fn well_formed(&self) -> bool {
        &&& self.reader.ready()
        &&& self.rows < usize::MAX
    }

    /// Is `hay` the file on screen? Without records the rows depend on its
    /// length alone.
    pub open spec fn sees(&self, hay: Seq<u8>) -> bool {
        &&& hay.len() == self.reader.size()
        &&& self.record is Some ==> self.reader.shows(hay)
    }

    /// The state of the viewer.
    pub open spec fn model(&self) -> Model {
        Model {
            mode: self.mode,
            enc: self.enc,
            top: self.top as int,
            align: self.align as int,
            cur: self.cur as int,
            hoff: self.hoff as int,
            held: self.held,
            wrap: self.wrap,
            fixed_bpl: view::choice(self.fixed_bpl),
            fit_bpl: self.fit_bpl as int,
            input: self.input.model(),
            status: self.status@,
            needle: model::pattern_model(self.needle),
            record: model::pattern_model(self.record),
            highlight: self.highlight,
            rows: self.rows as int,
            bpl: self.bpl as int,
        }
    }

    /// What the rows of a file depend on.
    pub open spec fn shape(&self, hay: Seq<u8>) -> Shape {
        self.model().shape(hay)
    }

    /// The viewer as it starts out: hex, ASCII, at the start of the file.
    pub fn new(name: String, reader: FileWindow<F>) -> (res: Self)
        ensures
            res.reader == reader,
            res.name == name,
            res.well_formed() == reader.ready(),
            res.model() == (Model {
                mode: Mode::Hex,
                enc: Encoding::Ascii,
                top: 0,
                align: 0,
                cur: 0,
                hoff: 0,
                held: false,
                wrap: false,
                fixed_bpl: None,
                fit_bpl: 16,
                input: InputModel::Normal,
                status: Seq::empty(),
                needle: None,
                record: None,
                highlight: true,
                rows: 1,
                bpl: 16,
            }),
    {
        Self {
            reader,
            name,
            mode: Mode::Hex,
            enc: Encoding::Ascii,
            top: 0,
            align: 0,
            cur: 0,
            hoff: 0,
            held: false,
            wrap: false,
            fixed_bpl: None,
            fit_bpl: 16,
            input: Input::Normal,
            status: String::new(),
            needle: None,
            record: None,
            highlight: true,
            rows: 1,
            bpl: 16,
        }
    }

    // ── Layout geometry ─────────────────────────────────────────────────────

    pub fn bpl64(&self) -> (res: u64)
        ensures
            res == self.model().row_bytes(),
            1 <= res,
            res <= usize::MAX,
    {
        if self.bpl >= 1 {
            self.bpl as u64
        } else {
            1
        }
    }

    /// Start of the record containing `off`.
    pub fn record_start(&self, off: u64) -> (res: Result<u64, E>)
        requires
            self.well_formed(),
        ensures
            res matches Ok(rec) ==> rec <= off,
            self.record is None ==> res == Ok::<u64, E>(off),
            forall|hay: Seq<u8>| #[trigger]
                self.sees(hay) && self.record is Some ==> (res matches Ok(rec) ==> rec
                    == rows::record_start(self.record->0.items(), hay, off as int)),
            res matches Err(e) ==> self.reader.fails_with(e),
    {
        let pat = match self.record.as_ref() {
            Some(p) => p,
            None => return Ok(off),
        };
        let _plen: usize = pat.len();
        let found = match self.reader.find_backward(off.saturating_add(1), pat, 1) {
            Ok(found) => found,
            Err(e) => return Err(e),
        };
        proof {
            if found@.len() > 0 {
                assert(reader::offsets(found@)[0] == found@[0]);
            }
            assert(reader::offsets(found@).len() == found@.len());
            assert forall|hay: Seq<u8>| #[trigger] self.sees(hay) implies reader::offsets(found@)
                == reader::matches_before(pat.items(), hay, off + 1, 1) by {
                self.reader.lemma_shows(hay);
                // past the last offset there is no byte to match
                if off == u64::MAX {
                    reader::lemma_past_the_end(pat.items(), hay, off as int, off + 1, 1);
                }
            }
        }
        if found.len() > 0 {
            Ok(found[0])
        } else {
            Ok(0)
        }
    }

    /// One past the last byte of the record starting at `rec`.
    pub fn record_end(&self, rec: u64) -> (res: Result<u64, E>)
        requires
            self.well_formed(),
        ensures
            res matches Ok(end) ==> end <= self.reader.size(),
            self.record is None ==> (res matches Ok(end) && end == self.reader.size()),
            forall|hay: Seq<u8>| #[trigger]
                self.sees(hay) && self.record is Some ==> (res matches Ok(end) ==> end
                    == rows::record_end(self.record->0.items(), hay, rec as int)),
            res matches Err(e) ==> self.reader.fails_with(e),
    {
        let len: u64 = self.reader.len();
        let pat = match self.record.as_ref() {
            Some(p) => p,
            None => return Ok(len),
        };
        let _plen: usize = pat.len();
        let found = match self.reader.find_forward(rec, pat, 2) {
            Ok(found) => found,
            Err(e) => return Err(e),
        };
        // A match right at the start is the one this record begins with.
        let k: usize = if found.len() > 0 && found[0] == rec {
            1
        } else {
            0
        };
        let end: u64 = if k < found.len() {
            found[k]
        } else {
            len
        };
        proof {
            assert forall|hay: Seq<u8>| #[trigger] self.sees(hay) implies end == rows::record_end(
                pat.items(),
                hay,
                rec as int,
            ) by {
                lemma_bounds(pat.items(), hay, rec as int, found@, 2);
            }
        }
        Ok(end)
    }

    /// The row that contains `off`.
    pub fn row_at(&self, off: u64) -> (res: Result<Row, E>)
        requires
            self.well_formed(),
        ensures
            res matches Ok(row) ==> row.start <= off && row.start + row.len <= self.reader.size(),
            forall|hay: Seq<u8>| #[trigger]
                self.sees(hay) ==> (res matches Ok(row) ==> row.span() == self.shape(hay).row_at(
                    off as int,
                )),
            self.record is None ==> res is Ok,
            res matches Err(e) ==> self.reader.fails_with(e),
    {
        proof {
            reveal(Shape::row_at);
        }
        let len: u64 = self.reader.len();
        let bpl: u64 = self.bpl64();
        let last: u64 = if len > 0 {
            len - 1
        } else {
            0
        };
        let at: u64 = if off < last {
            off
        } else {
            last
        };
        if self.record.is_none() {
            let align: u64 = self.align;
            proof {
                if at >= align {
                    rows::lemma_floor(at - align, bpl as int);
                }
            }
            // Below the anchor sits one short row: the bytes the view was
            // shifted past still have to live somewhere.
            let start: u64 = if at < align {
                0
            } else {
                align + ((at - align) / bpl) * bpl
            };
            let full: u64 = if start < align {
                align
            } else {
                bpl
            };
            let rest: u64 = if len > start {
                len - start
            } else {
                0
            };
            return Ok(
                Row {
                    start,
                    len: if full < rest {
                        full
                    } else {
                        rest
                    },
                },
            );
        }
        let rec: u64 = match self.record_start(at) {
            Ok(rec) => rec,
            Err(e) => return Err(e),
        };
        let end: u64 = match self.record_end(rec) {
            Ok(end) => end,
            Err(e) => return Err(e),
        };
        proof {
            rows::lemma_floor(at - rec, bpl as int);
        }
        let start: u64 = if self.wrap {
            rec + ((at - rec) / bpl) * bpl
        } else {
            rec
        };
        let rest: u64 = if end > start {
            end - start
        } else {
            0
        };
        Ok(
            Row {
                start,
                len: if self.wrap && bpl < rest {
                    bpl
                } else {
                    rest
                },
            },
        )
    }

    pub fn row_after(&self, row: Row) -> (res: Result<Option<Row>, E>)
        requires
            self.well_formed(),
        ensures
            res matches Ok(Some(r)) ==> r.start + r.len <= self.reader.size(),
            forall|hay: Seq<u8>| #[trigger]
                self.sees(hay) ==> (res matches Ok(next) ==> match next {
                    Some(r) => self.shape(hay).row_after(row.span()) == Some(r.span()),
                    None => self.shape(hay).row_after(row.span()) is None,
                }),
            self.record is None ==> res is Ok,
            res matches Err(e) ==> self.reader.fails_with(e),
    {
        let n: u64 = if row.len > 0 {
            row.len
        } else {
            1
        };
        if n >= self.reader.len() || row.start >= self.reader.len() - n {
            return Ok(None);
        }
        match self.row_at(row.start + n) {
            Ok(r) => Ok(Some(r)),
            Err(e) => Err(e),
        }
    }

    pub fn row_before(&self, row: Row) -> (res: Result<Option<Row>, E>)
        requires
            self.well_formed(),
        ensures
            res matches Ok(Some(r)) ==> r.start + r.len <= self.reader.size(),
            forall|hay: Seq<u8>| #[trigger]
                self.sees(hay) ==> (res matches Ok(next) ==> match next {
                    Some(r) => self.shape(hay).row_before(row.span()) == Some(r.span()),
                    None => self.shape(hay).row_before(row.span()) is None,
                }),
            self.record is None ==> res is Ok,
            res matches Err(e) ==> self.reader.fails_with(e),
    {
        if row.start == 0 {
            return Ok(None);
        }
        match self.row_at(row.start - 1) {
            Ok(r) => Ok(Some(r)),
            Err(e) => Err(e),
        }
    }

    pub fn neighbour(&self, row: Row, down: bool) -> (res: Result<Option<Row>, E>)
        requires
            self.well_formed(),
        ensures
            res matches Ok(Some(r)) ==> r.start + r.len <= self.reader.size(),
            forall|hay: Seq<u8>| #[trigger]
                self.sees(hay) ==> (res matches Ok(next) ==> match next {
                    Some(r) => self.shape(hay).neighbour(row.span(), down) == Some(r.span()),
                    None => self.shape(hay).neighbour(row.span(), down) is None,
                }),
            self.record is None ==> res is Ok,
            res matches Err(e) ==> self.reader.fails_with(e),
    {
        if down {
            self.row_after(row)
        } else {
            self.row_before(row)
        }
    }
}

impl<E, F: Fn(u64, u64) -> Result<Vec<u8>, E>> App<F> {
    /// The rows that fit on screen, from `top` down.
    ///
    /// The record modes collect every visible record start in one streaming
    /// pass rather than searching per row: that keeps a frame at one search no
    /// matter how tall the terminal is.
    pub fn layout_rows(&self, rows: usize) -> (res: Result<Vec<Row>, E>)
        requires
            self.well_formed(),
            rows < usize::MAX,
        ensures
            res matches Ok(v) ==> v@.len() <= rows && forall|i: int|
                0 <= i < v@.len() ==> #[trigger] v@[i].start + v@[i].len <= self.reader.size(),
            forall|hay: Seq<u8>| #[trigger]
                self.sees(hay) ==> (res matches Ok(v) ==> spans(v@) == self.shape(hay).screen(
                    self.top as int,
                    rows as int,
                )),
            self.record is None ==> res is Ok,
            res matches Err(e) ==> self.reader.fails_with(e),
    {
        self.rows_at(self.top, rows)
    }

    /// The rows that fit on a screen that starts at `top`.
    pub fn rows_at(&self, top: u64, rows: usize) -> (res: Result<Vec<Row>, E>)
        requires
            self.well_formed(),
            rows < usize::MAX,
        ensures
            res matches Ok(v) ==> v@.len() <= rows && forall|i: int|
                0 <= i < v@.len() ==> #[trigger] v@[i].start + v@[i].len <= self.reader.size(),
            forall|hay: Seq<u8>| #[trigger]
                self.sees(hay) ==> (res matches Ok(v) ==> spans(v@) == self.shape(hay).screen(
                    top as int,
                    rows as int,
                )),
            self.record is None ==> res is Ok,
            res matches Err(e) ==> self.reader.fails_with(e),
    {
        proof {
            reveal(Shape::screen);
        }
        if rows == 0 {
            let none: Vec<Row> = Vec::new();
            assert(spans(none@) =~= Seq::<Span>::empty());
            return Ok(none);
        }
        if self.record.is_none() {
            self.grid_rows(top, rows)
        } else {
            self.record_rows(top, rows)
        }
    }

    fn grid_rows(&self, top: u64, rows: usize) -> (res: Result<Vec<Row>, E>)
        requires
            self.well_formed(),
            0 < rows < usize::MAX,
            self.record is None,
        ensures
            res matches Ok(v) ==> v@.len() <= rows && forall|i: int|
                0 <= i < v@.len() ==> #[trigger] v@[i].start + v@[i].len <= self.reader.size(),
            forall|hay: Seq<u8>| #[trigger]
                self.sees(hay) ==> (res matches Ok(v) ==> spans(v@) == self.shape(hay).screen(
                    top as int,
                    rows as int,
                )),
            res is Ok,
            res matches Err(e) ==> self.reader.fails_with(e),
    {
        let mut out: Vec<Row> = Vec::new();
        let mut row: Row = match self.row_at(top) {
            Ok(row) => row,
            Err(e) => return Err(e),
        };
        proof {
            reveal(Shape::screen);
            assert forall|hay: Seq<u8>| #[trigger] self.sees(hay) implies self.shape(hay).screen(
                top as int,
                rows as int,
            ) == spans(out@) + self.shape(hay).rows_from(row.span(), rows - out@.len()) by {
                assert(spans(out@) =~= Seq::<Span>::empty());
                assert(Seq::<Span>::empty() + self.shape(hay).rows_from(row.span(), rows as int)
                    =~= self.shape(hay).rows_from(row.span(), rows as int));
            }
        }
        while out.len() < rows
            invariant
                self.well_formed(),
                self.record is None,
                out@.len() <= rows,
                rows < usize::MAX,
                row.start + row.len <= self.reader.size(),
                forall|i: int|
                    0 <= i < out@.len() ==> #[trigger] out@[i].start + out@[i].len
                        <= self.reader.size(),
                forall|hay: Seq<u8>| #[trigger]
                    self.sees(hay) ==> self.shape(hay).screen(top as int, rows as int) == spans(
                        out@,
                    ) + self.shape(hay).rows_from(row.span(), rows - out@.len()),
            decreases rows - out.len(),
        {
            let ghost before = out@;
            let this: Row = row;
            out.push(row);
            assert(spans(out@) =~= spans(before).push(this.span()));
            match self.row_after(row) {
                Ok(Some(next)) => {
                    row = next;
                    proof {
                        assert forall|hay: Seq<u8>| #[trigger] self.sees(hay) implies self.shape(
                            hay,
                        ).screen(top as int, rows as int) == spans(out@) + self.shape(
                            hay,
                        ).rows_from(row.span(), rows - out@.len()) by {
                            let rest = self.shape(hay).rows_from(row.span(), rows - out@.len());
                            assert(spans(before) + (seq![this.span()] + rest) =~= spans(out@) + rest);
                        }
                    }
                },
                Ok(None) => {
                    proof {
                        assert forall|hay: Seq<u8>| #[trigger] self.sees(hay) implies self.shape(
                            hay,
                        ).screen(top as int, rows as int) == spans(out@) by {
                            assert(spans(before) + (seq![this.span()] + Seq::<Span>::empty())
                                =~= spans(out@));
                        }
                    }
                    return Ok(out);
                },
                Err(e) => return Err(e),
            }
        }
        proof {
            assert forall|hay: Seq<u8>| #[trigger] self.sees(hay) implies self.shape(hay).screen(
                top as int,
                rows as int,
            ) == spans(out@) by {
                assert(spans(out@) + Seq::<Span>::empty() =~= spans(out@));
            }
        }
        Ok(out)
    }

    fn record_rows(&self, top: u64, rows: usize) -> (res: Result<Vec<Row>, E>)
        requires
            self.well_formed(),
            0 < rows < usize::MAX,
            self.record is Some,
        ensures
            res matches Ok(v) ==> v@.len() <= rows && forall|i: int|
                0 <= i < v@.len() ==> #[trigger] v@[i].start + v@[i].len <= self.reader.size(),
            forall|hay: Seq<u8>| #[trigger]
                self.sees(hay) ==> (res matches Ok(v) ==> spans(v@) == self.shape(hay).screen(
                    top as int,
                    rows as int,
                )),
            res matches Err(e) ==> self.reader.fails_with(e),
    {
        proof {
            reveal(Shape::screen);
        }
        let len: u64 = self.reader.len();
        let bpl: u64 = self.bpl64();
        let mut out: Vec<Row> = Vec::new();
        let pat = match self.record.as_ref() {
            Some(p) => p,
            None => return Ok(out),
        };
        let _plen: usize = pat.len();
        let ghost items = pat.items();
        if len == 0 {
            out.push(Row { start: 0, len: 0 });
            proof {
                assert(spans(out@) =~= seq![Span { start: 0, len: 0 }]);
                assert forall|hay: Seq<u8>| #[trigger] self.sees(hay) implies spans(out@)
                    == self.shape(hay).screen(top as int, rows as int) by {
                    rows::lemma_row_at(self.shape(hay), top as int);
                    assert(self.shape(hay).rows_from(Span { start: 0, len: 0 }, rows as int)
                        =~= seq![Span { start: 0, len: 0 }]);
                }
            }
            return Ok(out);
        }
        if top >= len {
            assert(spans(out@) =~= Seq::<Span>::empty());
            return Ok(out);
        }
        // The top lies in a row, and that row in a record.
        let rec: u64 = match self.record_start(top) {
            Ok(rec) => rec,
            Err(e) => return Err(e),
        };
        let found = match self.reader.find_forward(rec, pat, rows + 1) {
            Ok(found) => found,
            Err(e) => return Err(e),
        };
        // A match right at its start is the one this record begins with.
        let mut k: usize = if found.len() > 0 && found[0] == rec {
            1
        } else {
            0
        };
        proof {
            rows::lemma_floor(top - rec, bpl as int);
        }
        let mut at: u64 = if self.wrap {
            rec + ((top - rec) / bpl) * bpl
        } else {
            rec
        };
        let next: u64 = if k < found.len() {
            found[k]
        } else {
            len
        };
        let mut end: u64 = if next > at {
            next
        } else {
            at
        };
        proof {
            assert forall|hay: Seq<u8>| #[trigger] self.sees(hay) implies {
                &&& at < end
                &&& k < found@.len() ==> end == found@[k as int]
                &&& k >= found@.len() ==> end == len
                &&& self.shape(hay).screen(top as int, rows as int) == spans(out@) + self.shape(
                    hay,
                ).record_rows(items, at as int, end as int, rows - out@.len())
            } by {
                let shape = self.shape(hay);
                lemma_bounds(items, hay, rec as int, found@, rows + 1);
                rows::lemma_record_holds(items, hay, top as int);
                assert(shape.row_at(top as int).start == at) by {
                    reveal(Shape::row_at);
                }
                row_laws::law_rows_tile_the_file(shape, top as int);
                row_laws::lemma_records(items, hay, top as int);
                row_laws::lemma_record_rows(shape, items, at as int, rows as int);
                assert(shape.row_at(top as int).holds(at as int));
                assert(spans(out@) =~= Seq::<Span>::empty());
                assert(Seq::<Span>::empty() + self.shape(hay).record_rows(
                    items,
                    at as int,
                    end as int,
                    rows as int,
                ) =~= self.shape(hay).record_rows(items, at as int, end as int, rows as int));
            }
        }
        while out.len() < rows
            invariant
                self.well_formed(),
                self.record == Some(*pat),
                items == pat.items(),
                items.len() > 0,
                len == self.reader.size(),
                bpl == self.model().row_bytes(),
                out@.len() <= rows,
                rows < usize::MAX,
                at <= end <= len,
                k <= found@.len(),
                k <= out@.len() + 1,
                forall|i: int| 0 <= i < found@.len() ==> rec <= #[trigger] found@[i] < len,
                forall|i: int|
                    0 <= i < out@.len() ==> #[trigger] out@[i].start + out@[i].len
                        <= self.reader.size(),
                forall|hay: Seq<u8>| #[trigger]
                    self.sees(hay) ==> reader::offsets(found@) == reader::first_n(
                        pattern::all_matches(items, hay, rec as int, hay.len() as int),
                        rows + 1,
                    ),
                forall|hay: Seq<u8>| #[trigger]
                    self.sees(hay) ==> {
                        &&& at < end
                        &&& k < found@.len() ==> end == found@[k as int]
                        &&& k >= found@.len() ==> end == len
                        &&& self.shape(hay).screen(top as int, rows as int) == spans(out@)
                            + self.shape(hay).record_rows(
                            items,
                            at as int,
                            end as int,
                            rows - out@.len(),
                        )
                    },
            decreases rows - out.len(),
        {
            let ghost before = out@;
            let ghost n = rows - out@.len();
            let start: u64 = at;
            let full: u64 = end - at;
            let take: u64 = if self.wrap && bpl < full {
                bpl
            } else {
                full
            };
            out.push(Row { start: at, len: take });
            let ghost this = Span { start: at as int, len: take as int };
            assert(spans(out@) =~= spans(before).push(this));
            if take < full {
                at = at + take;
                proof {
                    assert forall|hay: Seq<u8>| #[trigger] self.sees(hay) implies self.shape(
                        hay,
                    ).screen(top as int, rows as int) == spans(out@) + self.shape(hay).record_rows(
                        items,
                        at as int,
                        end as int,
                        rows - out@.len(),
                    ) by {
                        let rest = self.shape(hay).record_rows(
                            items,
                            at as int,
                            end as int,
                            rows - out@.len(),
                        );
                        assert(self.shape(hay).record_rows(items, start as int, end as int, n)
                            == seq![this] + rest);
                        assert(spans(before) + (seq![this] + rest) =~= spans(out@) + rest);
                    }
                }
            } else if end < len && k < found.len() {
                if out.len() >= rows {
                    proof {
                        assert forall|hay: Seq<u8>| #[trigger] self.sees(hay) implies self.shape(
                            hay,
                        ).screen(top as int, rows as int) == spans(out@) by {
                            assert(self.shape(hay).record_rows(
                                items,
                                end as int,
                                rows::record_end(items, hay, end as int),
                                n - 1,
                            ) =~= Seq::<Span>::empty());
                            assert(self.shape(hay).record_rows(items, start as int, end as int, n)
                                =~= seq![this]);
                            assert(spans(before) + seq![this] =~= spans(out@));
                        }
                    }
                    return Ok(out);
                }
                at = end;
                let ghost last_end = end;
                k = k + 1;
                let next: u64 = if k < found.len() {
                    found[k]
                } else {
                    len
                };
                end = if next > at {
                    next
                } else {
                    at
                };
                proof {
                    assert forall|hay: Seq<u8>| #[trigger] self.sees(hay) implies {
                        &&& at < end
                        &&& k < found@.len() ==> end == found@[k as int]
                        &&& k >= found@.len() ==> end == len
                        &&& self.shape(hay).screen(top as int, rows as int) == spans(out@)
                            + self.shape(hay).record_rows(
                            items,
                            at as int,
                            end as int,
                            rows - out@.len(),
                        )
                    } by {
                        let all = pattern::all_matches(items, hay, rec as int, hay.len() as int);
                        assert(reader::offsets(found@)[k - 1] == found@[k - 1]);
                        assert(all[k - 1] == at);
                        pattern::lemma_following(items, hay, rec as int, hay.len() as int, k - 1);
                        rows::lemma_record_end(items, hay, at as int);
                        if k < found@.len() {
                            assert(reader::offsets(found@)[k as int] == found@[k as int]);
                            assert(all[k as int] == found@[k as int]);
                        } else {
                            assert(reader::offsets(found@).len() == found@.len());
                        }
                        assert(end == rows::record_end(items, hay, at as int));
                        let rest = self.shape(hay).record_rows(
                            items,
                            at as int,
                            end as int,
                            rows - out@.len(),
                        );
                        assert(self.shape(hay).record_rows(items, start as int, at as int, n)
                            == seq![this] + rest);
                        assert(spans(before) + (seq![this] + rest) =~= spans(out@) + rest);
                    }
                }
            } else {
                proof {
                    assert forall|hay: Seq<u8>| #[trigger] self.sees(hay) implies self.shape(
                        hay,
                    ).screen(top as int, rows as int) == spans(out@) by {
                        assert(self.shape(hay).record_rows(items, start as int, end as int, n)
                            =~= seq![this]);
                        assert(spans(before) + seq![this] =~= spans(out@));
                    }
                }
                return Ok(out);
            }
        }
        proof {
            assert forall|hay: Seq<u8>| #[trigger] self.sees(hay) implies self.shape(hay).screen(
                top as int,
                rows as int,
            ) == spans(out@) by {
                assert(spans(out@) + Seq::<Span>::empty() =~= spans(out@));
            }
        }
        Ok(out)
    }

    /// Clip a row to the window: apply the sideways scroll and cut whatever
    /// still does not fit.
    pub fn clip(&self, row: Row) -> (res: Line)
        requires
            row.start + row.len <= u64::MAX,
        ensures
            forall|hay: Seq<u8>|
                res.model() == #[trigger] self.shape(hay).clip(row.span(), self.hoff as int),
    {
        let skipped: u64 = if self.record.is_some() && !self.wrap {
            if self.hoff < row.len {
                self.hoff
            } else {
                row.len
            }
        } else {
            0
        };
        let bpl: u64 = self.bpl64();
        let rest: u64 = row.len - skipped;
        let shown: u64 = if rest < bpl {
            rest
        } else {
            bpl
        };
        Line {
            off: row.start + skipped,
            len: shown as usize,
            skipped,
            hidden: rest - shown,
        }
    }
}

/// What the first matches from `at` on say of where its record ends.
proof fn lemma_bounds(items: Seq<Option<u8>>, hay: Seq<u8>, at: int, found: Seq<u64>, n: int)
    requires
        items.len() > 0,
        0 <= at,
        n >= 2,
        reader::offsets(found) == reader::first_n(
            pattern::all_matches(items, hay, at, hay.len() as int),
            n,
        ),
    ensures
        ({
            let k: int = if found.len() > 0 && found[0] == at {
                1
            } else {
                0
            };
            rows::record_end(items, hay, at) == if k < found.len() {
                found[k] as int
            } else {
                hay.len() as int
            }
        }),
{
    let len = hay.len() as int;
    let all = pattern::all_matches(items, hay, at, len);
    let k: int = if found.len() > 0 && found[0] == at {
        1
    } else {
        0
    };
    assert(found.len() == reader::offsets(found).len());
    if found.len() > 0 {
        assert(reader::offsets(found)[0] == found[0]);
        assert(all[0] == found[0]);
    }
    if k < found.len() {
        assert(reader::offsets(found)[k] == found[k]);
        assert(all[k] == found[k]);
    }
    pattern::lemma_all_matches(items, hay, at, len);
    pattern::lemma_next_match(items, hay, at, len);
    if pattern::matches(items, hay, at) {
        assert(pattern::next_match(items, hay, at, len) == Some(at));
        assert(all[0] == at);
        pattern::lemma_following(items, hay, at, len, 0);
    } else {
        pattern::lemma_nothing_between(items, hay, at, at + 1, len);
        pattern::lemma_next_match(items, hay, at + 1, len);
        if all.len() > 0 {
            assert(all[0] != at);
        }
    }
}

} // verus!
