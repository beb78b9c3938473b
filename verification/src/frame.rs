//! The screen: what a frame shows, piece by piece.

use crate::app;
use crate::app::{App, Input, Line};
use crate::draw;
use crate::draw::{Paint, Seg, SegModel, Style};
use crate::encoding;
use crate::encoding::Encoding;
use crate::model;
use crate::model::{InputModel, Model, PatternModel};
use crate::pattern;
use crate::pattern::Pattern;
use crate::reader;
use crate::reader::FileWindow;
use crate::rows;
use crate::rows::{Clip, Row, Span};
use crate::text;
use crate::view;
use crate::view::Mode;
use vstd::prelude::*;
use vstd::string::*;

verus! {

/// A frame: the title bar, the rows of the file, the bottom bar.
#[derive(Debug)]
pub struct Frame {
    pub title: Vec<Seg>,
    pub lines: Vec<Vec<Seg>>,
    pub bottom: Vec<Seg>,
}

/// The lines of a frame, as mathematical values.
pub open spec fn lines_of(v: Seq<Vec<Seg>>) -> Seq<Seq<SegModel>> {
    v.map_values(|l: Vec<Seg>| draw::segs(l@))
}

// ── What is on screen ───────────────────────────────────────────────────────

/// Does a match of the pattern in the slot cover this byte of the data?
pub open spec fn covered(slot: Option<PatternModel>, data: Seq<u8>, k: int) -> bool {
    slot matches Some(p) && hit(
        pattern::all_matches(p.items, data, 0, data.len() as int),
        p.items.len() as int,
        k,
    )
}

/// Is a byte inside one of the stretches of `len` bytes that start here?
pub open spec fn hit(starts: Seq<int>, len: int, k: int) -> bool {
    exists|j: int| 0 <= j < starts.len() && #[trigger] starts[j] <= k < starts[j] + len
}

/// How far outside a line its data is read: far enough for a match that reaches
/// into it or out of it.
pub open spec fn reach(slot: Option<PatternModel>) -> int {
    match slot {
        Some(p) => rows::above(p.items.len() as int, 1),
        None => 0,
    }
}

/// The larger of two numbers.
pub open spec fn most(a: int, b: int) -> int {
    if a >= b {
        a
    } else {
        b
    }
}

impl Model {
    /// The state after the window was measured: `w` by `h` cells, one row each
    /// for the title and the bottom bar.
    pub open spec fn measured(self, hay: Seq<u8>, w: int, h: int) -> Model {
        let len = hay.len() as int;
        let bpl = view::bpl_for(self.mode, w, len, self.fixed_bpl);
        Model {
            rows: h - 2,
            bpl,
            fit_bpl: view::fit_for(self.mode, w, len),
            align: self.align % bpl,
            ..self
        }.settle(hay)
    }

    /// The byte under the cursor, as hex, decimal and a text cell.
    pub open spec fn readout(self, hay: Seq<u8>, digits: int) -> Seq<char> {
        let back = rows::least(encoding::LOOKAHEAD as int, self.cur);
        let data = reader::part(hay, self.cur - back, back + 1 + encoding::LOOKAHEAD);
        if hay.len() == 0 {
            text::pad_back("empty file"@, digits + 13)
        } else if back >= data.len() {
            text::pad_back("past the end"@, digits + 13)
        } else {
            byte_readout(self.cur, data[back], encoding::cells(self.enc, data)[back], digits)
        }
    }

    /// How much of the file on either side of a line is read with it.
    pub open spec fn lookback(self) -> int {
        let wide = if self.highlight {
            most(reach(self.needle), reach(self.record))
        } else {
            0
        };
        most(wide, encoding::LOOKAHEAD as int)
    }

    /// How many of those bytes there are before it.
    pub open spec fn context(self, ln: Clip) -> int {
        rows::least(self.lookback(), ln.off)
    }

    /// The bytes of a line, with those before and after it that matches and
    /// characters may reach into.
    pub open spec fn line_data(self, hay: Seq<u8>, ln: Clip) -> Seq<u8> {
        let back = self.context(ln);
        reader::part(
            hay,
            ln.off - back,
            rows::least(back + ln.len + self.lookback(), usize::MAX as int),
        )
    }

    /// The style of the byte at a column of a line.
    pub open spec fn style_at(self, data: Seq<u8>, ln: Clip, i: int) -> Style {
        let k = self.context(ln) + i;
        if i >= ln.len {
            Style::Plain
        } else if self.cur == ln.off + i {
            Style::Cursor
        } else if self.highlight && (covered(self.needle, data, k) || covered(
            self.record,
            data,
            k,
        )) {
            Style::Match
        } else {
            Style::Plain
        }
    }

    pub open spec fn styles(self, data: Seq<u8>, ln: Clip) -> Seq<Style> {
        Seq::new(self.bpl as nat, |i: int| self.style_at(data, ln, i))
    }

    /// The byte column.
    pub open spec fn byte_cells(self, data: Seq<u8>, ln: Clip) -> Seq<Seq<char>> {
        let back = self.context(ln);
        let glyphs = encoding::cells(self.enc, data);
        Seq::new(
            self.bpl as nat,
            |i: int|
                if i < ln.len && back + i < data.len() {
                    view::byte_text(self.mode, data[back + i], glyphs[back + i])
                } else {
                    text::copies(' ', view::cell_width(self.mode))
                },
        )
    }

    /// The text column.
    pub open spec fn text_cells(self, data: Seq<u8>, ln: Clip) -> Seq<Seq<char>> {
        let back = self.context(ln);
        let glyphs = encoding::cells(self.enc, data);
        Seq::new(
            self.bpl as nat,
            |i: int|
                if i < ln.len && back + i < data.len() {
                    seq![glyphs[back + i]]
                } else {
                    seq![' ']
                },
        )
    }

    /// A line without the padding: the offset, the mark of a record scrolled
    /// sideways, the byte column, the mark of a record that did not fit, and
    /// the text column where the mode has one.
    pub open spec fn line_pieces(self, hay: Seq<u8>, ln: Clip, digits: int) -> Seq<SegModel> {
        let data = self.line_data(hay, ln);
        let styles = self.styles(data, ln);
        let left = if ln.skipped > 0 {
            draw::piece(Paint::Trunc, "‹"@)
        } else {
            draw::piece(Paint::Offset, " "@)
        };
        let right = if ln.hidden > 0 {
            draw::piece(Paint::Trunc, "›"@)
        } else if self.mode != Mode::Text {
            draw::piece(Paint::Data, " "@)
        } else {
            seq![]
        };
        let column = if self.mode != Mode::Text {
            draw::merged(self.text_cells(data, ln), styles, Paint::Text)
        } else {
            seq![]
        };
        draw::piece(Paint::Offset, view::fixed_hex(ln.off, digits).push(':')) + left + draw::merged(
            self.byte_cells(data, ln),
            styles,
            Paint::Data,
        ) + right + column
    }

    /// A line of the screen.
    pub open spec fn line(self, hay: Seq<u8>, ln: Clip, w: int, digits: int) -> Seq<SegModel> {
        draw::padded(self.line_pieces(hay, ln, digits), Paint::Data, w)
    }

    /// The lines of the screen from the top row down, blank past the last one.
    pub open spec fn lines(self, hay: Seq<u8>, w: int, digits: int) -> Seq<Seq<SegModel>> {
        let shape = self.shape(hay);
        let screen = shape.screen(self.top, self.rows);
        Seq::new(
            self.rows as nat,
            |i: int|
                if i < screen.len() {
                    self.line(hay, shape.clip(screen[i], self.hoff), w, digits)
                } else {
                    draw::filled(Paint::Data, w)
                },
        )
    }

    /// What the title bar says of the record pattern.
    pub open spec fn record_note(self) -> Seq<char> {
        match self.record {
            Some(p) => " | "@ + draw::head_of(p.text, 12) + if self.wrap {
                " wrap"@
            } else {
                " cut"@
            },
            None => seq![],
        }
    }

    /// The right end of the title bar.
    pub open spec fn title_right(self, len: int, readout: Seq<char>, percent: int) -> Seq<char> {
        " "@ + text::pad_back(self.mode.name_text(), 4) + " "@ + text::pad_back(
            self.enc.name_text(),
            Encoding::NAME_WIDTH as int,
        ) + self.record_note() + " | "@ + readout + " | "@ + text::decimal(len) + " bytes | "@
            + text::pad_front(text::decimal(percent), ' ', 3) + "% "@
    }

    /// The title bar: the name of the file, and what there is to know.
    pub open spec fn title(
        self,
        name: Seq<char>,
        len: int,
        w: int,
        readout: Seq<char>,
        percent: int,
    ) -> Seq<SegModel> {
        let right = self.title_right(len, readout, percent);
        let room = rows::above(w, right.len() as int + 1);
        let left = seq![' '] + draw::tail_of(name, rows::above(room, 1));
        draw::padded(
            draw::piece(Paint::Bar, left) + draw::filled(
                Paint::Bar,
                w - (left.len() + right.len()),
            ) + draw::piece(Paint::Bar, right),
            Paint::Bar,
            w,
        )
    }

    /// The bottom bar: the prompt, the status line, or the keys there are.
    pub open spec fn bottom(self, w: int) -> Seq<SegModel> {
        let pieces = match self.input {
            InputModel::Goto(s) => prompt(" Go to offset: "@, s),
            InputModel::Search(s) => prompt(
                " Search in "@ + self.enc.name_text() + " (x: for hex, ?? any byte): "@,
                s,
            ),
            InputModel::Record(s) => prompt(" Line = record, pattern (empty to turn off): "@, s),
            InputModel::Normal => if self.status.len() > 0 {
                draw::piece(Paint::Bar, seq![' '] + self.status + seq![' '])
            } else {
                self.slots()
            },
        };
        draw::padded(pieces, Paint::Bar, w)
    }

    /// The keys. 3 doubles as the code page key, so it shows where it will
    /// take you next. Wrapping is only a thing once lines are records, so its
    /// slot is simply absent until then.
    pub open spec fn slots(self) -> Seq<SegModel> {
        slot("1"@, "Bin"@) + slot("2"@, "Hex"@) + slot(
            "3"@,
            if self.mode == Mode::Text {
                self.enc.after().name_text()
            } else {
                "Txt"@
            },
        ) + slot("5"@, "Goto"@) + slot("6"@, "Rec"@) + slot("7"@, "Find"@) + slot("8"@, "Next"@) + (
        if self.record is Some {
            slot(
                "9"@,
                if self.wrap {
                    "Wrap"@
                } else {
                    "Cut"@
                },
            )
        } else {
            seq![]
        }) + slot("10"@, "Quit"@)
    }
}

/// The readout of a byte.
pub open spec fn byte_readout(off: int, b: u8, glyph: char, digits: int) -> Seq<char> {
    "0x"@ + text::pad_front(text::upper_hex(off), '0', digits) + " "@ + text::pad_front(
        text::upper_hex(b as int),
        '0',
        2,
    ) + " "@ + text::pad_front(text::decimal(b as int), ' ', 3) + " '"@ + seq![glyph, '\'']
}

/// A prompt with what was typed so far.
pub open spec fn prompt(label: Seq<char>, s: Seq<char>) -> Seq<SegModel> {
    draw::piece(Paint::Bar, label) + draw::piece(Paint::Bar, s) + draw::piece(Paint::Bar, "_"@)
}

/// A key and what it does.
pub open spec fn slot(key: Seq<char>, label: Seq<char>) -> Seq<SegModel> {
    draw::piece(Paint::Data, key) + draw::piece(Paint::Bar, label) + draw::piece(Paint::Data, " "@)
}

/// The window of a file after reading from it: only its buffer has moved.
pub open spec fn same_window<E, F: Fn(u64, u64) -> Result<Vec<u8>, E>>(
    now: FileWindow<F>,
    before: FileWindow<F>,
) -> bool {
    &&& now.size() == before.size()
    &&& now.last_stamp() == before.last_stamp()
    &&& now.ready() == before.ready()
    &&& forall|hay: Seq<u8>| #[trigger] before.shows(hay) ==> now.shows(hay)
    &&& forall|e: E| now.fails_with(e) <==> #[trigger] before.fails_with(e)
}

impl<E, F: Fn(u64, u64) -> Result<Vec<u8>, E>> App<F> {
    /// Fit the rows to a window of `w` by `h` cells, and say how many digits
    /// the offset column has; a window too small to draw in changes nothing.
    ///
    /// The terminal may have been resized since the last frame, which moves
    /// every row boundary; the view is settled again.
    pub fn measure(&mut self, w: u16, h: u16) -> (res: Result<Option<usize>, E>)
        requires
            old(self).well_formed(),
        ensures
            final(self).same_file(old(self)),
            final(self).well_formed(),
            h < 3 || w < 24 ==> res == Ok::<Option<usize>, E>(None) && *final(self) == *old(self),
            h >= 3 && w >= 24 ==> (res matches Ok(digits) ==> digits == Some(
                view::digits_for(old(self).reader.size()) as usize,
            )),
            h >= 3 && w >= 24 ==> forall|hay: Seq<u8>| #[trigger]
                old(self).sees(hay) ==> (res is Ok ==> final(self).model()
                    == old(self).model().measured(hay, w as int, h as int)),
            old(self).record is None ==> res is Ok,
            res matches Err(e) ==> old(self).reader.fails_with(e),
    {
        if h < 3 || w < 24 {
            return Ok(None);
        }
        let lay = view::layout(self.mode, w, self.reader.len(), self.fixed_bpl);
        self.rows = h as usize - 2;
        self.bpl = lay.bpl;
        self.fit_bpl = lay.fit;
        let bpl: u64 = self.bpl64();
        self.align = self.align % bpl;
        proof {
            Self::lemma_sees(self, old(self));
            view::lemma_bpl(self.mode, w as int, self.reader.size(), view::choice(self.fixed_bpl));
        }
        self.settle()?;
        Ok(Some(lay.offset_digits))
    }

    /// The byte under the cursor, as hex, decimal and a text cell.
    ///
    /// Every field is a fixed width. A readout that changed length as the
    /// cursor moved would shove everything beside it back and forth on the
    /// title bar, which is unreadable while you are trying to read it.
    pub fn cursor_readout(&mut self, digits: usize) -> (res: Result<String, E>)
        requires
            old(self).well_formed(),
            digits + 13 <= usize::MAX,
        ensures
            final(self).well_formed(),
            final(self).model() == old(self).model(),
            final(self).name == old(self).name,
            final(self).record == old(self).record,
            same_window(final(self).reader, old(self).reader),
            forall|hay: Seq<u8>| #[trigger]
                old(self).reader.shows(hay) ==> (res matches Ok(s) ==> s@
                    == old(self).model().readout(hay, digits as int)),
            old(self).reader.size() == 0 ==> res is Ok,
            res matches Err(e) ==> old(self).reader.fails_with(e),
    {
        let ghost before = self.reader;
        let width: usize = digits + 13;
        let mut out = String::new();
        proof {
            assert forall|hay: Seq<u8>| #[trigger] before.shows(hay) implies hay.len()
                == before.size() by {
                before.lemma_shows(hay);
            }
        }
        if self.reader.len() == 0 {
            text::push_padded_back(&mut out, "empty file", width);
            assert(out@ =~= text::pad_back("empty file"@, digits + 13));
            return Ok(out);
        }
        // A few bytes of context so a UTF-8 character the cursor sits inside
        // still decodes.
        let near: u64 = encoding::LOOKAHEAD as u64;
        let back: u64 = if self.cur < near {
            self.cur
        } else {
            near
        };
        let idx: usize = back as usize;
        let data = self.reader.read_at(self.cur - back, idx + 1 + encoding::LOOKAHEAD)?;
        if idx >= data.len() {
            text::push_padded_back(&mut out, "past the end", width);
            assert(out@ =~= text::pad_back("past the end"@, digits + 13));
            return Ok(out);
        }
        let b: u8 = data[idx];
        let mut glyphs: Vec<char> = Vec::new();
        encoding::decode(self.enc, data, &mut glyphs);
        let mut hex = String::new();
        text::push_radix(&mut hex, self.cur, 16);
        assert(hex@ =~= text::upper_hex(self.cur as int));
        let mut byte_hex = String::new();
        text::push_radix(&mut byte_hex, b as u64, 16);
        assert(byte_hex@ =~= text::upper_hex(b as int));
        let mut dec = String::new();
        text::push_radix(&mut dec, b as u64, 10);
        assert(dec@ =~= text::decimal(b as int));
        out.append("0x");
        text::push_padded_front(&mut out, hex.as_str(), '0', digits);
        out.append(" ");
        text::push_padded_front(&mut out, byte_hex.as_str(), '0', 2);
        out.append(" ");
        text::push_padded_front(&mut out, dec.as_str(), ' ', 3);
        out.append(" '");
        out.push(glyphs[idx]);
        out.push('\'');
        assert(out@ =~= byte_readout(self.cur as int, b, glyphs@[idx as int], digits as int));
        Ok(out)
    }

    /// The right end of the title bar. Mode and code page are padded for the
    /// same reason the readout is: stepping through code pages should not
    /// shuffle the bar sideways.
    fn title_right(&self, readout: &str, percent: u64) -> (res: String)
        ensures
            res@ == self.model().title_right(self.reader.size(), readout@, percent as int),
    {
        let mut rec = String::new();
        if let Some(p) = &self.record {
            rec.append(" | ");
            rec.append(draw::clip(p.src(), 12).as_str());
            rec.append(
                if self.wrap {
                    " wrap"
                } else {
                    " cut"
                },
            );
        }
        assert(rec@ =~= self.model().record_note());
        let mut share = String::new();
        text::push_radix(&mut share, percent, 10);
        assert(share@ =~= text::decimal(percent as int));
        let mut out = String::new();
        out.append(" ");
        text::push_padded_back(&mut out, self.mode.name(), 4);
        out.append(" ");
        text::push_padded_back(&mut out, self.enc.name(), Encoding::NAME_WIDTH);
        out.append(rec.as_str());
        out.append(" | ");
        out.append(readout);
        out.append(" | ");
        text::push_radix(&mut out, self.reader.len(), 10);
        out.append(" bytes | ");
        text::push_padded_front(&mut out, share.as_str(), ' ', 3);
        out.append("% ");
        assert(out@ =~= self.model().title_right(self.reader.size(), readout@, percent as int));
        out
    }

    /// Draw the title bar. `percent` is how far into the file the cursor is.
    pub fn draw_title(&self, w: u16, readout: &str, percent: u64) -> (res: Vec<Seg>)
        ensures
            draw::segs(res@) == self.model().title(
                self.name@,
                self.reader.size(),
                w as int,
                readout@,
                percent as int,
            ),
    {
        let width: usize = w as usize;
        let right = self.title_right(readout, percent);
        let n: usize = text::char_count(right.as_str());
        let room: usize = if width > n {
            width - n - 1
        } else {
            0
        };
        let mut left = String::new();
        left.push(' ');
        left.append(
            draw::trim_left(
                self.name.as_str(),
                if room > 0 {
                    room - 1
                } else {
                    0
                },
            ).as_str(),
        );
        assert(left@ =~= seq![' '] + draw::tail_of(self.name@, rows::above(room as int, 1)));
        let used: usize = text::char_count(left.as_str());
        let gap: usize = if used < width && n < width - used {
            width - used - n
        } else {
            0
        };
        let mut out: Vec<Seg> = Vec::new();
        assert(draw::segs(out@) =~= Seq::<SegModel>::empty());
        draw::seg(&mut out, Paint::Bar, left.as_str());
        draw::seg_fill(&mut out, Paint::Bar, gap);
        draw::seg(&mut out, Paint::Bar, right.as_str());
        proof {
            assert(draw::segs(out@) =~= draw::piece(Paint::Bar, left@) + draw::filled(
                Paint::Bar,
                w - (left@.len() + right@.len()),
            ) + draw::piece(Paint::Bar, right@));
        }
        draw::pad(&mut out, Paint::Bar, width);
        out
    }

    /// Draw the bottom bar.
    pub fn draw_bottom(&self, w: u16) -> (res: Vec<Seg>)
        ensures
            draw::segs(res@) == self.model().bottom(w as int),
    {
        let mut out: Vec<Seg> = Vec::new();
        assert(draw::segs(out@) =~= Seq::<SegModel>::empty());
        match &self.input {
            Input::Goto(buf) => draw_prompt(&mut out, " Go to offset: ", buf.as_str()),
            Input::Search(buf) => {
                let mut label = " Search in ".to_string();
                label.append(self.enc.name());
                label.append(" (x: for hex, ?? any byte): ");
                draw_prompt(&mut out, label.as_str(), buf.as_str());
            },
            Input::Record(buf) => draw_prompt(
                &mut out,
                " Line = record, pattern (empty to turn off): ",
                buf.as_str(),
            ),
            Input::Normal => {
                if text::char_count(self.status.as_str()) > 0 {
                    let mut status = String::new();
                    status.push(' ');
                    status.append(self.status.as_str());
                    status.push(' ');
                    assert(status@ =~= seq![' '] + self.status@ + seq![' ']);
                    draw::seg(&mut out, Paint::Bar, status.as_str());
                    assert(draw::segs(out@) =~= draw::piece(Paint::Bar, status@));
                } else {
                    self.draw_slots(&mut out);
                    assert(draw::segs(out@) =~= self.model().slots());
                }
            },
        }
        draw::pad(&mut out, Paint::Bar, w as usize);
        out
    }

    fn draw_slots(&self, out: &mut Vec<Seg>)
        ensures
            draw::segs(final(out)@) == draw::segs(old(out)@) + self.model().slots(),
    {
        let ghost before = draw::segs(out@);
        draw_slot(out, "1", "Bin");
        draw_slot(out, "2", "Hex");
        draw_slot(
            out,
            "3",
            if self.mode == Mode::Text {
                self.enc.next().name()
            } else {
                "Txt"
            },
        );
        draw_slot(out, "5", "Goto");
        draw_slot(out, "6", "Rec");
        draw_slot(out, "7", "Find");
        draw_slot(out, "8", "Next");
        if self.record.is_some() {
            draw_slot(
                out,
                "9",
                if self.wrap {
                    "Wrap"
                } else {
                    "Cut"
                },
            );
        }
        draw_slot(out, "10", "Quit");
        assert(draw::segs(out@) =~= before + self.model().slots());
    }
}

fn draw_prompt(out: &mut Vec<Seg>, label: &str, buf: &str)
    requires
        draw::segs(old(out)@).len() == 0,
    ensures
        draw::segs(final(out)@) == prompt(label@, buf@),
{
    draw::seg(out, Paint::Bar, label);
    draw::seg(out, Paint::Bar, buf);
    draw::seg(out, Paint::Bar, "_");
    assert(draw::segs(out@) =~= prompt(label@, buf@));
}

fn draw_slot(out: &mut Vec<Seg>, key: &str, label: &str)
    ensures
        draw::segs(final(out)@) == draw::segs(old(out)@) + slot(key@, label@),
{
    let ghost before = draw::segs(out@);
    draw::seg(out, Paint::Data, key);
    draw::seg(out, Paint::Bar, label);
    draw::seg(out, Paint::Data, " ");
    assert(draw::segs(out@) =~= before + slot(key@, label@));
}

/// Mark the bytes of a line that matches cover. `hits` are the places in the
/// data where a match of `plen` bytes starts, `back` is where the line does.
fn mark(styles: &mut Vec<Style>, hits: &Vec<usize>, plen: usize, back: usize, n: usize)
    requires
        n <= old(styles)@.len(),
        back + n <= usize::MAX,
        forall|j: int| 0 <= j < hits@.len() ==> #[trigger] hits@[j] + plen <= usize::MAX,
    ensures
        final(styles)@.len() == old(styles)@.len(),
        forall|i: int|
            0 <= i < final(styles)@.len() ==> #[trigger] final(styles)@[i] == if i < n && hit(
                pattern::offsets(hits@),
                plen as int,
                back + i,
            ) {
                Style::Match
            } else {
                old(styles)@[i]
            },
{
    let ghost before = styles@;
    let ghost starts = pattern::offsets(hits@);
    let total: usize = hits.len();
    assert(starts.take(0) =~= Seq::<int>::empty());
    for j in 0..total
        invariant
            total == hits@.len(),
            starts == pattern::offsets(hits@),
            n <= before.len() == styles@.len(),
            back + n <= usize::MAX,
            forall|j: int| 0 <= j < hits@.len() ==> #[trigger] hits@[j] + plen <= usize::MAX,
            forall|i: int|
                0 <= i < before.len() ==> #[trigger] styles@[i] == if i < n && hit(
                    starts.take(j as int),
                    plen as int,
                    back + i,
                ) {
                    Style::Match
                } else {
                    before[i]
                },
    {
        let ghost sofar = styles@;
        let start: usize = hits[j];
        let stop: usize = start + plen;
        let first: usize = if start > back {
            start
        } else {
            back
        };
        let last: usize = if stop < back + n {
            stop
        } else {
            back + n
        };
        let mut k: usize = first;
        while k < last
            invariant
                first == most(start as int, back as int),
                last == rows::least(stop as int, back + n),
                first <= k,
                k <= last || k == first,
                n <= before.len() == styles@.len() == sofar.len(),
                forall|i: int|
                    0 <= i < before.len() ==> #[trigger] styles@[i] == if first <= back + i < k {
                        Style::Match
                    } else {
                        sofar[i]
                    },
            decreases last - k,
        {
            styles.set(k - back, Style::Match);
            k += 1;
        }
        proof {
            let done = starts.take(j as int);
            let more = starts.take(j + 1);
            assert(starts[j as int] == start);
            assert forall|i: int| 0 <= i < before.len() implies #[trigger] styles@[i] == if i < n
                && hit(more, plen as int, back + i) {
                Style::Match
            } else {
                before[i]
            } by {
                if hit(done, plen as int, back + i) {
                    let x = choose|x: int|
                        0 <= x < done.len() && #[trigger] done[x] <= back + i < done[x] + plen;
                    assert(more[x] == done[x]);
                }
                if start <= back + i < stop {
                    assert(more[j as int] == start);
                }
                if hit(more, plen as int, back + i) {
                    let x = choose|x: int|
                        0 <= x < more.len() && #[trigger] more[x] <= back + i < more[x] + plen;
                    if x < j {
                        assert(done[x] == more[x]);
                    } else {
                        assert(more[x] == start);
                    }
                }
            }
        }
    }
    assert(starts.take(total as int) =~= starts);
}

/// Mark the bytes of a line that matches of the pattern in a slot cover.
fn mark_slot(styles: &mut Vec<Style>, slot: &Option<Pattern>, data: &[u8], back: usize, n: usize)
    requires
        n <= old(styles)@.len(),
        back + n <= usize::MAX,
    ensures
        final(styles)@.len() == old(styles)@.len(),
        forall|i: int|
            0 <= i < final(styles)@.len() ==> #[trigger] final(styles)@[i] == if i < n && covered(
                model::pattern_model(*slot),
                data@,
                back + i,
            ) {
                Style::Match
            } else {
                old(styles)@[i]
            },
{
    if let Some(pat) = slot {
        let hits = pat.find_all(data);
        let plen: usize = pat.len();
        let len: usize = data.len();
        proof {
            let all = pattern::all_matches(pat.items(), data@, 0, len as int);
            pattern::lemma_all_matches(pat.items(), data@, 0, len as int);
            assert forall|j: int| 0 <= j < hits@.len() implies #[trigger] hits@[j] + plen
                <= usize::MAX by {
                assert(pattern::offsets(hits@)[j] == hits@[j]);
                assert(all[j] == hits@[j]);
            }
        }
        mark(styles, &hits, plen, back, n);
    }
}

/// Bytes of a pattern that may lie outside the line a match reaches into.
fn reach_of(slot: &Option<Pattern>) -> (res: usize)
    ensures
        res == reach(model::pattern_model(*slot)),
{
    match slot {
        Some(p) => p.len() - 1,
        None => 0,
    }
}

impl<E, F: Fn(u64, u64) -> Result<Vec<u8>, E>> App<F> {
    /// How many bytes on either side of a line are read with it: a match may
    /// start on the previous line or end on the next, and all of it needs
    /// highlighting. The same context also lets a character that straddles a
    /// line break decode.
    fn lookback(&self) -> (res: usize)
        ensures
            res == self.model().lookback(),
    {
        let mut lookback: usize = encoding::LOOKAHEAD;
        if self.highlight {
            let a: usize = reach_of(&self.needle);
            let b: usize = reach_of(&self.record);
            if a > lookback {
                lookback = a;
            }
            if b > lookback {
                lookback = b;
            }
        }
        lookback
    }

    /// How the bytes of a line are painted.
    fn line_styles(&self, ln: &Line, data: &[u8], back: usize) -> (res: Vec<Style>)
        requires
            back == self.model().context(ln.model()),
        ensures
            res@ == self.model().styles(data@, ln.model()),
    {
        let bpl: usize = self.bpl;
        let mut styles: Vec<Style> = Vec::new();
        for i in 0..bpl
            invariant
                styles@.len() == i,
                forall|k: int| 0 <= k < styles@.len() ==> styles@[k] == Style::Plain,
        {
            styles.push(Style::Plain);
        }
        if self.highlight {
            let body: usize = line_body(ln, data, back);
            // what lies past the data is covered by nothing
            let n: usize = if body < bpl {
                body
            } else {
                bpl
            };
            mark_slot(&mut styles, &self.needle, data, back, n);
            mark_slot(&mut styles, &self.record, data, back, n);
            proof {
                lemma_uncovered(model::pattern_model(self.needle), data@);
                lemma_uncovered(model::pattern_model(self.record), data@);
            }
        }
        if self.cur >= ln.off && self.cur - ln.off < ln.len as u64 {
            let col: usize = (self.cur - ln.off) as usize;
            if col < bpl {
                styles.set(col, Style::Cursor);
            }
        }
        assert(styles@ =~= self.model().styles(data@, ln.model()));
        styles
    }

    /// The cells of the byte column and of the text column.
    fn line_cells(&self, ln: &Line, data: &[u8], back: usize) -> (res: (Vec<String>, Vec<String>))
        requires
            back == self.model().context(ln.model()),
        ensures
            draw::texts(res.0@) == self.model().byte_cells(data@, ln.model()),
            draw::texts(res.1@) == self.model().text_cells(data@, ln.model()),
            res.0@.len() == self.bpl,
            res.1@.len() == self.bpl,
    {
        let ghost m = self.model();
        let ghost ln_model = ln.model();
        // Decode from the context start so UTF-8 resyncs on real character
        // boundaries, then skip the context: cell i belongs to byte i.
        let mut glyphs: Vec<char> = Vec::new();
        encoding::decode(self.enc, data, &mut glyphs);
        let have: usize = data.len();
        let body: usize = line_body(ln, data, back);
        let mut bytes: Vec<String> = Vec::new();
        let mut chars: Vec<String> = Vec::new();
        for i in 0..self.bpl
            invariant
                m == self.model(),
                ln_model == ln.model(),
                back == m.context(ln_model),
                glyphs@ == encoding::cells(m.enc, data@),
                glyphs@.len() == data@.len() == have,
                body == body_len(ln_model, data@, back as int),
                draw::texts(bytes@) =~= m.byte_cells(data@, ln_model).take(i as int),
                draw::texts(chars@) =~= m.text_cells(data@, ln_model).take(i as int),
        {
            let ghost bytes_before = bytes@;
            let ghost chars_before = chars@;
            let mut cell = String::new();
            let mut one = String::new();
            if i < body {
                let glyph: char = glyphs[back + i];
                view::push_byte(&mut cell, self.mode, data[back + i], glyph);
                one.push(glyph);
            } else {
                view::push_gap(&mut cell, self.mode);
                one.push(' ');
            }
            assert(cell@ =~= m.byte_cells(data@, ln_model)[i as int]);
            assert(one@ =~= m.text_cells(data@, ln_model)[i as int]);
            bytes.push(cell);
            chars.push(one);
            assert(draw::texts(bytes@) =~= draw::texts(bytes_before).push(cell@));
            assert(draw::texts(chars@) =~= draw::texts(chars_before).push(one@));
        }
        assert(draw::texts(bytes@) =~= m.byte_cells(data@, ln_model));
        assert(draw::texts(chars@) =~= m.text_cells(data@, ln_model));
        assert(draw::texts(bytes@).len() == bytes@.len());
        assert(draw::texts(chars@).len() == chars@.len());
        (bytes, chars)
    }

    /// Draw a line of the file.
    pub fn draw_line(&mut self, w: u16, ln: &Line, digits: usize) -> (res: Result<Vec<Seg>, E>)
        requires
            old(self).well_formed(),
            digits <= 16,
        ensures
            final(self).well_formed(),
            final(self).model() == old(self).model(),
            final(self).name == old(self).name,
            final(self).record == old(self).record,
            same_window(final(self).reader, old(self).reader),
            forall|hay: Seq<u8>| #[trigger]
                old(self).reader.shows(hay) ==> (res matches Ok(v) ==> draw::segs(v@)
                    == old(self).model().line(hay, ln.model(), w as int, digits as int)),
            res matches Err(e) ==> old(self).reader.fails_with(e),
    {
        let ghost m = self.model();
        let ghost ln_model = ln.model();
        let around: usize = self.lookback();
        let back: usize = if (around as u64) < ln.off {
            around
        } else {
            ln.off as usize
        };
        // What lies outside the line is context only: the columns stop exactly
        // at the end of the line.
        let want: usize = back.saturating_add(ln.len).saturating_add(around);
        let data = vstd::slice::slice_to_vec(self.reader.read_at(ln.off - back as u64, want)?);
        let styles = self.line_styles(ln, &data, back);
        let (bytes, chars) = self.line_cells(ln, &data, back);

        let mut offset_s = String::new();
        view::format_offset(&mut offset_s, ln.off, digits);
        // The trailing space of the offset column doubles as the marker for a
        // record scrolled sideways.
        offset_s.pop();
        assert(offset_s@ =~= view::fixed_hex(ln.off as int, digits as int).push(':'));

        let mut out: Vec<Seg> = Vec::new();
        assert(draw::segs(out@) =~= Seq::<SegModel>::empty());
        draw::seg(&mut out, Paint::Offset, offset_s.as_str());
        if ln.skipped > 0 {
            draw::seg(&mut out, Paint::Trunc, "‹");
        } else {
            draw::seg(&mut out, Paint::Offset, " ");
        }
        draw::runs(&mut out, &bytes, &styles, Paint::Data);
        // The separator doubles as the marker for a record that did not fit.
        if ln.hidden > 0 {
            draw::seg(&mut out, Paint::Trunc, "›");
        } else if self.mode.has_text_column() {
            draw::seg(&mut out, Paint::Data, " ");
        }
        if self.mode.has_text_column() {
            draw::runs(&mut out, &chars, &styles, Paint::Text);
        }
        proof {
            assert forall|hay: Seq<u8>| #[trigger]
                old(self).reader.shows(hay) implies draw::segs(out@) == m.line_pieces(
                hay,
                ln_model,
                digits as int,
            ) by {
                assert(data@ == m.line_data(hay, ln_model));
                assert(draw::segs(out@) =~= m.line_pieces(hay, ln_model, digits as int));
            }
        }
        draw::pad(&mut out, Paint::Data, w as usize);
        Ok(out)
    }
}

impl<E, F: Fn(u64, u64) -> Result<Vec<u8>, E>> App<F> {
    /// Draw a frame in a window that was measured. `percent` is how far into
    /// the file the cursor is.
    pub fn draw(&mut self, w: u16, digits: usize, percent: u64) -> (res: Result<Frame, E>)
        requires
            old(self).well_formed(),
            digits <= 16,
        ensures
            final(self).well_formed(),
            final(self).model() == old(self).model(),
            final(self).name == old(self).name,
            final(self).record == old(self).record,
            same_window(final(self).reader, old(self).reader),
            forall|hay: Seq<u8>| #[trigger]
                old(self).reader.shows(hay) ==> (res matches Ok(frame) ==> {
                    let m = old(self).model();
                    &&& draw::segs(frame.title@) == m.title(
                        old(self).name@,
                        hay.len() as int,
                        w as int,
                        m.readout(hay, digits as int),
                        percent as int,
                    )
                    &&& lines_of(frame.lines@) == m.lines(hay, w as int, digits as int)
                    &&& draw::segs(frame.bottom@) == m.bottom(w as int)
                }),
            res matches Err(e) ==> old(self).reader.fails_with(e),
    {
        let ghost m = self.model();
        let ghost before = self.reader;
        proof {
            self.lemma_shown();
        }
        let rows: Vec<Row> = self.layout_rows(self.rows)?;
        proof {
            self.reader.lemma_size();
        }
        let readout = self.cursor_readout(digits)?;
        let title = self.draw_title(w, readout.as_str(), percent);
        let lines = self.draw_rows(w, &rows, digits)?;
        let bottom = self.draw_bottom(w);
        proof {
            assert forall|hay: Seq<u8>| #[trigger] before.shows(hay) implies hay.len()
                == before.size() && lines_of(lines@) == m.lines(hay, w as int, digits as int) by {
                before.lemma_shows(hay);
                assert(app::spans(rows@) == m.shape(hay).screen(m.top, m.rows));
                assert(lines_of(lines@) =~= m.lines(hay, w as int, digits as int));
            }
        }
        Ok(Frame { title, lines, bottom })
    }

    /// Draw the rows of a screen, and blank lines below them.
    fn draw_rows(&mut self, w: u16, rows: &Vec<Row>, digits: usize) -> (res: Result<
        Vec<Vec<Seg>>,
        E,
    >)
        requires
            old(self).well_formed(),
            digits <= 16,
            forall|i: int| 0 <= i < rows@.len() ==> #[trigger] rows@[i].start + rows@[i].len
                <= u64::MAX,
        ensures
            final(self).well_formed(),
            final(self).model() == old(self).model(),
            final(self).name == old(self).name,
            final(self).record == old(self).record,
            same_window(final(self).reader, old(self).reader),
            res matches Ok(v) ==> v@.len() == old(self).rows,
            forall|hay: Seq<u8>| #[trigger]
                old(self).reader.shows(hay) ==> (res matches Ok(v) ==> forall|i: int|
                    0 <= i < v@.len() ==> draw::segs(#[trigger] v@[i]@) == drawn_row(
                        old(self).model(),
                        hay,
                        app::spans(rows@),
                        i,
                        w as int,
                        digits as int,
                    )),
            res matches Err(e) ==> old(self).reader.fails_with(e),
    {
        let ghost m = self.model();
        let ghost before = self.reader;
        let count: usize = self.rows;
        let mut lines: Vec<Vec<Seg>> = Vec::new();
        for i in 0..count
            invariant
                self.well_formed(),
                self.model() == m,
                m == old(self).model(),
                count == m.rows,
                self.name == old(self).name,
                self.record == old(self).record,
                same_window(self.reader, before),
                before == old(self).reader,
                digits <= 16,
                forall|i: int| 0 <= i < rows@.len() ==> #[trigger] rows@[i].start + rows@[i].len
                    <= u64::MAX,
                lines@.len() == i,
                forall|hay: Seq<u8>| #[trigger]
                    before.shows(hay) ==> forall|k: int|
                        0 <= k < lines@.len() ==> draw::segs(#[trigger] lines@[k]@) == drawn_row(
                            m,
                            hay,
                            app::spans(rows@),
                            k,
                            w as int,
                            digits as int,
                        ),
        {
            let ghost here = *self;
            let line: Vec<Seg> = if i < rows.len() {
                let ln: Line = self.clip(rows[i]);
                assert(app::spans(rows@)[i as int] == rows@[i as int].span());
                self.draw_line(w, &ln, digits)?
            } else {
                draw::blank(w as usize)
            };
            proof {
                assert(app::spans(rows@).len() == rows@.len());
                assert forall|hay: Seq<u8>| #[trigger] before.shows(hay) implies draw::segs(line@)
                    == drawn_row(m, hay, app::spans(rows@), i as int, w as int, digits as int) by {
                    if i < rows@.len() {
                        assert(m.shape(hay).clip(rows@[i as int].span(), m.hoff) == here.shape(
                            hay,
                        ).clip(rows@[i as int].span(), here.hoff as int));
                    }
                }
            }
            lines.push(line);
        }
        Ok(lines)
    }
}

/// A line of a screen made of the given rows.
spec fn drawn_row(
    m: Model,
    hay: Seq<u8>,
    screen: Seq<Span>,
    i: int,
    w: int,
    digits: int,
) -> Seq<SegModel> {
    if i < screen.len() {
        m.line(hay, m.shape(hay).clip(screen[i], m.hoff), w, digits)
    } else {
        draw::filled(Paint::Data, w)
    }
}

/// How many bytes of a line the data holds.
spec fn body_len(ln: Clip, data: Seq<u8>, back: int) -> int {
    rows::least(ln.len, rows::above(data.len() as int, back))
}

fn line_body(ln: &Line, data: &[u8], back: usize) -> (res: usize)
    ensures
        res == body_len(ln.model(), data@, back as int),
        back + res <= usize::MAX,
{
    let have: usize = data.len();
    if have <= back {
        0
    } else if have - back < ln.len {
        have - back
    } else {
        ln.len
    }
}

/// A match covers no byte outside the data.
proof fn lemma_uncovered(slot: Option<PatternModel>, data: Seq<u8>)
    ensures
        forall|k: int| k >= data.len() ==> !#[trigger] covered(slot, data, k),
{
    if let Some(p) = slot {
        let all = pattern::all_matches(p.items, data, 0, data.len() as int);
        assert forall|k: int| k >= data.len() implies !#[trigger] covered(slot, data, k) by {
            if p.items.len() > 0 {
                pattern::lemma_all_matches(p.items, data, 0, data.len() as int);
            }
        }
    }
}

} // verus!
