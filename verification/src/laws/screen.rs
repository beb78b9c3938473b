//! Laws of the screen, cell by cell: which character stands where, and in what
//! paint.

use crate::draw;
use crate::draw::{Paint, SegModel, Style};
use crate::encoding;
use crate::encoding::Encoding;
use crate::laws::draw as draw_laws;
use crate::laws::encoding as page_laws;
use crate::model::{InputModel, Model};
use crate::rows;
use crate::rows::Clip;
use crate::text;
use crate::view;
use crate::view::Mode;
use vstd::prelude::*;

verus! {

// ── Cells in their paint ────────────────────────────────────────────────────

/// A cell of the screen: the code point of its character, and its paint.
pub struct Cell {
    pub c: int,
    pub paint: Paint,
}

/// A text in one paint.
pub open spec fn coloured(paint: Paint, s: Seq<char>) -> Seq<Cell> {
    Seq::new(s.len(), |i: int| Cell { c: s[i] as int, paint })
}

/// So many blanks.
pub open spec fn blanks(n: int) -> Seq<char> {
    Seq::new(
        if n > 0 {
            n as nat
        } else {
            0
        },
        |i: int| ' ',
    )
}

/// The cells that pieces take.
pub open spec fn shown(s: Seq<SegModel>) -> Seq<Cell>
    decreases s.len(),
{
    if s.len() == 0 {
        seq![]
    } else {
        shown(s.drop_last()) + coloured(s.last().paint, s.last().text)
    }
}

pub proof fn lemma_shown_sum(a: Seq<SegModel>, b: Seq<SegModel>)
    ensures
        shown(a + b) == shown(a) + shown(b),
    decreases b.len(),
{
    if b.len() > 0 {
        assert((a + b).drop_last() =~= a + b.drop_last());
        assert((a + b).last() == b.last());
        lemma_shown_sum(a, b.drop_last());
        assert(shown(a + b) =~= shown(a) + shown(b));
    } else {
        assert(a + b =~= a);
        assert(shown(a) + Seq::<Cell>::empty() =~= shown(a));
    }
}

pub proof fn lemma_shown_piece(paint: Paint, s: Seq<char>)
    ensures
        shown(draw::piece(paint, s)) == coloured(paint, s),
{
    let p = draw::piece(paint, s);
    assert(p.drop_last() =~= Seq::<SegModel>::empty());
    assert(shown(p.drop_last()) =~= Seq::<Cell>::empty());
    assert(shown(p) =~= coloured(paint, s));
}

proof fn lemma_shown_len(s: Seq<SegModel>)
    ensures
        shown(s).len() == draw::width(s),
    decreases s.len(),
{
    if s.len() > 0 {
        lemma_shown_len(s.drop_last());
    }
}

/// Padding adds blanks up to the edge, in the paint of the background.
pub proof fn law_padding_is_blank(s: Seq<SegModel>, paint: Paint, w: int)
    ensures
        shown(draw::padded(s, paint, w)) == shown(s) + coloured(paint, blanks(w - shown(s).len())),
{
    lemma_shown_len(s);
    let n = w - draw::width(s);
    lemma_shown_sum(s, draw::filled(paint, n));
    if n > 0 {
        lemma_shown_piece(paint, text::copies(' ', n));
        assert(text::copies(' ', n) =~= blanks(n));
    } else {
        assert(shown(draw::filled(paint, n)) =~= Seq::<Cell>::empty());
        assert(coloured(paint, blanks(n)) =~= Seq::<Cell>::empty());
    }
}

/// The paint of a cell: white for the cursor, yellow for a match, its own
/// otherwise.
pub open spec fn ink(style: Style, plain: Paint) -> Paint {
    if style == Style::Cursor {
        Paint::Cursor
    } else if style == Style::Match {
        Paint::Match
    } else {
        plain
    }
}

/// Cells one after the other, each in the paint of its style.
pub open spec fn inked(cells: Seq<Seq<char>>, styles: Seq<Style>, plain: Paint) -> Seq<Cell>
    decreases cells.len(),
{
    if cells.len() == 0 {
        seq![]
    } else {
        inked(cells.drop_last(), styles, plain) + coloured(
            ink(styles[cells.len() - 1], plain),
            cells.last(),
        )
    }
}

/// Merging cells into runs changes neither what they say nor their paint.
pub proof fn law_runs_keep_every_cell_in_its_paint(
    cells: Seq<Seq<char>>,
    styles: Seq<Style>,
    plain: Paint,
)
    ensures
        shown(draw::merged(cells, styles, plain)) == inked(cells, styles, plain),
    decreases cells.len(),
{
    if cells.len() > 0 {
        let n = cells.len() - 1;
        let front = cells.drop_last();
        let before = draw::merged(front, styles, plain);
        let all = draw::merged(cells, styles, plain);
        law_runs_keep_every_cell_in_its_paint(front, styles, plain);
        draw_laws::lemma_last_paint(front, styles, plain);
        if n > 0 && styles[n] == styles[n - 1] {
            let paint = before.last().paint;
            assert(paint == ink(styles[n], plain));
            assert(all.drop_last() =~= before.drop_last());
            assert(coloured(paint, before.last().text + cells[n]) =~= coloured(
                paint,
                before.last().text,
            ) + coloured(paint, cells[n]));
            assert(shown(all) =~= shown(before) + coloured(paint, cells[n]));
        } else {
            assert(all.drop_last() =~= before);
        }
    } else {
        assert(shown(draw::merged(cells, styles, plain)) =~= Seq::<Cell>::empty());
    }
}

// ── A line of the file ──────────────────────────────────────────────────────

/// What byte `i` of a line shows in the byte column: the byte itself in its
/// mode, or a gap as wide behind the last one.
pub open spec fn byte_shown(m: Model, hay: Seq<u8>, ln: Clip, i: int) -> Seq<char> {
    if i < ln.len {
        view::byte_text(m.mode, hay[ln.off + i], encoding::cells(m.enc, hay)[ln.off + i])
    } else {
        blanks(
            match m.mode {
                Mode::Hex => 3,
                Mode::Binary => 9,
                Mode::Text => 1,
            },
        )
    }
}

/// What it shows in the text column: the cell that decoding the whole file
/// gives it.
pub open spec fn char_shown(m: Model, hay: Seq<u8>, ln: Clip, i: int) -> Seq<char> {
    if i < ln.len {
        seq![encoding::cells(m.enc, hay)[ln.off + i]]
    } else {
        seq![' ']
    }
}

proof fn lemma_cells(m: Model, hay: Seq<u8>, ln: Clip)
    requires
        0 <= ln.off,
        0 <= ln.len <= m.bpl,
        ln.off + ln.len <= hay.len(),
        m.context(ln) + ln.len + m.lookback() <= usize::MAX,
    ensures
        m.byte_cells(m.line_data(hay, ln), ln) == Seq::new(
            m.bpl as nat,
            |i: int| byte_shown(m, hay, ln, i),
        ),
        m.text_cells(m.line_data(hay, ln), ln) == Seq::new(
            m.bpl as nat,
            |i: int| char_shown(m, hay, ln, i),
        ),
{
    let data = m.line_data(hay, ln);
    let back = m.context(ln);
    let a = ln.off - back;
    let b = rows::least(ln.off + ln.len + m.lookback(), hay.len() as int);
    assert(data =~= hay.subrange(a, b));
    let bytes = m.byte_cells(data, ln);
    let chars = m.text_cells(data, ln);
    assert(text::copies(' ', 3) =~= blanks(3));
    assert(text::copies(' ', 9) =~= blanks(9));
    assert(text::copies(' ', 1) =~= blanks(1));
    assert forall|i: int| 0 <= i < m.bpl implies (#[trigger] bytes[i]) == byte_shown(
        m,
        hay,
        ln,
        i,
    ) by {
        if i < ln.len {
            draw_laws::law_a_line_shows_the_cells_of_the_file(m, hay, ln, i);
            assert(chars[i][0] == encoding::cells(m.enc, hay)[ln.off + i]);
            assert(data[back + i] == hay[ln.off + i]);
        }
    }
    assert forall|i: int| 0 <= i < m.bpl implies (#[trigger] chars[i]) == char_shown(
        m,
        hay,
        ln,
        i,
    ) by {
        if i < ln.len {
            draw_laws::law_a_line_shows_the_cells_of_the_file(m, hay, ln, i);
            assert(chars[i] =~= seq![encoding::cells(m.enc, hay)[ln.off + i]]);
        }
    }
    assert(bytes =~= Seq::new(m.bpl as nat, |i: int| byte_shown(m, hay, ln, i)));
    assert(chars =~= Seq::new(m.bpl as nat, |i: int| char_shown(m, hay, ln, i)));
}

/// A line of the screen from left to right: the offset of its first byte, the
/// mark of bytes scrolled off, every byte in its mode, the mark of bytes that do
/// not fit where the separator goes, the text column where the mode has one, and
/// blanks up to the edge.
pub proof fn law_a_line_from_left_to_right(m: Model, hay: Seq<u8>, ln: Clip, w: int, digits: int)
    requires
        0 <= ln.off,
        0 <= ln.len <= m.bpl,
        ln.off + ln.len <= hay.len(),
        m.context(ln) + ln.len + m.lookback() <= usize::MAX,
    ensures
        ({
            let bytes = Seq::new(m.bpl as nat, |i: int| byte_shown(m, hay, ln, i));
            let chars = Seq::new(m.bpl as nat, |i: int| char_shown(m, hay, ln, i));
            let styles = Seq::new(
                m.bpl as nat,
                |i: int| m.style_at(m.line_data(hay, ln), ln, i),
            );
            let head = coloured(Paint::Offset, view::fixed_hex(ln.off, digits) + seq![':']);
            let left = if ln.skipped > 0 {
                coloured(Paint::Trunc, seq!['‹'])
            } else {
                coloured(Paint::Offset, seq![' '])
            };
            let right = if ln.hidden > 0 {
                coloured(Paint::Trunc, seq!['›'])
            } else if m.mode == Mode::Text {
                Seq::<Cell>::empty()
            } else {
                coloured(Paint::Data, seq![' '])
            };
            let column = if m.mode == Mode::Text {
                Seq::<Cell>::empty()
            } else {
                inked(chars, styles, Paint::Text)
            };
            let said = head + left + inked(bytes, styles, Paint::Data) + right + column;
            shown(m.line(hay, ln, w, digits)) == said + coloured(
                Paint::Data,
                blanks(w - said.len()),
            )
        }),
{
    lemma_cells(m, hay, ln);
    reveal_strlit("‹");
    reveal_strlit("›");
    reveal_strlit(" ");
    assert("‹"@ =~= seq!['‹']);
    assert("›"@ =~= seq!['›']);
    assert(" "@ =~= seq![' ']);
    let data = m.line_data(hay, ln);
    let styles = m.styles(data, ln);
    let hex = view::fixed_hex(ln.off, digits);
    assert(hex.push(':') =~= hex + seq![':']);
    let p1 = draw::piece(Paint::Offset, hex.push(':'));
    let p2 = if ln.skipped > 0 {
        draw::piece(Paint::Trunc, "‹"@)
    } else {
        draw::piece(Paint::Offset, " "@)
    };
    let p3 = draw::merged(m.byte_cells(data, ln), styles, Paint::Data);
    let p4 = if ln.hidden > 0 {
        draw::piece(Paint::Trunc, "›"@)
    } else if m.mode != Mode::Text {
        draw::piece(Paint::Data, " "@)
    } else {
        seq![]
    };
    let p5 = if m.mode != Mode::Text {
        draw::merged(m.text_cells(data, ln), styles, Paint::Text)
    } else {
        seq![]
    };
    lemma_shown_piece(Paint::Offset, hex.push(':'));
    lemma_shown_piece(Paint::Trunc, "‹"@);
    lemma_shown_piece(Paint::Offset, " "@);
    lemma_shown_piece(Paint::Trunc, "›"@);
    lemma_shown_piece(Paint::Data, " "@);
    law_runs_keep_every_cell_in_its_paint(m.byte_cells(data, ln), styles, Paint::Data);
    law_runs_keep_every_cell_in_its_paint(m.text_cells(data, ln), styles, Paint::Text);
    assert(shown(Seq::<SegModel>::empty()) =~= Seq::<Cell>::empty());
    lemma_shown_sum(p1, p2);
    lemma_shown_sum(p1 + p2, p3);
    lemma_shown_sum(p1 + p2 + p3, p4);
    lemma_shown_sum(p1 + p2 + p3 + p4, p5);
    let all = p1 + p2 + p3 + p4 + p5;
    assert(m.line_pieces(hay, ln, digits) == all);
    law_padding_is_blank(all, Paint::Data, w);
}

/// The style of a byte: the cursor where it is, highlighting only if it is on,
/// and nothing behind the last byte.
pub proof fn law_the_cursor_wins(m: Model, data: Seq<u8>, ln: Clip, i: int)
    ensures
        ({
            let style = m.style_at(data, ln, i);
            &&& style == Style::Cursor <==> i < ln.len && m.cur == ln.off + i
            &&& style == Style::Match ==> m.highlight
            &&& i >= ln.len ==> style == Style::Plain
        }),
{
}

/// The screen shows the rows of the view in their order, scrolled sideways
/// alike, and blank lines behind the last.
pub proof fn law_the_screen_shows_its_rows(m: Model, hay: Seq<u8>, w: int, digits: int, i: int)
    requires
        0 <= i < m.rows,
    ensures
        ({
            let rows = m.shape(hay).screen(m.top, m.rows);
            let lines = m.lines(hay, w, digits);
            &&& lines.len() == m.rows
            &&& i < rows.len() ==> lines[i] == m.line(
                hay,
                m.shape(hay).clip(rows[i], m.hoff),
                w,
                digits,
            )
            &&& i >= rows.len() ==> shown(lines[i]) == coloured(Paint::Data, blanks(w))
        }),
{
    law_padding_is_blank(Seq::<SegModel>::empty(), Paint::Data, w);
    let empty = Seq::<SegModel>::empty();
    assert(shown(empty) =~= Seq::<Cell>::empty());
    assert(draw::padded(empty, Paint::Data, w) =~= draw::filled(Paint::Data, w - draw::width(empty)));
    assert(draw::width(empty) == 0);
    assert(Seq::<Cell>::empty() + coloured(Paint::Data, blanks(w)) =~= coloured(
        Paint::Data,
        blanks(w),
    ));
}

// ── The bars ────────────────────────────────────────────────────────────────

/// The readout: the offset of the cursor in hex, its byte in hex and in decimal,
/// and the cell that decoding the whole file gives it.
pub proof fn law_the_readout_is_of_the_byte_under_the_cursor(m: Model, hay: Seq<u8>, digits: int)
    requires
        0 <= m.cur < hay.len(),
        digits >= 0,
    ensures
        m.readout(hay, digits) == seq!['0', 'x'] + text::pad_front(
            text::radix_text(m.cur, 16),
            '0',
            digits,
        ) + seq![' '] + text::pad_front(text::radix_text(hay[m.cur] as int, 16), '0', 2) + seq![' ']
            + text::pad_front(text::radix_text(hay[m.cur] as int, 10), ' ', 3) + seq![
            ' ',
            '\'',
            encoding::cells(m.enc, hay)[m.cur],
            '\'',
        ],
{
    reveal_strlit("0x");
    reveal_strlit(" ");
    reveal_strlit(" '");
    let back = rows::least(encoding::LOOKAHEAD as int, m.cur);
    let data = crate::reader::part(hay, m.cur - back, back + 1 + encoding::LOOKAHEAD);
    let end = rows::least(m.cur + 1 + encoding::LOOKAHEAD, hay.len() as int);
    assert(data =~= hay.subrange(m.cur - back, end));
    assert(data[back] == hay[m.cur]);
    let glyph = encoding::cells(m.enc, data)[back];
    if m.enc == Encoding::Utf8 {
        page_laws::law_context_is_enough(hay, m.cur, 1, back, encoding::LOOKAHEAD as int);
        let part = encoding::utf8_cells(data);
        let whole = encoding::utf8_cells(hay);
        encoding::lemma_utf8_cells_len(data);
        encoding::lemma_utf8_cells_len(hay);
        assert(part.subrange(back, back + 1)[0] == part[back]);
        assert(whole.subrange(m.cur, m.cur + 1)[0] == whole[m.cur]);
    }
    assert(glyph == encoding::cells(m.enc, hay)[m.cur]);
    assert("0x"@ =~= seq!['0', 'x']);
    assert(" "@ =~= seq![' ']);
    assert(" '"@ + seq![glyph, '\''] =~= seq![' ', '\'', glyph, '\'']);
    let off = text::pad_front(text::radix_text(m.cur, 16), '0', digits);
    let hex = text::pad_front(text::radix_text(hay[m.cur] as int, 16), '0', 2);
    let dec = text::pad_front(text::radix_text(hay[m.cur] as int, 10), ' ', 3);
    assert("0x"@ + off + " "@ + hex + " "@ + dec + " '"@ + seq![glyph, '\''] =~= seq!['0', 'x']
        + off + seq![' '] + hex + seq![' '] + dec + seq![' ', '\'', glyph, '\'']);
}

/// Without a byte under the cursor the readout says so.
pub proof fn law_the_readout_of_no_byte(m: Model, hay: Seq<u8>, digits: int)
    requires
        m.cur >= hay.len(),
        digits >= 0,
    ensures
        hay.len() == 0 ==> m.readout(hay, digits) == text::pad_back("empty file"@, digits + 13),
        hay.len() > 0 ==> m.readout(hay, digits) == text::pad_back("past the end"@, digits + 13),
{
}

/// The title bar: the name of the file on the left, as much of its tail as
/// there is room for, and on the right the mode, the code page, the record
/// pattern if there is one, the readout, the length and how far into the file
/// the cursor is.
pub proof fn law_the_title_bar_from_left_to_right(
    m: Model,
    name: Seq<char>,
    len: int,
    w: int,
    readout: Seq<char>,
    percent: int,
)
    requires
        0 <= w,
    ensures
        ({
            let note = match m.record {
                Some(p) => " | "@ + draw::head_of(p.text, 12) + if m.wrap {
                    " wrap"@
                } else {
                    " cut"@
                },
                None => Seq::<char>::empty(),
            };
            let right = " "@ + text::pad_back(m.mode.name_text(), 4) + " "@ + text::pad_back(
                m.enc.name_text(),
                6,
            ) + note + " | "@ + readout + " | "@ + text::radix_text(len, 10) + " bytes | "@
                + text::pad_front(text::radix_text(percent, 10), ' ', 3) + "% "@;
            let room: int = if w > right.len() + 2 {
                w - right.len() - 2
            } else {
                0
            };
            let left = seq![' '] + draw::tail_of(name, room);
            let said = left + blanks(w - left.len() - right.len()) + right;
            shown(m.title(name, len, w, readout, percent)) == coloured(
                Paint::Bar,
                said + blanks(w - said.len()),
            )
        }),
{
    let right = m.title_right(len, readout, percent);
    let room = rows::above(rows::above(w, right.len() as int + 1), 1);
    let left = seq![' '] + draw::tail_of(name, room);
    let n = w - (left.len() + right.len());
    let a = draw::piece(Paint::Bar, left);
    let b = draw::filled(Paint::Bar, n);
    let c = draw::piece(Paint::Bar, right);
    lemma_shown_piece(Paint::Bar, left);
    lemma_shown_piece(Paint::Bar, right);
    if n > 0 {
        lemma_shown_piece(Paint::Bar, text::copies(' ', n));
        assert(text::copies(' ', n) =~= blanks(n));
    } else {
        assert(shown(b) =~= Seq::<Cell>::empty());
        assert(coloured(Paint::Bar, blanks(n)) =~= Seq::<Cell>::empty());
    }
    lemma_shown_sum(a, b);
    lemma_shown_sum(a + b, c);
    law_padding_is_blank(a + b + c, Paint::Bar, w);
    let said = left + blanks(n) + right;
    assert(shown(a + b + c) =~= coloured(Paint::Bar, said));
    assert(coloured(Paint::Bar, said) + coloured(Paint::Bar, blanks(w - said.len()))
        =~= coloured(Paint::Bar, said + blanks(w - said.len())));
}

/// The bottom bar at a prompt: what is asked for, what was typed so far, and a
/// mark where the next character goes.
pub proof fn law_the_bottom_bar_shows_the_prompt(m: Model, w: int)
    ensures
        ({
            let bar = shown(m.bottom(w));
            let asked = |label: Seq<char>, s: Seq<char>|
                coloured(
                    Paint::Bar,
                    label + s + seq!['_'] + blanks(w - (label.len() + s.len() + 1)),
                );
            match m.input {
                InputModel::Goto(s) => bar == asked(" Go to offset: "@, s),
                InputModel::Search(s) => bar == asked(
                    " Search in "@ + m.enc.name_text() + " (x: for hex, ?? any byte): "@,
                    s,
                ),
                InputModel::Record(s) => bar == asked(
                    " Line = record, pattern (empty to turn off): "@,
                    s,
                ),
                InputModel::Normal => m.status.len() > 0 ==> bar == coloured(
                    Paint::Bar,
                    seq![' '] + m.status + seq![' '] + blanks(w - (m.status.len() + 2)),
                ),
            }
        }),
{
    match m.input {
        InputModel::Goto(s) => lemma_prompt(" Go to offset: "@, s, w),
        InputModel::Search(s) => lemma_prompt(
            " Search in "@ + m.enc.name_text() + " (x: for hex, ?? any byte): "@,
            s,
            w,
        ),
        InputModel::Record(s) => lemma_prompt(
            " Line = record, pattern (empty to turn off): "@,
            s,
            w,
        ),
        InputModel::Normal => {
            if m.status.len() > 0 {
                let said = seq![' '] + m.status + seq![' '];
                let p = draw::piece(Paint::Bar, said);
                lemma_shown_piece(Paint::Bar, said);
                law_padding_is_blank(p, Paint::Bar, w);
                let n = w - said.len();
                assert(coloured(Paint::Bar, said) + coloured(Paint::Bar, blanks(n)) =~= coloured(
                    Paint::Bar,
                    said + blanks(n),
                ));
            }
        },
    }
}

proof fn lemma_prompt(label: Seq<char>, s: Seq<char>, w: int)
    ensures
        shown(draw::padded(crate::frame::prompt(label, s), Paint::Bar, w)) == coloured(
            Paint::Bar,
            label + s + seq!['_'] + blanks(w - (label.len() + s.len() + 1)),
        ),
{
    reveal_strlit("_");
    assert("_"@ =~= seq!['_']);
    let a = draw::piece(Paint::Bar, label);
    let b = draw::piece(Paint::Bar, s);
    let c = draw::piece(Paint::Bar, "_"@);
    lemma_shown_piece(Paint::Bar, label);
    lemma_shown_piece(Paint::Bar, s);
    lemma_shown_piece(Paint::Bar, "_"@);
    lemma_shown_sum(a, b);
    lemma_shown_sum(a + b, c);
    law_padding_is_blank(a + b + c, Paint::Bar, w);
    let said = label + s + seq!['_'];
    assert(shown(a + b + c) =~= coloured(Paint::Bar, said));
    let n = w - said.len();
    assert(coloured(Paint::Bar, said) + coloured(Paint::Bar, blanks(n)) =~= coloured(
        Paint::Bar,
        said + blanks(n),
    ));
}

/// With nothing else to say the bottom bar lists the keys; 3 shows where it leads
/// next, and 9 is there once lines are records.
pub proof fn law_the_bottom_bar_lists_the_keys(m: Model, w: int)
    requires
        m.input is Normal,
        m.status.len() == 0,
    ensures
        ({
            let key = |k: Seq<char>, label: Seq<char>|
                coloured(Paint::Data, k) + coloured(Paint::Bar, label) + coloured(
                    Paint::Data,
                    seq![' '],
                );
            let third = if m.mode == Mode::Text {
                m.enc.after().name_text()
            } else {
                "Txt"@
            };
            let wrap = if m.record is None {
                Seq::<Cell>::empty()
            } else if m.wrap {
                key("9"@, "Wrap"@)
            } else {
                key("9"@, "Cut"@)
            };
            let said = key("1"@, "Bin"@) + key("2"@, "Hex"@) + key("3"@, third) + key(
                "5"@,
                "Goto"@,
            ) + key("6"@, "Rec"@) + key("7"@, "Find"@) + key("8"@, "Next"@) + wrap + key(
                "10"@,
                "Quit"@,
            );
            shown(m.bottom(w)) == said + coloured(Paint::Bar, blanks(w - said.len()))
        }),
{
    let third = if m.mode == Mode::Text {
        m.enc.after().name_text()
    } else {
        "Txt"@
    };
    let s1 = crate::frame::slot("1"@, "Bin"@);
    let s2 = crate::frame::slot("2"@, "Hex"@);
    let s3 = crate::frame::slot("3"@, third);
    let s5 = crate::frame::slot("5"@, "Goto"@);
    let s6 = crate::frame::slot("6"@, "Rec"@);
    let s7 = crate::frame::slot("7"@, "Find"@);
    let s8 = crate::frame::slot("8"@, "Next"@);
    let s9 = if m.record is Some {
        crate::frame::slot(
            "9"@,
            if m.wrap {
                "Wrap"@
            } else {
                "Cut"@
            },
        )
    } else {
        Seq::<SegModel>::empty()
    };
    let s10 = crate::frame::slot("10"@, "Quit"@);
    lemma_slot("1"@, "Bin"@);
    lemma_slot("2"@, "Hex"@);
    lemma_slot("3"@, third);
    lemma_slot("5"@, "Goto"@);
    lemma_slot("6"@, "Rec"@);
    lemma_slot("7"@, "Find"@);
    lemma_slot("8"@, "Next"@);
    lemma_slot("9"@, "Wrap"@);
    lemma_slot("9"@, "Cut"@);
    lemma_slot("10"@, "Quit"@);
    assert(shown(Seq::<SegModel>::empty()) =~= Seq::<Cell>::empty());
    lemma_shown_sum(s1, s2);
    lemma_shown_sum(s1 + s2, s3);
    lemma_shown_sum(s1 + s2 + s3, s5);
    lemma_shown_sum(s1 + s2 + s3 + s5, s6);
    lemma_shown_sum(s1 + s2 + s3 + s5 + s6, s7);
    lemma_shown_sum(s1 + s2 + s3 + s5 + s6 + s7, s8);
    lemma_shown_sum(s1 + s2 + s3 + s5 + s6 + s7 + s8, s9);
    lemma_shown_sum(s1 + s2 + s3 + s5 + s6 + s7 + s8 + s9, s10);
    let all = s1 + s2 + s3 + s5 + s6 + s7 + s8 + s9 + s10;
    assert(m.slots() == all);
    law_padding_is_blank(all, Paint::Bar, w);
}

proof fn lemma_slot(key: Seq<char>, label: Seq<char>)
    ensures
        shown(crate::frame::slot(key, label)) == coloured(Paint::Data, key) + coloured(
            Paint::Bar,
            label,
        ) + coloured(Paint::Data, seq![' ']),
{
    reveal_strlit(" ");
    assert(" "@ =~= seq![' ']);
    let a = draw::piece(Paint::Data, key);
    let b = draw::piece(Paint::Bar, label);
    let c = draw::piece(Paint::Data, " "@);
    lemma_shown_piece(Paint::Data, key);
    lemma_shown_piece(Paint::Bar, label);
    lemma_shown_piece(Paint::Data, " "@);
    lemma_shown_sum(a, b);
    lemma_shown_sum(a + b, c);
}

/// A text too long for its room gives up just what it takes for the mark that
/// says so: a path its head, a pattern its tail.
pub proof fn law_a_long_text_fills_its_room(s: Seq<char>, room: int)
    requires
        1 <= room,
    ensures
        s.len() <= room ==> draw::tail_of(s, room) == s && draw::head_of(s, room) == s,
        s.len() > room ==> {
            &&& draw::tail_of(s, room) == seq!['…'] + s.subrange(
                s.len() - (room - 1),
                s.len() as int,
            )
            &&& draw::head_of(s, room) == s.subrange(0, room - 1) + seq!['…']
            &&& draw::tail_of(s, room).len() == room && draw::head_of(s, room).len() == room
        },
{
    if s.len() > room {
        assert(draw::tail_of(s, room) =~= seq!['…'] + s.subrange(
            s.len() - (room - 1),
            s.len() as int,
        ));
        assert(draw::head_of(s, room) =~= s.subrange(0, room - 1) + seq!['…']);
    }
}

/// A part of the file is just these bytes of it, as far as it goes.
pub proof fn law_a_part_of_the_file(hay: Seq<u8>, start: int, want: int, i: int)
    requires
        0 <= start,
        0 <= want,
    ensures
        ({
            let part = crate::reader::part(hay, start, want);
            &&& start >= hay.len() ==> part.len() == 0
            &&& start < hay.len() && start + want <= hay.len() ==> part.len() == want
            &&& start < hay.len() && start + want > hay.len() ==> part.len() == hay.len() - start
            &&& 0 <= i < part.len() ==> part[i] == hay[start + i]
        }),
{
}

} // verus!
