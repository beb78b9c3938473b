//! Laws of drawing.

use crate::draw;
use crate::draw::{Paint, SegModel, Style};
use crate::encoding::Encoding;
use crate::frame;
use crate::laws::encoding as page_laws;
use crate::laws::pattern as pattern_laws;
use crate::laws::view as view_laws;
use crate::model::{Model, PatternModel};
use crate::pattern;
use crate::reader;
use crate::rows;
use crate::rows::Clip;
use crate::text;
use crate::view;
use crate::view::Mode;
use vstd::prelude::*;

verus! {

// ── Pieces ──────────────────────────────────────────────────────────────────

/// Texts one after the other.
pub open spec fn joined(s: Seq<Seq<char>>) -> Seq<char>
    decreases s.len(),
{
    if s.len() == 0 {
        seq![]
    } else {
        joined(s.drop_last()) + s.last()
    }
}

/// What pieces spell out.
pub open spec fn spelled(s: Seq<SegModel>) -> Seq<char>
    decreases s.len(),
{
    if s.len() == 0 {
        seq![]
    } else {
        spelled(s.drop_last()) + s.last().text
    }
}

pub proof fn lemma_width(s: Seq<SegModel>)
    ensures
        draw::width(s) == spelled(s).len(),
    decreases s.len(),
{
    if s.len() > 0 {
        lemma_width(s.drop_last());
    }
}

proof fn lemma_width_sum(a: Seq<SegModel>, b: Seq<SegModel>)
    ensures
        draw::width(a + b) == draw::width(a) + draw::width(b),
    decreases b.len(),
{
    if b.len() > 0 {
        assert((a + b).drop_last() =~= a + b.drop_last());
        assert((a + b).last() == b.last());
        lemma_width_sum(a, b.drop_last());
    } else {
        assert(a + b =~= a);
    }
}

proof fn lemma_piece(paint: Paint, s: Seq<char>)
    ensures
        draw::width(draw::piece(paint, s)) == s.len(),
{
    let p = draw::piece(paint, s);
    assert(p.drop_last() =~= Seq::<SegModel>::empty());
    assert(draw::width(p.drop_last()) == 0);
}

/// A line is padded to the edge of the screen: it takes exactly the width, or
/// more where what it says does not fit.
pub proof fn law_padding_reaches_the_edge(s: Seq<SegModel>, paint: Paint, w: int)
    ensures
        draw::width(draw::padded(s, paint, w)) == frame::most(draw::width(s), w),
{
    let n = w - draw::width(s);
    lemma_width_sum(s, draw::filled(paint, n));
    if n > 0 {
        lemma_piece(paint, text::copies(' ', n));
    } else {
        assert(draw::width(draw::filled(paint, n)) == 0);
    }
}

/// Merging cells into runs changes nothing of what they say.
pub proof fn law_runs_spell_out_the_cells(
    cells: Seq<Seq<char>>,
    styles: Seq<Style>,
    plain: Paint,
)
    ensures
        spelled(draw::merged(cells, styles, plain)) == joined(cells),
        cells.len() > 0 ==> draw::merged(cells, styles, plain).len() > 0,
    decreases cells.len(),
{
    if cells.len() > 0 {
        let n = cells.len() - 1;
        let before = draw::merged(cells.drop_last(), styles, plain);
        let all = draw::merged(cells, styles, plain);
        law_runs_spell_out_the_cells(cells.drop_last(), styles, plain);
        if n > 0 && styles[n] == styles[n - 1] {
            assert(all.drop_last() =~= before.drop_last());
            assert(spelled(all) =~= spelled(before) + cells[n]);
        } else {
            assert(all.drop_last() =~= before);
        }
    }
}

/// Neighbouring cells of the same style are one piece: no two pieces in a row
/// have the same paint.
pub proof fn law_runs_are_as_long_as_they_can_be(
    cells: Seq<Seq<char>>,
    styles: Seq<Style>,
    plain: Paint,
    k: int,
)
    requires
        plain != Paint::Match,
        plain != Paint::Cursor,
        0 <= k,
        k + 1 < draw::merged(cells, styles, plain).len(),
    ensures
        draw::merged(cells, styles, plain)[k].paint != draw::merged(cells, styles, plain)[k
            + 1].paint,
    decreases cells.len(),
{
    if cells.len() > 0 {
        let n = cells.len() - 1;
        let before = draw::merged(cells.drop_last(), styles, plain);
        let all = draw::merged(cells, styles, plain);
        lemma_last_paint(cells.drop_last(), styles, plain);
        if k + 1 < before.len() {
            law_runs_are_as_long_as_they_can_be(cells.drop_last(), styles, plain, k);
        }
    }
}

/// The last run has the paint of the last cell.
pub proof fn lemma_last_paint(cells: Seq<Seq<char>>, styles: Seq<Style>, plain: Paint)
    ensures
        cells.len() > 0 ==> {
            let all = draw::merged(cells, styles, plain);
            &&& all.len() > 0
            &&& all.last().paint == draw::style_paint(styles[cells.len() - 1], plain)
        },
        cells.len() == 0 ==> draw::merged(cells, styles, plain).len() == 0,
    decreases cells.len(),
{
    if cells.len() > 0 {
        lemma_last_paint(cells.drop_last(), styles, plain);
    }
}

// ── Lines ───────────────────────────────────────────────────────────────────

/// Cells of at most so many characters each.
proof fn lemma_joined_len(cells: Seq<Seq<char>>, each: int)
    requires
        each >= 0,
        forall|i: int| 0 <= i < cells.len() ==> (#[trigger] cells[i]).len() <= each,
    ensures
        joined(cells).len() <= cells.len() * each,
    decreases cells.len(),
{
    if cells.len() > 0 {
        let front = cells.drop_last();
        assert forall|i: int| 0 <= i < front.len() implies (#[trigger] front[i]).len() <= each by {
            assert(front[i] == cells[i]);
        }
        lemma_joined_len(front, each);
        assert(cells.len() * each == front.len() * each + each) by (nonlinear_arith)
            requires
                cells.len() == front.len() + 1,
        ;
    }
}

/// A line of the file takes exactly the width of the window, if the layout
/// fits it. In text mode a record that does not fit has a mark for which the
/// layout keeps no cell.
pub proof fn law_lines_end_at_the_edge(m: Model, hay: Seq<u8>, ln: Clip, w: int, digits: int)
    requires
        m.bpl >= 0,
        digits >= 0,
        view_laws::line_cells(m.mode, m.bpl, digits) <= w,
        m.mode == Mode::Text ==> ln.hidden <= 0,
    ensures
        draw::width(m.line(hay, ln, w, digits)) == w,
{
    reveal_strlit("‹");
    reveal_strlit("›");
    reveal_strlit(" ");
    let data = m.line_data(hay, ln);
    let styles = m.styles(data, ln);
    let bytes = m.byte_cells(data, ln);
    let chars = m.text_cells(data, ln);
    assert forall|i: int| 0 <= i < bytes.len() implies (#[trigger] bytes[i]).len()
        <= view::cell_width(m.mode) by {
        let back = m.context(ln);
        if i < ln.len && back + i < data.len() {
            view_laws::law_gaps_are_as_wide_as_bytes(
                m.mode,
                data[back + i],
                crate::encoding::cells(m.enc, data)[back + i],
            );
        }
    }
    lemma_joined_len(bytes, view::cell_width(m.mode));
    lemma_joined_len(chars, 1);
    let byte_runs = draw::merged(bytes, styles, Paint::Data);
    let char_runs = draw::merged(chars, styles, Paint::Text);
    law_runs_spell_out_the_cells(bytes, styles, Paint::Data);
    law_runs_spell_out_the_cells(chars, styles, Paint::Text);
    lemma_width(byte_runs);
    lemma_width(char_runs);
    let head = draw::piece(Paint::Offset, view::fixed_hex(ln.off, digits).push(':'));
    view::lemma_fixed_hex_len(ln.off, digits);
    lemma_piece(Paint::Offset, view::fixed_hex(ln.off, digits).push(':'));
    let left = if ln.skipped > 0 {
        draw::piece(Paint::Trunc, "‹"@)
    } else {
        draw::piece(Paint::Offset, " "@)
    };
    lemma_piece(Paint::Trunc, "‹"@);
    lemma_piece(Paint::Offset, " "@);
    lemma_piece(Paint::Trunc, "›"@);
    lemma_piece(Paint::Data, " "@);
    let right = if ln.hidden > 0 {
        draw::piece(Paint::Trunc, "›"@)
    } else if m.mode != Mode::Text {
        draw::piece(Paint::Data, " "@)
    } else {
        seq![]
    };
    let column = if m.mode != Mode::Text {
        char_runs
    } else {
        seq![]
    };
    lemma_width_sum(head, left);
    lemma_width_sum(head + left, byte_runs);
    lemma_width_sum(head + left + byte_runs, right);
    lemma_width_sum(head + left + byte_runs + right, column);
    assert(m.line_pieces(hay, ln, digits) == head + left + byte_runs + right + column);
    law_padding_reaches_the_edge(m.line_pieces(hay, ln, digits), Paint::Data, w);
}

proof fn lemma_joined_sum(a: Seq<Seq<char>>, b: Seq<Seq<char>>)
    ensures
        joined(a + b) == joined(a) + joined(b),
    decreases b.len(),
{
    if b.len() > 0 {
        assert((a + b).drop_last() =~= a + b.drop_last());
        assert((a + b).last() == b.last());
        lemma_joined_sum(a, b.drop_last());
        assert(joined(a + b) =~= joined(a) + joined(b));
    } else {
        assert(a + b =~= a);
        assert(joined(a + b) =~= joined(a) + joined(b));
    }
}

/// The byte column of text mode for these cells.
pub open spec fn text_column(cells: Seq<char>) -> Seq<Seq<char>> {
    cells.map_values(|c: char| view::byte_text(Mode::Text, 0, c))
}

/// Text mode reads as text: the cells of a text in UTF-8 spell out the text,
/// with nothing for the bytes its characters go on over. That is for
/// characters that take one column, and other than the mark itself.
pub proof fn law_text_mode_reads_as_text(s: Seq<char>)
    requires
        forall|i: int|
            0 <= i < s.len() ==> crate::encoding::one_cell_char(#[trigger] s[i]) && s[i]
                != crate::encoding::CONTINUATION,
    ensures
        joined(
            text_column(crate::encoding::cells(Encoding::Utf8, vstd::utf8::encode_utf8(s))),
        ) == s,
    decreases s.len(),
{
    page_laws::law_utf8_draws_on_the_lead_byte(s);
    lemma_text_reads(s);
}

proof fn lemma_text_reads(s: Seq<char>)
    requires
        forall|i: int|
            0 <= i < s.len() ==> crate::encoding::one_cell_char(#[trigger] s[i]) && s[i]
                != crate::encoding::CONTINUATION,
    ensures
        joined(text_column(page_laws::text_cells(s))) == s,
    decreases s.len(),
{
    if s.len() > 0 {
        let rest = s.drop_first();
        assert forall|i: int| 0 <= i < rest.len() implies crate::encoding::one_cell_char(
            #[trigger] rest[i],
        ) && rest[i] != crate::encoding::CONTINUATION by {
            assert(rest[i] == s[i + 1]);
        }
        lemma_text_reads(rest);
        let first = page_laws::char_cells(s[0]);
        let a = text_column(first);
        let b = text_column(page_laws::text_cells(rest));
        assert(text_column(page_laws::text_cells(s)) =~= a + b);
        lemma_joined_sum(a, b);
        let one = seq![view::byte_text(Mode::Text, 0, s[0])];
        let marks = text_column(
            text::copies(
                crate::encoding::CONTINUATION,
                vstd::utf8::encode_scalar(s[0] as u32).len() - 1,
            ),
        );
        assert(crate::encoding::one_cell_char(s[0]));
        assert(a =~= one + marks);
        lemma_joined_sum(one, marks);
        lemma_joined_len(marks, 0);
        assert(one.drop_last() =~= Seq::<Seq<char>>::empty());
        assert(joined(one.drop_last()) =~= Seq::<char>::empty());
        assert(joined(one) =~= seq![s[0]]);
        assert(joined(marks) =~= Seq::<char>::empty());
        assert(s =~= seq![s[0]] + rest);
    } else {
        assert(text_column(page_laws::text_cells(s)) =~= Seq::<Seq<char>>::empty());
        assert(joined(text_column(page_laws::text_cells(s))) =~= s);
    }
}

/// Every cell of the text column belongs to its byte: cell `i` of a line shows
/// what decoding the whole file would show for byte `i` of it, also where a
/// character goes on over a line break.
pub proof fn law_a_line_shows_the_cells_of_the_file(m: Model, hay: Seq<u8>, ln: Clip, i: int)
    requires
        0 <= ln.off,
        0 <= i < ln.len <= m.bpl,
        ln.off + ln.len <= hay.len(),
        m.context(ln) + ln.len + m.lookback() <= usize::MAX,
    ensures
        m.text_cells(m.line_data(hay, ln), ln)[i] == seq![
            crate::encoding::cells(m.enc, hay)[ln.off + i],
        ],
{
    let back = m.context(ln);
    let a = ln.off - back;
    let b = rows::least(ln.off + ln.len + m.lookback(), hay.len() as int);
    let data = m.line_data(hay, ln);
    assert(data =~= hay.subrange(a, b));
    if m.enc == Encoding::Utf8 {
        page_laws::law_context_is_enough(hay, ln.off, ln.len, back, m.lookback());
        crate::encoding::lemma_utf8_cells_len(data);
        crate::encoding::lemma_utf8_cells_len(hay);
        let shown = crate::encoding::utf8_cells(data);
        let whole = crate::encoding::utf8_cells(hay);
        assert(shown.subrange(back, back + ln.len)[i] == shown[back + i]);
        assert(whole.subrange(ln.off, ln.off + ln.len)[i] == whole[ln.off + i]);
    }
}

// ── Highlighting ────────────────────────────────────────────────────────────

/// Does an occurrence of the pattern in the slot cover this byte of the file?
pub open spec fn occurs(slot: Option<PatternModel>, hay: Seq<u8>, x: int) -> bool {
    slot matches Some(p) && exists|q: int| #[trigger]
        pattern::matches(p.items, hay, q) && q <= x < q + p.items.len()
}

/// Does an occurrence of the pattern in the slot start at this byte?
pub open spec fn starts(slot: Option<PatternModel>, hay: Seq<u8>, x: int) -> bool {
    slot matches Some(p) && pattern::matches(p.items, hay, x)
}

/// May the occurrences of the pattern in the slot be told apart?
pub open spec fn distinct(slot: Option<PatternModel>, hay: Seq<u8>) -> bool {
    slot matches Some(p) ==> p.items.len() > 0 && pattern::apart(p.items, hay)
}

/// What is covered in the bytes of a line is covered by an occurrence in the
/// file, and an occurrence that starts on the line covers its first byte there.
proof fn lemma_covered_by(
    m: Model,
    slot: Option<PatternModel>,
    hay: Seq<u8>,
    ln: Clip,
    i: int,
)
    requires
        slot matches Some(p) ==> p.items.len() > 0,
        frame::reach(slot) <= m.lookback(),
        0 <= ln.off,
        0 <= i < ln.len,
        ln.off + ln.len <= hay.len(),
        m.context(ln) + ln.len + m.lookback() <= usize::MAX,
    ensures
        frame::covered(slot, m.line_data(hay, ln), m.context(ln) + i) ==> occurs(
            slot,
            hay,
            ln.off + i,
        ),
        starts(slot, hay, ln.off + i) ==> frame::covered(
            slot,
            m.line_data(hay, ln),
            m.context(ln) + i,
        ),
{
    if let Some(p) = slot {
        let items = p.items;
        let n = items.len() as int;
        let back = m.context(ln);
        let a = ln.off - back;
        let b = rows::least(ln.off + ln.len + m.lookback(), hay.len() as int);
        let data = m.line_data(hay, ln);
        let x = ln.off + i;
        assert(data =~= hay.subrange(a, b));
        let all = pattern::all_matches(items, data, 0, b - a);
        let global = pattern::all_matches(items, hay, a, b);
        reader::lemma_window(items, hay, a, b, 0);
        assert(global == all.map_values(|y: int| a + y));
        pattern::lemma_all_matches(items, hay, a, b);
        if starts(slot, hay, x) {
            pattern_laws::law_no_match_is_lost(items, hay, a, b, x);
            let j = choose|j: int|
                0 <= j < global.len() && (#[trigger] global[j]) <= x < global[j] + items.len();
            assert(all[j] <= back + i < all[j] + n);
            assert(frame::hit(all, n, back + i));
        }
        if frame::covered(slot, data, back + i) {
            let j = choose|j: int|
                0 <= j < all.len() && #[trigger] all[j] <= back + i < all[j] + n;
            assert(global[j] == a + all[j]);
            assert(pattern::matches(items, hay, global[j]));
        }
    }
}

proof fn lemma_covered(
    m: Model,
    slot: Option<PatternModel>,
    hay: Seq<u8>,
    ln: Clip,
    i: int,
)
    requires
        distinct(slot, hay),
        frame::reach(slot) <= m.lookback(),
        0 <= ln.off,
        0 <= i < ln.len,
        ln.off + ln.len <= hay.len(),
        m.context(ln) + ln.len + m.lookback() <= usize::MAX,
    ensures
        frame::covered(slot, m.line_data(hay, ln), m.context(ln) + i) == occurs(
            slot,
            hay,
            ln.off + i,
        ),
{
    if let Some(p) = slot {
        let items = p.items;
        let n = items.len() as int;
        let back = m.context(ln);
        let a = ln.off - back;
        let b = rows::least(ln.off + ln.len + m.lookback(), hay.len() as int);
        let data = m.line_data(hay, ln);
        let x = ln.off + i;
        assert(data =~= hay.subrange(a, b));
        let all = pattern::all_matches(items, data, 0, b - a);
        let global = pattern::all_matches(items, hay, a, b);
        reader::lemma_window(items, hay, a, b, 0);
        assert(global == all.map_values(|y: int| a + y));
        pattern::lemma_all_matches(items, hay, a, b);
        if occurs(slot, hay, x) {
            let q = choose|q: int| #[trigger]
                pattern::matches(items, hay, q) && q <= x < q + items.len();
            pattern_laws::law_no_match_is_lost(items, hay, a, b, q);
            let j = choose|j: int|
                0 <= j < global.len() && (#[trigger] global[j]) <= q < global[j] + items.len();
            assert(pattern::matches(items, hay, global[j]));
            assert(global[j] == q);
            assert(all[j] <= back + i < all[j] + n);
            assert(frame::hit(all, n, back + i));
        }
        lemma_covered_by(m, slot, hay, ln, i);
    }
}

/// Whatever patterns are searched for, a byte that is highlighted belongs to an
/// occurrence of one of them, and the first byte of every occurrence is
/// highlighted; the cursor wins.
pub proof fn law_highlighting_marks_occurrences(m: Model, hay: Seq<u8>, ln: Clip, i: int)
    requires
        m.needle matches Some(p) ==> p.items.len() > 0,
        m.record matches Some(p) ==> p.items.len() > 0,
        0 <= ln.off,
        0 <= i < ln.len,
        ln.off + ln.len <= hay.len(),
        m.context(ln) + ln.len + m.lookback() <= usize::MAX,
    ensures
        ({
            let style = m.style_at(m.line_data(hay, ln), ln, i);
            let x = ln.off + i;
            &&& style == Style::Cursor <==> m.cur == x
            &&& style == Style::Match ==> m.highlight && (occurs(m.needle, hay, x) || occurs(
                m.record,
                hay,
                x,
            ))
            &&& m.highlight && m.cur != x && (starts(m.needle, hay, x) || starts(m.record, hay, x))
                ==> style == Style::Match
        }),
{
    if m.highlight {
        lemma_covered_by(m, m.needle, hay, ln, i);
        lemma_covered_by(m, m.record, hay, ln, i);
    }
}

/// Every occurrence of the search pattern and of the record pattern is
/// highlighted, also where it goes on over a line break, and nothing else is;
/// the cursor wins.
pub proof fn law_every_occurrence_is_highlighted(m: Model, hay: Seq<u8>, ln: Clip, i: int)
    requires
        m.highlight,
        distinct(m.needle, hay),
        distinct(m.record, hay),
        0 <= ln.off,
        0 <= i < ln.len,
        ln.off + ln.len <= hay.len(),
        m.context(ln) + ln.len + m.lookback() <= usize::MAX,
    ensures
        m.style_at(m.line_data(hay, ln), ln, i) == if m.cur == ln.off + i {
            Style::Cursor
        } else if occurs(m.needle, hay, ln.off + i) || occurs(m.record, hay, ln.off + i) {
            Style::Match
        } else {
            Style::Plain
        },
{
    lemma_covered(m, m.needle, hay, ln, i);
    lemma_covered(m, m.record, hay, ln, i);
}

/// With highlighting off only the cursor stands out.
pub proof fn law_highlighting_can_be_turned_off(m: Model, data: Seq<u8>, ln: Clip, i: int)
    requires
        !m.highlight,
    ensures
        m.style_at(data, ln, i) == if i < ln.len && m.cur == ln.off + i {
            Style::Cursor
        } else {
            Style::Plain
        },
{
}

// ── The title bar ───────────────────────────────────────────────────────────

proof fn lemma_radix_len(n: int, radix: int, digits: int)
    requires
        0 <= n,
        radix == 10 || radix == 16,
        digits >= 1,
        radix == 10 ==> digits == 3 && n < 1000 || digits == 2 && n < 100 || digits == 1 && n < 10,
        radix == 16 ==> n < view_laws::hex_range(digits),
    ensures
        1 <= text::radix_text(n, radix).len() <= digits,
    decreases digits,
{
    if n >= radix {
        if radix == 16 {
            reveal_with_fuel(view_laws::hex_range, 2);
            assert(n / 16 < view_laws::hex_range(digits - 1));
        }
        lemma_radix_len(n / radix, radix, digits - 1);
    }
}

/// The readout has the same length wherever the cursor is, so nothing beside
/// it moves.
pub proof fn law_the_readout_has_a_fixed_width(m: Model, hay: Seq<u8>, digits: int)
    requires
        0 <= m.cur,
        1 <= digits,
        m.cur < view_laws::hex_range(digits),
    ensures
        m.readout(hay, digits).len() == digits + 13,
{
    reveal_strlit("empty file");
    reveal_strlit("past the end");
    reveal_strlit("0x");
    reveal_strlit(" ");
    reveal_strlit(" '");
    lemma_radix_len(m.cur, 16, digits);
    assert forall|b: u8| 1 <= (#[trigger] text::upper_hex(b as int)).len() <= 2 by {
        reveal_with_fuel(view_laws::hex_range, 3);
        lemma_radix_len(b as int, 16, 2);
    }
    assert forall|b: u8| 1 <= (#[trigger] text::decimal(b as int)).len() <= 3 by {
        lemma_radix_len(b as int, 10, 3);
    }
}

/// Stepping through modes and code pages does not shuffle the bar sideways.
pub proof fn law_the_title_bar_does_not_shift(
    m: Model,
    mode: Mode,
    enc: Encoding,
    len: int,
    readout: Seq<char>,
    percent: int,
)
    ensures
        (Model { mode, enc, ..m }).title_right(len, readout, percent).len() == m.title_right(
            len,
            readout,
            percent,
        ).len(),
{
    reveal_strlit("BIN");
    reveal_strlit("HEX");
    reveal_strlit("TEXT");
    page_laws::law_names_fit(m.enc);
    page_laws::law_names_fit(enc);
    assert((Model { mode, enc, ..m }).record_note() == m.record_note());
}

/// A path cut on the left keeps its tail and fits; there is always room for
/// the mark that something is missing.
pub proof fn law_a_long_path_keeps_its_tail(s: Seq<char>, room: int)
    requires
        0 <= room,
    ensures
        draw::tail_of(s, room).len() <= frame::most(room, 1),
        s.len() <= room ==> draw::tail_of(s, room) == s,
        s.len() > room ==> exists|k: int|
            0 <= k <= s.len() && draw::tail_of(s, room) == seq!['…'] + #[trigger] s.skip(k),
{
    let k = s.len() - rows::above(room, 1);
    assert(s.len() > room ==> draw::tail_of(s, room) == seq!['…'] + s.skip(k));
}

/// A text cut on the right keeps its head and fits.
pub proof fn law_a_long_pattern_keeps_its_head(s: Seq<char>, room: int)
    requires
        0 <= room,
    ensures
        draw::head_of(s, room).len() <= frame::most(room, 1),
        s.len() <= room ==> draw::head_of(s, room) == s,
        s.len() > room ==> draw::head_of(s, room).drop_last() == s.take(rows::above(room, 1)),
{
    if s.len() > room {
        assert(draw::head_of(s, room).drop_last() =~= s.take(rows::above(room, 1)));
    }
}

/// The title bar takes exactly the width of the window if its right end fits:
/// the name of the file gives way.
pub proof fn law_the_title_bar_fills_the_window(
    m: Model,
    name: Seq<char>,
    len: int,
    w: int,
    readout: Seq<char>,
    percent: int,
)
    requires
        m.title_right(len, readout, percent).len() + 2 <= w,
    ensures
        draw::width(m.title(name, len, w, readout, percent)) == w,
{
    let right = m.title_right(len, readout, percent);
    let room = rows::above(w, right.len() as int + 1);
    let left = seq![' '] + draw::tail_of(name, rows::above(room, 1));
    law_a_long_path_keeps_its_tail(name, rows::above(room, 1));
    let n = w - (left.len() + right.len());
    let a = draw::piece(Paint::Bar, left);
    let b = draw::filled(Paint::Bar, n);
    let c = draw::piece(Paint::Bar, right);
    lemma_piece(Paint::Bar, left);
    lemma_piece(Paint::Bar, right);
    if n > 0 {
        lemma_piece(Paint::Bar, text::copies(' ', n));
    } else {
        assert(draw::width(b) == 0);
    }
    lemma_width_sum(a, b);
    lemma_width_sum(a + b, c);
    law_padding_reaches_the_edge(a + b + c, Paint::Bar, w);
}

} // verus!
