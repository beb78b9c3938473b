//! Laws of the keys: which key asks for what, and what comes of it.

use crate::encoding::Encoding;
use crate::keys::{Action, Key, KeyCode, Outcome};
use crate::laws::nav;
use crate::model::{InputModel, Model, PatternModel};
use crate::pattern;
use crate::rows;
use crate::text;
use crate::view;
use crate::view::Mode;
use vstd::prelude::*;

verus! {

// ── Which key asks for what ─────────────────────────────────────────────────

/// Is this the key of a character?
pub open spec fn types(k: Key, c: char) -> bool {
    k.code == KeyCode::Char(c)
}

/// Is this a function key?
pub open spec fn function(k: Key, n: u8) -> bool {
    k.code == KeyCode::F(n)
}

/// Every action has its keys, and only these: the modes, the code pages, the
/// settings and the prompts.
pub proof fn law_the_keys_of_the_settings(k: Key)
    ensures
        k.wish() == Action::Quit <==> types(k, 'q') || types(k, 'Q') || k.code == KeyCode::Esc
            || function(k, 10) || types(k, 'c') && k.ctrl,
        k.wish() == Action::Show(Mode::Binary) <==> types(k, '1') || function(k, 1),
        k.wish() == Action::Show(Mode::Hex) <==> types(k, '2') || function(k, 2),
        k.wish() != Action::Show(Mode::Text),
        k.wish() == Action::Text <==> types(k, '3') || function(k, 3),
        k.wish() == Action::NextPage <==> types(k, '4') || types(k, 'e') && !k.shift,
        k.wish() == Action::PrevPage <==> types(k, 'E') || types(k, 'e') && k.shift,
        k.wish() == Action::Wrap <==> types(k, '9') || function(k, 9),
        k.wish() == Action::Narrower <==> types(k, '['),
        k.wish() == Action::Wider <==> types(k, ']'),
        k.wish() == Action::WindowWide <==> types(k, '\\'),
        k.wish() == Action::Highlight <==> types(k, 'h'),
        k.wish() == Action::Reread <==> types(k, 'r'),
        k.wish() == Action::AskOffset <==> types(k, 'g') || types(k, '5') || function(k, 5),
        k.wish() == Action::AskRecord <==> types(k, '6') || function(k, 6),
        k.wish() == Action::AskPattern <==> types(k, '/') || types(k, '7') || function(k, 7),
        k.wish() == Action::FindNext <==> types(k, 'n') || types(k, '8') || function(k, 8),
{
}

/// And those of moving about: the arrows, the same with a modifier for the ends
/// of the line, with Shift for the grid, and the keys for pages and the file.
pub proof fn law_the_keys_of_moving_about(k: Key)
    ensures
        ({
            let far = k.ctrl || k.alt || k.sup;
            &&& k.wish() == Action::Left <==> k.code == KeyCode::Left && !k.shift && !far
            &&& k.wish() == Action::Right <==> k.code == KeyCode::Right && !k.shift && !far
            &&& k.wish() == Action::LineStart <==> k.code == KeyCode::Left && !k.shift && far
            &&& k.wish() == Action::LineEnd <==> k.code == KeyCode::Right && !k.shift && far
            &&& k.wish() == Action::SlideLeft <==> k.code == KeyCode::Left && k.shift
            &&& k.wish() == Action::SlideRight <==> k.code == KeyCode::Right && k.shift
            &&& k.wish() == Action::Up <==> k.code == KeyCode::Up
            &&& k.wish() == Action::Down <==> k.code == KeyCode::Down
            &&& k.wish() == Action::PageUp <==> k.code == KeyCode::PageUp
            &&& k.wish() == Action::PageDown <==> k.code == KeyCode::PageDown || types(k, ' ')
            &&& k.wish() == Action::FileStart <==> k.code == KeyCode::Home
            &&& k.wish() == Action::FileEnd <==> k.code == KeyCode::End
        }),
{
}

/// Only the keys to quit leave the program, and only the key to reread the file
/// asks for that.
pub proof fn law_what_is_left_to_do(a: Action)
    ensures
        a.outcome() == Outcome::Quit <==> a == Action::Quit,
        a.outcome() == Outcome::Reread <==> a == Action::Reread,
        a.outcome() == Outcome::Stay <==> a != Action::Quit && a != Action::Reread,
{
}

// ── What comes of it ────────────────────────────────────────────────────────

/// The keys that move do what they say: a byte, a row, a page of the screen less
/// the row that stays in sight, the ends of the line and of the file, a slide of
/// the grid. The status line of the last key is gone.
pub proof fn law_the_keys_move_the_cursor(m: Model, hay: Seq<u8>, k: Key)
    requires
        m.input is Normal,
    ensures
        ({
            let r = m.on_key(hay, k);
            let c = Model { status: seq![], ..m };
            let page = if m.rows >= 2 {
                m.rows - 1
            } else {
                1
            };
            &&& k.wish() == Action::Left ==> r == c.move_cursor(hay, -1)
            &&& k.wish() == Action::Right ==> r == c.move_cursor(hay, 1)
            &&& k.wish() == Action::Up ==> r == c.step_rows(hay, 1, false)
            &&& k.wish() == Action::Down ==> r == c.step_rows(hay, 1, true)
            &&& k.wish() == Action::PageUp ==> r == c.page_rows(hay, page, false)
            &&& k.wish() == Action::PageDown ==> r == c.page_rows(hay, page, true)
            &&& k.wish() == Action::LineStart ==> r == c.go_row_edge(hay, false)
            &&& k.wish() == Action::LineEnd ==> r == c.go_row_edge(hay, true)
            &&& k.wish() == Action::FileStart ==> r == c.go_to(hay, 0)
            &&& k.wish() == Action::FileEnd ==> r == c.go_end(hay)
            &&& k.wish() == Action::SlideLeft ==> r == c.shift_grid(hay, false)
            &&& k.wish() == Action::SlideRight ==> r == c.shift_grid(hay, true)
            &&& k.wish() == Action::Nothing || k.wish() == Action::Quit || k.wish()
                == Action::Reread ==> r == c
        }),
{
}

/// The keys that set something change that, say what they did, and leave all
/// else alone.
pub proof fn law_the_keys_change_one_setting(m: Model, hay: Seq<u8>, k: Key)
    requires
        m.input is Normal,
    ensures
        ({
            let r = m.on_key(hay, k);
            let c = Model { status: seq![], ..m };
            &&& k.wish() == Action::Show(Mode::Binary) ==> r == Model { mode: Mode::Binary, ..c }
            &&& k.wish() == Action::Show(Mode::Hex) ==> r == Model { mode: Mode::Hex, ..c }
            &&& k.wish() == Action::Text && m.mode != Mode::Text ==> r == Model {
                mode: Mode::Text,
                status: "Text in "@ + m.enc.name_text() + " — 3 again for the next code page"@,
                ..m
            }
            &&& k.wish() == Action::Text && m.mode == Mode::Text ==> r == c.set_encoding(
                m.enc.after(),
            )
            &&& k.wish() == Action::NextPage ==> r == c.set_encoding(m.enc.after())
            &&& k.wish() == Action::PrevPage ==> r == c.set_encoding(m.enc.before())
            &&& k.wish() == Action::WindowWide ==> r == Model {
                fixed_bpl: None,
                status: "Line width: as wide as the window"@,
                ..m
            }
            &&& k.wish() == Action::Highlight && m.highlight ==> r == Model {
                highlight: false,
                status: "Highlight off"@,
                ..m
            }
            &&& k.wish() == Action::Highlight && !m.highlight ==> r == Model {
                highlight: true,
                status: "Highlight on"@,
                ..m
            }
            &&& k.wish() == Action::AskOffset ==> r == Model {
                input: InputModel::Goto(seq![]),
                ..c
            }
            &&& k.wish() == Action::AskRecord ==> r == Model {
                input: InputModel::Record(seq![]),
                ..c
            }
            &&& k.wish() == Action::AskPattern ==> r == Model {
                input: InputModel::Search(seq![]),
                ..c
            }
            &&& k.wish() == Action::Wrap ==> r == c.toggle_wrap()
            &&& k.wish() == Action::Narrower ==> r == c.resize_line(false)
            &&& k.wish() == Action::Wider ==> r == c.resize_line(true)
        }),
{
}

/// Wrapping is switched over and nothing else, but that wrapped records are
/// shown from their start.
pub proof fn law_wrapping_is_switched_over(m: Model)
    ensures
        ({
            let r = m.toggle_wrap();
            &&& r.wrap == !m.wrap
            &&& r.hoff == if m.wrap {
                m.hoff
            } else {
                0
            }
            &&& r == Model { wrap: !m.wrap, hoff: r.hoff, held: false, status: r.status, ..m }
            &&& r.status == if m.wrap && m.record is Some {
                "One line per record; walk the cursor right to see the rest"@
            } else if m.wrap {
                "Wrap off — applies once a record pattern is set (6)"@
            } else if m.record is Some {
                "Records wrap onto as many lines as they need"@
            } else {
                "Wrap on — applies once a record pattern is set (6)"@
            }
        }),
{
}

/// The line gets wider or narrower by four bytes in hex and by one in binary,
/// as far as the window and the mode allow, counted from the width there is;
/// the status line says how wide it is now. Text mode has nothing to set.
pub proof fn law_the_line_width_is_set_in_steps(m: Model, wider: bool)
    requires
        0 <= m.bpl < 0x1_0000,
        0 <= m.fit_bpl,
    ensures
        ({
            let r = m.resize_line(wider);
            let step: int = if m.mode == Mode::Hex {
                4
            } else {
                1
            };
            let low: int = step;
            let high = if m.fit_bpl >= low {
                m.fit_bpl
            } else {
                low
            };
            let want = if wider {
                m.bpl + step
            } else {
                m.bpl - step
            };
            &&& m.mode == Mode::Text ==> r == Model {
                status: "Line width is for the byte modes (1, 2)"@,
                ..m
            }
            &&& m.mode != Mode::Text ==> {
                &&& r.fixed_bpl matches Some(got) && {
                    &&& low <= want <= high ==> got == want
                    &&& want < low ==> got == low
                    &&& want > high ==> got == high
                    &&& r.status == text::radix_text(got, 10) + if got == m.fit_bpl {
                        " bytes per line — the whole window"@
                    } else {
                        " bytes per line"@
                    }
                }
                &&& r == Model { fixed_bpl: r.fixed_bpl, status: r.status, ..m }
            }
        }),
{
}

// ── Prompts ─────────────────────────────────────────────────────────────────

/// A character typed at a prompt goes to the end of what is there; backspace
/// takes the last one off, if there is one. Nothing else changes.
pub proof fn law_typing_at_a_prompt(m: Model, hay: Seq<u8>, k: Key, c: char, s: Seq<char>)
    ensures
        ({
            let r = m.on_key(hay, k);
            let typed = s + seq![c];
            let left = if s.len() > 0 {
                s.take(s.len() - 1)
            } else {
                s
            };
            &&& types(k, c) && m.input == InputModel::Goto(s) ==> r == Model {
                input: InputModel::Goto(typed),
                ..m
            }
            &&& types(k, c) && m.input == InputModel::Search(s) ==> r == Model {
                input: InputModel::Search(typed),
                ..m
            }
            &&& types(k, c) && m.input == InputModel::Record(s) ==> r == Model {
                input: InputModel::Record(typed),
                ..m
            }
            &&& k.code == KeyCode::Backspace && m.input == InputModel::Goto(s) ==> r == Model {
                input: InputModel::Goto(left),
                ..m
            }
            &&& k.code == KeyCode::Backspace && m.input == InputModel::Search(s) ==> r == Model {
                input: InputModel::Search(left),
                ..m
            }
            &&& k.code == KeyCode::Backspace && m.input == InputModel::Record(s) ==> r == Model {
                input: InputModel::Record(left),
                ..m
            }
        }),
{
    assert(s.push(c) =~= s + seq![c]);
    if s.len() > 0 {
        assert(s.drop_last() =~= s.take(s.len() - 1));
    }
}

/// Other keys do nothing at a prompt.
pub proof fn law_other_keys_do_nothing_at_a_prompt(m: Model, hay: Seq<u8>, k: Key)
    requires
        !(m.input is Normal),
        !(k.code is Char),
        k.code != KeyCode::Backspace,
        k.code != KeyCode::Enter,
        k.code != KeyCode::Esc,
    ensures
        m.on_key(hay, k) == m,
{
}

/// An offset typed at the prompt is gone to, if it lies in the file or right
/// behind it; otherwise the status line says what is wrong with it.
pub proof fn law_a_typed_offset_is_gone_to(m: Model, hay: Seq<u8>, s: Seq<char>, k: Key)
    requires
        m.input == InputModel::Goto(s),
        k.code == KeyCode::Enter,
    ensures
        ({
            let r = m.on_key(hay, k);
            let c = Model { input: InputModel::Normal, ..m };
            match view::offset_value(s) {
                Some(off) => {
                    &&& off <= hay.len() ==> r == c.go_to(hay, off)
                    &&& off > hay.len() ==> r == Model {
                        status: "Offset is past the end of the file"@,
                        ..c
                    }
                },
                None => r == Model {
                    status: "Not an offset: expected 1234 or 0x4D5A"@,
                    ..c
                },
            }
        }),
{
}

/// A pattern typed at the record prompt breaks lines from then on, with the
/// bytes its text has in the code page. The cursor stays where it is; the view
/// starts with its record where that shows the cursor, and from the left edge.
/// With nothing typed lines are the grid again.
pub proof fn law_a_typed_record_pattern_breaks_lines(
    m: Model,
    hay: Seq<u8>,
    s: Seq<char>,
    k: Key,
)
    requires
        nav::sane(m),
        m.input == InputModel::Record(s),
        k.code == KeyCode::Enter,
        m.cur < hay.len(),
        text::trimmed(s).len() == 0 || pattern::parsed(s, m.enc) is Ok,
    ensures
        ({
            let r = m.on_key(hay, k);
            let off = text::trimmed(s).len() == 0;
            &&& r.cur == m.cur && r.input is Normal && !r.held
            &&& r == Model {
                input: InputModel::Normal,
                record: r.record,
                top: r.top,
                hoff: r.hoff,
                held: r.held,
                status: r.status,
                ..m
            }
            &&& off ==> r.record is None && r.hoff == 0 && r.status == "Record splitting off"@
            &&& !off ==> {
                let items = pattern::parsed(s, m.enc)->Ok_0;
                &&& r.record == Some(PatternModel { items, text: s })
                &&& r.status == "Line = record on \""@ + s + if m.wrap {
                    "\" (wrapped)"@
                } else {
                    "\" (one line each)"@
                }
                &&& r == Model {
                    record: r.record,
                    input: InputModel::Normal,
                    status: r.status,
                    top: rows::record_start(items, hay, m.cur),
                    hoff: 0,
                    ..m
                }.go_to(hay, m.cur)
            }
        }),
{
}

/// What is no pattern, or none in the code page, is said to be so, with a way
/// out, and nothing else happens.
pub proof fn law_a_typed_pattern_may_be_refused(m: Model, hay: Seq<u8>, s: Seq<char>, k: Key)
    requires
        m.input == InputModel::Search(s) || m.input == InputModel::Record(s) && text::trimmed(
            s,
        ).len() > 0,
        k.code == KeyCode::Enter,
        pattern::parsed(s, m.enc) is Err,
    ensures
        m.on_key(hay, k) == (Model {
            input: InputModel::Normal,
            status: pattern::parsed(s, m.enc)->Err_0.message_text() + " — pick a code page with 4"@,
            ..m
        }),
{
}

/// What is wrong with a pattern, in words.
pub proof fn law_what_is_wrong_with_a_pattern(c: char, e: Encoding)
    ensures
        pattern::PatternError::Empty.message_text() == "Pattern is empty"@,
        pattern::PatternError::BadHex.message_text()
            == "Bad hex: expected pairs like x:4D 5A or x:4D ??"@,
        pattern::PatternError::Unrepresentable(c, e).message_text() == "'"@ + seq![c]
            + "' is not in "@ + e.name_text(),
{
    reveal_strlit("'");
    assert(seq!['\'', c] =~= "'"@ + seq![c]);
}

/// The names of the code pages and of the modes.
pub proof fn law_the_names()
    ensures
        Encoding::Ascii.name_text() == "ASCII"@,
        Encoding::Cp437.name_text() == "CP437"@,
        Encoding::Cp866.name_text() == "CP866"@,
        Encoding::Cp1251.name_text() == "CP1251"@,
        Encoding::Koi8r.name_text() == "KOI8-R"@,
        Encoding::Utf8.name_text() == "UTF-8"@,
        Mode::Binary.name_text() == "BIN"@,
        Mode::Hex.name_text() == "HEX"@,
        Mode::Text.name_text() == "TEXT"@,
{
}

// ── Frames and reloads ──────────────────────────────────────────────────────

/// A frame takes the size of the window: two rows go to the bars, the line width
/// is what the layout gives, and the anchor comes inside the line. The cursor
/// stays on its byte, and nothing else changes but the view.
pub proof fn law_a_frame_takes_the_size_of_the_window(m: Model, hay: Seq<u8>, w: int, h: int)
    requires
        nav::sane(m),
        m.cur < hay.len(),
    ensures
        ({
            let r = m.measured(hay, w, h);
            let bpl = view::bpl_for(m.mode, w, hay.len() as int, m.fixed_bpl);
            &&& r.rows == h - 2
            &&& r.bpl == bpl
            &&& r.fit_bpl == view::fit_for(m.mode, w, hay.len() as int)
            &&& 0 <= r.align < bpl && (m.align - r.align) % bpl == 0
            &&& r.cur == m.cur
            &&& r == Model {
                rows: h - 2,
                bpl,
                fit_bpl: r.fit_bpl,
                align: r.align,
                top: r.top,
                hoff: r.hoff,
                held: r.held,
                ..m
            }
            &&& m.align < bpl ==> r.align == m.align
        }),
{
    let bpl = view::bpl_for(m.mode, w, hay.len() as int, m.fixed_bpl);
    view::lemma_bpl(m.mode, w, hay.len() as int, m.fixed_bpl);
    vstd::arithmetic::div_mod::lemma_fundamental_div_mod(m.align, bpl);
    vstd::arithmetic::div_mod::lemma_mod_bound(m.align, bpl);
    let q = m.align / bpl;
    assert(m.align - m.align % bpl == q * bpl) by (nonlinear_arith)
        requires
            m.align == bpl * q + m.align % bpl,
            q == m.align / bpl,
    ;
    vstd::arithmetic::div_mod::lemma_fundamental_div_mod_converse(q * bpl, bpl, q, 0);
    if m.align < bpl {
        vstd::arithmetic::div_mod::lemma_small_mod(m.align as nat, bpl as nat);
    }
}

/// A frame or a reload settles the view as going to where the cursor is would,
/// but that a scroll by hand stays.
pub proof fn law_settling_is_going_to_the_cursor(m: Model, hay: Seq<u8>)
    requires
        nav::sane(m),
        m.cur < hay.len(),
    ensures
        ({
            let r = m.settle(hay);
            let there = m.go_to(hay, m.cur);
            let by_hand = m.held && m.record is Some && !m.wrap;
            let row = m.shape(hay).row_at(m.cur);
            &&& !by_hand ==> r == there
            &&& by_hand ==> r == Model { hoff: r.hoff, held: true, ..there }
            &&& by_hand && m.hoff < row.len ==> r.hoff == m.hoff
            &&& by_hand && m.hoff >= row.len ==> r.hoff == row.len - 1
        }),
{
    rows::lemma_row_at(m.shape(hay), m.cur);
    assert(Model { cur: m.cur, ..m } == m);
}

/// A file that changed is shown as it is now: the view starts no further than
/// its end, the cursor is pulled inside it, the status line says how long it is,
/// and nothing else changes.
pub proof fn law_a_reload_shows_the_file_as_it_is(m: Model, hay: Seq<u8>)
    ensures
        ({
            let r = m.reloaded(hay);
            let len = hay.len() as int;
            let shown = Model {
                top: if m.top <= len {
                    m.top
                } else {
                    len
                },
                ..m
            };
            &&& r.status == "File changed on disk — reloaded, "@ + text::radix_text(len, 10)
                + " bytes"@
            &&& r == Model { status: r.status, ..shown.settle(hay) }
            &&& m.cur < len ==> r.cur == m.cur
            &&& m.cur >= len && len > 0 ==> r.cur == len - 1
        }),
{
}

/// A scroll by hand moves the records by one byte and nothing else, up to the
/// last byte of the cursor's record and back to the first. Wrapped records have
/// nothing to scroll.
pub proof fn law_a_scroll_by_hand_moves_by_one_byte(m: Model, hay: Seq<u8>, right: bool)
    requires
        nav::sane(m),
        m.record is Some,
        m.cur < hay.len(),
    ensures
        ({
            let r = m.shift_grid(hay, right);
            let row = m.shape(hay).row_at(m.cur);
            &&& m.wrap ==> r == Model {
                status: "Wrapped records have no sideways scroll — turn wrap off (9)"@,
                ..m
            }
            &&& !m.wrap ==> {
                &&& r == Model { hoff: r.hoff, held: true, ..m }
                &&& right && m.hoff + 1 < row.len ==> r.hoff == m.hoff + 1
                &&& !right && 0 < m.hoff <= row.len ==> r.hoff == m.hoff - 1
                &&& right && m.hoff + 1 >= row.len ==> r.hoff == row.len - 1
                &&& !right && m.hoff == 0 ==> r.hoff == 0
            }
        }),
{
    rows::lemma_row_at(m.shape(hay), m.cur);
}

/// The code page of a state is the one set last.
pub proof fn law_the_code_page_is_the_one_set(m: Model, e: Encoding, other: Encoding)
    ensures
        m.set_encoding(e).enc == e,
        m.set_encoding(other).set_encoding(e).enc == e,
{
}

/// In a file that ends before the cursor, the cursor goes to its last byte, and a
/// scroll by hand is over.
pub proof fn law_settling_in_a_file_that_shrank(m: Model, hay: Seq<u8>)
    requires
        nav::sane(m),
        m.cur >= hay.len(),
        m.cur > 0,
    ensures
        hay.len() > 0 ==> m.settle(hay) == m.go_to(hay, hay.len() - 1),
        hay.len() == 0 ==> m.settle(hay) == m.go_to(hay, 0),
        !m.settle(hay).held,
{
}

// ── What looks into the file ────────────────────────────────────────────────

/// Outside the prompts, moving about looks into the file only where rows are
/// records, sliding only where they are on a single line, looking for the next
/// match only once there is something to look for, and no other key does.
pub proof fn law_the_keys_that_look_into_the_file(m: Model, len: int, k: Key)
    requires
        m.input is Normal,
    ensures
        ({
            let wish = k.wish();
            let about = wish is Left || wish is Right || wish is Up || wish is Down || wish is PageUp
                || wish is PageDown || wish is LineStart || wish is LineEnd || wish is FileStart
                || wish is FileEnd;
            let slides = wish is SlideLeft || wish is SlideRight;
            m.key_reads(len, k) <==> (about && m.record is Some || slides && m.record is Some
                && !m.wrap || wish is FindNext && m.needle is Some)
        }),
{
}

/// In a prompt only Enter looks into the file: for an offset that is inside it,
/// where rows are records, and for a pattern that is one.
pub proof fn law_the_prompts_that_look_into_the_file(m: Model, len: int, k: Key)
    requires
        !(m.input is Normal),
    ensures
        m.key_reads(len, k) ==> k.code == KeyCode::Enter,
        k.code == KeyCode::Enter ==> match m.input {
            InputModel::Normal => false,
            InputModel::Goto(s) => m.key_reads(len, k) <==> (m.record is Some
                && view::offset_value(s) is Some && view::offset_value(s)->0 <= len),
            InputModel::Search(s) => m.key_reads(len, k) <==> pattern::parsed(s, m.enc) is Ok,
            InputModel::Record(s) => m.key_reads(len, k) <==> (text::trimmed(s).len() > 0
                && pattern::parsed(s, m.enc) is Ok),
        },
{
}

} // verus!
