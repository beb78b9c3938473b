//! Laws of the keys and of the state they change.

use crate::encoding::Encoding;
use crate::keys::{Key, KeyCode};
use crate::laws::nav;
use crate::laws::rows as row_laws;
use crate::laws::view as view_laws;
use crate::model::{InputModel, Model, PatternModel};
use crate::pattern;
use crate::rows;
use crate::rows::Shape;
use crate::text;
use crate::view;
use crate::view::Mode;
use vstd::prelude::*;

verus! {

// ── Searching ───────────────────────────────────────────────────────────────

/// A search that has something to find finds it: the cursor goes to the first
/// match from where it was asked for, or from the start of the file when there
/// is none further on.
pub proof fn law_a_search_finds_what_is_there(m: Model, hay: Seq<u8>, from: int, at: int)
    requires
        m.needle matches Some(p) && p.items.len() > 0 && pattern::matches(p.items, hay, at),
        0 <= from,
    ensures
        ({
            let items = m.needle->0.items;
            let r = m.run_search(hay, from);
            &&& pattern::matches(items, hay, r.cur)
            &&& at >= from ==> from <= r.cur <= at
            &&& r.cur < from ==> forall|q: int|
                from <= q ==> !#[trigger] pattern::matches(items, hay, q)
            &&& forall|q: int|
                (if r.cur >= from {
                    from
                } else {
                    0
                }) <= q < r.cur ==> !#[trigger] pattern::matches(items, hay, q)
        }),
{
    let items = m.needle->0.items;
    pattern::lemma_next_match(items, hay, from, hay.len() as int);
    pattern::lemma_next_match(items, hay, 0, hay.len() as int);
}

/// A search that has nothing to find says so and moves nothing.
pub proof fn law_a_search_for_what_is_not_there_moves_nothing(m: Model, hay: Seq<u8>, from: int)
    requires
        m.needle matches Some(p) && p.items.len() > 0 && forall|q: int|
            !#[trigger] pattern::matches(p.items, hay, q),
    ensures
        m.run_search(hay, from) == (Model { status: "Not found"@, ..m }),
{
    let items = m.needle->0.items;
    pattern::lemma_next_match(items, hay, from, hay.len() as int);
    pattern::lemma_next_match(items, hay, 0, hay.len() as int);
}

/// While there is a match past the cursor, the next one found lies past it.
pub proof fn law_the_next_match_lies_past_the_cursor(m: Model, hay: Seq<u8>)
    requires
        m.needle matches Some(p) && p.items.len() > 0,
        0 <= m.cur,
        exists|q: int| q > m.cur && #[trigger] pattern::matches(m.needle->0.items, hay, q),
    ensures
        m.find_next(hay).cur > m.cur,
        pattern::matches(m.needle->0.items, hay, m.find_next(hay).cur),
{
    let at = choose|q: int| q > m.cur && #[trigger] pattern::matches(m.needle->0.items, hay, q);
    law_a_search_finds_what_is_there(m, hay, m.cur + 1, at);
}

// ── Code pages and patterns ─────────────────────────────────────────────────

/// Is this a pattern that was typed in some code page?
pub open spec fn typed_in(p: PatternModel, enc: Encoding) -> bool {
    pattern::parsed(p.text, enc) == Ok::<Seq<Option<u8>>, pattern::PatternError>(p.items)
}

/// Patterns keep the text they were typed as through every code page, so going
/// back to the one they were typed in brings their bytes back.
pub proof fn law_switching_back_restores_a_pattern(m: Model, enc: Encoding, other: Encoding)
    requires
        m.needle matches Some(p) ==> typed_in(p, enc),
        m.record matches Some(p) ==> typed_in(p, enc),
    ensures
        m.set_encoding(other).set_encoding(enc).needle == m.needle,
        m.set_encoding(other).set_encoding(enc).record == m.record,
        m.set_encoding(other).set_encoding(enc).enc == enc,
{
}

/// A pattern that exists in the new code page is re-encoded; one that does not
/// keeps its bytes, and the status line says so.
pub proof fn law_a_pattern_that_cannot_follow_stays(m: Model, enc: Encoding)
    requires
        m.needle matches Some(p) && pattern::parsed(p.text, enc) is Err,
        m.record is None,
    ensures
        m.set_encoding(enc).needle == m.needle,
        m.set_encoding(enc).enc == enc,
        m.set_encoding(enc).status == pattern::parsed(m.needle->0.text, enc)->Err_0.message_text()
            + " — pattern left as it was"@,
{
}

/// A pattern typed as hex is the same in every code page.
pub proof fn law_a_hex_pattern_does_not_follow_the_code_page(
    m: Model,
    enc: Encoding,
    other: Encoding,
)
    requires
        m.needle matches Some(p) && typed_in(p, enc) && pattern::hex_form(p.text),
    ensures
        m.set_encoding(other).needle == m.needle,
{
}

// ── Switches ────────────────────────────────────────────────────────────────

/// Switching wrapping over twice, or highlighting, leaves it as it was.
pub proof fn law_a_switch_thrown_twice_is_back(m: Model, hay: Seq<u8>)
    ensures
        m.toggle_wrap().toggle_wrap().wrap == m.wrap,
        m.toggle_wrap().wrap != m.wrap,
        m.act(hay, crate::keys::Action::Highlight).act(
            hay,
            crate::keys::Action::Highlight,
        ).highlight == m.highlight,
{
}

/// The line width keys stay within what the mode and the window allow, and
/// leave text mode alone.
pub proof fn law_the_line_width_keys_stay_within_the_limits(m: Model, wider: bool)
    requires
        m.bpl >= 0,
    ensures
        m.mode == Mode::Text ==> m.resize_line(wider).fixed_bpl == m.fixed_bpl,
        m.mode != Mode::Text ==> (m.resize_line(wider).fixed_bpl matches Some(n) && view::narrowest(
            m.mode,
        ) <= n <= crate::frame::most(m.fit_bpl, view::narrowest(m.mode))),
{
}

/// Within the limits, one press moves the line width by one step.
pub proof fn law_a_line_width_key_moves_by_one_step(m: Model)
    requires
        m.mode != Mode::Text,
        view::narrowest(m.mode) <= m.bpl <= m.fit_bpl <= view::widest(m.mode),
    ensures
        m.bpl + view::width_step(m.mode) <= m.fit_bpl ==> m.resize_line(true).fixed_bpl == Some(
            m.bpl + view::width_step(m.mode),
        ),
        m.bpl - view::width_step(m.mode) >= view::narrowest(m.mode) ==> m.resize_line(
            false,
        ).fixed_bpl == Some(m.bpl - view::width_step(m.mode)),
{
}

// ── A file that changes ─────────────────────────────────────────────────────

/// However the file changed, the cursor is inside it afterwards.
pub proof fn law_the_cursor_survives_a_file_that_shrinks(m: Model, hay: Seq<u8>)
    requires
        nav::sane(m),
    ensures
        0 <= m.reloaded(hay).cur <= rows::above(hay.len() as int, 1),
        m.cur < hay.len() ==> m.reloaded(hay).cur == m.cur,
{
}

/// And it is on screen.
pub proof fn law_the_cursor_is_on_screen_after_a_reload(m: Model, hay: Seq<u8>)
    requires
        nav::sane(m),
        m.rows >= 1,
    ensures
        m.shape(hay).on_screen(m.reloaded(hay).top, m.reloaded(hay).cur),
{
    let moved = Model { top: rows::least(m.top, hay.len() as int), ..m };
    assert(moved.shape(hay) == m.shape(hay));
    nav::law_the_view_follows_the_cursor(moved, hay);
}

// ── Prompts ─────────────────────────────────────────────────────────────────

/// A character typed and taken back leaves the prompt as it was.
pub proof fn law_backspace_undoes_typing(input: InputModel, c: char)
    ensures
        input.typed(c).untyped() == input,
{
    match input {
        InputModel::Normal => {},
        InputModel::Goto(s) => {
            assert(s.push(c).drop_last() =~= s);
        },
        InputModel::Search(s) => {
            assert(s.push(c).drop_last() =~= s);
        },
        InputModel::Record(s) => {
            assert(s.push(c).drop_last() =~= s);
        },
    }
}

/// Escape drops the prompt and changes nothing else.
pub proof fn law_escape_only_drops_the_prompt(m: Model, hay: Seq<u8>, k: Key)
    requires
        k.code == KeyCode::Esc,
        !(m.input is Normal),
    ensures
        m.on_key(hay, k) == (Model { input: InputModel::Normal, ..m }),
{
}

/// Committing a prompt leaves it, whatever was typed.
pub proof fn law_enter_leaves_the_prompt(m: Model, hay: Seq<u8>, k: Key)
    requires
        k.code == KeyCode::Enter,
        !(m.input is Normal),
    ensures
        m.on_key(hay, k).input is Normal,
{
}

/// An offset read off the title bar and typed at the prompt leads to the byte
/// it was read out for.
pub proof fn law_an_offset_read_out_leads_back(m: Model, hay: Seq<u8>, off: int, digits: int)
    requires
        0 <= off < hay.len(),
        hay.len() <= u64::MAX,
        digits >= 0,
    ensures
        m.commit_offset(
            hay,
            "0x"@ + text::pad_front(text::upper_hex(off), '0', digits),
        ).cur == off,
{
    view_laws::law_the_offset_read_out_can_be_typed_back(off, digits);
}

/// Breaking lines at a pattern starts the view with the record of the cursor,
/// and leaves the cursor where it is.
pub proof fn law_splitting_starts_with_the_record_of_the_cursor(
    m: Model,
    hay: Seq<u8>,
    s: Seq<char>,
)
    requires
        nav::sane(m),
        m.rows >= 1,
        !m.wrap,
        m.cur < hay.len(),
        text::trimmed(s).len() > 0,
        pattern::parsed(s, m.enc) is Ok,
    ensures
        ({
            let items = pattern::parsed(s, m.enc)->Ok_0;
            let r = m.commit_record(hay, s);
            &&& r.record == Some(PatternModel { items, text: s })
            &&& r.top == rows::record_start(items, hay, m.cur)
            &&& r.cur == m.cur
        }),
{
    let items = pattern::parsed(s, m.enc)->Ok_0;
    pattern::lemma_parsed_len(s, m.enc);
    let rec = rows::record_start(items, hay, m.cur);
    let split = Model {
        record: Some(PatternModel { items, text: s }),
        hoff: 0,
        top: rec,
        ..m
    };
    let shape = split.shape(hay);
    rows::lemma_record_holds(items, hay, m.cur);
    row_laws::lemma_records(items, hay, m.cur);
    reveal(Shape::screen);
    reveal(Shape::last_top);
    let screen = shape.screen(rec, m.rows);
    nav::lemma_is_row(shape, rec);
    nav::lemma_rows_from(shape, shape.row_at(rec), m.rows);
    assert(shape.row_at(rec).start == rec && shape.row_at(rec).holds(m.cur)) by {
        reveal(Shape::row_at);
    }
    assert(screen[0].next_start() <= screen.last().next_start());
    assert(screen.first().start <= m.cur < screen.last().next_start());
    assert(shape.follow(rec, m.cur, 3) == rec);
    assert(m.commit_record(hay, s).top == shape.follow(shape.clamp_top(rec), m.cur, 3));
}

/// An empty record pattern turns splitting off.
pub proof fn law_an_empty_record_pattern_turns_splitting_off(m: Model, hay: Seq<u8>, s: Seq<char>)
    requires
        text::trimmed(s).len() == 0,
    ensures
        m.commit_record(hay, s).record is None,
        m.commit_record(hay, s).hoff == 0,
{
}

// ── Input that is refused ───────────────────────────────────────────────────

/// Input that means nothing, or nothing that the file or the code page has, is
/// answered on the status line; the prompt closes and all else stays as it was.
pub proof fn law_refused_input_changes_nothing_but_the_status(m: Model, hay: Seq<u8>, k: Key)
    requires
        k.code is Enter,
        m.refuses_input(hay.len() as int),
    ensures
        ({
            let r = m.on_key(hay, k);
            &&& r.status.len() > 0
            &&& r == Model { input: InputModel::Normal, status: r.status, ..m }
        }),
{
    m.lemma_refused(hay);
}

} // verus!
