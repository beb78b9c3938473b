//! Laws of searching: where the cursor goes, and what is said of it.

use crate::encoding::Encoding;
use crate::keys::{Action, Key, KeyCode};
use crate::model::{InputModel, Model, PatternModel};
use crate::pattern;
use crate::rows;
use crate::text;
use vstd::prelude::*;

verus! {

/// Is this the first place from `from` on where the bytes match?
pub open spec fn first_from(items: Seq<Option<u8>>, hay: Seq<u8>, from: int, at: int) -> bool {
    &&& from <= at
    &&& pattern::matches(items, hay, at)
    &&& forall|q: int| from <= q < at ==> !#[trigger] pattern::matches(items, hay, q)
}

/// Do the bytes match nowhere from `from` on?
pub open spec fn nowhere_from(items: Seq<Option<u8>>, hay: Seq<u8>, from: int) -> bool {
    forall|q: int| from <= q ==> !#[trigger] pattern::matches(items, hay, q)
}

/// Is this what a search from `from` on makes of the state? The cursor goes to
/// the first match from there on, or else to the first in the file, and the view
/// goes with it; the status line says which of the two it was and where. If
/// there is none, nothing moves. No setting changes.
pub open spec fn searched(
    m: Model,
    items: Seq<Option<u8>>,
    hay: Seq<u8>,
    from: int,
    r: Model,
) -> bool {
    let here = exists|q: int| from <= q && #[trigger] pattern::matches(items, hay, q);
    let any = exists|q: int| #[trigger] pattern::matches(items, hay, q);
    &&& here ==> first_from(items, hay, from, r.cur) && r.status == "Found at 0x"@
        + text::radix_text(r.cur, 16)
    &&& !here && any ==> first_from(items, hay, 0, r.cur) && r.cur < from && r.status
        == "Wrapped to the start: 0x"@ + text::radix_text(r.cur, 16)
    &&& !any ==> r.cur == m.cur && r.top == m.top && r.hoff == m.hoff && r.held == m.held
        && r.status == "Not found"@
    &&& any ==> !r.held && r.top == m.go_to(hay, r.cur).top && r.hoff == m.go_to(hay, r.cur).hoff
    &&& r == Model {
        cur: r.cur,
        top: r.top,
        hoff: r.hoff,
        held: r.held,
        status: r.status,
        needle: r.needle,
        input: r.input,
        ..m
    }
}

proof fn lemma_searched(m: Model, hay: Seq<u8>, from: int)
    requires
        m.needle matches Some(p) && p.items.len() > 0,
        0 <= from,
    ensures
        searched(m, m.needle->0.items, hay, from, m.run_search(hay, from)),
        m.run_search(hay, from).needle == m.needle,
        m.run_search(hay, from).input == m.input,
{
    let items = m.needle->0.items;
    let r = m.run_search(hay, from);
    let len = hay.len() as int;
    pattern::lemma_next_match(items, hay, from, len);
    pattern::lemma_next_match(items, hay, 0, len);
    reveal_strlit("0x");
    reveal_strlit("Found at ");
    reveal_strlit("Found at 0x");
    reveal_strlit("Wrapped to the start: ");
    reveal_strlit("Wrapped to the start: 0x");
    assert("Found at "@ + "0x"@ =~= "Found at 0x"@);
    assert("Wrapped to the start: "@ + "0x"@ =~= "Wrapped to the start: 0x"@);
    if let Some(off) = pattern::next_match(items, hay, from, len) {
        assert(pattern::matches(items, hay, off));
        assert(r.cur == off);
        assert(("Found at "@ + ("0x"@ + text::upper_hex(off))) =~= "Found at 0x"@
            + text::radix_text(off, 16));
    } else {
        assert forall|q: int| from <= q implies !#[trigger] pattern::matches(items, hay, q) by {}
        if let Some(off) = pattern::next_match(items, hay, 0, len) {
            assert(pattern::matches(items, hay, off));
            assert(off < from);
            assert(r.cur == off);
            assert(("Wrapped to the start: "@ + ("0x"@ + text::upper_hex(off)))
                =~= "Wrapped to the start: 0x"@ + text::radix_text(off, 16));
        } else {
            assert forall|q: int| !#[trigger] pattern::matches(items, hay, q) by {}
        }
    }
}

/// A pattern typed at the search prompt is looked for from the cursor on: the
/// cursor goes to the first match at or after it, or round to the first in the
/// file. The pattern is then the one searched for, with the bytes its text has
/// in the code page, and the prompt is gone.
pub proof fn law_a_typed_search_starts_at_the_cursor(m: Model, hay: Seq<u8>, s: Seq<char>, k: Key)
    requires
        m.input == InputModel::Search(s),
        k.code == KeyCode::Enter,
        pattern::parsed(s, m.enc) is Ok,
        0 <= m.cur,
    ensures
        ({
            let items = pattern::parsed(s, m.enc)->Ok_0;
            let r = m.on_key(hay, k);
            &&& searched(m, items, hay, m.cur, r)
            &&& r.needle == Some(PatternModel { items, text: s })
            &&& r.input is Normal
        }),
{
    let items = pattern::parsed(s, m.enc)->Ok_0;
    pattern::lemma_parsed_len(s, m.enc);
    let asked = Model {
        input: InputModel::Normal,
        needle: Some(PatternModel { items, text: s }),
        ..m
    };
    lemma_searched(asked, hay, m.cur);
    let r = asked.run_search(hay, m.cur);
    assert(m.on_key(hay, k) == r);
    assert(asked.shape(hay) == m.shape(hay));
    let there = Model { cur: r.cur, ..asked };
    let here = Model { cur: r.cur, ..m };
    assert(there.shape(hay) == here.shape(hay));
}

/// At the cursor itself counts: a match there is where a typed search stays.
pub proof fn law_a_typed_search_finds_a_match_at_the_cursor(
    m: Model,
    hay: Seq<u8>,
    s: Seq<char>,
    k: Key,
    at: int,
)
    requires
        m.input == InputModel::Search(s),
        k.code == KeyCode::Enter,
        pattern::parsed(s, m.enc) is Ok,
        0 <= m.cur <= at,
        pattern::matches(pattern::parsed(s, m.enc)->Ok_0, hay, at),
    ensures
        m.cur <= m.on_key(hay, k).cur <= at,
        at == m.cur ==> m.on_key(hay, k).cur == m.cur,
{
    law_a_typed_search_starts_at_the_cursor(m, hay, s, k);
}

/// The key for the next match looks past the cursor: it goes to the first match
/// after it, or round to the first in the file.
pub proof fn law_the_next_match_is_the_first_past_the_cursor(m: Model, hay: Seq<u8>, k: Key)
    requires
        m.input is Normal,
        k.wish() == Action::FindNext,
        m.needle matches Some(p) && p.items.len() > 0,
        0 <= m.cur,
    ensures
        searched(m, m.needle->0.items, hay, m.cur + 1, m.on_key(hay, k)),
        m.on_key(hay, k).needle == m.needle,
        m.on_key(hay, k).input == m.input,
{
    let cleared = Model { status: seq![], ..m };
    lemma_searched(cleared, hay, m.cur + 1);
    let r = cleared.run_search(hay, m.cur + 1);
    assert(m.on_key(hay, k) == r);
    let there = Model { cur: r.cur, ..cleared };
    let here = Model { cur: r.cur, ..m };
    assert(there.shape(hay) == here.shape(hay));
}

/// With nothing to search for yet, the key for the next match says so and does
/// nothing else.
pub proof fn law_nothing_to_search_for_yet(m: Model, hay: Seq<u8>, k: Key)
    requires
        m.input is Normal,
        k.wish() == Action::FindNext,
        m.needle is None,
    ensures
        m.on_key(hay, k) == (Model { status: "Nothing to search for yet (7)"@, ..m }),
{
}

// ── What matches ────────────────────────────────────────────────────────────

/// Bytes without a wildcard match where the file holds just these bytes.
pub proof fn law_a_match_is_the_bytes_themselves(bytes: Seq<u8>, hay: Seq<u8>, at: int)
    ensures
        pattern::matches(Seq::new(bytes.len(), |i: int| Some(bytes[i])), hay, at) <==> 0 <= at && at
            + bytes.len() <= hay.len() && hay.subrange(at, at + bytes.len()) == bytes,
{
    let items: Seq<Option<u8>> = Seq::new(bytes.len(), |i: int| Some(bytes[i]));
    if pattern::matches(items, hay, at) {
        assert forall|i: int| 0 <= i < bytes.len() implies hay.subrange(
            at,
            at + bytes.len(),
        )[i] == #[trigger] bytes[i] by {
            assert(items[i] == Some(bytes[i]));
        }
        assert(hay.subrange(at, at + bytes.len()) =~= bytes);
    }
    if 0 <= at && at + bytes.len() <= hay.len() && hay.subrange(at, at + bytes.len()) == bytes {
        assert forall|k: int| 0 <= k < items.len() implies (#[trigger] items[k] matches Some(b)
            ==> hay[at + k] == b) by {
            assert(hay.subrange(at, at + bytes.len())[k] == hay[at + k]);
        }
    }
}

/// A pattern with wildcards matches where each of its known bytes does.
pub proof fn law_a_match_agrees_with_every_known_byte(
    items: Seq<Option<u8>>,
    hay: Seq<u8>,
    at: int,
)
    ensures
        pattern::matches(items, hay, at) <==> 0 <= at && at + items.len() <= hay.len() && forall|
            k: int,
        |
            0 <= k < items.len() && (#[trigger] items[k]) is Some ==> items[k] == Some(hay[at + k]),
{
}

/// The first of all matches between two places is the first that lies there,
/// and each of the others is the first that lies past the end of the one before.
pub proof fn law_each_match_is_the_first_past_the_last(
    items: Seq<Option<u8>>,
    hay: Seq<u8>,
    from: int,
    i: int,
)
    requires
        items.len() > 0,
        0 <= i < pattern::all_matches(items, hay, from, hay.len() as int).len(),
    ensures
        ({
            let all = pattern::all_matches(items, hay, from, hay.len() as int);
            first_from(
                items,
                hay,
                if i == 0 {
                    from
                } else {
                    all[i - 1] + items.len()
                },
                all[i],
            )
        }),
{
    let len = hay.len() as int;
    let all = pattern::all_matches(items, hay, from, len);
    if i == 0 {
        pattern::lemma_next_match(items, hay, from, len);
        let p = pattern::next_match(items, hay, from, len)->0;
        assert(all[0] == p);
    } else {
        pattern::lemma_following(items, hay, from, len, i - 1);
        pattern::lemma_next_match(items, hay, all[i - 1] + items.len(), len);
    }
}

/// Past the last of all matches there is none.
pub proof fn law_past_the_last_match_there_is_none(items: Seq<Option<u8>>, hay: Seq<u8>, from: int)
    requires
        items.len() > 0,
    ensures
        ({
            let all = pattern::all_matches(items, hay, from, hay.len() as int);
            nowhere_from(
                items,
                hay,
                if all.len() == 0 {
                    from
                } else {
                    all.last() + items.len()
                },
            )
        }),
{
    rows::lemma_nothing_after(items, hay, from, hay.len() as int);
}

/// The first so many of a list are its front, and all of it if it is shorter;
/// so it is with what a search is asked for at most.
pub proof fn law_at_most_so_many(all: Seq<int>, n: int)
    requires
        0 <= n,
    ensures
        ({
            let got = crate::reader::first_n(all, n);
            &&& got.len() == if all.len() <= n {
                all.len() as int
            } else {
                n
            }
            &&& forall|i: int| 0 <= i < got.len() ==> #[trigger] got[i] == all[i]
        }),
{
}

// ── What was typed ──────────────────────────────────────────────────────────

/// The characters of a text behind its first two that are no white space.
pub open spec fn behind_the_mark(s: Seq<char>) -> Seq<char> {
    s.skip(2).filter(|c: char| !text::white(c))
}

/// Is this the value of a hex digit?
pub open spec fn digit_worth(c: char, v: int) -> bool {
    let u = c as int;
    ||| 0x30 <= u <= 0x39 && v == u - 0x30
    ||| 0x41 <= u <= 0x46 && v == u - 0x41 + 10
    ||| 0x61 <= u <= 0x66 && v == u - 0x61 + 10
}

/// `x:` in front, in either case, makes a pattern of hex pairs: each pair is a
/// byte, first digit first, or any byte where it is `??`.
pub proof fn law_hex_pairs_are_bytes(s: Seq<char>, e: Encoding, i: int)
    requires
        s.len() >= 2,
        s[0] == 'x' || s[0] == 'X',
        s[1] == ':',
        pattern::parsed(s, e) is Ok,
        0 <= i < pattern::parsed(s, e)->Ok_0.len(),
    ensures
        ({
            let items = pattern::parsed(s, e)->Ok_0;
            let cs = behind_the_mark(s);
            &&& cs.len() == 2 * items.len() && items.len() > 0
            &&& items[i] is None <==> cs[2 * i] == '?' && cs[2 * i + 1] == '?'
            &&& items[i] matches Some(b) ==> exists|hi: int, lo: int|
                #[trigger] digit_worth(cs[2 * i], hi) && #[trigger] digit_worth(cs[2 * i + 1], lo)
                    && b == hi * 16 + lo
        }),
{
    let cs = behind_the_mark(s);
    assert(cs == pattern::hex_chars(s));
    assert(pattern::hex_item(cs[2 * i], cs[2 * i + 1]) is Some);
    let items = pattern::parsed(s, e)->Ok_0;
    assert(items[i] == pattern::hex_item(cs[2 * i], cs[2 * i + 1])->0);
    if let Some(b) = items[i] {
        let hi = pattern::hex_value(cs[2 * i])->0;
        let lo = pattern::hex_value(cs[2 * i + 1])->0;
        assert(digit_worth(cs[2 * i], hi) && digit_worth(cs[2 * i + 1], lo));
        assert(b == (hi * 16 + lo) as u8);
    }
}

/// Whole pairs that each stand for something are a pattern; anything else
/// behind `x:` is bad hex.
pub proof fn law_only_whole_pairs_are_a_pattern(s: Seq<char>, e: Encoding)
    requires
        s.len() >= 2,
        s[0] == 'x' || s[0] == 'X',
        s[1] == ':',
    ensures
        ({
            let cs = behind_the_mark(s);
            let good = cs.len() > 0 && cs.len() % 2 == 0 && forall|i: int|
                #![trigger cs[2 * i]]
                0 <= i < cs.len() / 2 ==> (cs[2 * i] == '?' && cs[2 * i + 1] == '?') || (
                pattern::hex_value(cs[2 * i]) is Some && pattern::hex_value(cs[2 * i + 1]) is Some);
            &&& good <==> pattern::parsed(s, e) is Ok
            &&& !good ==> pattern::parsed(s, e) == Err::<
                Seq<Option<u8>>,
                pattern::PatternError,
            >(pattern::PatternError::BadHex)
        }),
{
    let cs = behind_the_mark(s);
    assert(cs == pattern::hex_chars(s));
    if pattern::parsed(s, e) is Ok {
        assert forall|i: int| #![trigger cs[2 * i]] 0 <= i < cs.len() / 2 implies (cs[2 * i] == '?'
            && cs[2 * i + 1] == '?') || (pattern::hex_value(cs[2 * i]) is Some && pattern::hex_value(
            cs[2 * i + 1],
        ) is Some) by {
            assert(pattern::hex_item(cs[2 * i], cs[2 * i + 1]) is Some);
        }
    } else if cs.len() > 0 && cs.len() % 2 == 0 {
        let i = choose|i: int|
            0 <= i < cs.len() / 2 && !((#[trigger] pattern::hex_item(
                cs[2 * i],
                cs[2 * i + 1],
            )) is Some);
        assert(cs[2 * i] == cs[2 * i]);
    }
}

/// Any other text is the pattern of the bytes it has in the code page, one
/// after the other and none of them a wildcard. No text at all is no pattern,
/// and text that the code page lacks is refused by the first character of it.
pub proof fn law_text_is_the_pattern_of_its_bytes(s: Seq<char>, e: Encoding)
    requires
        !(s.len() >= 2 && (s[0] == 'x' || s[0] == 'X') && s[1] == ':'),
    ensures
        s.len() == 0 ==> pattern::parsed(s, e) == Err::<Seq<Option<u8>>, pattern::PatternError>(
            pattern::PatternError::Empty,
        ),
        s.len() > 0 && crate::encoding::representable(e, s) ==> (pattern::parsed(s, e) matches Ok(
            items,
        ) && items.len() == crate::encoding::text_bytes(e, s).len() && forall|i: int|
            0 <= i < items.len() ==> #[trigger] items[i] == Some(
                crate::encoding::text_bytes(e, s)[i],
            )),
        s.len() > 0 && !crate::encoding::representable(e, s) ==> (pattern::parsed(s, e) matches Err(
            pattern::PatternError::Unrepresentable(c, page),
        ) && Some(c) == crate::encoding::missing_char(e, s) && page == e),
{
    if s.len() > 0 && !crate::encoding::representable(e, s) {
        crate::laws::glyphs::law_the_first_missing_character_is_named(e, s);
    }
}

/// The bytes of a text: its UTF-8 form in the UTF-8 view and, since ASCII
/// cannot hold more, in the ASCII view; elsewhere one byte for each character.
pub proof fn law_the_bytes_of_a_text(s: Seq<char>, e: Encoding)
    ensures
        e == Encoding::Ascii || e == Encoding::Utf8 ==> crate::encoding::representable(e, s)
            && crate::encoding::text_bytes(e, s) == vstd::utf8::encode_utf8(s),
        e != Encoding::Ascii && e != Encoding::Utf8 ==> {
            &&& crate::encoding::representable(e, s) <==> forall|i: int|
                0 <= i < s.len() ==> crate::encoding::char_byte(e, #[trigger] s[i]) is Some
            &&& crate::encoding::representable(e, s) ==> crate::encoding::text_bytes(e, s).len()
                == s.len() && forall|i: int|
                0 <= i < s.len() ==> Some(#[trigger] crate::encoding::text_bytes(e, s)[i])
                    == crate::encoding::char_byte(e, s[i])
        },
{
    if crate::encoding::representable(e, s) && e != Encoding::Ascii && e != Encoding::Utf8 {
        assert forall|i: int| 0 <= i < s.len() implies Some(
            #[trigger] crate::encoding::text_bytes(e, s)[i],
        ) == crate::encoding::char_byte(e, s[i]) by {
            assert(crate::encoding::char_byte(e, s[i]) is Some);
        }
    }
}

// ── Code pages and patterns ─────────────────────────────────────────────────

/// After the code page is switched, either pattern whose text exists there has
/// just the bytes of its text in it, the record pattern as well as the search
/// pattern; one whose text does not keeps the bytes it had. Both keep their
/// text, and nothing else changes but the code page and the status line.
pub proof fn law_both_patterns_follow_the_code_page(m: Model, e: Encoding)
    ensures
        ({
            let r = m.set_encoding(e);
            &&& r.enc == e
            &&& r == Model {
                enc: e,
                needle: r.needle,
                record: r.record,
                status: r.status,
                ..m
            }
            &&& follows(m.needle, r.needle, e)
            &&& follows(m.record, r.record, e)
        }),
{
}

/// Is this the pattern in a slot after a switch to a code page?
pub open spec fn follows(
    before: Option<PatternModel>,
    after: Option<PatternModel>,
    e: Encoding,
) -> bool {
    &&& before is None <==> after is None
    &&& before matches Some(p) ==> {
        &&& after->0.text == p.text
        &&& pattern::parsed(p.text, e) is Ok ==> pattern::parsed(p.text, e) == Ok::<
            Seq<Option<u8>>,
            pattern::PatternError,
        >(after->0.items)
        &&& pattern::parsed(p.text, e) is Err ==> after->0.items == p.items
    }
}

/// The status line names the new code page, unless a pattern could not follow:
/// then it says so, of the record pattern if of either.
pub proof fn law_the_status_says_which_pattern_could_not_follow(m: Model, e: Encoding)
    ensures
        ({
            let r = m.set_encoding(e);
            let left = " — pattern left as it was"@;
            match (lost(m.record, e), lost(m.needle, e)) {
                (Some(err), _) => r.status == err.message_text() + left,
                (None, Some(err)) => r.status == err.message_text() + left,
                (None, None) => r.status == "Encoding: "@ + e.name_text(),
            }
        }),
{
}

/// Why a pattern does not exist in a code page, if it does not.
pub open spec fn lost(slot: Option<PatternModel>, e: Encoding) -> Option<pattern::PatternError> {
    match slot {
        Some(p) => match pattern::parsed(p.text, e) {
            Err(err) => Some(err),
            Ok(_) => None,
        },
        None => None,
    }
}

} // verus!
