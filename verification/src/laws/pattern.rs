//! Laws of patterns.

use crate::encoding::Encoding;
use crate::pattern;
use crate::text;
use vstd::prelude::*;

verus! {

/// Every match that is listed is one, they come in ascending order, and no two
/// of them overlap.
pub proof fn law_matches_do_not_overlap(
    items: Seq<Option<u8>>,
    hay: Seq<u8>,
    from: int,
    end: int,
    i: int,
    j: int,
)
    requires
        items.len() > 0,
        0 <= i < j < pattern::all_matches(items, hay, from, end).len(),
    ensures
        ({
            let all = pattern::all_matches(items, hay, from, end);
            &&& from <= all[i]
            &&& all[i] + items.len() <= all[j]
            &&& all[j] + items.len() <= end
            &&& pattern::matches(items, hay, all[i])
            &&& pattern::matches(items, hay, all[j])
        }),
{
    pattern::lemma_all_matches(items, hay, from, end);
}

/// No match is lost: one that is not listed overlaps one that is, which starts
/// before it.
pub proof fn law_no_match_is_lost(
    items: Seq<Option<u8>>,
    hay: Seq<u8>,
    from: int,
    end: int,
    at: int,
)
    requires
        items.len() > 0,
        from <= at,
        at + items.len() <= end,
        pattern::matches(items, hay, at),
    ensures
        exists|j: int|
            0 <= j < pattern::all_matches(items, hay, from, end).len() && (
            #[trigger] pattern::all_matches(items, hay, from, end)[j]) <= at < pattern::all_matches(
                items,
                hay,
                from,
                end,
            )[j] + items.len(),
    decreases end + 1 - from,
{
    let all = pattern::all_matches(items, hay, from, end);
    pattern::lemma_next_match(items, hay, from, end);
    let p = pattern::next_match(items, hay, from, end)->0;
    let rest = pattern::all_matches(items, hay, p + items.len(), end);
    assert(all == seq![p] + rest);
    if at < p + items.len() {
        assert(all[0] == p);
    } else {
        law_no_match_is_lost(items, hay, p + items.len(), end, at);
        let k = choose|k: int|
            0 <= k < rest.len() && #[trigger] rest[k] <= at < rest[k] + items.len();
        assert(all[k + 1] == rest[k]);
    }
}

/// Bytes typed as hex are the same in every code page.
pub proof fn law_hex_ignores_the_code_page(s: Seq<char>, a: Encoding, b: Encoding)
    requires
        pattern::hex_form(s),
    ensures
        pattern::parsed(s, a) == pattern::parsed(s, b),
{
}

/// White space has no part in hex.
proof fn lemma_white_gone(w: Seq<char>)
    requires
        forall|i: int| 0 <= i < w.len() ==> text::white(#[trigger] w[i]),
    ensures
        w.filter(|c: char| !text::white(c)) == Seq::<char>::empty(),
    decreases w.len(),
{
    reveal(Seq::filter);
    if w.len() > 0 {
        let t = w.drop_last();
        assert forall|i: int| 0 <= i < t.len() implies text::white(#[trigger] t[i]) by {
            assert(t[i] == w[i]);
        }
        lemma_white_gone(t);
        assert(text::white(w[w.len() - 1]));
    }
}

/// White space put in anywhere behind the `x:` of the hex form, or taken out of
/// it, makes no difference, in whichever code pages the two are read.
pub proof fn law_hex_ignores_white_space(
    head: Seq<char>,
    u: Seq<char>,
    w: Seq<char>,
    v: Seq<char>,
    a: Encoding,
    b: Encoding,
)
    requires
        head.len() == 2,
        pattern::hex_form(head),
        forall|i: int| 0 <= i < w.len() ==> text::white(#[trigger] w[i]),
    ensures
        pattern::parsed(head + u + w + v, a) == pattern::parsed(head + u + v, b),
{
    let counts = |c: char| !text::white(c);
    let spaced = head + u + w + v;
    let plain = head + u + v;
    assert(spaced.skip(2) =~= u + w + v);
    assert(plain.skip(2) =~= u + v);
    Seq::filter_distributes_over_add(u + w, v, counts);
    Seq::filter_distributes_over_add(u, w, counts);
    Seq::filter_distributes_over_add(u, v, counts);
    lemma_white_gone(w);
    assert(u.filter(counts) + Seq::<char>::empty() =~= u.filter(counts));
    assert(pattern::hex_chars(spaced) == pattern::hex_chars(plain));
    assert(pattern::hex_form(spaced) && pattern::hex_form(plain));
}

/// A wildcard matches any byte: changing the byte under it changes nothing.
pub proof fn law_wildcards_match_any_byte(
    items: Seq<Option<u8>>,
    hay: Seq<u8>,
    pos: int,
    k: int,
    b: u8,
)
    requires
        0 <= pos,
        pos + items.len() <= hay.len(),
        0 <= k < items.len(),
        items[k] is None,
    ensures
        pattern::matches(items, hay.update(pos + k, b), pos) == pattern::matches(items, hay, pos),
{
    let other = hay.update(pos + k, b);
    assert forall|i: int| 0 <= i < items.len() && i != k implies #[trigger] other[pos + i] == hay[pos
        + i] by {}
    if pattern::matches(items, hay, pos) {
        assert forall|i: int| 0 <= i < items.len() implies (#[trigger] items[i] matches Some(x)
            ==> other[pos + i] == x) by {
            if i != k {
                assert(other[pos + i] == hay[pos + i]);
            }
        }
    }
    if pattern::matches(items, other, pos) {
        assert forall|i: int| 0 <= i < items.len() implies (#[trigger] items[i] matches Some(x)
            ==> hay[pos + i] == x) by {
            if i != k {
                assert(other[pos + i] == hay[pos + i]);
            }
        }
    }
}

/// The bytes looked for first are the longest run of known ones: all of them are
/// known, no run elsewhere is longer, and one as long does not come before it.
pub proof fn law_the_longest_run_of_known_bytes(
    items: Seq<Option<u8>>,
    start: int,
    len: int,
    s: int,
    l: int,
)
    requires
        pattern::longest_run(items, start, len),
        0 <= s,
        0 <= l,
        s + l <= items.len(),
        forall|k: int| s <= k < s + l ==> #[trigger] items[k] is Some,
    ensures
        0 <= start && start + len <= items.len(),
        forall|k: int| start <= k < start + len ==> #[trigger] items[k] is Some,
        l <= len,
        l == len ==> start <= s,
{
    assert(pattern::literal_run(items, s, l));
}

} // verus!
