//! Laws of characters, white space and numbers written out, over code points
//! and values.

use crate::pattern;
use crate::text;
use crate::view;
use vstd::prelude::*;

verus! {

// ── White space ─────────────────────────────────────────────────────────────

/// White space is what Unicode lists as such, and nothing else.
pub proof fn law_white_space_is_what_unicode_lists(c: char)
    ensures
        ({
            let listed: Seq<int> = seq![
                0x0009int, 0x000A, 0x000B, 0x000C, 0x000D, 0x0020, 0x0085, 0x00A0, 0x1680, 0x2000,
                0x2001, 0x2002, 0x2003, 0x2004, 0x2005, 0x2006, 0x2007, 0x2008, 0x2009, 0x200A,
                0x2028, 0x2029, 0x202F, 0x205F, 0x3000,
            ];
            text::white(c) <==> listed.contains(c as int)
        }),
{
    let listed: Seq<int> = seq![
        0x0009int, 0x000A, 0x000B, 0x000C, 0x000D, 0x0020, 0x0085, 0x00A0, 0x1680, 0x2000,
        0x2001, 0x2002, 0x2003, 0x2004, 0x2005, 0x2006, 0x2007, 0x2008, 0x2009, 0x200A,
        0x2028, 0x2029, 0x202F, 0x205F, 0x3000,
    ];
    let u = c as int;
    if text::white(c) {
        let k: int = if u <= 0x0D {
            u - 9
        } else if u == 0x20 {
            5
        } else if u == 0x85 {
            6
        } else if u == 0xA0 {
            7
        } else if u == 0x1680 {
            8
        } else if u <= 0x200A {
            u - 0x2000 + 9
        } else if u == 0x2028 {
            20
        } else if u == 0x2029 {
            21
        } else if u == 0x202F {
            22
        } else if u == 0x205F {
            23
        } else {
            24
        };
        assert(listed[k] == u);
    }
}

/// Trimming takes white space off both ends and nothing else: what is left is
/// the text between them, and has none at either end.
pub proof fn law_trimming_takes_white_space_off_both_ends(s: Seq<char>)
    ensures
        exists|a: int, b: int|
            0 <= a <= b <= s.len() && #[trigger] s.subrange(a, b) == text::trimmed(s) && (forall|
                i: int,
            |
                0 <= i < a ==> text::white(#[trigger] s[i])) && (forall|i: int|
                b <= i < s.len() ==> text::white(#[trigger] s[i])) && (a < b ==> !text::white(s[a])
                && !text::white(s[b - 1])),
{
    let a = lemma_front(s);
    let t = s.skip(a);
    let b = lemma_back(t);
    assert(s.subrange(a, a + b) =~= t.take(b));
    assert forall|i: int| a + b <= i < s.len() implies text::white(#[trigger] s[i]) by {
        assert(s[i] == t[i - a]);
    }
    assert(s.subrange(a, a + b) == text::trimmed(s));
    if b > 0 {
        assert(s[a] == t[0]);
        assert(s[a + b - 1] == t[b - 1]);
    }
}

proof fn lemma_front(s: Seq<char>) -> (a: int)
    ensures
        0 <= a <= s.len(),
        text::trim_front(s) == s.skip(a),
        forall|i: int| 0 <= i < a ==> text::white(#[trigger] s[i]),
        a < s.len() ==> !text::white(s[a]),
    decreases s.len(),
{
    if s.len() > 0 && text::white(s.first()) {
        let rest = s.drop_first();
        let k = lemma_front(rest);
        assert(rest.skip(k) =~= s.skip(k + 1));
        assert forall|i: int| 0 <= i < k + 1 implies text::white(#[trigger] s[i]) by {
            if i > 0 {
                assert(rest[i - 1] == s[i]);
            }
        }
        if k < rest.len() {
            assert(rest[k] == s[k + 1]);
        }
        k + 1
    } else {
        assert(s.skip(0) =~= s);
        0
    }
}

proof fn lemma_back(s: Seq<char>) -> (b: int)
    ensures
        0 <= b <= s.len(),
        text::trim_back(s) == s.take(b),
        forall|i: int| b <= i < s.len() ==> text::white(#[trigger] s[i]),
        b > 0 ==> !text::white(s[b - 1]),
        b > 0 ==> text::trim_back(s).len() > 0,
    decreases s.len(),
{
    if s.len() > 0 && text::white(s.last()) {
        let rest = s.drop_last();
        let k = lemma_back(rest);
        assert(rest.take(k) =~= s.take(k));
        assert forall|i: int| k <= i < s.len() implies text::white(#[trigger] s[i]) by {
            if i < rest.len() {
                assert(rest[i] == s[i]);
            }
        }
        if k > 0 {
            assert(rest[k - 1] == s[k - 1]);
        }
        k
    } else {
        assert(s.take(s.len() as int) =~= s);
        s.len() as int
    }
}

/// White space around a text makes no difference once it is trimmed.
pub proof fn law_white_space_around_a_text_is_trimmed_off(w: Seq<char>, s: Seq<char>, v: Seq<char>)
    requires
        forall|i: int| 0 <= i < w.len() ==> text::white(#[trigger] w[i]),
        forall|i: int| 0 <= i < v.len() ==> text::white(#[trigger] v[i]),
    ensures
        text::trimmed(w + s + v) == text::trimmed(s),
    decreases w.len(), v.len(),
{
    if w.len() > 0 {
        let rest = w.drop_first();
        assert forall|i: int| 0 <= i < rest.len() implies text::white(#[trigger] rest[i]) by {
            assert(rest[i] == w[i + 1]);
        }
        law_white_space_around_a_text_is_trimmed_off(rest, s, v);
        assert((w + s + v).drop_first() =~= rest + s + v);
        assert((w + s + v).first() == w[0]);
    } else if v.len() > 0 {
        let rest = v.drop_last();
        assert forall|i: int| 0 <= i < rest.len() implies text::white(#[trigger] rest[i]) by {
            assert(rest[i] == v[i]);
        }
        law_white_space_around_a_text_is_trimmed_off(w, s, rest);
        assert(w + s + v =~= (w + s + rest).push(v.last()));
        assert(text::white(v[v.len() - 1]));
        lemma_trim_push(w + s + rest, v.last());
    } else {
        assert(w + s + v =~= s);
    }
}

proof fn lemma_trim_push(s: Seq<char>, c: char)
    requires
        text::white(c),
    ensures
        text::trimmed(s.push(c)) == text::trimmed(s),
    decreases s.len(),
{
    let t = s.push(c);
    if s.len() == 0 {
        assert(t.drop_first() =~= s);
    } else if text::white(s.first()) {
        lemma_trim_push(s.drop_first(), c);
        assert(t.drop_first() =~= s.drop_first().push(c));
    } else {
        assert(t.drop_last() =~= s);
    }
}

// ── Digits ──────────────────────────────────────────────────────────────────

/// A digit is the character that has its value: `0` to `9`, then `A` to `F`.
/// Read back, either case of a letter has that value, and no other character
/// has one.
pub proof fn law_digits_have_their_values(c: char, v: int)
    requires
        0 <= v < 16,
    ensures
        text::digit_char(v) as int == if v <= 9 {
            0x30 + v
        } else {
            0x41 + (v - 10)
        },
        pattern::hex_value(c) == if 0x30 <= c as int <= 0x39 {
            Some(c as int - 0x30)
        } else if 0x41 <= c as int <= 0x46 {
            Some(c as int - 0x41 + 10)
        } else if 0x61 <= c as int <= 0x66 {
            Some(c as int - 0x61 + 10)
        } else {
            None
        },
        pattern::hex_value(text::digit_char(v)) == Some(v),
{
}

/// What a place is worth, counted from the right.
pub open spec fn place(radix: int, k: int) -> int
    decreases k,
{
    if k <= 0 {
        1
    } else {
        radix * place(radix, k - 1)
    }
}

/// The sum of the digits, each times what its place is worth.
pub open spec fn weight(s: Seq<char>, radix: int, from: int) -> int
    decreases s.len() - from,
{
    if from < 0 || from >= s.len() {
        0
    } else {
        (if s[from] as int >= 0x41 {
            s[from] as int - 0x41 + 10
        } else {
            s[from] as int - 0x30
        }) * place(radix, s.len() - 1 - from) + weight(s, radix, from + 1)
    }
}

pub proof fn lemma_weight_push(s: Seq<char>, c: char, radix: int, from: int)
    requires
        0 <= from <= s.len(),
    ensures
        weight(s.push(c), radix, from) == radix * weight(s, radix, from) + weight(
            s.push(c),
            radix,
            s.len() as int,
        ),
    decreases s.len() - from,
{
    let t = s.push(c);
    if from < s.len() {
        lemma_weight_push(s, c, radix, from + 1);
        let d = if s[from] as int >= 0x41 {
            s[from] as int - 0x41 + 10
        } else {
            s[from] as int - 0x30
        };
        let p = place(radix, s.len() - 1 - from);
        let w = weight(s, radix, from + 1);
        assert(t[from] == s[from]);
        assert(place(radix, s.len() - from) == radix * p);
        assert(d * (radix * p) + radix * w == radix * (d * p + w)) by (nonlinear_arith);
    } else {
        assert(radix * 0 == 0) by (nonlinear_arith);
    }
}

/// A number written out is worth what it was, in decimal and in hex, has no
/// zero in front that is not needed, and nothing but digits in it.
pub proof fn law_a_number_written_out_is_worth_itself(n: int, radix: int)
    requires
        0 <= n,
        radix == 10 || radix == 16,
    ensures
        ({
            let s = text::radix_text(n, radix);
            &&& weight(s, radix, 0) == n
            &&& s.len() >= 1
            &&& s.len() > 1 ==> s[0] != '0'
            &&& forall|i: int|
                0 <= i < s.len() ==> 0x30 <= (#[trigger] s[i]) as int <= 0x39 || radix == 16 && 0x41
                    <= s[i] as int <= 0x46
        }),
    decreases n,
{
    let s = text::radix_text(n, radix);
    if n < radix {
        assert(s =~= seq![text::digit_char(n)]);
        assert(place(radix, 0) == 1);
        assert(weight(s, radix, 1) == 0);
        assert(weight(s, radix, 0) == n * 1 + 0);
    } else {
        let q = n / radix;
        let d = n % radix;
        assert(n == radix * q + d && 0 <= d < radix && 1 <= q < n);
        law_a_number_written_out_is_worth_itself(q, radix);
        let t = text::radix_text(q, radix);
        assert(s == t.push(text::digit_char(d)));
        lemma_weight_push(t, text::digit_char(d), radix, 0);
        assert(weight(s, radix, s.len() as int) == 0);
        assert(place(radix, 0) == 1);
        assert(weight(s, radix, t.len() as int) == d * 1 + 0);
        assert(s[0] == t[0]);
        if t.len() == 1 {
            assert(weight(t, radix, 1) == 0);
            assert(q > 0);
            assert(t[0] != '0') by {
                if t[0] == '0' {
                    assert(weight(t, radix, 0) == 0 * 1 + 0);
                }
            }
        }
        assert forall|i: int| 0 <= i < s.len() implies 0x30 <= (#[trigger] s[i]) as int <= 0x39
            || radix == 16 && 0x41 <= s[i] as int <= 0x46 by {
            if i < t.len() {
                assert(s[i] == t[i]);
            }
        }
    }
}

/// An offset in so many hex digits has just these, all of them digits, and
/// they are worth the offset where it fits them.
pub proof fn law_fixed_hex_is_worth_the_offset(n: int, digits: int)
    requires
        0 <= n,
        0 <= digits,
    ensures
        ({
            let s = view::fixed_hex(n, digits);
            &&& s.len() == digits
            &&& n < place(16, digits) ==> weight(s, 16, 0) == n
            &&& forall|i: int|
                0 <= i < s.len() ==> 0x30 <= (#[trigger] s[i]) as int <= 0x39 || 0x41 <= s[i] as int
                    <= 0x46
        }),
    decreases digits,
{
    let s = view::fixed_hex(n, digits);
    if digits > 0 {
        let q = n / 16;
        let d = n % 16;
        law_fixed_hex_is_worth_the_offset(q, digits - 1);
        let t = view::fixed_hex(q, digits - 1);
        assert(s == t.push(text::digit_char(d)));
        lemma_weight_push(t, text::digit_char(d), 16, 0);
        assert(weight(s, 16, s.len() as int) == 0);
        assert(place(16, 0) == 1);
        assert(weight(s, 16, t.len() as int) == d * 1 + 0);
        if n < place(16, digits) {
            assert(place(16, digits) == 16 * place(16, digits - 1));
        }
        assert forall|i: int| 0 <= i < s.len() implies 0x30 <= (#[trigger] s[i]) as int <= 0x39
            || 0x41 <= s[i] as int <= 0x46 by {
            if i < t.len() {
                assert(s[i] == t[i]);
            }
        }
    } else {
        assert(weight(s, 16, 0) == 0);
    }
}

/// Typed digits are worth the sum of their places.
pub proof fn law_typed_digits_are_worth_their_places(s: Seq<char>, radix: int)
    requires
        radix == 10 || radix == 16,
        forall|i: int|
            0 <= i < s.len() ==> 0x30 <= (#[trigger] s[i]) as int <= 0x39 || radix == 16 && 0x41
                <= s[i] as int <= 0x46,
        s.len() > 0,
    ensures
        view::number(s, radix) == if weight(s, radix, 0) <= u64::MAX {
            Some(weight(s, radix, 0))
        } else {
            None
        },
{
    lemma_typed(s, radix);
    let first = s[0];
    assert(first != '+');
    assert(view::without_plus(s) == s);
    assert forall|i: int| 0 <= i < s.len() implies view::is_digit(#[trigger] s[i], radix) by {}
}

proof fn lemma_typed(s: Seq<char>, radix: int)
    requires
        radix == 10 || radix == 16,
        forall|i: int|
            0 <= i < s.len() ==> 0x30 <= (#[trigger] s[i]) as int <= 0x39 || radix == 16 && 0x41
                <= s[i] as int <= 0x46,
    ensures
        view::digits_value(s, radix) == weight(s, radix, 0),
    decreases s.len(),
{
    if s.len() > 0 {
        let t = s.drop_last();
        let c = s.last();
        assert forall|i: int| 0 <= i < t.len() implies 0x30 <= (#[trigger] t[i]) as int <= 0x39
            || radix == 16 && 0x41 <= t[i] as int <= 0x46 by {
            assert(t[i] == s[i]);
        }
        lemma_typed(t, radix);
        assert(s =~= t.push(c));
        lemma_weight_push(t, c, radix, 0);
        assert(c == s[s.len() - 1]);
        assert(weight(s, radix, s.len() as int) == 0);
        assert(place(radix, 0) == 1);
        let d = pattern::hex_value(c)->0;
        assert(weight(s, radix, t.len() as int) == d * 1 + 0);
        let w = weight(t, radix, 0);
        assert(w * radix == radix * w) by (nonlinear_arith);
    }
}

/// Padding adds nothing but the fill, on its side, and only up to the width.
pub proof fn law_padding_fills_up_to_the_width(s: Seq<char>, fill: char, width: int)
    ensures
        ({
            let front = text::pad_front(s, fill, width);
            let back = text::pad_back(s, width);
            let n: int = if width > s.len() {
                width
            } else {
                s.len() as int
            };
            &&& front.len() == n && back.len() == n
            &&& front.skip(n - s.len()) == s && back.take(s.len() as int) == s
            &&& forall|i: int| 0 <= i < n - s.len() ==> #[trigger] front[i] == fill
            &&& forall|i: int| s.len() <= i < n ==> #[trigger] back[i] == ' '
        }),
{
    let front = text::pad_front(s, fill, width);
    let back = text::pad_back(s, width);
    assert(front.skip(front.len() - s.len()) =~= s);
    assert(back.take(s.len() as int) =~= s);
}

} // verus!
