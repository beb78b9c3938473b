//! Small pieces of text handling: characters of a string, white space,
//! numbers written out in a radix, and padding.

use vstd::prelude::*;
use vstd::string::*;

verus! {

/// `String::push` appends one character.
pub assume_specification[ String::push ](s: &mut String, c: char)
    ensures
        final(s)@ == old(s)@.push(c),
;

/// `String::pop` takes the last character off, and says which one it was;
/// an empty string stays empty and gives nothing.
pub assume_specification[ String::pop ](s: &mut String) -> (res: Option<char>)
    ensures
        old(s)@.len() == 0 ==> res is None && final(s)@ == old(s)@,
        old(s)@.len() > 0 ==> res == Some(old(s)@.last()) && final(s)@ == old(s)@.drop_last(),
;

/// `String::clear` leaves the string empty.
pub assume_specification[ String::clear ](s: &mut String)
    ensures
        final(s)@ == Seq::<char>::empty(),
;

/// The characters of a string, in order.
pub fn chars_of(s: &str) -> (res: Vec<char>)
    ensures
        res@ == s@,
{
    let mut out: Vec<char> = Vec::new();
    for c in it: s.chars()
        invariant
            out@ == it.seq().take(it.index()),
    {
        out.push(c);
    }
    out
}

/// `n` copies of a character.
pub open spec fn copies(c: char, n: int) -> Seq<char> {
    Seq::new(if n > 0 { n as nat } else { 0 }, |i: int| c)
}

/// Append `n` copies of a character.
pub fn push_copies(out: &mut String, c: char, n: usize)
    ensures
        final(out)@ == old(out)@ + copies(c, n as int),
{
    let ghost before = out@;
    for i in 0..n
        invariant
            out@ =~= before + copies(c, i as int),
    {
        out.push(c);
    }
}

/// A string made of the given characters.
pub fn string_of(chars: &[char]) -> (res: String)
    ensures
        res@ == chars@,
{
    let mut out = String::new();
    for i in 0..chars.len()
        invariant
            out@ =~= chars@.take(i as int),
    {
        out.push(chars[i]);
    }
    assert(chars@.take(chars.len() as int) =~= chars@);
    out
}

/// The characters with the Unicode property White_Space.
pub open spec fn white(c: char) -> bool {
    let u = c as u32;
    ||| 0x09 <= u <= 0x0D
    ||| u == 0x20
    ||| u == 0x85
    ||| u == 0xA0
    ||| u == 0x1680
    ||| 0x2000 <= u <= 0x200A
    ||| u == 0x2028
    ||| u == 0x2029
    ||| u == 0x202F
    ||| u == 0x205F
    ||| u == 0x3000
}

/// Is this character white space?
pub fn is_white(c: char) -> (res: bool)
    ensures
        res == white(c),
{
    let u: u32 = c as u32;
    (0x09 <= u && u <= 0x0D) || u == 0x20 || u == 0x85 || u == 0xA0 || u == 0x1680
        || (0x2000 <= u && u <= 0x200A) || u == 0x2028 || u == 0x2029 || u == 0x202F
        || u == 0x205F || u == 0x3000
}

/// `s` without the white space at its front.
pub open spec fn trim_front(s: Seq<char>) -> Seq<char>
    decreases s.len(),
{
    if s.len() > 0 && white(s.first()) {
        trim_front(s.drop_first())
    } else {
        s
    }
}

/// `s` without the white space at its back.
pub open spec fn trim_back(s: Seq<char>) -> Seq<char>
    decreases s.len(),
{
    if s.len() > 0 && white(s.last()) {
        trim_back(s.drop_last())
    } else {
        s
    }
}

/// `s` without the white space on either side.
pub open spec fn trimmed(s: Seq<char>) -> Seq<char> {
    trim_back(trim_front(s))
}

/// Take the white space off both sides.
pub fn trim(s: &[char]) -> (res: Vec<char>)
    ensures
        res@ == trimmed(s@),
{
    let n: usize = s.len();
    let mut a: usize = 0;
    assert(s@.skip(0) =~= s@);
    while a < n && is_white(s[a])
        invariant
            a <= n == s@.len(),
            trim_front(s@.skip(a as int)) == trim_front(s@),
        decreases n - a,
    {
        assert(s@.skip(a as int).drop_first() =~= s@.skip(a + 1));
        a += 1;
    }
    assert(trim_front(s@) == s@.skip(a as int));
    let mut b: usize = n;
    assert(s@.subrange(a as int, n as int) =~= s@.skip(a as int));
    while a < b && is_white(s[b - 1])
        invariant
            a <= b <= n == s@.len(),
            trim_back(s@.subrange(a as int, b as int)) == trimmed(s@),
        decreases b,
    {
        assert(s@.subrange(a as int, b as int).drop_last() =~= s@.subrange(a as int, b - 1));
        b -= 1;
    }
    let mut out: Vec<char> = Vec::new();
    for i in a..b
        invariant
            a <= b <= n == s@.len(),
            out@ =~= s@.subrange(a as int, i as int),
    {
        out.push(s[i]);
    }
    out
}

/// The digit written for a value below 16.
pub open spec fn digit_char(v: int) -> char {
    if v < 10 {
        (48 + v) as char
    } else {
        (55 + v) as char
    }
}

/// Write a digit below 16, in upper case.
pub fn digit(v: u8) -> (res: char)
    requires
        v < 16,
    ensures
        res == digit_char(v as int),
{
    if v < 10 {
        (48 + v) as char
    } else {
        (55 + v) as char
    }
}

/// A number written out in a radix, most significant digit first, with no
/// leading zeros (zero itself is one digit).
pub open spec fn radix_text(n: int, radix: int) -> Seq<char>
    decreases n,
{
    if n < radix || radix < 2 {
        seq![digit_char(n)]
    } else {
        proof {
            assert(0 <= n / radix < n) by (nonlinear_arith)
                requires
                    n >= radix >= 2,
            ;
        }
        radix_text(n / radix, radix).push(digit_char(n % radix))
    }
}

/// Append a number written out in a radix.
pub fn push_radix(out: &mut String, n: u64, radix: u64)
    requires
        2 <= radix <= 16,
    ensures
        final(out)@ == old(out)@ + radix_text(n as int, radix as int),
    decreases n,
{
    let ghost before = out@;
    if n >= radix {
        assert(n / radix < n) by (nonlinear_arith)
            requires
                n >= radix >= 2,
        ;
        push_radix(out, n / radix, radix);
        out.push(digit((n % radix) as u8));
        assert(out@ =~= before + radix_text(n as int, radix as int));
    } else {
        out.push(digit(n as u8));
        assert(out@ =~= before + radix_text(n as int, radix as int));
    }
}

/// A number in decimal.
pub open spec fn decimal(n: int) -> Seq<char> {
    radix_text(n, 10)
}

/// A number in upper-case hexadecimal.
pub open spec fn upper_hex(n: int) -> Seq<char> {
    radix_text(n, 16)
}

/// `s` with copies of `fill` in front of it, up to a width.
pub open spec fn pad_front(s: Seq<char>, fill: char, width: int) -> Seq<char> {
    copies(fill, width - s.len()) + s
}

/// `s` with spaces behind it, up to a width.
pub open spec fn pad_back(s: Seq<char>, width: int) -> Seq<char> {
    s + copies(' ', width - s.len())
}

/// How many characters a string has.
pub fn char_count(s: &str) -> (res: usize)
    ensures
        res == s@.len(),
{
    s.unicode_len()
}

/// Append `s` with copies of `fill` in front of it, up to a width.
pub fn push_padded_front(out: &mut String, s: &str, fill: char, width: usize)
    ensures
        final(out)@ == old(out)@ + pad_front(s@, fill, width as int),
{
    let ghost before = out@;
    let n: usize = char_count(s);
    if n < width {
        push_copies(out, fill, width - n);
    }
    out.append(s);
    assert(out@ =~= before + pad_front(s@, fill, width as int));
}

/// Append `s` with spaces behind it, up to a width.
pub fn push_padded_back(out: &mut String, s: &str, width: usize)
    ensures
        final(out)@ == old(out)@ + pad_back(s@, width as int),
{
    let ghost before = out@;
    let n: usize = char_count(s);
    out.append(s);
    if n < width {
        push_copies(out, ' ', width - n);
    }
    assert(out@ =~= before + pad_back(s@, width as int));
}

} // verus!
