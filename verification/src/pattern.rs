//! Byte pattern with wildcards.
//!
//! The same type serves three things: search, splitting lines into records and
//! highlighting. The syntax is shared: either text, or `x:` followed by hex
//! pairs where `??` means any byte.
//!
//! Text is encoded with the current code page, so typing Cyrillic while
//! viewing a CP866 file searches for CP866 bytes, not UTF-8 ones.
//!
//! Wildcards break ordinary fast search: memmem can only look for an exact
//! sequence. So the longest solid run of known bytes inside the pattern is
//! picked as an "anchor", the file is sieved with it at full memmem speed, and
//! the full match with wildcards is only checked at the points it finds.

use crate::encoding;
use crate::encoding::Encoding;
use crate::text;
use memchr::memmem;
use vstd::prelude::*;
use vstd::slice::*;
use vstd::string::*;

verus! {

/// Why a pattern typed by the user did not parse.
#[derive(Debug, PartialEq, Eq, Structural)]
pub enum PatternError {
    Empty,
    BadHex,
    /// The character cannot be written in the current encoding.
    Unrepresentable(char, Encoding),
}

impl PatternError {
    /// What the user is told.
    pub open spec fn message_text(self) -> Seq<char> {
        match self {
            PatternError::Empty => "Pattern is empty"@,
            PatternError::BadHex => "Bad hex: expected pairs like x:4D 5A or x:4D ??"@,
            PatternError::Unrepresentable(c, enc) => seq!['\'', c] + "' is not in "@
                + enc.name_text(),
        }
    }

    /// What to tell the user.
    pub fn message(&self) -> (res: String)
        ensures
            res@ == self.message_text(),
    {
        match self {
            PatternError::Empty => "Pattern is empty".to_string(),
            PatternError::BadHex => "Bad hex: expected pairs like x:4D 5A or x:4D ??".to_string(),
            PatternError::Unrepresentable(c, enc) => {
                let mut out = String::new();
                out.push('\'');
                out.push(*c);
                assert(out@ =~= seq!['\'', *c]);
                out.append("' is not in ");
                out.append(enc.name());
                out
            },
        }
    }
}

// ── What a pattern matches ──────────────────────────────────────────────────

/// Does the pattern match when laid over `hay` starting at `pos`?
pub open spec fn matches(items: Seq<Option<u8>>, hay: Seq<u8>, pos: int) -> bool {
    &&& 0 <= pos
    &&& pos + items.len() <= hay.len()
    &&& forall|k: int|
        0 <= k < items.len() ==> (#[trigger] items[k] matches Some(b) ==> hay[pos + k] == b)
}

/// The first match at or after `from` that ends at or before `end`.
pub open spec fn next_match(items: Seq<Option<u8>>, hay: Seq<u8>, from: int, end: int) -> Option<
    int,
>
    decreases end + 1 - from,
{
    if from + items.len() > end {
        None
    } else if matches(items, hay, from) {
        Some(from)
    } else {
        next_match(items, hay, from + 1, end)
    }
}

/// Every match between `from` and `end`, by ascending offset. Matches do not
/// overlap: after one is found the search continues past its end.
pub open spec fn all_matches(items: Seq<Option<u8>>, hay: Seq<u8>, from: int, end: int) -> Seq<int>
    decreases end + 1 - from,
{
    match next_match(items, hay, from, end) {
        None => seq![],
        Some(p) => if items.len() == 0 || p < from || p + items.len() > end {
            seq![]
        } else {
            seq![p] + all_matches(items, hay, p + items.len(), end)
        },
    }
}

/// Does no match of the pattern overlap another?
pub open spec fn apart(items: Seq<Option<u8>>, hay: Seq<u8>) -> bool {
    forall|p: int, q: int|
        p < q && #[trigger] matches(items, hay, p) && #[trigger] matches(items, hay, q) ==> p
            + items.len() <= q
}

/// What `next_match` answers.
pub proof fn lemma_next_match(items: Seq<Option<u8>>, hay: Seq<u8>, from: int, end: int)
    ensures
        match next_match(items, hay, from, end) {
            Some(p) => {
                &&& from <= p
                &&& p + items.len() <= end
                &&& matches(items, hay, p)
                &&& forall|q: int| from <= q < p ==> !matches(items, hay, q)
            },
            None => forall|q: int| from <= q && q + items.len() <= end ==> !matches(items, hay, q),
        },
    decreases end + 1 - from,
{
    if from + items.len() <= end && !matches(items, hay, from) {
        lemma_next_match(items, hay, from + 1, end);
    }
}

/// Where nothing matches, the search may as well start further on.
pub proof fn lemma_nothing_between(
    items: Seq<Option<u8>>,
    hay: Seq<u8>,
    from: int,
    to: int,
    end: int,
)
    requires
        from <= to,
        forall|q: int| from <= q < to && q + items.len() <= end ==> !matches(items, hay, q),
    ensures
        next_match(items, hay, from, end) == next_match(items, hay, to, end),
        all_matches(items, hay, from, end) == all_matches(items, hay, to, end),
    decreases to - from,
{
    if from < to {
        lemma_nothing_between(items, hay, from + 1, to, end);
        if from + items.len() > end {
            assert(next_match(items, hay, to, end) is None);
        }
    }
    lemma_next_match(items, hay, from, end);
}

/// Matches lie where they were looked for, in order and apart.
pub proof fn lemma_all_matches(items: Seq<Option<u8>>, hay: Seq<u8>, from: int, end: int)
    requires
        items.len() > 0,
    ensures
        ({
            let m = all_matches(items, hay, from, end);
            &&& forall|i: int|
                0 <= i < m.len() ==> {
                    &&& from <= #[trigger] m[i]
                    &&& m[i] + items.len() <= end
                    &&& matches(items, hay, m[i])
                }
            &&& forall|i: int, j: int|
                0 <= i < j < m.len() ==> #[trigger] m[i] + items.len() <= #[trigger] m[j]
        }),
    decreases end + 1 - from,
{
    lemma_next_match(items, hay, from, end);
    match next_match(items, hay, from, end) {
        None => {},
        Some(p) => {
            let n = items.len() as int;
            lemma_all_matches(items, hay, p + n, end);
            let m = all_matches(items, hay, from, end);
            let rest = all_matches(items, hay, p + n, end);
            assert(m == seq![p] + rest);
            assert forall|i: int| 0 <= i < m.len() implies {
                &&& from <= #[trigger] m[i]
                &&& m[i] + items.len() <= end
                &&& matches(items, hay, m[i])
            } by {
                if i > 0 {
                    assert(m[i] == rest[i - 1]);
                }
            }
            assert forall|i: int, j: int| 0 <= i < j < m.len() implies #[trigger] m[i] + items.len()
                <= #[trigger] m[j] by {
                assert(m[j] == rest[j - 1]);
                if i > 0 {
                    assert(m[i] == rest[i - 1]);
                }
            }
        },
    }
}

/// The next match after one of all matches is the one after it.
pub proof fn lemma_following(items: Seq<Option<u8>>, hay: Seq<u8>, from: int, end: int, k: int)
    requires
        items.len() > 0,
        0 <= k < all_matches(items, hay, from, end).len(),
    ensures
        ({
            let all = all_matches(items, hay, from, end);
            &&& matches(items, hay, all[k])
            &&& next_match(items, hay, all[k] + items.len(), end) == if k + 1 < all.len() {
                Some(all[k + 1])
            } else {
                None
            }
        }),
    decreases k,
{
    let all = all_matches(items, hay, from, end);
    lemma_next_match(items, hay, from, end);
    let p = next_match(items, hay, from, end)->0;
    let rest = all_matches(items, hay, p + items.len(), end);
    assert(all == seq![p] + rest);
    lemma_next_match(items, hay, p + items.len(), end);
    if k == 0 {
        if rest.len() > 0 {
            assert(all[1] == rest[0]);
        }
    } else {
        lemma_following(items, hay, p + items.len(), end, k - 1);
        assert(all[k] == rest[k - 1]);
        if k + 1 < all.len() {
            assert(all[k + 1] == rest[k]);
        }
    }
}

/// Offsets as mathematical integers.
pub open spec fn offsets(v: Seq<usize>) -> Seq<int> {
    v.map_values(|x: usize| x as int)
}

// ── What the user typed ─────────────────────────────────────────────────────

/// Is this the hex form of a pattern?
pub open spec fn hex_form(s: Seq<char>) -> bool {
    s.len() >= 2 && (s[0] == 'x' || s[0] == 'X') && s[1] == ':'
}

/// The characters of the hex form that count.
pub open spec fn hex_chars(s: Seq<char>) -> Seq<char> {
    s.skip(2).filter(|c: char| !text::white(c))
}

/// The value of a hex digit, in either case.
pub open spec fn hex_value(c: char) -> Option<int> {
    if '0' <= c <= '9' {
        Some(c as int - 48)
    } else if 'a' <= c <= 'f' {
        Some(c as int - 87)
    } else if 'A' <= c <= 'F' {
        Some(c as int - 55)
    } else {
        None
    }
}

/// The value of a hex digit, in either case.
pub fn hex_digit(c: char) -> (res: Option<u8>)
    ensures
        res is Some <==> hex_value(c) is Some,
        res matches Some(v) ==> v < 16 && hex_value(c) == Some(v as int),
{
    if '0' <= c && c <= '9' {
        Some((c as u32 - 48) as u8)
    } else if 'a' <= c && c <= 'f' {
        Some((c as u32 - 87) as u8)
    } else if 'A' <= c && c <= 'F' {
        Some((c as u32 - 55) as u8)
    } else {
        None
    }
}

/// What a pair of characters stands for: any byte, or a known one. Most pairs
/// stand for nothing.
pub open spec fn hex_item(a: char, b: char) -> Option<Option<u8>> {
    if a == '?' && b == '?' {
        Some(None)
    } else {
        match (hex_value(a), hex_value(b)) {
            (Some(hi), Some(lo)) => Some(Some((hi * 16 + lo) as u8)),
            _ => None,
        }
    }
}

/// Do the characters make whole pairs, all of which stand for something?
pub open spec fn hex_pairs(cs: Seq<char>) -> bool {
    &&& cs.len() > 0
    &&& cs.len() % 2 == 0
    &&& forall|i: int| 0 <= i < cs.len() / 2 ==> (#[trigger] hex_item(cs[2 * i], cs[2 * i + 1])) is Some
}

/// What the pairs stand for.
pub open spec fn hex_items(cs: Seq<char>) -> Seq<Option<u8>> {
    Seq::new(cs.len() / 2, |i: int| hex_item(cs[2 * i], cs[2 * i + 1])->0)
}

/// The pattern that the user's input means, or why it means none.
pub open spec fn parsed(s: Seq<char>, enc: Encoding) -> Result<Seq<Option<u8>>, PatternError> {
    if hex_form(s) {
        if hex_pairs(hex_chars(s)) {
            Ok(hex_items(hex_chars(s)))
        } else {
            Err(PatternError::BadHex)
        }
    } else if s.len() == 0 {
        Err(PatternError::Empty)
    } else if encoding::representable(enc, s) {
        Ok(encoding::text_bytes(enc, s).map_values(|b: u8| Some(b)))
    } else {
        Err(PatternError::Unrepresentable(encoding::missing_char(enc, s)->0, enc))
    }
}

/// A pattern is never empty.
pub proof fn lemma_parsed_len(s: Seq<char>, enc: Encoding)
    ensures
        parsed(s, enc) matches Ok(items) ==> items.len() > 0,
{
    encoding::lemma_text_bytes_len(enc, s);
}

/// Is there a solid run of known bytes at this place?
pub open spec fn literal_run(items: Seq<Option<u8>>, start: int, len: int) -> bool {
    &&& 0 <= start
    &&& 0 <= len
    &&& start + len <= items.len()
    &&& forall|k: int| start <= k < start + len ==> #[trigger] items[k] is Some
}

/// Is this the first of the longest solid runs of known bytes?
pub open spec fn longest_run(items: Seq<Option<u8>>, start: int, len: int) -> bool {
    &&& literal_run(items, start, len)
    &&& forall|s: int, l: int| #[trigger] literal_run(items, s, l) ==> l <= len
    &&& forall|s: int| #[trigger] literal_run(items, s, len) ==> start <= s
}

/// A byte pattern: known bytes and wildcards.
#[derive(Debug)]
pub struct Pattern {
    items: Vec<Option<u8>>,
    /// Where the anchor sits inside the pattern.
    anchor_off: usize,
    anchor: Vec<u8>,
    /// The text as typed — shown in the title bar.
    src: String,
}

impl Pattern {
    #[verifier::type_invariant]
    closed spec fn well_formed(self) -> bool {
        &&& self.items@.len() > 0
        &&& longest_run(self.items@, self.anchor_off as int, self.anchor@.len() as int)
        &&& forall|k: int|
            0 <= k < self.anchor@.len() ==> self.items@[self.anchor_off + k] == Some(
                #[trigger] self.anchor@[k],
            )
    }

    /// The bytes of the pattern: known ones, or any.
    pub closed spec fn items(&self) -> Seq<Option<u8>> {
        self.items@
    }

    /// The text the pattern was typed as.
    pub closed spec fn text(&self) -> Seq<char> {
        self.src@
    }

    /// The known bytes that are looked for first.
    pub closed spec fn anchor_bytes(&self) -> Seq<u8> {
        self.anchor@
    }

    /// Where those bytes sit inside the pattern.
    pub closed spec fn anchor_place(&self) -> int {
        self.anchor_off as int
    }

    /// Parse user input, encoding text with `enc`.
    pub fn parse(s: &str, enc: Encoding) -> (res: Result<Self, PatternError>)
        ensures
            match parsed(s@, enc) {
                Ok(items) => res matches Ok(p) && p.items() == items && p.text() == s@,
                Err(e) => res matches Err(err) && err == e,
            },
    {
        let chars = text::chars_of(s);
        let items: Vec<Option<u8>> = if chars.len() >= 2 && (chars[0] == 'x' || chars[0] == 'X')
            && chars[1] == ':' {
            match parse_hex(&chars) {
                Some(items) => items,
                None => return Err(PatternError::BadHex),
            }
        } else if chars.len() == 0 {
            return Err(PatternError::Empty);
        } else {
            match encoding::encode_text(enc, s) {
                Ok(bytes) => {
                    proof {
                        encoding::lemma_text_bytes_len(enc, s@);
                    }
                    all_known(&bytes)
                },
                Err(c) => return Err(PatternError::Unrepresentable(c, enc)),
            }
        };
        let (anchor_off, anchor) = longest_literal_run(&items);
        Ok(Self { items, anchor_off, anchor, src: s.to_string() })
    }

    /// How many bytes the pattern covers.
    pub fn len(&self) -> (res: usize)
        ensures
            res == self.items().len(),
            res > 0,
    {
        proof {
            use_type_invariant(self);
        }
        self.items.len()
    }

    /// The text as typed.
    pub fn src(&self) -> (res: &str)
        ensures
            res@ == self.text(),
    {
        self.src.as_str()
    }

    /// The longest solid run of known bytes.
    pub fn anchor(&self) -> (res: &[u8])
        ensures
            res@ == self.anchor_bytes(),
            longest_run(self.items(), self.anchor_place(), res@.len() as int),
            forall|k: int|
                0 <= k < res@.len() ==> self.items()[self.anchor_place() + k] == Some(
                    #[trigger] res@[k],
                ),
    {
        proof {
            use_type_invariant(self);
        }
        self.anchor.as_slice()
    }

    /// Where the longest solid run of known bytes starts.
    pub fn anchor_off(&self) -> (res: usize)
        ensures
            res == self.anchor_place(),
            longest_run(self.items(), res as int, self.anchor_bytes().len() as int),
    {
        proof {
            use_type_invariant(self);
        }
        self.anchor_off
    }

    /// Does the pattern match when laid over `hay` starting at `pos`?
    pub fn matches_at(&self, hay: &[u8], pos: usize) -> (res: bool)
        ensures
            res == matches(self.items(), hay@, pos as int),
    {
        let n: usize = self.items.len();
        let len: usize = hay.len();
        if pos > len || n > len - pos {
            return false;
        }
        let mut k: usize = 0;
        while k < n
            invariant
                k <= n == self.items@.len(),
                pos + n <= len == hay@.len(),
                forall|j: int|
                    0 <= j < k ==> (#[trigger] self.items@[j] matches Some(b) ==> hay@[pos + j] == b),
            decreases n - k,
        {
            match self.items[k] {
                Some(x) => if x != hay[pos + k] {
                    assert(self.items@[k as int] == Some(x));
                    return false;
                },
                None => {},
            }
            k += 1;
        }
        true
    }

    /// Every match in the buffer, by ascending offset.
    ///
    /// Matches do not overlap: after one is found the search continues past its
    /// end. Otherwise a pattern like `AA` over a run of identical bytes would
    /// match on every byte and record splitting would degenerate.
    pub fn find_all(&self, hay: &[u8]) -> (res: Vec<usize>)
        ensures
            offsets(res@) == all_matches(self.items(), hay@, 0, hay@.len() as int),
    {
        proof {
            use_type_invariant(self);
        }
        let n: usize = self.items.len();
        let len: usize = hay.len();
        let mut out: Vec<usize> = Vec::new();
        let ghost items = self.items@;
        if len < n {
            assert(offsets(out@) =~= all_matches(items, hay@, 0, len as int));
            return out;
        }
        // A pattern that is nothing but wildcards matches everywhere.
        if self.anchor.len() == 0 {
            proof {
                assert forall|k: int| 0 <= k < items.len() implies #[trigger] items[k] is None by {
                    if items[k] is Some {
                        assert(literal_run(items, k, 1));
                    }
                }
            }
            let mut i: usize = 0;
            while n <= len - i
                invariant
                    n == items.len() > 0,
                    i <= len == hay@.len(),
                    forall|k: int| 0 <= k < items.len() ==> #[trigger] items[k] is None,
                    all_matches(items, hay@, 0, len as int) == offsets(out@) + all_matches(
                        items,
                        hay@,
                        i as int,
                        len as int,
                    ),
                decreases len - i,
            {
                let ghost before = offsets(out@);
                assert(matches(items, hay@, i as int));
                out.push(i);
                assert(offsets(out@) =~= before + seq![i as int]);
                assert(before + (seq![i as int] + all_matches(items, hay@, i + n, len as int))
                    =~= offsets(out@) + all_matches(items, hay@, i + n, len as int));
                i += n;
            }
            assert(offsets(out@) =~= all_matches(items, hay@, 0, len as int));
            return out;
        }
        // `next` is the first offset a match may start at, `from` where the
        // anchor is looked for next.
        let mut next: usize = 0;
        let mut from: usize = 0;
        while from < len
            invariant
                self.well_formed(),
                items == self.items@,
                n == items.len() > 0,
                self.anchor@.len() > 0,
                len == hay@.len(),
                next <= len,
                from <= len,
                all_matches(items, hay@, 0, len as int) == offsets(out@) + all_matches(
                    items,
                    hay@,
                    next as int,
                    len as int,
                ),
                forall|c: int|
                    next <= c && c + self.anchor_off < from ==> !matches(items, hay@, c),
            decreases len - from,
        {
            let rel: usize = match find_literal(&self.anchor, slice_subrange(hay, from, len)) {
                Some(r) => r,
                None => {
                    proof {
                        assert forall|c: int| next <= c && c + n <= len implies !matches(items, hay@, c) by {
                            if matches(items, hay@, c) && c + self.anchor_off >= from {
                                self.lemma_anchor(hay@, c);
                                lemma_occurs_in(self.anchor@, hay@, from as int, c + self.anchor_off);
                            }
                        }
                        lemma_nothing_between(items, hay@, next as int, len as int, len as int);
                        assert(offsets(out@) =~= all_matches(items, hay@, 0, len as int));
                    }
                    return out;
                },
            };
            let apos: usize = from + rel;
            proof {
                assert forall|c: int| next <= c && c + self.anchor_off < apos implies !matches(
                    items,
                    hay@,
                    c,
                ) by {
                    if matches(items, hay@, c) && c + self.anchor_off >= from {
                        self.lemma_anchor(hay@, c);
                        lemma_occurs_in(self.anchor@, hay@, from as int, c + self.anchor_off);
                    }
                }
            }
            from = apos + 1;
            if apos < self.anchor_off {
                continue;
            }
            let cand: usize = apos - self.anchor_off;
            if cand >= next && self.matches_at(hay, cand) {
                let ghost before = offsets(out@);
                proof {
                    lemma_nothing_between(items, hay@, next as int, cand as int, len as int);
                    assert(all_matches(items, hay@, cand as int, len as int) == seq![cand as int]
                        + all_matches(items, hay@, cand + n, len as int));
                }
                out.push(cand);
                next = cand + n;
                assert(offsets(out@) =~= before + seq![cand as int]);
                assert(before + (seq![cand as int] + all_matches(items, hay@, next as int, len as int))
                    =~= offsets(out@) + all_matches(items, hay@, next as int, len as int));
                if next > from {
                    from = next;
                }
            }
        }
        proof {
            assert forall|c: int| next <= c && c + n <= len implies !matches(items, hay@, c) by {
                assert(self.anchor_off < n);
            }
            lemma_nothing_between(items, hay@, next as int, len as int, len as int);
            assert(offsets(out@) =~= all_matches(items, hay@, 0, len as int));
        }
        out
    }

    /// A match brings the anchor with it.
    proof fn lemma_anchor(&self, hay: Seq<u8>, c: int)
        requires
            self.well_formed(),
            matches(self.items@, hay, c),
        ensures
            occurs(self.anchor@, hay, c + self.anchor_off),
    {
        assert forall|k: int| 0 <= k < self.anchor@.len() implies #[trigger] self.anchor@[k] == hay[c
            + self.anchor_off + k] by {
            assert(self.items@[self.anchor_off + k] == Some(self.anchor@[k]));
        }
    }
}

/// Do these exact bytes stand in `hay` at this place?
pub open spec fn occurs(needle: Seq<u8>, hay: Seq<u8>, at: int) -> bool {
    &&& 0 <= at
    &&& at + needle.len() <= hay.len()
    &&& forall|k: int| 0 <= k < needle.len() ==> #[trigger] needle[k] == hay[at + k]
}

proof fn lemma_occurs_in(needle: Seq<u8>, hay: Seq<u8>, from: int, at: int)
    requires
        0 <= from <= at,
        occurs(needle, hay, at),
    ensures
        occurs(needle, hay.subrange(from, hay.len() as int), at - from),
{
}

/// `memchr::memmem::Finder::find` gives the index of the first occurrence of
/// the needle in the haystack, and nothing when it does not occur.
#[verifier::external_body]
fn find_literal(needle: &[u8], hay: &[u8]) -> (res: Option<usize>)
    ensures
        res matches Some(at) ==> occurs(needle@, hay@, at as int) && forall|j: int|
            0 <= j < at ==> !occurs(needle@, hay@, j),
        res is None ==> forall|j: int| !occurs(needle@, hay@, j),
{
    memmem::Finder::new(needle).find(hay)
}

/// Every byte as a known one.
fn all_known(bytes: &[u8]) -> (res: Vec<Option<u8>>)
    ensures
        res@ == bytes@.map_values(|b: u8| Some(b)),
{
    let mut out: Vec<Option<u8>> = Vec::new();
    for i in 0..bytes.len()
        invariant
            out@ =~= bytes@.take(i as int).map_values(|b: u8| Some(b)),
    {
        out.push(Some(bytes[i]));
    }
    assert(bytes@.take(bytes.len() as int) =~= bytes@);
    out
}

/// The bytes of the hex form.
fn parse_hex(chars: &[char]) -> (res: Option<Vec<Option<u8>>>)
    requires
        hex_form(chars@),
    ensures
        res is Some <==> hex_pairs(hex_chars(chars@)),
        res matches Some(items) ==> items@ == hex_items(hex_chars(chars@)) && items@.len() > 0,
{
    let ghost keep = |c: char| !text::white(c);
    let ghost rest = chars@.skip(2);
    let mut cs: Vec<char> = Vec::new();
    assert(rest.take(0) =~= Seq::<char>::empty());
    assert(Seq::<char>::empty().filter(keep) =~= Seq::<char>::empty()) by {
        reveal(Seq::filter);
    }
    for i in 2..chars.len()
        invariant
            keep == (|c: char| !text::white(c)),
            rest == chars@.skip(2),
            cs@ == rest.take(i - 2).filter(keep),
    {
        assert(rest.take(i - 1) =~= rest.take(i - 2).push(chars@[i as int]));
        assert(rest.take(i - 1).filter(keep) == if keep(chars@[i as int]) {
            rest.take(i - 2).filter(keep).push(chars@[i as int])
        } else {
            rest.take(i - 2).filter(keep)
        }) by {
            reveal(Seq::filter);
            assert(rest.take(i - 1).drop_last() =~= rest.take(i - 2));
        }
        let c: char = chars[i];
        if !text::is_white(c) {
            cs.push(c);
        }
    }
    assert(rest.take(chars@.len() - 2) =~= rest);
    let n: usize = cs.len();
    if n == 0 || n % 2 != 0 {
        return None;
    }
    let mut out: Vec<Option<u8>> = Vec::new();
    let mut i: usize = 0;
    while i < n / 2
        invariant
            n == cs@.len() > 0,
            n % 2 == 0,
            i <= n / 2,
            cs@ == hex_chars(chars@),
            out@.len() == i,
            forall|j: int|
                0 <= j < i ==> (#[trigger] hex_item(cs@[2 * j], cs@[2 * j + 1])) == Some(out@[j]),
        decreases n / 2 - i,
    {
        let a: char = cs[2 * i];
        let b: char = cs[2 * i + 1];
        assert(hex_item(cs@[2 * i], cs@[2 * i + 1]) == hex_item(a, b));
        if a == '?' && b == '?' {
            out.push(None);
        } else {
            match (hex_digit(a), hex_digit(b)) {
                (Some(hi), Some(lo)) => out.push(Some(hi * 16 + lo)),
                _ => return None,
            }
        }
        i += 1;
    }
    assert(out@ =~= hex_items(cs@));
    Some(out)
}

/// The longest solid run of known bytes and where it starts in the pattern.
pub fn longest_literal_run(items: &[Option<u8>]) -> (res: (usize, Vec<u8>))
    ensures
        longest_run(items@, res.0 as int, res.1@.len() as int),
        forall|k: int| 0 <= k < res.1@.len() ==> items@[res.0 + k] == Some(#[trigger] res.1@[k]),
{
    let mut best_start: usize = 0;
    let mut best_len: usize = 0;
    let mut cur_start: usize = 0;
    let mut cur_len: usize = 0;
    for i in 0..items.len()
        invariant
            literal_run(items@, best_start as int, best_len as int),
            best_start + best_len <= i,
            best_len == 0 ==> best_start == 0,
            // the run that ends here, and no longer one does
            cur_len > 0 ==> cur_start + cur_len == i && literal_run(
                items@,
                cur_start as int,
                cur_len as int,
            ),
            cur_len <= i,
            cur_len < i ==> items@[i - cur_len - 1] is None,
            cur_len <= best_len,
            forall|s: int, l: int| #[trigger] literal_run(items@, s, l) && s + l <= i ==> l <= best_len,
            forall|s: int| #[trigger] literal_run(items@, s, best_len as int) && s + best_len <= i ==> best_start <= s,
    {
        let ghost ii = i as int;
        match items[i] {
            Some(_) => {
                if cur_len == 0 {
                    cur_start = i;
                }
                cur_len += 1;
                assert(literal_run(items@, cur_start as int, cur_len as int));
                proof {
                    assert forall|s: int, l: int| #[trigger] literal_run(items@, s, l) && s + l == i + 1 implies l
                        <= cur_len by {
                        if l > cur_len {
                            assert(items@[i - cur_len] is Some);
                        }
                    }
                }
                if cur_len > best_len {
                    best_len = cur_len;
                    best_start = cur_start;
                }
            },
            None => {
                proof {
                    assert forall|s: int, l: int| #[trigger] literal_run(items@, s, l) && s + l == i + 1 implies l
                        <= 0 by {
                        if l > 0 {
                            assert(items@[i as int] is Some);
                        }
                    }
                }
                cur_len = 0;
            },
        }
    }
    let mut anchor: Vec<u8> = Vec::new();
    let total: usize = items.len();
    for i in 0..best_len
        invariant
            literal_run(items@, best_start as int, best_len as int),
            total == items@.len(),
            anchor@.len() == i,
            forall|k: int| 0 <= k < i ==> items@[best_start + k] == Some(#[trigger] anchor@[k]),
    {
        assert(items@[best_start + i] is Some);
        match items[best_start + i] {
            Some(b) => anchor.push(b),
            None => {},
        }
    }
    (best_start, anchor)
}

} // verus!
