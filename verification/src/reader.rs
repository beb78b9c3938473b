//! A reading window over a file of any size.
//!
//! The file is never read whole. One buffer lives in memory (1 MiB by default)
//! and travels along with the view position. The file itself is a function
//! that reads: given an offset and a count, it gives the bytes that stand
//! there, or the error it ran into. Everything here is verified for any such
//! function; what is said of the bytes holds when the function reads them
//! from one and the same file.

use crate::pattern;
use crate::pattern::Pattern;
use vstd::prelude::*;
use vstd::slice::*;

verus! {

/// Window buffer size. 1 MiB is enough that scrolling a few screens either way
/// never touches the disk.
pub const CHUNK: u64 = 0x10_0000;

/// Block size for streaming search.
pub const SEARCH_BLOCK: u64 = 0x10_0000;

/// How much is read at a time while looking for a place to start a block at.
const QUIET_BLOCK: u64 = 0x1000;

/// How many matches are taken at a time where only the last ones count.
const BATCH: usize = 0x10_0000;

/// What "the file changed" is decided on. Cheap to take and cheap to compare,
/// which is what lets it be checked on an idle timer.
#[derive(Debug, Copy, Clone, PartialEq, Eq, Structural)]
pub struct Stamp {
    /// Length of the file in bytes.
    pub len: u64,
    /// Modification time in nanoseconds since the Unix epoch, where known.
    pub modified: Option<i128>,
}

// ── Reading functions ───────────────────────────────────────────────────────

/// Can the function be asked for any part of the file?
pub open spec fn answers<E, F: Fn(u64, u64) -> Result<Vec<u8>, E>>(read: F) -> bool {
    forall|start: u64, want: u64| #[trigger] call_requires(read, (start, want))
}

/// Are the bytes the function gives those of `hay`, cut at its end?
pub open spec fn reads<E, F: Fn(u64, u64) -> Result<Vec<u8>, E>>(read: F, hay: Seq<u8>) -> bool {
    forall|start: u64, want: u64, r: Result<Vec<u8>, E>| #[trigger]
        call_ensures(read, (start, want), r) && start <= hay.len() ==> (r matches Ok(bytes) ==> bytes@
            == hay.subrange(
            start as int,
            if start + want <= hay.len() {
                start + want
            } else {
                hay.len() as int
            },
        ))
}

/// Is this an error the function can run into?
pub open spec fn fails<E, F: Fn(u64, u64) -> Result<Vec<u8>, E>>(read: F, e: E) -> bool {
    exists|start: u64, want: u64|
        call_ensures(read, (start, want), Err::<Vec<u8>, E>(e))
}

// ── Searching ───────────────────────────────────────────────────────────────

/// Offsets as mathematical integers.
pub open spec fn offsets(v: Seq<u64>) -> Seq<int> {
    v.map_values(|x: u64| x as int)
}

/// The first `n` of a sequence, or all of it.
pub open spec fn first_n(s: Seq<int>, n: int) -> Seq<int> {
    if s.len() <= n {
        s
    } else {
        s.take(if n < 0 {
            0
        } else {
            n
        })
    }
}

/// The last `n` of a sequence, or all of it.
pub open spec fn last_n(s: Seq<int>, n: int) -> Seq<int> {
    if s.len() <= n {
        s
    } else {
        s.skip(s.len() - n)
    }
}

/// The matches that start before `before`, last one first, at most `n`: those
/// of all matches in the file that lie there, the other way round.
pub open spec fn matches_before(items: Seq<Option<u8>>, hay: Seq<u8>, before: int, n: int) -> Seq<
    int,
> {
    let all = pattern::all_matches(items, hay, 0, hay.len() as int);
    first_n(all.filter(|p: int| p < before).reverse(), n)
}

/// Where a search for matches that start before `x` may stop.
pub open spec fn stop_for(items: Seq<Option<u8>>, hay: Seq<u8>, x: int) -> int {
    if x + items.len() - 1 <= hay.len() {
        x + items.len() - 1
    } else {
        hay.len() as int
    }
}

/// The matches that start before `x`, in order.
pub open spec fn matches_upto(items: Seq<Option<u8>>, hay: Seq<u8>, x: int) -> Seq<int> {
    pattern::all_matches(items, hay, 0, stop_for(items, hay, x))
}

/// All of a sequence passes a test that each of it passes.
proof fn lemma_filter_all(s: Seq<int>, x: int)
    requires
        forall|i: int| 0 <= i < s.len() ==> #[trigger] s[i] < x,
    ensures
        s.filter(|p: int| p < x) == s,
    decreases s.len(),
{
    reveal(Seq::filter);
    if s.len() > 0 {
        let t = s.drop_last();
        assert forall|i: int| 0 <= i < t.len() implies #[trigger] t[i] < x by {
            assert(t[i] == s[i]);
        }
        lemma_filter_all(t, x);
        assert(s[s.len() - 1] < x);
        assert(s =~= t.push(s.last()));
    }
}

/// Nothing of a sequence passes a test that none of it passes.
proof fn lemma_filter_none(s: Seq<int>, x: int)
    requires
        forall|i: int| 0 <= i < s.len() ==> #[trigger] s[i] >= x,
    ensures
        s.filter(|p: int| p < x) == Seq::<int>::empty(),
    decreases s.len(),
{
    reveal(Seq::filter);
    if s.len() > 0 {
        let t = s.drop_last();
        assert forall|i: int| 0 <= i < t.len() implies #[trigger] t[i] >= x by {
            assert(t[i] == s[i]);
        }
        lemma_filter_none(t, x);
        assert(s[s.len() - 1] >= x);
    }
}

/// A search that stops early finds those of all matches that start early.
pub proof fn lemma_upto(items: Seq<Option<u8>>, hay: Seq<u8>, x: int)
    requires
        items.len() > 0,
        0 <= x,
    ensures
        pattern::all_matches(items, hay, 0, hay.len() as int).filter(|p: int| p < x)
            == matches_upto(items, hay, x),
{
    let len = hay.len() as int;
    let n = items.len() as int;
    let e = stop_for(items, hay, x);
    let front = pattern::all_matches(items, hay, 0, e);
    let q = resume(front, n, 0, e);
    let rest = pattern::all_matches(items, hay, q, len);
    lemma_resume(items, hay, 0, e, len);
    pattern::lemma_all_matches(items, hay, 0, e);
    pattern::lemma_all_matches(items, hay, q, len);
    let below = |p: int| p < x;
    assert((front + rest).filter(below) == front.filter(below) + rest.filter(below)) by {
        Seq::filter_distributes_over_add(front, rest, below);
    }
    lemma_filter_all(front, x);
    lemma_filter_none(rest, x);
    assert(front + Seq::<int>::empty() =~= front);
}

/// Past a stretch with no match in it the search may start afresh.
proof fn lemma_quiet(items: Seq<Option<u8>>, hay: Seq<u8>, s: int, x: int)
    requires
        items.len() > 0,
        0 <= s <= x <= hay.len(),
        forall|p: int| s - items.len() < p < s ==> !pattern::matches(items, hay, p),
    ensures
        matches_upto(items, hay, x) == matches_upto(items, hay, s) + pattern::all_matches(
            items,
            hay,
            s,
            stop_for(items, hay, x),
        ),
{
    let n = items.len() as int;
    let e = stop_for(items, hay, s);
    let end = stop_for(items, hay, x);
    let front = pattern::all_matches(items, hay, 0, e);
    let q = resume(front, n, 0, e);
    lemma_resume(items, hay, 0, e, end);
    pattern::lemma_all_matches(items, hay, 0, e);
    if front.len() > 0 {
        assert(pattern::matches(items, hay, front[front.len() - 1]));
        assert(front.last() + n <= s);
    }
    if q != s {
        assert(pattern::all_matches(items, hay, q, end) =~= Seq::<int>::empty());
        assert(pattern::all_matches(items, hay, s, end) =~= Seq::<int>::empty());
    }
}

/// The first few of two sequences one after the other.
proof fn lemma_first_n(a: Seq<int>, b: Seq<int>, n: int)
    ensures
        first_n((a + b).reverse(), n) == first_n(b.reverse(), n) + first_n(
            a.reverse(),
            n - b.len(),
        ),
{
    assert(first_n((a + b).reverse(), n) =~= first_n(b.reverse(), n) + first_n(
        a.reverse(),
        n - b.len(),
    ));
}

/// A part of the file matches at a place as the file does.
proof fn lemma_match_in(items: Seq<Option<u8>>, hay: Seq<u8>, a: int, b: int, at: int)
    requires
        0 <= a <= at <= b <= hay.len(),
        at + items.len() <= b || b == hay.len(),
    ensures
        pattern::matches(items, hay.subrange(a, b), at - a) == pattern::matches(items, hay, at),
{
    let block = hay.subrange(a, b);
    if pattern::matches(items, block, at - a) {
        assert forall|k: int| 0 <= k < items.len() implies (#[trigger] items[k] matches Some(x)
            ==> hay[at + k] == x) by {
            assert(block[at - a + k] == hay[at + k]);
        }
    }
    if pattern::matches(items, hay, at) {
        assert forall|k: int| 0 <= k < items.len() implies (#[trigger] items[k] matches Some(x)
            ==> block[at - a + k] == x) by {
            assert(block[at - a + k] == hay[at + k]);
        }
    }
}

/// A part of the file matches as the file does.
pub proof fn lemma_window(
    items: Seq<Option<u8>>,
    hay: Seq<u8>,
    a: int,
    b: int,
    from: int,
)
    requires
        0 <= a <= b <= hay.len(),
        0 <= from,
    ensures
        pattern::next_match(items, hay.subrange(a, b), from, b - a) == match pattern::next_match(
            items,
            hay,
            a + from,
            b,
        ) {
            Some(p) => Some(p - a),
            None => None,
        },
        pattern::all_matches(items, hay.subrange(a, b), from, b - a).map_values(|x: int| a + x)
            == pattern::all_matches(items, hay, a + from, b),
    decreases b - a + 1 - from,
{
    let block = hay.subrange(a, b);
    if from + items.len() <= b - a {
        lemma_match_in(items, hay, a, b, a + from);
        lemma_window(items, hay, a, b, from + 1);
        pattern::lemma_next_match(items, hay, a + from, b);
        match pattern::next_match(items, hay, a + from, b) {
            Some(p) => {
                if items.len() > 0 {
                    lemma_window(items, hay, a, b, p - a + items.len());
                }
            },
            None => {},
        }
    }
    assert(pattern::all_matches(items, block, from, b - a).map_values(|x: int| a + x)
        =~= pattern::all_matches(items, hay, a + from, b));
}

/// Where a search that stopped at `e` picks up again.
pub open spec fn resume(found: Seq<int>, plen: int, p: int, e: int) -> int {
    let past = if found.len() > 0 {
        found.last() + plen
    } else {
        p
    };
    if past <= e - plen + 1 {
        e - plen + 1
    } else {
        past
    }
}

/// Searching up to `e` and picking up again finds what one search finds.
pub proof fn lemma_resume(items: Seq<Option<u8>>, hay: Seq<u8>, p: int, e: int, end: int)
    requires
        items.len() > 0,
        0 <= p <= e <= end,
    ensures
        ({
            let found = pattern::all_matches(items, hay, p, e);
            let q = resume(found, items.len() as int, p, e);
            &&& p <= q
            &&& q <= e || q == p
            &&& pattern::all_matches(items, hay, p, end) == found + pattern::all_matches(items, hay, q, end)
        }),
    decreases e - p,
{
    let n = items.len() as int;
    let found = pattern::all_matches(items, hay, p, e);
    let q = resume(found, n, p, e);
    pattern::lemma_next_match(items, hay, p, e);
    pattern::lemma_next_match(items, hay, p, end);
    match pattern::next_match(items, hay, p, e) {
        None => {
            pattern::lemma_nothing_between(items, hay, p, q, end);
            assert(found + pattern::all_matches(items, hay, q, end) =~= pattern::all_matches(
                items,
                hay,
                p,
                end,
            ));
        },
        Some(x) => {
            assert(pattern::next_match(items, hay, p, end) == Some(x));
            lemma_resume(items, hay, x + n, e, end);
            let rest = pattern::all_matches(items, hay, x + n, e);
            assert(found == seq![x] + rest);
            if rest.len() > 0 {
                assert(found.last() == rest.last());
            }
            assert(resume(rest, n, x + n, e) == q);
            assert(pattern::all_matches(items, hay, p, end) == seq![x] + pattern::all_matches(
                items,
                hay,
                x + n,
                end,
            ));
            assert(seq![x] + (rest + pattern::all_matches(items, hay, q, end)) =~= found
                + pattern::all_matches(items, hay, q, end));
        },
    }
}

/// A window over a file, read through `F`.
pub struct FileWindow<F> {
    read: F,
    len: u64,
    stamp: Stamp,
    buf: Vec<u8>,
    /// File offset that buf[0] corresponds to.
    buf_start: u64,
}

impl<E, F: Fn(u64, u64) -> Result<Vec<u8>, E>> FileWindow<F> {
    /// Length of the file when it was last looked at.
    pub closed spec fn size(&self) -> int {
        self.len as int
    }

    /// What the file looked like then.
    pub closed spec fn last_stamp(&self) -> Stamp {
        self.stamp
    }

    /// Can the file be read at all?
    pub closed spec fn ready(&self) -> bool {
        answers::<E, F>(self.read)
    }

    /// Is `hay` the file that the window shows?
    pub closed spec fn shows(&self, hay: Seq<u8>) -> bool {
        &&& hay.len() == self.len
        &&& reads::<E, F>(self.read, hay)
        &&& self.buf_start + self.buf@.len() <= hay.len()
        &&& self.buf@ == hay.subrange(self.buf_start as int, self.buf_start + self.buf@.len())
    }

    /// Is this an error that reading the file can run into?
    pub closed spec fn fails_with(&self, e: E) -> bool {
        fails::<E, F>(self.read, e)
    }

    /// The file a window shows is as long as the window says.
    pub proof fn lemma_shows(&self, hay: Seq<u8>)
        requires
            self.shows(hay),
        ensures
            hay.len() == self.size() <= u64::MAX,
    {
    }

    /// A length is a 64-bit number.
    pub proof fn lemma_size(&self)
        ensures
            0 <= self.size() <= u64::MAX,
    {
    }

    /// A window over a file that looks like `stamp` and is read through `read`.
    pub fn open(read: F, stamp: Stamp) -> (res: Self)
        ensures
            res.size() == stamp.len,
            res.last_stamp() == stamp,
            res.ready() == answers::<E, F>(read),
            forall|hay: Seq<u8>| #[trigger]
                res.shows(hay) <==> hay.len() == stamp.len && reads::<E, F>(read, hay),
            forall|e: E| #[trigger] res.fails_with(e) <==> fails::<E, F>(read, e),
    {
        let res = Self { read, len: stamp.len, stamp, buf: Vec::new(), buf_start: 0 };
        proof {
            assert forall|hay: Seq<u8>| #[trigger]
                res.shows(hay) <==> hay.len() == stamp.len && reads::<E, F>(read, hay) by {
                assert(hay.subrange(0, 0) =~= res.buf@);
            }
        }
        res
    }

    pub fn len(&self) -> (res: u64)
        ensures
            res == self.size(),
    {
        self.len
    }

    /// See whether the file changed underneath us.
    ///
    /// `read` and `stamp` come from opening the file again. Returns true when
    /// the length or the modification time moved, in which case the window
    /// buffer is dropped so the next read comes from the file as it is now.
    /// The caller is left to clamp whatever positions it holds: the file may
    /// have shrunk.
    pub fn refresh(&mut self, read: F, stamp: Stamp) -> (res: bool)
        ensures
            res == (stamp != old(self).last_stamp()),
            !res ==> *final(self) == *old(self),
            res ==> {
                &&& final(self).size() == stamp.len
                &&& final(self).last_stamp() == stamp
                &&& final(self).ready() == answers::<E, F>(read)
                &&& forall|hay: Seq<u8>| #[trigger]
                    final(self).shows(hay) <==> hay.len() == stamp.len && reads::<E, F>(read, hay)
                &&& forall|e: E| #[trigger] final(self).fails_with(e) <==> fails::<E, F>(read, e)
            },
    {
        if stamp == self.stamp {
            return false;
        }
        *self = Self::open(read, stamp);
        true
    }

    /// Return up to `want` bytes starting at offset `start`.
    ///
    /// The result may be shorter than requested (end of file). The call is
    /// cheap when the requested range is already in the buffer — during normal
    /// scrolling that is the overwhelming majority of calls.
    pub fn read_at(&mut self, start: u64, want: usize) -> (res: Result<&[u8], E>)
        requires
            old(self).ready(),
        ensures
            final(self).ready(),
            final(self).size() == old(self).size(),
            final(self).last_stamp() == old(self).last_stamp(),
            forall|e: E| final(self).fails_with(e) <==> #[trigger] old(self).fails_with(e),
            forall|hay: Seq<u8>| #[trigger]
                old(self).shows(hay) ==> final(self).shows(hay) && (res matches Ok(bytes) ==> bytes@
                    == part(hay, start as int, want as int)),
            res matches Ok(bytes) ==> bytes@.len() <= want,
            start >= old(self).size() || want == 0 ==> (res matches Ok(bytes) && bytes@.len() == 0),
            res matches Err(e) ==> old(self).fails_with(e),
    {
        if start >= self.len || want == 0 {
            let none: &[u8] = &[];
            assert(none@ =~= Seq::<u8>::empty());
            return Ok(none);
        }
        let rest: u64 = self.len - start;
        let avail: u64 = if rest < want as u64 {
            rest
        } else {
            want as u64
        };
        if !self.covers(start, avail) {
            match self.refill(start, avail) {
                Ok(()) => {},
                Err(e) => return Err(e),
            }
        }
        // The buffer starts at or before `start` after a refill, but the file
        // could have been cut short by another process in between.
        let have: usize = self.buf.len();
        if start < self.buf_start || start - self.buf_start >= have as u64 {
            let none: &[u8] = &[];
            return Ok(none);
        }
        let off: usize = (start - self.buf_start) as usize;
        let end: usize = if (have - off) as u64 <= avail {
            have
        } else {
            off + avail as usize
        };
        Ok(slice_subrange(self.buf.as_slice(), off, end))
    }

    fn covers(&self, start: u64, len: u64) -> (res: bool)
        ensures
            res == (self.buf_start <= start && start + len <= self.buf_start + self.buf@.len()),
    {
        start >= self.buf_start && start - self.buf_start <= self.buf.len() as u64 && len
            <= self.buf.len() as u64 - (start - self.buf_start)
    }

    /// Re-read the buffer so that it covers the requested range.
    ///
    /// The requested piece is placed roughly in the middle of the window, so
    /// scrolling either way stays equally cheap.
    fn refill(&mut self, start: u64, need: u64) -> (res: Result<(), E>)
        requires
            old(self).ready(),
            start < old(self).len,
            start + need <= old(self).len,
        ensures
            final(self).read == old(self).read,
            final(self).len == old(self).len,
            final(self).stamp == old(self).stamp,
            res is Ok ==> final(self).buf_start <= start,
            forall|hay: Seq<u8>| #[trigger]
                old(self).shows(hay) ==> final(self).shows(hay) && (res is Ok ==> start + need
                    <= final(self).buf_start + final(self).buf@.len()),
            res matches Err(e) ==> old(self).fails_with(e),
    {
        let cap: u64 = if need > CHUNK {
            need
        } else {
            CHUNK
        };
        let slack: u64 = (cap - need) / 2;
        let new_start: u64 = if start > slack {
            start - slack
        } else {
            0
        };
        match (self.read)(new_start, cap) {
            Ok(bytes) => {
                self.buf = bytes;
                self.buf_start = new_start;
                Ok(())
            },
            Err(e) => {
                assert(call_ensures(self.read, (new_start, cap), Err::<Vec<u8>, E>(e)));
                Err(e)
            },
        }
    }

    /// Read a block of at most `want` bytes.
    fn read_block(&self, start: u64, want: u64) -> (res: Result<Vec<u8>, E>)
        requires
            self.ready(),
            start <= self.len,
        ensures
            res matches Ok(bytes) ==> bytes@.len() <= want,
            forall|hay: Seq<u8>| #[trigger]
                self.shows(hay) ==> (res matches Ok(bytes) ==> bytes@ == part(
                    hay,
                    start as int,
                    want as int,
                )),
            res matches Err(e) ==> self.fails_with(e),
    {
        match (self.read)(start, want) {
            Ok(bytes) => {
                let mut block = bytes;
                if block.len() as u64 > want {
                    block.truncate(want as usize);
                }
                Ok(block)
            },
            Err(e) => {
                assert(call_ensures(self.read, (start, want), Err::<Vec<u8>, E>(e)));
                Err(e)
            },
        }
    }

    /// Find up to `n` matches of the pattern starting at offset `from`, in
    /// ascending order.
    ///
    /// Reads in blocks overlapping by `len(pattern) - 1` bytes, so matches on a
    /// block seam are not lost and memory does not depend on file size. Stops
    /// as soon as it has `n` — which is why "step down one record" does not
    /// read the file to the end.
    pub fn find_forward(&self, from: u64, pat: &Pattern, n: usize) -> (res: Result<Vec<u64>, E>)
        requires
            self.ready(),
        ensures
            res matches Ok(v) ==> v@.len() <= n && forall|i: int|
                0 <= i < v@.len() ==> from <= #[trigger] v@[i] < self.size(),
            forall|hay: Seq<u8>| #[trigger]
                self.shows(hay) ==> (res matches Ok(v) ==> offsets(v@) == first_n(
                    pattern::all_matches(pat.items(), hay, from as int, hay.len() as int),
                    n as int,
                )),
            n == 0 || from >= self.size() || pat.items().len() > self.size() ==> res is Ok,
            res matches Err(e) ==> self.fails_with(e),
    {
        let _plen: usize = pat.len();
        self.scan(from, self.len, pat, n)
    }

    /// Find up to `n` matches between two offsets, in ascending order.
    fn scan(&self, from: u64, end: u64, pat: &Pattern, n: usize) -> (res: Result<Vec<u64>, E>)
        requires
            self.ready(),
            end <= self.len,
        ensures
            res matches Ok(v) ==> v@.len() <= n && forall|i: int|
                0 <= i < v@.len() ==> from <= #[trigger] v@[i] && v@[i] + pat.items().len() <= end,
            forall|hay: Seq<u8>| #[trigger]
                self.shows(hay) ==> (res matches Ok(v) ==> offsets(v@) == first_n(
                    pattern::all_matches(pat.items(), hay, from as int, end as int),
                    n as int,
                )),
            n == 0 || from >= end || pat.items().len() > end ==> res is Ok,
            res matches Err(e) ==> self.fails_with(e),
    {
        let mut out: Vec<u64> = Vec::new();
        let plen: u64 = pat.len() as u64;
        let ghost items = pat.items();
        if n == 0 || plen > end || from >= end {
            proof {
                assert forall|hay: Seq<u8>| #[trigger] self.shows(hay) implies offsets(out@)
                    == first_n(
                    pattern::all_matches(items, hay, from as int, end as int),
                    n as int,
                ) by {
                    let all = pattern::all_matches(items, hay, from as int, end as int);
                    assert(all.take(0) =~= Seq::<int>::empty());
                    assert(offsets(out@) =~= Seq::<int>::empty());
                }
            }
            return Ok(out);
        }
        let overlap: u64 = plen - 1;
        let most: u64 = SEARCH_BLOCK.saturating_add(overlap);
        let mut pos: u64 = from;
        proof {
            assert forall|hay: Seq<u8>| #[trigger] self.shows(hay) implies offsets(out@)
                + pattern::all_matches(items, hay, pos as int, end as int)
                == pattern::all_matches(items, hay, from as int, end as int) by {
                assert(offsets(out@) =~= Seq::<int>::empty());
                assert(Seq::<int>::empty() + pattern::all_matches(
                    items,
                    hay,
                    pos as int,
                    end as int,
                ) =~= pattern::all_matches(items, hay, from as int, end as int));
            }
        }
        while pos < end && out.len() < n
            invariant
                self.ready(),
                end <= self.len,
                items == pat.items(),
                plen == items.len() > 0,
                plen <= end,
                from < end,
                overlap == plen - 1,
                overlap < most,
                from <= pos <= end,
                out@.len() <= n,
                n > 0,
                forall|i: int|
                    0 <= i < out@.len() ==> from <= #[trigger] out@[i] && out@[i] + plen <= end,
                forall|hay: Seq<u8>| #[trigger]
                    self.shows(hay) && out@.len() < n ==> offsets(out@) + pattern::all_matches(
                        items,
                        hay,
                        pos as int,
                        end as int,
                    ) == pattern::all_matches(items, hay, from as int, end as int),
                forall|hay: Seq<u8>| #[trigger]
                    self.shows(hay) && out@.len() == n ==> offsets(out@) == first_n(
                        pattern::all_matches(items, hay, from as int, end as int),
                        n as int,
                    ),
            decreases end - pos,
        {
            let rest: u64 = end - pos;
            let want: u64 = if rest < most {
                rest
            } else {
                most
            };
            let block = match self.read_block(pos, want) {
                Ok(block) => block,
                Err(e) => return Err(e),
            };
            let filled: u64 = block.len() as u64;
            let found = pat.find_all(&block);
            let ghost before = out@;
            let ghost fresh = pattern::offsets(found@).map_values(|x: int| pos + x);
            proof {
                pattern::lemma_all_matches(items, block@, 0, block@.len() as int);
                assert forall|i: int| 0 <= i < found@.len() implies #[trigger] found@[i] + plen <= filled by {
                    assert(pattern::offsets(found@)[i] == found@[i]);
                }
            }
            push_found(&mut out, pos, &found, n);
            let past: u64 = if found.len() > 0 {
                pos + found[found.len() - 1] as u64 + plen
            } else {
                pos
            };
            proof {
                assert forall|hay: Seq<u8>| #[trigger] self.shows(hay) implies offsets(before)
                    + fresh + pattern::all_matches(
                    items,
                    hay,
                    resume(fresh, plen as int, pos as int, pos + filled),
                    end as int,
                ) == pattern::all_matches(items, hay, from as int, end as int) && fresh
                    == pattern::all_matches(items, hay, pos as int, pos + filled) by {
                    lemma_window(items, hay, pos as int, pos + filled, 0);
                    assert(block@ =~= hay.subrange(pos as int, pos + filled));
                    lemma_resume(items, hay, pos as int, pos + filled, end as int);
                    let q = resume(fresh, plen as int, pos as int, pos + filled);
                    assert(offsets(before) + (fresh + pattern::all_matches(
                        items,
                        hay,
                        q,
                        end as int,
                    )) =~= offsets(before) + fresh + pattern::all_matches(
                        items,
                        hay,
                        q,
                        end as int,
                    ));
                }
                assert forall|hay: Seq<u8>| #[trigger] self.shows(hay) && out@.len() == n implies offsets(
                    out@,
                ) == first_n(
                    pattern::all_matches(items, hay, from as int, end as int),
                    n as int,
                ) by {
                    let q = resume(fresh, plen as int, pos as int, pos + filled);
                    let all = pattern::all_matches(items, hay, from as int, end as int);
                    let rest = pattern::all_matches(items, hay, q, end as int);
                    assert(all == offsets(before) + fresh + rest);
                    assert(first_n(all, n as int) =~= all.take(n as int));
                    assert(all.take(n as int) =~= (offsets(before) + fresh).take(n as int));
                }
                if filled > 0 && found@.len() > 0 {
                    assert(fresh.last() == pos + found@[found@.len() - 1]);
                }
            }
            if filled <= overlap {
                proof {
                    assert forall|hay: Seq<u8>| #[trigger] self.shows(hay) implies offsets(out@)
                        == first_n(
                        pattern::all_matches(items, hay, from as int, end as int),
                        n as int,
                    ) by {
                        let q = resume(fresh, plen as int, pos as int, pos + filled);
                        assert(pos + filled == end);
                        assert(fresh == pattern::all_matches(items, hay, pos as int, pos + filled));
                        assert(fresh =~= Seq::<int>::empty());
                        assert(pattern::all_matches(items, hay, q, end as int) =~= Seq::<int>::empty());
                        assert(offsets(before) + fresh + Seq::<int>::empty() =~= offsets(before) + fresh);
                    }
                }
                return Ok(out);
            }
            let edge: u64 = pos + (filled - overlap);
            pos = if past > edge {
                past
            } else {
                edge
            };
        }
        proof {
            assert forall|hay: Seq<u8>| #[trigger] self.shows(hay) implies offsets(out@) == first_n(
                pattern::all_matches(items, hay, from as int, end as int),
                n as int,
            ) by {
                if out@.len() < n {
                    assert(pattern::all_matches(items, hay, pos as int, end as int)
                        =~= Seq::<int>::empty());
                    assert(offsets(out@) + Seq::<int>::empty() =~= offsets(out@));
                }
            }
        }
        Ok(out)
    }

    /// Find up to `n` matches that start strictly before `before`, in
    /// descending order.
    ///
    /// Needed for paging up in record mode: stepping to the previous record
    /// means searching backwards, not only forwards. A block further back is
    /// searched from a place that no match reaches across, so what is found is
    /// what a search from the start of the file would find.
    pub fn find_backward(&self, before: u64, pat: &Pattern, n: usize) -> (res: Result<Vec<u64>, E>)
        requires
            self.ready(),
        ensures
            res matches Ok(v) ==> v@.len() <= n && forall|i: int|
                0 <= i < v@.len() ==> #[trigger] v@[i] < before && v@[i] < self.size(),
            forall|hay: Seq<u8>| #[trigger]
                self.shows(hay) ==> (res matches Ok(v) ==> offsets(v@) == matches_before(
                    pat.items(),
                    hay,
                    before as int,
                    n as int,
                )),
            n == 0 || before == 0 || pat.items().len() > self.size() ==> res is Ok,
            res matches Err(e) ==> self.fails_with(e),
    {
        let mut out: Vec<u64> = Vec::new();
        let plen: u64 = pat.len() as u64;
        let ghost items = pat.items();
        let mut end: u64 = if before < self.len {
            before
        } else {
            self.len
        };
        proof {
            assert forall|hay: Seq<u8>| #[trigger] self.shows(hay) implies offsets(out@) + first_n(
                matches_upto(items, hay, end as int).reverse(),
                n - out@.len(),
            ) == matches_before(items, hay, before as int, n as int) by {
                lemma_upto(items, hay, before as int);
                assert(stop_for(items, hay, before as int) == stop_for(items, hay, end as int));
                assert(offsets(out@) =~= Seq::<int>::empty());
                let found = first_n(matches_upto(items, hay, end as int).reverse(), n as int);
                assert(Seq::<int>::empty() + found =~= found);
            }
        }
        if plen > self.len {
            proof {
                assert forall|hay: Seq<u8>| #[trigger] self.shows(hay) implies offsets(out@)
                    == matches_before(items, hay, before as int, n as int) by {
                    assert(matches_upto(items, hay, end as int) =~= Seq::<int>::empty());
                    assert(Seq::<int>::empty().reverse() =~= Seq::<int>::empty());
                    assert(offsets(out@) + Seq::<int>::empty() =~= offsets(out@));
                }
            }
            return Ok(out);
        }
        while end > 0 && out.len() < n
            invariant
                self.ready(),
                items == pat.items(),
                plen == items.len() > 0,
                plen <= self.len,
                end <= self.len,
                end <= before,
                out@.len() <= n,
                forall|i: int| 0 <= i < out@.len() ==> #[trigger] out@[i] < before && out@[i] < self.len,
                forall|hay: Seq<u8>| #[trigger]
                    self.shows(hay) ==> offsets(out@) + first_n(
                        matches_upto(items, hay, end as int).reverse(),
                        n - out@.len(),
                    ) == matches_before(items, hay, before as int, n as int),
            decreases end,
        {
            let start: u64 = match self.quiet_before(end, pat) {
                Ok(start) => start,
                Err(e) => return Err(e),
            };
            // Read a little past the edge, otherwise a match that starts before
            // it but ends past it would be lost.
            let stop: u64 = if plen - 1 <= self.len - end {
                end + (plen - 1)
            } else {
                self.len
            };
            let found = match self.scan_last(start, stop, pat, n - out.len()) {
                Ok(found) => found,
                Err(e) => return Err(e),
            };
            let ghost past = out@;
            push_back(&mut out, &found);
            proof {
                assert forall|hay: Seq<u8>| #[trigger] self.shows(hay) implies offsets(out@)
                    + first_n(matches_upto(items, hay, start as int).reverse(), n - out@.len())
                    == matches_before(items, hay, before as int, n as int) by {
                    let low = matches_upto(items, hay, start as int);
                    let high = pattern::all_matches(items, hay, start as int, stop as int);
                    assert(stop == stop_for(items, hay, end as int));
                    lemma_quiet(items, hay, start as int, end as int);
                    assert(offsets(found@) == last_n(high, n - past.len()));
                    assert(offsets(found@).len() == found@.len());
                    assert(last_n(high, n - past.len()).reverse() =~= first_n(
                        high.reverse(),
                        n - past.len(),
                    ));
                    lemma_first_n(low, high, n - past.len());
                    assert(offsets(out@).len() == out@.len());
                    assert(offsets(past).len() == past.len());
                    if high.len() > n - past.len() {
                        assert(out@.len() == n);
                        assert(first_n(low.reverse(), 0) =~= Seq::<int>::empty());
                        assert(first_n(low.reverse(), n - past.len() - high.len()) =~= Seq::<
                            int,
                        >::empty());
                    }
                    let tail = first_n(low.reverse(), n - out@.len());
                    assert(offsets(past) + (first_n(high.reverse(), n - past.len()) + tail)
                        =~= offsets(out@) + tail);
                }
            }
            end = start;
        }
        proof {
            assert forall|hay: Seq<u8>| #[trigger] self.shows(hay) implies offsets(out@)
                == matches_before(items, hay, before as int, n as int) by {
                pattern::lemma_all_matches(items, hay, 0, stop_for(items, hay, 0));
                if end == 0 {
                    assert(matches_upto(items, hay, 0) =~= Seq::<int>::empty());
                    assert(Seq::<int>::empty().reverse() =~= Seq::<int>::empty());
                } else {
                    assert(first_n(matches_upto(items, hay, end as int).reverse(), 0) =~= Seq::<
                        int,
                    >::empty());
                }
                assert(offsets(out@) + Seq::<int>::empty() =~= offsets(out@));
            }
        }
        Ok(out)
    }

    /// Find the last `n` matches between two offsets, in ascending order. No
    /// more than these and a batch are ever held.
    fn scan_last(&self, from: u64, end: u64, pat: &Pattern, n: usize) -> (res: Result<Vec<u64>, E>)
        requires
            self.ready(),
            end <= self.len,
            pat.items().len() <= end,
        ensures
            res matches Ok(v) ==> v@.len() <= n && forall|i: int|
                0 <= i < v@.len() ==> from <= #[trigger] v@[i] && v@[i] + pat.items().len() <= end,
            forall|hay: Seq<u8>| #[trigger]
                self.shows(hay) ==> (res matches Ok(v) ==> offsets(v@) == last_n(
                    pattern::all_matches(pat.items(), hay, from as int, end as int),
                    n as int,
                )),
            res matches Err(e) ==> self.fails_with(e),
    {
        let plen: u64 = pat.len() as u64;
        let ghost items = pat.items();
        let mut kept: Vec<u64> = Vec::new();
        let mut pos: u64 = from;
        let ghost mut done: int = 0;
        let mut more: bool = true;
        proof {
            assert forall|hay: Seq<u8>| #[trigger] self.shows(hay) implies rest_is(
                items,
                hay,
                from as int,
                end as int,
                done,
                pos as int,
            ) && offsets(kept@) == last_n(
                pattern::all_matches(items, hay, from as int, end as int).take(done),
                n as int,
            ) by {
                let all = pattern::all_matches(items, hay, from as int, end as int);
                assert(all.skip(0) =~= all);
                assert(all.take(0) =~= Seq::<int>::empty());
                assert(offsets(kept@) =~= Seq::<int>::empty());
            }
        }
        while more && pos < end
            invariant
                self.ready(),
                end <= self.len,
                items == pat.items(),
                plen == items.len() > 0,
                from <= pos,
                done >= 0,
                kept@.len() <= n,
                forall|i: int|
                    0 <= i < kept@.len() ==> from <= #[trigger] kept@[i] && kept@[i] + plen <= end,
                forall|hay: Seq<u8>| #[trigger]
                    self.shows(hay) ==> {
                        let all = pattern::all_matches(items, hay, from as int, end as int);
                        &&& more ==> rest_is(items, hay, from as int, end as int, done, pos as int)
                        &&& offsets(kept@) == last_n(all.take(done), n as int)
                        &&& !more ==> done == all.len()
                    },
            decreases end - pos + if more { 1int } else { 0int },
        {
            let found = match self.scan(pos, end, pat, BATCH) {
                Ok(found) => found,
                Err(e) => return Err(e),
            };
            let count: usize = found.len();
            let ghost was = kept@;
            keep_last(&mut kept, &found, n);
            proof {
                assert forall|hay: Seq<u8>| #[trigger] self.shows(hay) implies {
                    let all = pattern::all_matches(items, hay, from as int, end as int);
                    &&& done + count <= all.len()
                    &&& offsets(kept@) == last_n(all.take(done + count), n as int)
                    &&& count < BATCH ==> done + count == all.len()
                    &&& count > 0 ==> rest_is(
                        items,
                        hay,
                        from as int,
                        end as int,
                        done + count,
                        found@[count - 1] + plen,
                    )
                } by {
                    let all = pattern::all_matches(items, hay, from as int, end as int);
                    let rest = pattern::all_matches(items, hay, pos as int, end as int);
                    assert(all.skip(done) == rest);
                    assert(offsets(found@).len() == count);
                    assert(offsets(found@) =~= rest.take(count as int));
                    assert(all.take(done + count) =~= all.take(done) + rest.take(count as int));
                    lemma_last_n(all.take(done), rest.take(count as int), n as int);
                    if count > 0 {
                        lemma_after(items, hay, pos as int, end as int, count as int);
                        assert(offsets(found@)[count - 1] == found@[count - 1]);
                        assert(rest.take(count as int)[count - 1] == rest[count - 1]);
                        assert(all.skip(done + count) =~= rest.skip(count as int));
                    }
                }
                done = done + count;
            }
            if count < BATCH {
                more = false;
            } else {
                pos = found[count - 1] + plen;
            }
        }
        proof {
            assert forall|hay: Seq<u8>| #[trigger] self.shows(hay) implies offsets(kept@) == last_n(
                pattern::all_matches(items, hay, from as int, end as int),
                n as int,
            ) by {
                let all = pattern::all_matches(items, hay, from as int, end as int);
                if more {
                    assert(pattern::all_matches(items, hay, pos as int, end as int) =~= Seq::<
                        int,
                    >::empty());
                    assert(all.skip(done).len() == 0);
                }
                assert(all.take(done) =~= all);
            }
        }
        Ok(kept)
    }

    /// A place before `end` that no match reaches across: about a block back,
    /// and from there on to where no match starts for the length of one.
    fn quiet_before(&self, end: u64, pat: &Pattern) -> (res: Result<u64, E>)
        requires
            self.ready(),
            0 < end <= self.len,
        ensures
            res matches Ok(s) ==> s < end,
            forall|hay: Seq<u8>| #[trigger]
                self.shows(hay) ==> (res matches Ok(s) ==> forall|p: int|
                    s - pat.items().len() < p < s ==> !pattern::matches(pat.items(), hay, p)),
            res matches Err(e) ==> self.fails_with(e),
    {
        let overlap: u64 = pat.len() as u64 - 1;
        let ghost items = pat.items();
        let mut quiet: u64 = if end <= SEARCH_BLOCK {
            0
        } else {
            end - SEARCH_BLOCK
        };
        // nothing matches from `at` up to `quiet`
        let mut at: u64 = quiet;
        while at > 0 && quiet - at < overlap
            invariant
                self.ready(),
                items == pat.items(),
                overlap == items.len() - 1,
                at <= quiet < end <= self.len,
                forall|hay: Seq<u8>| #[trigger]
                    self.shows(hay) ==> forall|p: int|
                        at <= p < quiet ==> !pattern::matches(items, hay, p),
            decreases at,
        {
            let low: u64 = if at <= QUIET_BLOCK {
                0
            } else {
                at - QUIET_BLOCK
            };
            let stop: u64 = if overlap <= self.len - at {
                at + overlap
            } else {
                self.len
            };
            let block = match self.read_block(low, stop - low) {
                Ok(block) => block,
                Err(e) => return Err(e),
            };
            let top: u64 = at;
            while at > low && quiet - at < overlap
                invariant
                    self.ready(),
                    items == pat.items(),
                    overlap == items.len() - 1,
                    quiet < end <= self.len,
                    low <= at <= quiet,
                    at <= top <= low + QUIET_BLOCK,
                    low < top,
                    at == top ==> quiet - at < overlap,
                    top <= self.len,
                    stop == if top + overlap <= self.len {
                        top + overlap
                    } else {
                        self.len as int
                    },
                    forall|hay: Seq<u8>| #[trigger]
                        self.shows(hay) ==> block@ == hay.subrange(low as int, stop as int),
                    forall|hay: Seq<u8>| #[trigger]
                        self.shows(hay) ==> forall|p: int|
                            at <= p < quiet ==> !pattern::matches(items, hay, p),
                decreases at,
            {
                at -= 1;
                let found: bool = pat.matches_at(&block, (at - low) as usize);
                proof {
                    assert forall|hay: Seq<u8>| #[trigger] self.shows(hay) implies found
                        == pattern::matches(items, hay, at as int) by {
                        lemma_match_in(items, hay, low as int, stop as int, at as int);
                    }
                }
                if found {
                    quiet = at;
                }
            }
        }
        Ok(quiet)
    }

    /// The first match at or after `from`.
    pub fn search(&self, from: u64, pat: &Pattern) -> (res: Result<Option<u64>, E>)
        requires
            self.ready(),
        ensures
            res matches Ok(Some(at)) ==> from <= at < self.size(),
            forall|hay: Seq<u8>| #[trigger]
                self.shows(hay) ==> (res matches Ok(at) ==> match at {
                    Some(p) => pattern::next_match(
                        pat.items(),
                        hay,
                        from as int,
                        hay.len() as int,
                    ) == Some(p as int),
                    None => pattern::next_match(
                        pat.items(),
                        hay,
                        from as int,
                        hay.len() as int,
                    ) is None,
                }),
            from >= self.size() || pat.items().len() > self.size() ==> res is Ok,
            res matches Err(e) ==> self.fails_with(e),
    {
        let _plen: usize = pat.len();
        let found = match self.find_forward(from, pat, 1) {
            Ok(found) => found,
            Err(e) => return Err(e),
        };
        proof {
            assert forall|hay: Seq<u8>| #[trigger] self.shows(hay) implies (found@.len() > 0
                <==> pattern::next_match(pat.items(), hay, from as int, hay.len() as int) is Some) && (
            found@.len() > 0 ==> pattern::next_match(pat.items(), hay, from as int, hay.len() as int)
                == Some(found@[0] as int)) by {
                pattern::lemma_next_match(pat.items(), hay, from as int, hay.len() as int);
                let all = pattern::all_matches(pat.items(), hay, from as int, hay.len() as int);
                assert(offsets(found@) == first_n(all, 1));
                assert(offsets(found@).len() == found@.len());
                if found@.len() > 0 {
                    assert(offsets(found@)[0] == found@[0]);
                    assert(all[0] == found@[0]);
                }
            }
        }
        if found.len() > 0 {
            Ok(Some(found[0]))
        } else {
            Ok(None)
        }
    }
}

/// What came of one attempt to read.
#[derive(Debug)]
pub enum ReadEvent<E> {
    /// So many bytes were read; none at the end of the file.
    Got(usize),
    /// The attempt was interrupted before anything was read.
    Interrupted,
    Failed(E),
}

/// What to do after an attempt to read.
#[derive(Debug)]
pub enum ReadAction<E> {
    /// Read on, behind so many bytes.
    More(usize),
    /// So many bytes is all there is.
    Done(usize),
    Fail(E),
}

/// Read in full: one read is not obliged to return everything asked for, so
/// the remainder is asked for again, and so is an attempt that was
/// interrupted. `filled` bytes of `want` are there; `event` is what came of
/// the last attempt, if there was one.
pub fn read_step<E>(filled: usize, want: usize, event: Option<ReadEvent<E>>) -> (res: ReadAction<E>)
    ensures
        res == match event {
            None | Some(ReadEvent::Interrupted) => go_on::<E>(filled as int, want),
            Some(ReadEvent::Got(n)) => if n == 0 {
                ReadAction::Done(filled)
            } else {
                go_on::<E>(filled + n, want)
            },
            Some(ReadEvent::Failed(e)) => ReadAction::Fail(e),
        },
{
    let more: usize = match event {
        None => 0,
        Some(ReadEvent::Interrupted) => 0,
        Some(ReadEvent::Got(n)) => {
            if n == 0 {
                return ReadAction::Done(filled);
            }
            n
        },
        Some(ReadEvent::Failed(e)) => return ReadAction::Fail(e),
    };
    if filled >= want || more >= want - filled {
        ReadAction::Done(want)
    } else {
        ReadAction::More(filled + more)
    }
}

/// Reading goes on until everything asked for is there.
pub open spec fn go_on<E>(filled: int, want: usize) -> ReadAction<E> {
    if filled >= want {
        ReadAction::Done(want)
    } else {
        ReadAction::More(filled as usize)
    }
}

/// A part of the file: `want` bytes from `start` on, as far as it goes.
pub open spec fn part(hay: Seq<u8>, start: int, want: int) -> Seq<u8> {
    if start >= hay.len() {
        seq![]
    } else if start + want <= hay.len() {
        hay.subrange(start, start + want)
    } else {
        hay.subrange(start, hay.len() as int)
    }
}

/// Append matches found in a block that starts at `base`, until there are `n`.
fn push_found(out: &mut Vec<u64>, base: u64, found: &Vec<usize>, n: usize)
    requires
        old(out)@.len() <= n,
        forall|i: int| 0 <= i < found@.len() ==> base + #[trigger] found@[i] <= u64::MAX,
    ensures
        offsets(final(out)@) == first_n(
            offsets(old(out)@) + pattern::offsets(found@).map_values(|x: int| base + x),
            n as int,
        ),
        forall|i: int|
            0 <= i < old(out)@.len() ==> #[trigger] final(out)@[i] == old(out)@[i],
        forall|i: int|
            old(out)@.len() <= i < final(out)@.len() ==> #[trigger] final(out)@[i] == base
                + found@[i - old(out)@.len()],
        old(out)@.len() <= final(out)@.len() <= n,
        final(out)@.len() <= old(out)@.len() + found@.len(),
{
    let ghost before = out@;
    let ghost all = offsets(before) + pattern::offsets(found@).map_values(|x: int| base + x);
    let mut i: usize = 0;
    while i < found.len() && out.len() < n
        invariant
            i <= found@.len(),
            before.len() + i == out@.len() <= n,
            all == offsets(before) + pattern::offsets(found@).map_values(|x: int| base + x),
            forall|i: int| 0 <= i < found@.len() ==> base + #[trigger] found@[i] <= u64::MAX,
            offsets(out@) =~= all.take(out@.len() as int),
            forall|j: int| 0 <= j < before.len() ==> #[trigger] out@[j] == before[j],
            forall|j: int|
                before.len() <= j < out@.len() ==> #[trigger] out@[j] == base + found@[j
                    - before.len()],
        decreases found.len() - i,
    {
        out.push(base + found[i] as u64);
        i += 1;
    }
    assert(offsets(out@) =~= first_n(all, n as int));
}

/// What a backward search finds, told by one forward search.
proof fn lemma_before(items: Seq<Option<u8>>, hay: Seq<u8>, x: int, n: int)
    requires
        items.len() > 0,
        0 <= x,
    ensures
        matches_before(items, hay, x, n) == first_n(matches_upto(items, hay, x).reverse(), n),
{
    lemma_upto(items, hay, x);
}

/// From the end of the file on it makes no difference where a search starts.
pub proof fn lemma_past_the_end(items: Seq<Option<u8>>, hay: Seq<u8>, x: int, y: int, n: int)
    requires
        items.len() > 0,
        hay.len() <= x,
        hay.len() <= y,
    ensures
        matches_before(items, hay, x, n) == matches_before(items, hay, y, n),
{
    lemma_before(items, hay, x, n);
    lemma_before(items, hay, y, n);
    assert(stop_for(items, hay, x) == stop_for(items, hay, y));
}

/// Is what is left of all matches past the first `done` what a search from
/// `pos` finds?
spec fn rest_is(
    items: Seq<Option<u8>>,
    hay: Seq<u8>,
    from: int,
    end: int,
    done: int,
    pos: int,
) -> bool {
    let all = pattern::all_matches(items, hay, from, end);
    &&& 0 <= done <= all.len()
    &&& all.skip(done) == pattern::all_matches(items, hay, pos, end)
}

/// Past so many of all matches the search goes on behind the last of them.
proof fn lemma_after(items: Seq<Option<u8>>, hay: Seq<u8>, from: int, end: int, c: int)
    requires
        items.len() > 0,
        1 <= c <= pattern::all_matches(items, hay, from, end).len(),
    ensures
        pattern::all_matches(items, hay, from, end).skip(c) == pattern::all_matches(
            items,
            hay,
            pattern::all_matches(items, hay, from, end)[c - 1] + items.len(),
            end,
        ),
    decreases c,
{
    let all = pattern::all_matches(items, hay, from, end);
    pattern::lemma_next_match(items, hay, from, end);
    let p = pattern::next_match(items, hay, from, end)->0;
    let rest = pattern::all_matches(items, hay, p + items.len(), end);
    assert(all == seq![p] + rest);
    assert(all.skip(1) =~= rest);
    if c > 1 {
        lemma_after(items, hay, p + items.len(), end, c - 1);
        assert(all[c - 1] == rest[c - 2]);
        assert(all.skip(c) =~= rest.skip(c - 1));
    }
}

/// The last few of two sequences one after the other.
proof fn lemma_last_n(a: Seq<int>, b: Seq<int>, n: int)
    requires
        n >= 0,
    ensures
        last_n(a + b, n) == last_n(last_n(a, n) + b, n),
{
    assert(last_n(a + b, n) =~= last_n(last_n(a, n) + b, n));
}

/// Append offsets, and let go of all but the last `n`.
fn keep_last(kept: &mut Vec<u64>, found: &Vec<u64>, n: usize)
    requires
        old(kept)@.len() <= n,
    ensures
        offsets(final(kept)@) == last_n(offsets(old(kept)@) + offsets(found@), n as int),
        final(kept)@.len() <= n,
        forall|i: int|
            0 <= i < final(kept)@.len() ==> old(kept)@.contains(#[trigger] final(kept)@[i])
                || found@.contains(final(kept)@[i]),
{
    let ghost all = kept@ + found@;
    let had: usize = kept.len();
    let got: usize = found.len();
    // so many of the old ones stay, and so many of the new ones come
    let fresh: usize = if got < n {
        got
    } else {
        n
    };
    let stay: usize = if had < n - fresh {
        had
    } else {
        n - fresh
    };
    let mut out: Vec<u64> = Vec::new();
    let mut i: usize = had - stay;
    while i < had
        invariant
            had == kept@.len(),
            stay <= had,
            had - stay <= i <= had,
            out@ =~= kept@.subrange(had - stay, i as int),
        decreases had - i,
    {
        out.push(kept[i]);
        i += 1;
    }
    let mut j: usize = got - fresh;
    while j < got
        invariant
            had == kept@.len(),
            got == found@.len(),
            stay <= had,
            fresh <= got,
            got - fresh <= j <= got,
            out@ =~= kept@.subrange(had - stay, had as int) + found@.subrange(got - fresh, j as int),
        decreases got - j,
    {
        out.push(found[j]);
        j += 1;
    }
    proof {
        assert forall|k: int| 0 <= k < out@.len() implies kept@.contains(#[trigger] out@[k])
            || found@.contains(out@[k]) by {
            if k < stay {
                assert(out@[k] == kept@[had - stay + k]);
            } else {
                assert(out@[k] == found@[got - fresh + (k - stay)]);
            }
        }
        assert(offsets(out@) =~= last_n(offsets(kept@) + offsets(found@), n as int));
    }
    *kept = out;
}

/// Append offsets, last one first.
fn push_back(out: &mut Vec<u64>, found: &Vec<u64>)
    ensures
        offsets(final(out)@) == offsets(old(out)@) + offsets(found@).reverse(),
        final(out)@.len() == old(out)@.len() + found@.len(),
        forall|i: int|
            0 <= i < old(out)@.len() ==> #[trigger] final(out)@[i] == old(out)@[i],
        forall|i: int|
            old(out)@.len() <= i < final(out)@.len() ==> #[trigger] final(out)@[i]
                == found@[found@.len() - 1 - (i - old(out)@.len())],
{
    let ghost before = out@;
    let ghost back = offsets(found@).reverse();
    let total: usize = found.len();
    let mut i: usize = 0;
    while i < total
        invariant
            i <= total == found@.len(),
            before.len() + i == out@.len(),
            back == offsets(found@).reverse(),
            offsets(out@) =~= offsets(before) + back.take(i as int),
            forall|j: int| 0 <= j < before.len() ==> #[trigger] out@[j] == before[j],
            forall|j: int|
                before.len() <= j < out@.len() ==> #[trigger] out@[j] == found@[found@.len() - 1 - (j
                    - before.len())],
        decreases total - i,
    {
        out.push(found[total - 1 - i]);
        i += 1;
    }
    assert(back.take(i as int) =~= back);
}

} // verus!
