use dosview::encoding::Encoding;
use dosview::pattern::Pattern;
use dosview::reader::{read_step, FileWindow, ReadAction, ReadEvent, Stamp, CHUNK, SEARCH_BLOCK};

fn pat(s: &str) -> Pattern {
    Pattern::parse(s, Encoding::Ascii).unwrap()
}

type Source = Box<dyn Fn(u64, u64) -> Result<Vec<u8>, String>>;

/// A way to read a file that holds these bytes.
fn contents(bytes: &[u8]) -> Source {
    let bytes = bytes.to_vec();
    Box::new(move |start, want| {
        let a = start.min(bytes.len() as u64) as usize;
        let b = a + want.min((bytes.len() - a) as u64) as usize;
        Ok(bytes[a..b].to_vec())
    })
}

fn stamp(bytes: &[u8], modified: i128) -> Stamp {
    Stamp { len: bytes.len() as u64, modified: Some(modified) }
}

fn window(bytes: &[u8]) -> FileWindow<Source> {
    FileWindow::open(contents(bytes), stamp(bytes, 0))
}

/// A file larger than the window buffer, so the buffer really does move.
fn big_file(len: usize) -> Vec<u8> {
    (0..len).map(|i| (i % 251) as u8).collect()
}

#[test]
fn reads_across_window_boundaries() {
    let len = CHUNK as usize * 3 + 777;
    let mut w = window(&big_file(len));
    assert_eq!(w.len(), len as u64);

    // Jump back and forth to force the buffer to move.
    for &off in &[0u64, 10, CHUNK - 3, CHUNK * 2 + 5, 42, len as u64 - 10] {
        let got = w.read_at(off, 16).unwrap();
        let expect: Vec<u8> = (0..got.len())
            .map(|i| ((off as usize + i) % 251) as u8)
            .collect();
        assert_eq!(got, &expect[..], "offset {off}");
    }
}

#[test]
fn reads_past_eof_are_clamped_not_panics() {
    let mut w = window(&big_file(100));
    assert_eq!(w.read_at(90, 64).unwrap().len(), 10);
    assert!(w.read_at(100, 16).unwrap().is_empty());
    assert!(w.read_at(u64::MAX, 16).unwrap().is_empty());
}

#[test]
fn finds_a_match_that_straddles_two_search_blocks() {
    let block = SEARCH_BLOCK as usize;
    let len = block + 64;
    let mut data = vec![0u8; len];
    // Put the needle exactly on the block seam — the classic spot where a
    // naive search loses it.
    let needle = b"NEEDLE-ON-THE-EDGE";
    let pos = block - needle.len() / 2;
    data[pos..pos + needle.len()].copy_from_slice(needle);

    let p = pat("NEEDLE-ON-THE-EDGE");
    let w = window(&data);
    assert_eq!(w.search(0, &p).unwrap(), Some(pos as u64));
    assert_eq!(w.search(pos as u64 + 1, &p).unwrap(), None);
}

#[test]
fn search_respects_the_starting_offset() {
    let p = pat("AB");
    let w = window(b"--AB----AB--");
    assert_eq!(w.search(0, &p).unwrap(), Some(2));
    assert_eq!(w.search(3, &p).unwrap(), Some(8));
    assert_eq!(w.search(9, &p).unwrap(), None);
}

#[test]
fn cyrillic_search_finds_code_page_bytes() {
    // "-- Привет --" written in Windows-1251.
    let mut data = b"-- ".to_vec();
    data.extend_from_slice(&[0xCF, 0xF0, 0xE8, 0xE2, 0xE5, 0xF2]);
    data.extend_from_slice(b" --");

    let w = window(&data);
    let p = Pattern::parse("Привет", Encoding::Cp1251).unwrap();
    assert_eq!(w.search(0, &p).unwrap(), Some(3));
    // The same query as UTF-8 bytes is simply not in this file.
    let utf8 = Pattern::parse("Привет", Encoding::Utf8).unwrap();
    assert_eq!(w.search(0, &utf8).unwrap(), None);
}

#[test]
fn backward_search_walks_records_in_reverse() {
    let p = pat("AB");
    let w = window(b"--AB--AB--AB--");
    assert_eq!(w.find_backward(14, &p, 3).unwrap(), vec![10, 6, 2]);
    assert_eq!(w.find_backward(10, &p, 1).unwrap(), vec![6]);
    assert!(w.find_backward(2, &p, 1).unwrap().is_empty());
}

#[test]
fn backward_search_spans_blocks_and_finds_edge_matches() {
    let block = SEARCH_BLOCK as usize;
    let len = block * 2 + 100;
    let mut data = vec![0u8; len];
    let needle = b"EDGE-CASE-MARK";
    // one needle on the block seam, another closer to the end
    let p1 = block - needle.len() / 2;
    let p2 = block * 2 + 10;
    data[p1..p1 + needle.len()].copy_from_slice(needle);
    data[p2..p2 + needle.len()].copy_from_slice(needle);

    let p = pat("EDGE-CASE-MARK");
    let w = window(&data);
    assert_eq!(
        w.find_backward(len as u64, &p, 2).unwrap(),
        vec![p2 as u64, p1 as u64]
    );
}

#[test]
fn refresh_picks_up_a_file_that_changed_underneath_us() {
    let mut w = window(b"first");
    assert_eq!(w.read_at(0, 8).unwrap(), b"first");
    assert!(!w.refresh(contents(b"first"), stamp(b"first", 0)), "nothing changed yet");

    // Appending: the new length has to show up, and the stale window
    // buffer must not be served instead of the new bytes.
    let more = b"first-and-more";
    assert!(w.refresh(contents(more), stamp(more, 1)));
    assert_eq!(w.len(), 14);
    assert_eq!(w.read_at(0, 32).unwrap(), b"first-and-more");

    // Truncating: reads past the new end are clamped, not stale.
    assert!(w.refresh(contents(b"hi"), stamp(b"hi", 2)));
    assert_eq!(w.len(), 2);
    assert_eq!(w.read_at(0, 32).unwrap(), b"hi");
}

#[test]
fn refresh_follows_a_file_replaced_by_rename() {
    // How most editors save: write a new file, rename it over the old one.
    // What we read through then leads to contents nobody writes to again.
    let mut w = window(b"old contents");
    assert_eq!(w.read_at(0, 32).unwrap(), b"old contents");

    let new = b"brand new contents";
    assert!(w.refresh(contents(new), stamp(new, 1)));
    assert_eq!(w.read_at(0, 32).unwrap(), b"brand new contents");
}

#[test]
fn forward_search_stops_as_soon_as_it_has_enough() {
    let p = pat("AB");
    let w = window(b"AB-AB-AB-AB");
    assert_eq!(w.find_forward(0, &p, 2).unwrap(), vec![0, 3]);
    assert_eq!(w.find_forward(1, &p, 9).unwrap(), vec![3, 6, 9]);
}

#[test]
fn a_touch_alone_is_a_change() {
    let mut w = window(b"same");
    assert!(w.refresh(contents(b"same"), stamp(b"same", 7)));
    assert!(!w.refresh(contents(b"same"), stamp(b"same", 7)));
    let unknown = Stamp { len: 4, modified: None };
    assert!(w.refresh(contents(b"same"), unknown));
}

#[test]
fn a_window_that_was_read_from_is_not_served_after_a_refresh() {
    let mut w = window(b"aaaa");
    assert_eq!(w.read_at(0, 4).unwrap(), b"aaaa");
    // Same length, other bytes.
    assert!(w.refresh(contents(b"bbbb"), stamp(b"bbbb", 1)));
    assert_eq!(w.read_at(1, 2).unwrap(), b"bb");
}

#[test]
fn forward_matches_do_not_overlap_across_a_seam() {
    // A run of the same byte over the seam between two blocks: every other
    // offset, with no restart at the seam.
    let block = SEARCH_BLOCK as usize;
    let mut data = vec![0u8; block + 8];
    for b in &mut data[block - 3..block + 4] {
        *b = b'A';
    }
    let w = window(&data);
    let at = block as u64 - 3;
    assert_eq!(w.find_forward(0, &pat("AA"), 9).unwrap(), vec![at, at + 2, at + 4]);
}

#[test]
fn backward_matches_do_not_overlap_across_a_seam() {
    let block = SEARCH_BLOCK as usize;
    let mut data = vec![0u8; block * 2];
    // Searching back from the end, the seam is in the middle of the three;
    // searching forward takes the first two.
    for b in &mut data[block - 1..block + 2] {
        *b = b'A';
    }
    let w = window(&data);
    let found = w.find_backward(data.len() as u64, &pat("AA"), 9).unwrap();
    assert_eq!(found, vec![block as u64 - 1]);
    assert_eq!(w.find_forward(0, &pat("AA"), 9).unwrap(), found);
}

#[test]
fn searching_for_nothing_or_too_much_finds_nothing() {
    let w = window(b"AB");
    assert!(w.find_forward(0, &pat("AB"), 0).unwrap().is_empty());
    assert!(w.find_forward(0, &pat("ABC"), 1).unwrap().is_empty());
    assert!(w.find_forward(2, &pat("AB"), 1).unwrap().is_empty());
    assert!(w.find_backward(0, &pat("AB"), 1).unwrap().is_empty());
    assert!(w.find_backward(9, &pat("AB"), 0).unwrap().is_empty());
    assert_eq!(w.find_backward(u64::MAX, &pat("AB"), 1).unwrap(), vec![0]);
}

#[test]
fn an_error_while_reading_comes_back() {
    let fail: Source = Box::new(|_start, _want| Err("gone".to_string()));
    let mut w = FileWindow::open(fail, Stamp { len: 10, modified: None });
    assert_eq!(w.read_at(0, 4), Err("gone".to_string()));
    assert_eq!(w.search(0, &pat("A")), Err("gone".to_string()));
    assert_eq!(w.find_backward(10, &pat("A"), 1), Err("gone".to_string()));
    // Nothing has to be read past the end.
    assert_eq!(w.read_at(10, 4), Ok(&[][..]));
}

/// Read through attempts that give at most so many bytes each, the way a
/// caller drives the steps.
fn drive(attempts: Vec<ReadEvent<String>>, want: usize) -> Result<usize, String> {
    let mut attempts = attempts.into_iter();
    let mut filled = 0;
    let mut event = None;
    loop {
        match read_step(filled, want, event) {
            ReadAction::More(n) => filled = n,
            ReadAction::Done(n) => return Ok(n),
            ReadAction::Fail(e) => return Err(e),
        }
        event = Some(attempts.next().unwrap());
    }
}

#[test]
fn short_reads_are_continued_until_everything_is_there() {
    let events = vec![ReadEvent::Got(3), ReadEvent::Interrupted, ReadEvent::Got(5)];
    assert_eq!(drive(events, 8), Ok(8));
    assert_eq!(drive(vec![ReadEvent::Got(3), ReadEvent::Got(0)], 8), Ok(3));
    assert_eq!(drive(vec![], 0), Ok(0));
    let broken = vec![ReadEvent::Got(3), ReadEvent::Failed("disk".to_string())];
    assert_eq!(drive(broken, 8), Err("disk".to_string()));
}

#[test]
fn overlapping_matches_run_back_past_a_block() {
    // Every offset matches; which ones count is settled at the far end.
    let block = SEARCH_BLOCK as usize;
    let w = window(&vec![b'A'; block + 2]);
    let p = pat("AA");
    let end = block as u64 + 2;
    assert_eq!(w.find_backward(end, &p, 3).unwrap(), vec![end - 2, end - 4, end - 6]);
    assert_eq!(w.find_backward(end - 2, &p, 1).unwrap(), vec![end - 4]);

    let w = window(&vec![b'A'; block + 3]);
    assert_eq!(w.find_backward(end + 1, &p, 2).unwrap(), vec![end - 2, end - 4]);

    // A run of them that starts just behind a quiet stretch.
    let mut data = vec![b'-'; block * 2];
    for b in &mut data[block - 3..block + 4] {
        *b = b'A';
    }
    let w = window(&data);
    let b = block as u64;
    assert_eq!(w.find_backward(2 * b, &p, 9).unwrap(), vec![b + 1, b - 1, b - 3]);
    assert_eq!(w.find_backward(b + 1, &p, 9).unwrap(), vec![b - 1, b - 3]);
    assert_eq!(w.find_backward(2 * b, &p, 2).unwrap(), vec![b + 1, b - 1]);
}

#[test]
fn only_the_last_matches_are_kept() {
    let w = window(&vec![b'A'; SEARCH_BLOCK as usize * 2 + 5]);
    let end = SEARCH_BLOCK * 2 + 5;
    assert_eq!(w.find_backward(end, &pat("A"), 3).unwrap(), vec![end - 1, end - 2, end - 3]);
    let all = w.find_backward(end, &pat("A"), usize::MAX).unwrap();
    assert_eq!(all.len() as u64, end);
    assert_eq!((all[0], all[all.len() - 1]), (end - 1, 0));
}
