//! State the keys flip, the search, and rereading a file that changed.

use crate::app::App;
use crate::encoding::Encoding;
use crate::model;
use crate::model::Model;
use crate::pattern;
use crate::pattern::Pattern;
use crate::reader;
use crate::reader::Stamp;
use crate::text;
use crate::view;
use crate::view::Mode;
use vstd::prelude::*;
use vstd::string::*;

verus! {

/// Re-encode the pattern in a slot for a code page. When its text does not
/// exist there the old bytes are kept, and `status` says why the pattern no
/// longer follows the text.
fn reencode(slot: Option<Pattern>, enc: Encoding, status: &mut String) -> (res: Option<Pattern>)
    ensures
        model::pattern_model(res) == model::reencoded(model::pattern_model(slot), enc),
        final(status)@ == model::reencode_status(model::pattern_model(slot), enc, old(status)@),
{
    let kept = match slot {
        Some(p) => p,
        None => return None,
    };
    match Pattern::parse(kept.src(), enc) {
        Ok(p) => Some(p),
        Err(e) => {
            let mut note = e.message();
            note.append(" — pattern left as it was");
            *status = note;
            Some(kept)
        },
    }
}

/// A label followed by an offset in hexadecimal.
fn at_offset(label: &str, off: u64) -> (res: String)
    ensures
        res@ == label@ + model::offset_text(off as int),
{
    let mut out = label.to_string();
    out.append("0x");
    text::push_radix(&mut out, off, 16);
    assert(out@ =~= label@ + model::offset_text(off as int));
    out
}

impl<E, F: Fn(u64, u64) -> Result<Vec<u8>, E>> App<F> {
    /// Make the data columns narrower or wider.
    ///
    /// Both columns show the same bytes, so the bytes on a line is the only
    /// dial there is: fewer of them and the dump — text column and all — takes
    /// up less of the window. The mode's own limits and the window width are
    /// the stops.
    pub fn resize_line(&mut self, wider: bool)
        ensures
            final(self).same_file(old(self)),
            final(self).well_formed() == old(self).well_formed(),
            final(self).model() == old(self).model().resize_line(wider),
    {
        if self.mode == Mode::Text {
            self.status = "Line width is for the byte modes (1, 2)".to_string();
            return;
        }
        let (min, _max) = view::limits(self.mode);
        let step: usize = view::step(self.mode);
        let want: usize = if wider {
            self.bpl.saturating_add(step)
        } else if self.bpl > step {
            self.bpl - step
        } else {
            0
        };
        let most: usize = if self.fit_bpl >= min {
            self.fit_bpl
        } else {
            min
        };
        let got: usize = view::clamp(want, min, most);
        self.fixed_bpl = Some(got);
        let mut status = String::new();
        text::push_radix(&mut status, got as u64, 10);
        assert(status@ =~= text::decimal(got as int));
        if got == self.fit_bpl {
            status.append(" bytes per line — the whole window");
        } else {
            status.append(" bytes per line");
        }
        self.status = status;
    }

    /// Wrap long records onto as many lines as they need, or cut them again.
    pub fn toggle_wrap(&mut self)
        ensures
            final(self).same_file(old(self)),
            final(self).well_formed() == old(self).well_formed(),
            final(self).model() == old(self).model().toggle_wrap(),
    {
        self.wrap = !self.wrap;
        if self.wrap {
            self.hoff = 0;
        }
        self.held = false;
        self.status = if self.wrap {
            if self.record.is_some() {
                "Records wrap onto as many lines as they need".to_string()
            } else {
                "Wrap on — applies once a record pattern is set (6)".to_string()
            }
        } else {
            if self.record.is_some() {
                "One line per record; walk the cursor right to see the rest".to_string()
            } else {
                "Wrap off — applies once a record pattern is set (6)".to_string()
            }
        };
    }

    /// Switch code page.
    ///
    /// Patterns keep the text they were typed as, so they are re-encoded: a
    /// search for "Привет" has to mean the new code page's bytes from now on.
    /// When the text does not exist in the new code page the old bytes are
    /// kept — the file did not change just because the view did — and the
    /// status line says why the pattern no longer follows the text.
    pub fn set_encoding(&mut self, enc: Encoding)
        ensures
            final(self).reader == old(self).reader,
            final(self).name == old(self).name,
            final(self).well_formed() == old(self).well_formed(),
            final(self).model() == old(self).model().set_encoding(enc),
    {
        self.enc = enc;
        let mut status = "Encoding: ".to_string();
        status.append(enc.name());
        let needle = self.needle.take();
        self.needle = reencode(needle, enc, &mut status);
        let record = self.record.take();
        self.record = reencode(record, enc, &mut status);
        self.status = status;
    }

    /// Pick up changes made to the file by someone else.
    ///
    /// `look` is what came of opening the file again: a way to read it and what
    /// it looks like, or why it could not be opened. `quiet` is the idle check,
    /// which only speaks up when something actually moved; the reload key
    /// reports either way. Says whether the file had changed.
    pub fn reload(&mut self, quiet: bool, look: Result<(F, Stamp), String>) -> (res: Result<bool, E>)
        requires
            old(self).well_formed(),
            look matches Ok((read, _)) ==> reader::answers::<E, F>(read),
        ensures
            final(self).well_formed(),
            final(self).name == old(self).name,
            match look {
                Err(e) => {
                    &&& res == Ok::<bool, E>(false)
                    &&& final(self).same_file(old(self))
                    &&& final(self).model() == if quiet {
                        old(self).model()
                    } else {
                        (Model { status: "Cannot reread the file: "@ + e@, ..old(self).model() })
                    }
                },
                Ok((read, stamp)) => if stamp == old(self).reader.last_stamp() {
                    &&& res == Ok::<bool, E>(false)
                    &&& final(self).same_file(old(self))
                    &&& final(self).model() == if quiet {
                        old(self).model()
                    } else {
                        (Model { status: "File unchanged"@, ..old(self).model() })
                    }
                } else {
                    &&& res matches Ok(changed) ==> changed
                    &&& old(self).record is None ==> res is Ok
                    &&& res matches Err(e) ==> reader::fails::<E, F>(read, e)
                    &&& final(self).record == old(self).record
                    &&& final(self).reader.size() == stamp.len
                    &&& final(self).reader.last_stamp() == stamp
                    &&& forall|hay: Seq<u8>| #[trigger]
                        final(self).reader.shows(hay) <==> hay.len() == stamp.len && reader::reads::<
                            E,
                            F,
                        >(read, hay)
                    &&& forall|hay: Seq<u8>| #[trigger]
                        final(self).sees(hay) ==> (res is Ok ==> final(self).model()
                            == old(self).model().reloaded(hay))
                },
            },
    {
        let (read, stamp) = match look {
            Ok(found) => found,
            Err(e) => {
                if !quiet {
                    let mut status = "Cannot reread the file: ".to_string();
                    status.append(e.as_str());
                    self.status = status;
                }
                return Ok(false);
            },
        };
        if !self.reader.refresh(read, stamp) {
            if !quiet {
                self.status = "File unchanged".to_string();
            }
            return Ok(false);
        }
        let len: u64 = self.reader.len();
        if self.top > len {
            self.top = len;
        }
        let ghost moved = *self;
        self.settle()?;
        let mut status = "File changed on disk — reloaded, ".to_string();
        text::push_radix(&mut status, len, 10);
        status.append(" bytes");
        self.status = status;
        proof {
            Self::lemma_sees(&moved, self);
        }
        Ok(true)
    }

    /// Look for the next match after the cursor.
    pub fn find_next(&mut self) -> (res: Result<(), E>)
        requires
            old(self).well_formed(),
        ensures
            final(self).same_file(old(self)),
            final(self).well_formed(),
            old(self).needle is None ==> res is Ok && final(self).model() == (Model {
                status: "Nothing to search for yet (7)"@,
                ..old(self).model()
            }),
            forall|hay: Seq<u8>| #[trigger]
                old(self).reader.shows(hay) ==> (res is Ok ==> final(self).model()
                    == old(self).model().find_next(hay)),
            res matches Err(e) ==> old(self).reader.fails_with(e),
    {
        let _plen: usize = match self.needle.as_ref() {
            Some(p) => p.len(),
            None => {
                self.status = "Nothing to search for yet (7)".to_string();
                return Ok(());
            },
        };
        let from: u64 = self.cur.saturating_add(1);
        proof {
            assert forall|hay: Seq<u8>| #[trigger] old(self).reader.shows(hay) implies self.model().run_search(
                hay,
                from as int,
            ) == self.model().find_next(hay) by {
                self.reader.lemma_shows(hay);
                let items = self.needle->0.items();
                assert(items.len() == _plen);
                if from != self.cur + 1 {
                    pattern::lemma_next_match(items, hay, 0, hay.len() as int);
                    pattern::lemma_next_match(items, hay, from as int, hay.len() as int);
                    pattern::lemma_next_match(items, hay, from + 1, hay.len() as int);
                }
            }
        }
        self.run_search(from)
    }

    /// Look for the search pattern from an offset on, and go to what is found.
    /// Past the last match the search wraps around to the start of the file.
    pub fn run_search(&mut self, from: u64) -> (res: Result<(), E>)
        requires
            old(self).well_formed(),
        ensures
            final(self).same_file(old(self)),
            final(self).well_formed(),
            old(self).needle is None ==> res is Ok && final(self).model() == old(self).model(),
            forall|hay: Seq<u8>| #[trigger]
                old(self).reader.shows(hay) ==> (res is Ok ==> final(self).model()
                    == old(self).model().run_search(hay, from as int)),
            res matches Err(e) ==> old(self).reader.fails_with(e),
    {
        let pat = match self.needle.as_ref() {
            Some(p) => p,
            None => return Ok(()),
        };
        let ahead: Option<u64> = self.reader.search(from, pat)?;
        let found: Option<(u64, bool)> = match ahead {
            Some(off) => Some((off, false)),
            // Wrap around to the start, like "continue from the top?".
            None => match self.reader.search(0, pat)? {
                Some(off) => if off < from {
                    Some((off, true))
                } else {
                    None
                },
                None => None,
            },
        };
        proof {
            assert forall|hay: Seq<u8>| #[trigger]
                old(self).reader.shows(hay) implies old(self).sees(hay) by {
                self.reader.lemma_shows(hay);
            }
        }
        match found {
            Some((off, wrapped)) => {
                self.go_to(off)?;
                self.status = if wrapped {
                    at_offset("Wrapped to the start: ", off)
                } else {
                    at_offset("Found at ", off)
                };
            },
            None => {
                self.status = "Not found".to_string();
            },
        }
        Ok(())
    }
}

} // verus!
