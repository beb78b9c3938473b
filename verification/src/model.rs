//! The state of the viewer as a mathematical value, and what each operation
//! makes of it.

use crate::encoding::Encoding;
use crate::pattern;
use crate::pattern::Pattern;
use crate::rows;
use crate::rows::Shape;
use crate::text;
use crate::view;
use crate::view::Mode;
use vstd::prelude::*;

verus! {

/// What a pattern is: the bytes it looks for and the text it was typed as.
#[verifier::ext_equal]
pub struct PatternModel {
    pub items: Seq<Option<u8>>,
    pub text: Seq<char>,
}

/// The pattern in a slot that may be empty.
pub open spec fn pattern_model(slot: Option<Pattern>) -> Option<PatternModel> {
    match slot {
        Some(p) => Some(PatternModel { items: p.items(), text: p.text() }),
        None => None,
    }
}

/// What the user is typing into.
pub enum InputModel {
    Normal,
    Goto(Seq<char>),
    Search(Seq<char>),
    Record(Seq<char>),
}

/// The state of the viewer.
#[verifier::ext_equal]
pub struct Model {
    pub mode: Mode,
    pub enc: Encoding,
    pub top: int,
    pub align: int,
    pub cur: int,
    pub hoff: int,
    pub held: bool,
    pub wrap: bool,
    pub fixed_bpl: Option<int>,
    pub fit_bpl: int,
    pub input: InputModel,
    pub status: Seq<char>,
    pub needle: Option<PatternModel>,
    pub record: Option<PatternModel>,
    pub highlight: bool,
    pub rows: int,
    pub bpl: int,
}

/// The pattern re-encoded for a code page: the new bytes, or the old ones when
/// the text does not exist there.
pub open spec fn reencoded(slot: Option<PatternModel>, enc: Encoding) -> Option<PatternModel> {
    match slot {
        None => None,
        Some(p) => match pattern::parsed(p.text, enc) {
            Ok(items) => Some(PatternModel { items, text: p.text }),
            Err(_) => Some(p),
        },
    }
}

/// The status line after a pattern was re-encoded: it stays as it is, or says
/// why the pattern no longer follows the text.
pub open spec fn reencode_status(
    slot: Option<PatternModel>,
    enc: Encoding,
    status: Seq<char>,
) -> Seq<char> {
    match slot {
        None => status,
        Some(p) => match pattern::parsed(p.text, enc) {
            Ok(_) => status,
            Err(e) => e.message_text() + " — pattern left as it was"@,
        },
    }
}

/// An offset the way the status line shows it.
pub open spec fn offset_text(off: int) -> Seq<char> {
    "0x"@ + text::upper_hex(off)
}

impl Model {
    /// Bytes per row.
    pub open spec fn row_bytes(self) -> int {
        if self.bpl >= 1 {
            self.bpl
        } else {
            1
        }
    }

    /// What the rows of a file depend on.
    pub open spec fn shape(self, hay: Seq<u8>) -> Shape {
        Shape {
            hay,
            record: match self.record {
                Some(p) => Some(p.items),
                None => None,
            },
            wrap: self.wrap,
            bpl: self.row_bytes(),
            align: self.align,
            rows: self.rows,
        }
    }

    /// The cursor pulled inside the file and the view brought to it, with the
    /// row of a long record scrolled sideways as far as it takes.
    pub open spec fn ensure_visible(self, hay: Seq<u8>) -> Model {
        let shape = self.shape(hay);
        let cur = rows::least(self.cur, rows::above(hay.len() as int, 1));
        Model {
            cur,
            top: shape.follow(shape.clamp_top(self.top), cur, 3),
            hoff: shape.fix_hoff(cur, self.hoff),
            held: false,
            ..self
        }
    }

    /// Does a sideways scroll set by hand still stand? It does until the
    /// cursor moves, as long as there are records on a single line.
    pub open spec fn holds_scroll(self, hay: Seq<u8>) -> bool {
        &&& self.held
        &&& self.record is Some
        &&& !self.wrap
        &&& self.cur <= rows::above(hay.len() as int, 1)
    }

    /// The view settled although the cursor did not move: as when it did, but
    /// for a sideways scroll set by hand, which stays as far as the cursor's row
    /// reaches.
    pub open spec fn settle(self, hay: Seq<u8>) -> Model {
        if self.holds_scroll(hay) {
            Model {
                hoff: rows::least(self.hoff, self.shape(hay).most_hoff(self.cur)),
                held: true,
                ..self.ensure_visible(hay)
            }
        } else {
            self.ensure_visible(hay)
        }
    }

    /// The cursor moved by bytes, the view following it.
    pub open spec fn move_cursor(self, hay: Seq<u8>, delta: int) -> Model {
        let cur = if self.cur + delta < 0 {
            0
        } else {
            self.cur + delta
        };
        Model { cur, ..self }.ensure_visible(hay)
    }

    /// The cursor moved by rows, the view left alone.
    pub open spec fn walk_cursor(self, hay: Seq<u8>, n: int, down: bool) -> Model {
        Model { cur: self.shape(hay).walk(self.cur, n, down), ..self }
    }

    /// The view moved by rows, the cursor left alone.
    pub open spec fn scroll_rows(self, hay: Seq<u8>, n: int, down: bool) -> Model {
        Model { top: self.shape(hay).scroll(self.top, n, down), ..self }
    }

    /// The cursor moved by rows, the view following it.
    pub open spec fn step_rows(self, hay: Seq<u8>, n: int, down: bool) -> Model {
        self.walk_cursor(hay, n, down).ensure_visible(hay)
    }

    /// The cursor and the view moved by as many rows.
    pub open spec fn page_rows(self, hay: Seq<u8>, n: int, down: bool) -> Model {
        self.walk_cursor(hay, n, down).scroll_rows(hay, n, down).ensure_visible(hay)
    }

    /// The cursor at the start or the end of its row.
    pub open spec fn go_row_edge(self, hay: Seq<u8>, end: bool) -> Model {
        let row = self.shape(hay).row_at(self.cur);
        Model {
            cur: if end {
                row.last()
            } else {
                row.start
            },
            ..self
        }.ensure_visible(hay)
    }

    /// The cursor at an offset.
    pub open spec fn go_to(self, hay: Seq<u8>, off: int) -> Model {
        Model { cur: off, ..self }.ensure_visible(hay)
    }

    /// The cursor at the end of the file, a screen of rows above it.
    pub open spec fn go_end(self, hay: Seq<u8>) -> Model {
        let cur = rows::above(hay.len() as int, 1);
        Model { cur, top: self.shape(hay).row_at(cur).start, ..self }.scroll_rows(
            hay,
            rows::above(self.rows, 1),
            false,
        ).ensure_visible(hay)
    }

    /// The byte grid slid sideways by one byte; with records on a single line,
    /// the records scrolled sideways instead, past a cursor that stays and no
    /// further than the end of its record.
    pub open spec fn shift_grid(self, hay: Seq<u8>, right: bool) -> Model {
        let bpl = self.row_bytes();
        if self.record is Some {
            if self.wrap {
                Model {
                    status: "Wrapped records have no sideways scroll — turn wrap off (9)"@,
                    ..self
                }
            } else {
                let hoff = if right {
                    self.hoff + 1
                } else {
                    rows::above(self.hoff, 1)
                };
                Model {
                    hoff: rows::least(hoff, self.shape(hay).most_hoff(self.cur)),
                    held: true,
                    ..self
                }
            }
        } else {
            let slid = Model {
                align: if right {
                    (self.align + 1) % bpl
                } else {
                    (self.align + bpl - 1) % bpl
                },
                ..self
            };
            let near = if right {
                self.top + 1
            } else {
                rows::above(self.top, 1)
            };
            // Settle the view back onto a real row start, so every line moves
            // by the same byte.
            let top = slid.shape(hay).row_at(near).start;
            Model {
                top,
                cur: if self.cur >= top {
                    self.cur
                } else {
                    top
                },
                ..slid
            }.ensure_visible(hay)
        }
    }

    /// The data columns made narrower or wider by one step.
    pub open spec fn resize_line(self, wider: bool) -> Model {
        if self.mode == Mode::Text {
            Model { status: "Line width is for the byte modes (1, 2)"@, ..self }
        } else {
            let min = view::narrowest(self.mode);
            let step = view::width_step(self.mode);
            let want = if wider {
                rows::least(self.bpl + step, usize::MAX as int)
            } else {
                rows::above(self.bpl, step)
            };
            let most = if self.fit_bpl >= min {
                self.fit_bpl
            } else {
                min
            };
            let got = view::between(want, min, most);
            Model {
                fixed_bpl: Some(got),
                status: text::decimal(got) + if got == self.fit_bpl {
                    " bytes per line — the whole window"@
                } else {
                    " bytes per line"@
                },
                ..self
            }
        }
    }

    /// Wrapping of long records switched over.
    pub open spec fn toggle_wrap(self) -> Model {
        let wrap = !self.wrap;
        Model {
            wrap,
            hoff: if wrap {
                0
            } else {
                self.hoff
            },
            held: false,
            status: if wrap {
                if self.record is Some {
                    "Records wrap onto as many lines as they need"@
                } else {
                    "Wrap on — applies once a record pattern is set (6)"@
                }
            } else {
                if self.record is Some {
                    "One line per record; walk the cursor right to see the rest"@
                } else {
                    "Wrap off — applies once a record pattern is set (6)"@
                }
            },
            ..self
        }
    }

    /// The code page switched. Patterns keep the text they were typed as, so
    /// they are re-encoded.
    pub open spec fn set_encoding(self, enc: Encoding) -> Model {
        let status = "Encoding: "@ + enc.name_text();
        Model {
            enc,
            needle: reencoded(self.needle, enc),
            record: reencoded(self.record, enc),
            status: reencode_status(
                self.record,
                enc,
                reencode_status(self.needle, enc, status),
            ),
            ..self
        }
    }

    /// The search pattern looked for from an offset on, and from the start of
    /// the file up to it when there is nothing.
    pub open spec fn run_search(self, hay: Seq<u8>, from: int) -> Model {
        match self.needle {
            None => self,
            Some(p) => {
                let len = hay.len() as int;
                match pattern::next_match(p.items, hay, from, len) {
                    Some(off) => Model {
                        status: "Found at "@ + offset_text(off),
                        ..self.go_to(hay, off)
                    },
                    None => match pattern::next_match(p.items, hay, 0, len) {
                        Some(off) => if off < from {
                            Model {
                                status: "Wrapped to the start: "@ + offset_text(off),
                                ..self.go_to(hay, off)
                            }
                        } else {
                            Model { status: "Not found"@, ..self }
                        },
                        None => Model { status: "Not found"@, ..self },
                    },
                }
            },
        }
    }

    /// The next match after the cursor.
    pub open spec fn find_next(self, hay: Seq<u8>) -> Model {
        if self.needle is None {
            Model { status: "Nothing to search for yet (7)"@, ..self }
        } else {
            self.run_search(hay, self.cur + 1)
        }
    }

    /// The file found changed: `hay` is what it holds now.
    pub open spec fn reloaded(self, hay: Seq<u8>) -> Model {
        let len = hay.len() as int;
        Model {
            status: "File changed on disk — reloaded, "@ + text::decimal(len) + " bytes"@,
            ..Model { top: rows::least(self.top, len), ..self }.settle(hay)
        }
    }
}

} // verus!
