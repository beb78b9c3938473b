# dosview

A DOS-style file viewer for the terminal: offset column on the left, data on
the right as bits, hex or text, decoded with one of six code pages. A block
cursor marks the byte you are on; lines are a byte grid, or records that break
at every occurrence of a pattern. Files of any size are read a window at a time.

The library under `src/` is written in Verus: what each function returns or
changes is stated in its contract and proved. The program around it, under
`app/`, opens the file, prints what the library lays out and hands key presses
in.

## How it is put together

- `text` — characters, white space, numbers in a radix, padding.
- `encoding` — the code pages, from bytes to cells and back.
- `pattern` — byte patterns with wildcards, and where they match.
- `reader` — the reading window and the search through a file in blocks. The
  file is a function that reads; the contracts hold for every such function, and
  say more where it reads from one and the same file.
- `rows` — how a file is cut into lines, as mathematics.
- `view` — what a byte looks like, how wide a line can be, typed offsets.
- `model` — the state of the viewer as a mathematical value, and what each
  operation makes of it.
- `app` — the viewer and its rows; `nav` — the cursor and the view that follows
  it; `settings` — code page, line width, wrapping, search, rereading; `keys` —
  what the keys do.
- `draw` — pieces of text in their paints; `frame` — the title bar, the lines
  and the bottom bar.
- `laws` — what holds of all of this together: rows tile the file, whatever the
  layout; every frame draws the byte under the cursor, unless records were
  scrolled sideways by hand since the cursor last moved; a page keeps the place
  of the cursor on the screen where there are rows enough; lines end at the
  edge, but for the mark of a cut record in text mode; and more. Each is a proof
  function over the same spec functions that the contracts use.

## What is trusted

Four functions of the standard library (`String::push`, `String::pop`,
`String::clear`, `str::from_utf8`) and the substring search of `memchr` are
taken at their documentation's word. Each stands beside its contract in `text`,
`encoding` and `pattern`.
