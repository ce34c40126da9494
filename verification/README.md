# lilyabc-browser

A lightweight desktop browser/viewer for LilyPond (`.ly`) and ABC (`.abc`) sheet music, with a
core verified in [Verus](https://github.com/verus-lang/verus).

It does not engrave music itself: it shells out to the canonical engravers (`lilypond`,
`abcm2ps`) and displays their rendered output, with background rendering and a content-hash
cache.

## Layout

- `src/`: the verified library.
  - `text`: white space, lines, numbers, UTF-8.
  - `order`: stable sorting by keys.
  - `path`: what is read of file paths.
  - `model`: formats, pages, render output.
  - `index`: the index of a music folder, and of the tunes in ABC files.
  - `lilypond`: the title of a LilyPond source.
  - `tree`: the browsed directory tree.
  - `digest`: content hashes.
  - `engraver`: how the engravers are invoked, and what is made of their SVG output.
  - `worker`: the render queue and its cache.
  - `app`: the state of the browser, as steps between states.
  - `screen`: rows and labels.
- `tests/`: tests of the library.
- `app/`: the desktop program around it: window, threads, processes and files.

## Requirements

At runtime the program invokes `lilypond`, `abcm2ps` and `rsvg-convert`. On Debian/Ubuntu:
`sudo apt install lilypond abcm2ps librsvg2-bin`.

## License

MIT OR Apache-2.0.
