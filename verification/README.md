# pjsekai_scores_rs

A Project SEKAI chart library whose logic is proved with Verus: `.sus`
parsing, custom chart JSON conversion, exact (rational) timing, note
linking, and the decisions behind drawing a chart sheet.

## Layout

- `src/` — the verified library.
  - `fraction`, `arith` — rationals in lowest terms over `i64`, with exact
    arithmetic, comparisons, `limit_denominator` and text forms;
    `fraction::closest` and `fraction::order` prove that limiting a
    denominator gives the closest fraction and keeps order.
  - `text`, `pattern` — character-level helpers and the regular
    expressions that lines are matched with.
  - `line`, `meta`, `lyric` — `.sus` lines, chart metadata, lyrics.
  - `notes` — the note arena: taps, directionals, slides, events.
  - `score` — loading a chart, linking notes, the timeline (elapsed time at
    any bar), and the normalized event list; `score::timing` proves that
    elapsed time never decreases along a chart.
  - `score_json` — charts in the custom JSON format, as plain values:
    tick-to-bar conversion, event merging, slide chains and note building.
  - `sheet` — which notes, events and images a column of the drawn sheet
    shows, the columns themselves, and markup escaping.
  - `rebase` — the notes re-emitted when a chart moves to a new timing.
  - `style`, `raster`, `output` — stylesheet values and colors, raster
    output formats and errors, output formats and duration text;
    `output::binary64` holds the `f64` steps of that text exactly in
    integers.
  - `laws` — properties that span several operations.
- `tests/` — tests run against the compiled library.
- `app/` — the command line program: file I/O, JSON reading, and the SVG
  renderer, whose geometry is floating point.
