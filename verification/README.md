# term-icon

Single-cell (`CELL_WIDTH == 1`) Unicode icons for terminal UIs, and the
measurement pipeline that decides which glyphs may ship: every candidate has to
advance the cursor by exactly one column (Pass 1) and to paint inside its own
cell, visibly (Pass 2), on every platform.

The library is written in Verus. Its contracts are stated over mathematical
models (sequences of characters and reports, pictures as functions from
positions to colors, exact fractions in place of floating point), and its
general properties are public proof functions in the `Laws` sections.

## Layout

| Modules | What they hold |
|---|---|
| `text`, `runs`, `sort`, `raster` | characters and numerals, runs of flags, stable ordering, images |
| `catalog`, `universal`, `gallery`, `ratatui_ext` | candidates, lookup and search, listings, writing icons into a buffer |
| `render`, `dsr`, `pass1`, `sync`, `sidecar`, `harness` | the terminal session: frames, cursor reports, correlation, page handshakes |
| `geom`, `checks`, `validate`, `schema`, `verdict`, `analyze` | the pixel assertions over captured pages |
| `font5x7`, `grid`, `chart`, `export` | preview charts composed from captured cells |
| `manifest`, `codegen` | the AND gate over the platforms' verdicts, and the source it generates |

`app/` is the command line around it: files, the terminal, PNG decoding, JSON,
and the entropy of a capture, which is floating point. `tests/` runs the library
on concrete values.
