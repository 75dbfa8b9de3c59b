# rabst

A small BMS (Be-Music Script) rhythm game. The rules of the game live in a
library verified with Verus; a Bevy program around it does the window, the
sound, the files and the clock.

## Layout

- `src/` — the verified library.
  - `bms/text.rs`, `bms/numbers.rs`: UTF-8 slicing, white space and trimming
    as `str` does them, and the number syntaxes the parser reads (decimal,
    hex, base 36, and the decimal text that `f64` accepts).
  - `bms/parser.rs`: BMS text to a chart (`parse`), stated line by line over
    the text's bytes (`spec_parse`).
  - `bms/model.rs`: the chart (`BmsData`, `BmsNote`, `ObjId`) and its model.
  - `bms/timing.rs`: the chart's notes, tempo changes and stops in the order
    they occur (a stable sort by position).
  - `bms/library.rs`: which files are charts, a song entry from a chart, and
    the song list's order by lower-case title.
  - `channels.rs`: channel numbers and the lane of each player channel.
  - `sorting.rs`: what a stable sort is, and the lemmas the sorts use.
  - `game/`: the song-select cursor, judgments and combo, the background
    objects a play cues, grades, and the texts the scenes show.
- `app/` — the Bevy program: scenes, input, audio and images, reading files
  and scanning directories, and the floating-point clock and score.
- `tests/` — tests of the library.
