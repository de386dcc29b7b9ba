# Recolor

Recolor arranges short audio and video clips along the notes of a MIDI file:
each note is sounded by the clip nearest to it in pitch.

## Layout

- `src/` — the library, verified with Verus.
  - `midi/smf.rs` — a Standard MIDI File as plain values, read through `midly`.
  - `midi/parser.rs` — tracks and notes of a file, timed by its tempo map.
  - `midi/single_pass.rs` — the same tracks and notes, timed in one pass by
    the tempo last read.
  - `midi/pitch.rs` — note names ("C#4") and MIDI keys, both ways.
  - `midi/model.rs` — the parsed file: tracks, notes, tempo, time unit.
  - `sample/` — clips, the library that holds them, and which files are media.
  - `arranger/` — where clips are placed and how clips are chosen for notes.
  - `project.rs` — a MIDI file, a library and an arrangement together.
  - `models.rs`, `ui/` — plain values the user interface shows and reports.
- `app/` — the desktop program (egui): windows, file dialogs, disk access.
- `tests/` — tests of the library.

Times are exact integers: a time `t` of a file with `ticks_per_beat` ticks per
beat stands for `t / (ticks_per_beat * 1_000_000)` seconds, and tempos are in
microseconds per beat.
