# st_click

A YAML-driven MIDI click / polyrhythm generator, verified with Verus.

- `src/` is the verified library. Beat positions and durations are counted
  in ticks of the quarter note (`beat_values::TICKS_PER_BEAT`), so every
  comparison and sum is exact.
  - `beat_values`: note values and tuplets.
  - `note_map`: MIDI Note-On messages and note names (`C-1` … `G9`).
  - `timeline`: the model — note patterns, sorted insertion, and which
    events a transport cycle meets — with the laws proved about it.
  - `sequencer`: `Sequence`, the per-cycle `Scheduler`, and the sequencer's
    bar-boundary bookkeeping (`SequencerState`).
  - `playback`: that bookkeeping folded over a run of switch requests and
    cycles, with the laws of a whole run (a switch lands on the next bar
    line, nothing is rebuilt unless something changes, beat reports go up).
  - `yaml_doc`: the configuration text parsed by `yaml_rust`, its
    sequences (list or `bars`/`notes` form) and note entries.
  - `decimal`: YAML floats (signs, points, exponents, any number of
    digits) read exactly and rounded to the nearest tick.
  - `config`: checking and applying a sequence's note entries.
  - `session`: the session record.
- `app/` is the program around it: command line, reading the configuration and session files,
  JACK output, the st-sync driven audio loop, and the GUI.
- `tests/` exercises the library.
