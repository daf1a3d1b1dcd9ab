# spiral_down

A countdown display that draws time as a spiral: the current moment at the
centre, the coming days winding outwards, with clock ticks and recurring
interval markers placed along it.

- `src/` is the verified library (Verus):
  - `time`: instants as nanoseconds since the Unix epoch, one-unit spans, and the
    calls into `jiff` for time arithmetic, rounding and formatting;
  - `event`: user events and recurring interval markers;
  - `schedule`: events ordered by instant, with dropping of past events and
    rescheduling of markers;
  - `ticks`: the per-interval runs of clock ticks merged into one stream;
  - `args`: the `title @ timestamp` command-line arguments;
  - `spiral_app`: the window's state.
- `app/` holds the window (`eframe`), the command line (`clap`) and the
  floating-point geometry of the spiral.
- `tests/` exercises the library on concrete values.
