# sunayama

Sand piling up in the terminal: grains pour from a mouth near the top, slide down
into a 45° pile, and when the pile is full its floor gives way and it sinks, pauses,
and a new round begins. With `--timer <dur>` (`90s`, `25m`, `1h`) the pile fills over
that period instead. `Space` drops more sand; `q`, `Esc` or `Ctrl-C` quits. Colours come
from `~/.config/sunayama/config` (an INI file with a `[color]` section).

## Layout

- `src/` is the library, written in Verus. Every function in it is verified against
  its contract, except three small wrappers around std whose contracts are trusted:
  `String::push`, `std::str::from_utf8`, and `format!("{:?}")` for quoting text in
  complaints.
  - `rng` — the SplitMix64 generator and its draws below a bound.
  - `sand` — the grid: pouring at the mouth, the fall rules, draining, resizing.
  - `cycle` — what the pile wants each tick (the endless round or a timer), and the
    command line.
  - `scene` — one tick of the pile, and painting it into a frame.
  - `palette` — the grain colours and reading them from the config.
  - `term::ini`, `term::color`, `term::frame`, `term::render` — the config format,
    colours and terminal replies, the pixel frame, and the escape sequences that
    bring the screen up to date.
  - `text` — reading numbers and trimming text, as the parsers need.
- `tests/` runs the library on concrete values.
- `app/` is the program around it: arguments, files, the terminal (through
  `crossterm` and `libc`), the clock, and the shares of a full pile and the colour
  blends, which are worked out in floating point.
