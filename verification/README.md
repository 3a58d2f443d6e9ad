# teatop

A CPU, memory and GPU monitor for the terminal, whose logic is verified with
Verus.

- `src/` is the library. It holds everything that is decided or computed: the
  command line and the configuration, the hook rules, the metric collectors,
  the keys and the mouse, the tables and every line of every screen. Each
  function states what it returns, and the public proof functions state what
  holds of the program as a whole.
- `app/` is the program around it: it reads `/proc`, `/sys`, the GPU driver and
  the config file, runs hook commands, sends signals and paints the terminal.
- `tests/` runs the library on concrete values.

## The modules of the library

- `num`: double-precision numbers held as bit patterns, with arithmetic,
  decimal text and reading that are proved to round correctly. Rates and
  percentages are exact down to the digit that is shown.
- `chars`, `scan`, `sort`, `text`, `style`: strings, taking text apart, stable
  sorting, layout and ANSI styling.
- `args`, `config`, `hooks`: what a run starts with and the rules that fire.
- `metrics`: one module per collector, fed with the texts and counters that
  were read.
- `ui`: the state of the dashboard (`app`, `controls`), what keys and the mouse
  do (`input`), a refresh (`tick`), the tables, the charts and the screens
  (`render`).

Points in time are nanoseconds on a clock that does not go back; they are
handed in, never read. Sums and products of counters stop at the largest value
that 64 bits hold.
