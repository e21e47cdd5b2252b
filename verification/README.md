# rtail

A `tail` utility whose rules are verified with Verus.

- `src/` is the verified library:
  - `cli.rs`: counts such as `+5`, `-3`, `2K` or `1MB` (`parse_number`), the
    legacy `-NUM` shorthand (`preprocess_args`), and the checks that turn
    option values into a `TailConfig` (`config_from_args`).
  - `output.rs`: when file headers are shown, and the header text.
  - `run.rs`: which inputs are read and followed, their names, and what is
    printed before each.
  - `tail/lines.rs`: the backward block scan of a seekable file for its
    last lines (`LineScanner`), the last lines of a stream (`LastLines`),
    lines from a starting line (`LinesFromStart`), and the laws relating
    them.
  - `tail/bytes.rs`: the last bytes of a file or a stream, and bytes from a
    starting byte.
  - `tail/ring.rs`: the ring that keeps the last items of a stream.
  - `tail/follow.rs`: the decisions of follow mode, as a step function per
    check of a file, and the law that a growing file is printed once.
- `app/` is the program: it reads the command line with clap, reads files
  and standard input, writes, sleeps and watches processes, and asks the
  library what to do.
- `tests/` runs the library on concrete inputs.
