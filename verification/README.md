# vecmath-cli

A command-line tool for vector math (arithmetic, algebra, Bezier
interpolation, 4x4 transforms, batch processing and statistics over JSONL,
CSV and binary vector files), built around a library verified with Verus.

## Layout

- `src/` — the verified library, each function with its contract. It
  holds the logic that does not compute with floating-point values:
  - `error` — the error type.
  - `vector` — IEEE-754 classification of components (by bit pattern),
    vector validation, dimension and divisor checks.
  - `algebra` — norm, distance and angle options; the pairs visited by the
    pairwise operations; the cross product's dimension check.
  - `interpolation` — Bezier curve kinds, control-point counts, the checks
    of sampling requests and of operand dimensions.
  - `io` — file formats and how they are chosen from names and paths.
  - `binary` — the binary vector file format: encoding, decoding, and the
    proof that decoding gives back what was encoded.
  - `text` — number rendering, the splitting of command-line text into
    the tokens of a vector and the choice among its readings, and the record
    lines of a JSONL file.
  - `table` — CSV files through the `csv` crate: the trimmed fields of a
    file's rows, and the bytes written for rows of fields.
  - `stats` — which values statistics are computed over.
  - `commands` — the decisions of the command handlers (operand pairing,
    required inputs, matrix shapes, worker count).
  - `cli` — the command-line choices and their conversions.
- `app/` — the program: argument parsing (clap), file I/O, JSON records
  (serde), parallel execution (rayon), number parsing and
  all floating-point computation, which Verus cannot verify.
- `tests/` — tests of the library.

Floating-point values cross into the library as their bit patterns
(`f64::to_bits`), which is all the checks there read.
