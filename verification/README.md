# symcc_fuzzing_helper

A helper that lets the SymCC concolic executor collaborate with the AFL fuzzer:
it picks the most promising test case from AFL's queue, derives the frontier
blocks of its coverage (covered blocks that still branch to an uncovered
block), runs SymCC directed at them, and keeps the generated test cases that
bring new coverage, crash, or time out, together with trimmed dictionaries.

- `src/` is the library, verified with Verus: AFL coverage maps and
  basic-block bitmaps, the frontier and the uncovered edges, test-case scores
  and names, the dictionary format, the statistics, and the parsing of AFL's
  stats and SymCC's solver log. Calls into `bytes`, `regex` and `itertools`
  go through small trusted wrappers whose contracts state what those crates
  do.
- `app/` is the program around it: command-line handling, files,
  directories, and running afl-showmap and SymCC.
- `tests/` runs the library on concrete values.
