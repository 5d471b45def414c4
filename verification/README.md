# dutch_gen

Generates pseudo-Dutch text whose words follow a frequency table, and renders
plain text as a small PDF file. The library is written in Verus: every
executable function carries a contract, and the properties that span several
functions are stated and proved as proof functions.

## Layout

- `src/range.rs`: the `-w`/`-b` count argument (`123` or `10-20`), its parser and
  how a count is picked from a range.
- `src/sampling.rs`: the cumulative frequency table, the binary search that
  places a draw in it, and word sampling.
- `src/text.rs`: generation to a word count, to an exact byte count (a
  character that would straddle the end is replaced by spaces), and paragraph
  by paragraph for an endless stream; the model of the generated text
  (paragraphs of sentences of drawn words) and what the output is of it.
- `src/layout.rs`: paragraph and word splitting, greedy line wrapping to 80
  bytes, pagination to 58 lines.
- `src/cp1252.rs`: Windows-1252 encoding and PDF string escaping.
- `src/pdf.rs`: the PDF object writer, cross-reference table and the whole
  document.
- `src/decimal.rs`, `src/textutil.rs`: decimal rendering and parsing, byte and
  character helpers, UTF-8 character boundaries.
- `src/assets.rs`, `src/cli.rs`: the word database (gzip, line and frequency
  parsing) and the command line.
- `src/external.rs`: the calls into `rand`, `flate2` and `char::to_uppercase`,
  with the contracts that the rest of the library relies on.
- `app/main.rs`: the command-line program (file and terminal I/O).
- `tests/`: tests run against the compiled library.

The program reads its word list from `words.txt.gz` and `freqs.bin.gz` (gzip;
one word per line, and one little-endian `u32` frequency per word), found in
the directory named by `DUTCH_GEN_DATA` or beside the executable.
