# ailed-soulsteal

Turns chess game records (PGN) into tokenized training data: filtered,
tokenized against a vocabulary of UCI moves, and written to the indexed
`.somabin` binary format or as a stream of length-prefixed records. It also
converts PGN to UGN, a line-oriented notation, and reads UGN back.

The library in `src/` is verified with Verus:

- `text` — whitespace, trimming, word splitting and number parsing on chars.
- `game` — raw and tokenized games; the PGN and UGN parsers (fed line by
  line), the chess tokenizer, the chess rules from `shakmaty` behind a small
  trusted interface (`board`), PGN-to-UGN conversion; the laws of the UGN
  parser, among them that converted games read back as their UCI moves and
  results (`round_trip`), and the PGN parser's one game per block
  (`pgn_blocks`).
- `filter` — ELO, move-count and result filters and the chain built from
  command-line options.
- `format` — the `.somabin` writer (header, index of data-section offsets,
  data section) and header reader, and stream records.
- `vocab` — the action-to-ID vocabulary: JSON load and save, and generation of
  the full chess UCI vocabulary.
- `pipeline` — the per-game decisions of the tokenize command.

`app/` is the command-line program: argument parsing, files, zstd input and
output.
