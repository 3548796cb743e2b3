# brc

A verified library for aggregating temperature measurements given as lines
`station;value` (values with one decimal, such as `-12.3` or `4.5`).

- `src/record.rs`: the per-station record (name, minimum, maximum, sum and
  count, in tenths of a degree) and its operations.
- `src/measurements.rs`: the table of 15 records, searched by open
  addressing with linear probing from the FNV-1a hash of the name; lookup,
  insertion, merging of tables and sorting.
- `src/table_model.rs`: the table seen as a map from names to statistics,
  its well-formedness, and the proofs that insertion and merging keep it.
- `src/parse.rs`: reading lines (`fast_hash`), whole chunks
  (`parse_chunk`) and cutting an input into chunks at line ends.
- `src/output.rs`: writing values, records and the sorted results.
- `src/generate.rs`: writing random measurement lines.
- `src/stackvec.rs`: a fixed-capacity vector.
- `src/laws.rs`: properties that relate several functions.
- `app/`: the program: memory-mapped input, threads, files, timing.
