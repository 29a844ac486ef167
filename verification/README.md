# ppmd_rust

PPMd compression and decompression, verified with Verus.

Two variants of Dmitry Shkarin's PPMd algorithm are provided:

- PPMd7 (PPMdH) with the range coder of the 7z archive format
  (`Ppmd7Encoder`, `Ppmd7Decoder`);
- PPMd8 (PPMdI rev.1) with the carryless range coder of the zip format
  (`Ppmd8Encoder`, `Ppmd8Decoder`).

## Layout

- `src/` is the verified library. The context models (`model7`, `model8`)
  keep their contexts, states and free lists in a byte arena (`arena`) of
  the requested memory size; every access is bounds-checked and every
  arithmetic step is proved free of overflow or uses the wrapping 32-bit
  operation that the format is defined with. The range coders (`range7`,
  `range8`) state exactly how they move their window and which bytes they
  write or read. `laws` and `laws7` hold the properties proved of the
  coders: the nesting of coded windows, the decoder's recovery of each
  coded symbol, the round trip of both range coders over any sequence of
  coded shares (carries included for the 7z coder), the end of every
  normalization well before its bound, and the bounds of the adaptive
  probabilities and the allocator's size classes. The coders keep every
  binary-context probability strictly inside the binary scale.
- The symbol coders state, for the step before any escape, which share the
  encoder codes and which symbol the decoder finds (`first_share7`,
  `first_stage7` and their PPMd8 counterparts), and prove that the decoder's
  threshold picks the symbol that the encoder coded from the same model
  (`law_first_stage_finds_symbol7`, `law_first_symbol_round_trip7`, and for
  fresh coders `law_fresh_first_symbol_round_trip7`; likewise for PPMd8).
  The decoders also state when they give up: the corrupt-data result when
  the count falls past a context's total, the end marker only after the
  suffix links reach the root, and a read error only once the source is
  empty. What the model update after each symbol does is stated only in
  part (the current context, the root context after a restart, the tables
  made at construction), so the round trip over whole streams is checked by
  the tests.
- The coders read and write bytes through the `ByteSource` and `ByteSink`
  traits; `SliceSource` and `VecSink` hold the bytes in memory.
- `app/` puts `std::io::Read` and `std::io::Write` in front of the coders
  and carries the underlying I/O error.
- `tests/` runs the coders on concrete data.
