# emacs_rust

The Rust helpers of the Emacs build and runtime, with their logic verified
by Verus:

- `hexl`: the hexadecimal dump converter (`hexl` module: argument parsing,
  encoding and decoding of dump lines, with round-trip lemmas);
- `make-fingerprint`: the SHA-256 build fingerprint (`fingerprint`:
  argument parsing, digest, placeholder search, hex output;
  `fingerprint_source`: reading the placeholder bytes out of
  `lib/fingerprint.c`);
- `update-game-score`: the game score updater (`game_score`: command line,
  privileges, entry text, lock retries; `score_value`: score normalisation;
  `score_order`: the score order, sorting and truncation; `score_file`: the
  score file format; `score_update`: adding a score to a file's text);
- the dynamic loader bridge (`dynlib`: the last-error state handed to C);
- the SQLite bridge (`sqlite`: value tags and storage, open flags, statement
  and connection bookkeeping, the run of `sqlite-execute`).

`src/` is the verified library. `app/` holds the programs and the `extern
"C"` entry points: file and terminal I/O, raw pointers, and the calls into
the system loader and SQLite, each delegating its decisions to the library.
`tests/` runs the library on concrete inputs.
