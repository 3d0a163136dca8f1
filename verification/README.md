# rsync-rs

A file transfer program that speaks the rsync protocol, built around a library
whose logic is verified with Verus.

- `src/` is the library. Byte formats (`io`, `flist`, `delta`, `session`,
  `batch`), checksums (`checksum`), the block matching and the token streams
  (`delta`), filter rules (`filter`), options (`options`, `options_server`,
  `client`, `server`), the steps of a session (`setup`, `pipeline`,
  `transport`, `daemon`) and what is shown to people (`listing`, `report`,
  `util`, `progress`). Readers and writers work on bytes in memory; sessions
  are state machines that take bytes or lines and say what to do next.
- `app/` is the program: the command line, files, processes and sockets.
- `tests/` runs the library on concrete values.

Laws that span functions are public proof functions: what is written is read
back (`flist/laws.rs`, `delta/token.rs`, `session.rs`, `batch.rs`), a file that
is sent is rebuilt (`pipeline/laws.rs`, `pipeline/deflated.rs`), both sides agree
on their terms (`setup.rs`), the far end reads what the near end was asked for
(`options_laws.rs`), a stream may be cut into frames anywhere
(`io/multiplex.rs`), and a directory is listed before all that is below it
(`flist/sort.rs`).
