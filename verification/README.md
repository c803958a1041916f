# memdb

A small append-only document store. Every change (insert, update, delete) is
appended to a log file as a checksummed record; a lookup replays the log.

- `src/` is the library, verified with Verus:
  - `document`: documents and their ids;
  - `storage::record`: the record format (CRC-32, operation, id, length, content)
    with its encoder and decoder, and the proof that a record reads back as written;
  - `storage::log`: the file header, reading a whole log body, replaying it, and
    the proofs that records read back in order and that a lookup sees the last write;
  - `storage::checksum`: the call into `crc32fast`;
  - `cli`: what each command asks of the log.
- `app/` is the program: argument parsing with `clap`, the log file, the shell loop.
- `tests/` runs the library on concrete values.
