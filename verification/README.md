# zhtta

A small multi-threaded web server and its visitor-log analyzer. The decisions they make
are written and proved in Verus; the sockets, files, threads and shell commands are plain
Rust around them.

## Layout

- `src/` — the verified library
  - `bytes`, `text`: byte-string helpers, splitting into pieces and lines, decimal digits
  - `priority`: peer priority classes and the order of queued static-file requests
  - `queue`: the queue of static-file requests; serving takes out a request no other
    queued request outranks
  - `waiting`: the peers whose connections are kept until their queued request is served,
    and how they stay matched with the queue
  - `lru`: the least-recently-used cache of file contents
  - `request`: the request line, path normalization, extensions, and routing
  - `pages`: the fixed texts of the answers
  - `shtml`: server-side includes (`<!--#exec cmd="..." -->`), collected and rendered
  - `server`: the server state and its step function over connection and queue events
  - `countmap`, `analyze`: visits per address and per location, and the report
  - `args`: the server's settings from the command line, read with getopts
- `tests/` — tests of the library on concrete values
- `app/` — the programs: `main.rs` (the server, or the analyzer when invoked as
  `zhttanalyze`) and `zhttanalyze.rs`
