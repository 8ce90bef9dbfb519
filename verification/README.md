# mnemo

A small Redis-compatible server: the RESP2 wire format, an in-memory
keyspace, and the commands `PING` `ECHO` `SET` `GET` `DEL` `EXISTS` `TYPE`
`MSET` `MGET`. The library under `src/` is verified with Verus; `app/` is the
Tokio TCP server around it.

Layout:

- `src/resp/wire.rs` — the wire format as specification: `Frame`, how a
  buffer is read into one (`read_frame`), how a client command is read
  (`read_command`: arrays of `$` arguments with Redis's limits, or inline
  lines split at spaces, with shell-style quotes, by `split_args`) and how
  a frame is written (`encode_frame`).
- `src/resp/inline.rs` — `split_inline`, the shell-style splitting of an
  inline command line, proved to follow `split_args`.
- `src/resp/parser.rs` — `RespTypes`, `ParseError`, `read_line`, `parse`,
  `parse_command`, each proved to follow `wire`.
- `src/resp/encoder.rs` — `encode`, proved to write `encode_frame`.
- `src/resp/laws.rs` — what reading and writing promise together: every
  transmissible frame reads back from its encoding anywhere in a stream; a
  finished reading never changes when more bytes arrive; an incomplete one
  leaves the cursor where reading can resume; a frame cut short reads as
  `Incomplete`; a command sent as an array of bulk strings reads back as its
  arguments; an inline command reads as the same frame as its RESP array.
- `src/connection.rs` — `serve`: every complete command in a connection's
  buffer is run and answered in order; a protocol error is answered with
  `-ERR Protocol error: ...` and closes the connection.
- `src/store/` — `Db`, the keyspace (a map from text keys to bytes), and
  `RedisValue`, with laws over any run of `set` and `del` calls: a key holds
  its last `set` unless a `del` came after it.
- `src/dispatch.rs` — the commands against the keyspace, specified by
  `dispatch_outcome`, with laws such as `GET` after `SET`, case-insensitive
  names, `DEL` counting each named key once and `EXISTS` counting every
  mention.
- `src/command.rs` — the stateless `PING`/`ECHO` layer.
- `src/text.rs` — decimal numbers on the wire, UTF-8 conversion, comparison.
