# homelab_s3

A small object store: an append-only log with an in-memory index, served over
HTTP/1.1.

`src/` is the library, verified with Verus. It decides and computes; it touches
no file and no socket.

- `store` - records of the log, the index, replay after a restart
- `http` - heads and bodies of requests and responses, paths
- `server` - one connection as a state machine
- `client` - requests to send, and what the answers mean
- `metrics`, `bench` - statistics, options, keys and units of the benchmark
- `text` - characters, lines and decimal numbers
- `*_laws` - what holds over any run: what a read gives back of a write, what a
  restart restores, what client and server understand of each other

`app/` is the program around it: files, sockets, threads, and printing.
`tests/` runs the library on concrete values.
