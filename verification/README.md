# wiredock

An interactive tool to exercise software over TCP and Unix-domain sockets:
open listeners and clients, send raw hex payloads, watch what comes back,
label connections, and tear everything down cleanly.

## Layout

- `src/` — the library, verified with Verus:
  - `id`, `token`: connection identifiers, how they are written and how a
    typed token is read back as one;
  - `registry`: the table of servers and streams, labels, collision
    naming of accepted connections, closing and shutdown;
  - `status`: the `status` listing;
  - `commands`, `runtime`: what the registry decides for a user command, a
    network event or an accepted connection;
  - `parser`, `args`, `hex`: the command language, the command line, hex
    payloads;
  - `laws`: properties that span several operations.
- `app/` — the program: tokio transports, the registry task that performs
  the I/O the registry plans, the display task and the reedline prompt.
- `tests/` — tests of the library on concrete values.
