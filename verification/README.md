# pingora-core

The verified core of a proxy server's connection plumbing, in Verus, and the
sockets, streams and TLS objects around it.

- `src/` holds the logic. Every function is verified, but for the few that only
  call into std or another crate; the doc comment of each of these says what is
  claimed of the call.
  - `fds`, `key_codec`, `fd_send`, `fd_recv`: handing the listening sockets of
    one process to the next. Table, wire format, chunking, retries.
  - `idle_conn`, `sweeper`, `idle_stream`: giving up connections on which no
    bytes flow. The state word, its changes, the registries and their sweeps.
  - `alpn`, `client_hello`, `tls_settings`: TLS endpoints. Protocol selection,
    what is kept of a ClientHello, and the settings.
- `app/` performs the actions that the library asks for, with `nix`, `tokio` and
  `openssl`.
- `tests/` runs the library.

Properties that span several functions are the public proof functions whose
names begin with `law_`.
