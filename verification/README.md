# osu_proxy

The verified core of a local HTTPS proxy for the osu! client.

- `src/` (verified with Verus): Bancho packet framing (`packet`), host-name
  replacement inside payloads with string-length repair (`payload`,
  `domain_rewriter`), normalisation of the upstream server name and its host
  table (`upstream`, `text`), `Host` header validation (`host`), supporter
  privilege injection (`supporter`) and the per-request decisions of the proxy
  (`plan`). `byte_buffer` holds the trusted declarations for `bytes::Bytes`.
- `app/`: the async server — sockets, TLS, hyper and reqwest — which asks the
  library for every decision.
- `tests/`: tests of the library on concrete values.
