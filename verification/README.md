# flyo

A lightweight self-hosted file server (`webd.conf` compatible) and
`flyo-proxy`, its optional HTTPS / IP-rule / rate-limit front end.

- `src/` is the verified library (Verus): the two configuration parsers,
  permission tags, sessions and cookies, path resolution inside the share
  root, listing filters and ordering, Range handling, the proxy's IP rules
  and fixed-window rate limiter, and the header rules of the proxy. Each
  public function carries a contract; the `law_*` proof functions state the
  properties that span several calls.
- `app/` is the program around it: the axum file server, the hyper proxy,
  TLS setup and all file and network I/O. `flyo-app proxy` runs the proxy,
  any other invocation the file server.
- `tests/` runs the library on concrete inputs.
