# praxis

The rules of an HTTP and TCP proxy as a verified library: what its filters
decide about requests and bodies, and what a Gateway configuration becomes.

- `json_body`: JSON pointer operations on request and response bodies in one
  pass, without a document tree. `scan` is the grammar, `walk` what a pass means,
  `rewrite` the pass itself, `output` and `undo` what can be said of the written
  document, and `tree` the value that a text stands for.
- `router`, `path_match`: the route table, the choice of a route and cross-origin
  policies.
- `signature`, `url_sign`: signed bodies, links and URLs.
- `sni`: TLS server names, certificates and passthrough routes.
- `gwxds`: Gateway API resources, and the listeners, routes and clusters that
  they become.
- `streaming`, `agentgateway`, `server`: the decisions of the benchmark tools and
  of the server around their sockets and processes.

Contracts speak of sequences, maps and integers; the `law_` proof functions state
what holds of several functions together. Calls into other crates (`serde_json`,
`regex`, `hmac`, `base64`, `http`, `percent-encoding`, `subtle`) stand in small
functions marked `external_body`, whose comments say what is taken for granted.

`app/` is the program around the library: sockets, files, configuration files and
the conversion of their values. `tests/` runs the library with the real crates.
