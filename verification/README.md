# treemux

A request router on a compressed tree of path patterns, verified with Verus.

A pattern is static text in which a path segment may be a wildcard (`:name`), which matches one
segment, and the last segment a catch-all (`*name`), which matches the whole rest of the path. Where
several patterns match a path, static text goes before wildcards and wildcards before catch-alls. A
backslash in front of `:`, `*` or another backslash at the start of a segment makes it an ordinary
character.

## Layout

- `src/model.rs`: the tree as a mathematical value, how a pattern is entered and a path looked up
- `src/tree.rs`: `Node`, the tree in memory
- `src/graft.rs`: how one tree is attached below a path of another and made one with what is there
- `src/shape.rs`, `src/children.rs`, `src/count.rs`: what every operation keeps
- `src/routes.rs`, `src/lookup.rs`, `src/laws.rs`, `src/history.rs`, `src/graft_laws.rs`: the tree as a
  table of routes, which of the matching routes is found, and what registering and attaching does to
  that
- `src/builder.rs`, `src/layered.rs`, `src/mux.rs`, `src/mux_laws.rs`: the router, its settings, its
  middlewares and its answers
- `src/params.rs`, `src/method.rs`, `src/text.rs`, `src/decode.rs`, `src/escape.rs`, `src/dump.rs`,
  `src/middleware.rs`, `src/exact.rs`: parts
- `app/`: the router as an HTTP service

## What is not proved

Four calls are believed: `Arc::clone`, percent-decoding by `percent_encoding`, reading a URI by
`hyper::Uri`, and the debug form of a list of strings. Each has a function of its own whose comment
says what is believed of it.
