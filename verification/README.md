# submillisecond

A web framework for the lunatic runtime, with its request handling logic
verified with Verus.

- `src/` is the verified library:
  - `router/`: the radix tree of routes (`tree`), inserting routes
    (`insert`), matching paths (`lookup`), case-insensitive lookup
    (`fix`), priority checks (`priorities`), what a match means
    (`routes`) and the `Router`;
  - `params`, `reader`, `uri_reader`: route parameters and uri readers;
  - `requests`: reading requests from a connection and framing bodies;
  - `supervisor`: responses on the wire and the connection supervisor's
    decisions;
  - `extract`, `json`, `cookies`, `websocket`, `response`,
    `process_local`: extractors, JSON content types, cookies, websocket
    upgrades, response bodies and process local storage;
  - `text`: byte and string helpers.
- `app/` holds the server: connections, worker processes, and the
  conversions to and from `http`, `serde`, `tungstenite` and `lunatic`.
- `tests/` exercises the library.
