# contextra

The core of a context-engineering platform for AI applications, written in
Verus: each function carries a `requires`/`ensures` contract that Verus proves.

- `src/` — the verified library
  - `text` — characters, trimming, splitting and joining of strings
  - `query` — query normalization, tokens, intent, entities and collection routing
  - `expansion` — query expansion with pluggable term providers
  - `json`, `table` — JSON values, payload metadata and key/value tables
  - `memory` — messages, token counting, the sliding context window, sessions
  - `retrieval` — metadata filters, retrieval requests, keyword statistics
  - `providers` — chat types, provider errors, retry and backoff decisions,
    the provider registry, server-sent event decoding, OpenAI wire forms
  - `error` — the library's error kinds
- `tests/` — executable tests of the library
- `app/` — HTTP provider, store-backed services, floating-point ranking,
  serde forms and metrics around the library

Public `law_*` proof functions state properties of the specifications that
the functions' contracts use, such as that the window of a window, under the
same cost of each message, is that window, or that how a stream is cut into
chunks does not change the events decoded from it.
