# kairos

An inference router in front of a fleet of LLM engines, with its decisions
verified by Verus.

- `src/` — the verified library:
  - `metrics_text` reads the running/waiting gauges out of an engine's
    `/metrics` text;
  - `ranking` orders the fleet (marked best engine first, then by load,
    stably), leaving out engines the scraper marked down, and picks the
    best engine after a scrape;
  - `status` builds the fleet status snapshot;
  - `proxy` is the fallback chain that forwards a completion request from one
    engine to the next, and the relay of a streamed answer;
  - `config` parses the comma-separated engine list;
  - `state` holds the shared state and applies a round of scraping to it.
- `app/` — the HTTP server (axum), the HTTP client calls (reqwest), timers
  (tokio), logging, the serde forms of the API, and the floating-point load
  scores, which the library sees as integer keys that order the same way.
- `tests/` — tests of the library.
