# pidjezdy

Actionable PID (Prague public transport) departure information for the
terminal. The library in `src/` holds the program's decisions, each with a
contract proved by Verus; `app/` is the command-line program around it.

## Library modules

- `text`, `time`: trimming, decimal rendering, UTC instants.
- `config`, `validation`: the configuration, its normalization and every
  validation error in declaration order.
- `departure`, `selection`, `selection_laws`: matching departures to boarding
  points, reachability, de-duplication of trips, chronological ranking, quota
  reservations in rounds, the global limit and cancellation notes; the
  properties that every selection has.
- `request`, `response`, `body`: the departure-board request and its query,
  normalization of provider records, gzip detection, size limits and error
  body previews.
- `query`: the request derived from a configuration and the decisions taken
  once live or cached departures are at hand.
- `presentation`: countdown, delay and stale-age labels and the aligned text
  layout.
- `cli`, `report`, `cache`: the endpoint override, the `--limit` argument,
  failure kinds, error reports, configuration and cache paths, and which
  cached snapshot may stand in for a failed request.

## Program

`app/main.rs` parses arguments, reads the configuration file (TOML), talks to
the endpoint over HTTP, reads and writes the cache file and prints text or
JSON; it converts between its serializable copies of the library's types and
the library's own.
