# dexscreen_paid_notifier

Watches new pump.fun trades (over the pump.fun websocket feed) and the
dexscreener pump.fun listing pages, and reports each token whose dexscreener
token profile has been paid for in the last five minutes.

## Layout

- `src/` is the library, verified with Verus:
  - `scan.rs`: byte search, UTF-8 boundaries, unsigned decimal numbers;
  - `field.rs`: reading a field's text out of a JSON fragment by scanning;
  - `json.rs`: a parsed JSON document as a flat node sequence (parsed by
    simd-json) and the lookups made in it;
  - `pumpfun.rs`: trade messages of the feed, their fields, frame handling;
  - `dexscreen.rs`: pair listings, order responses and whether a token
    profile is paid, the links that are fetched;
  - `config.rs`: the settings, read from a JSON object;
  - `checker.rs`: the bookkeeping of the paid checks (seen tokens, turns
    over checkers and proxies, recently paid tokens and their cooldown);
  - `common.rs`: time differences against the system clock.
- `app/` is the program around it: configuration file, HTTP requests,
  the websocket connection, the tasks and their channels, the market caps
  (floating point) and the printed notifications.
- `tests/` exercises the library on concrete inputs.

The configuration is read from the file named by `NOTIFIER_CONFIG`
(default `config.json`): a JSON object with `pumpfun_cookie`,
`dexscreen_cookie`, `proxies`, `checkers_count`, `dexscreen_fetch_filters`,
`dexscreen_fetch_max_pages` and `dexscreen_fetch_timeout`.
