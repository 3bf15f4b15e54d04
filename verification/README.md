# vps-probe

A probe for virtual servers. An agent on each machine reads the state of its system and reports it to
a dashboard. The dashboard shows a card for each machine, with the traffic that a 3x-ui panel counts for
it. A launcher with a window starts either of them and edits the list of hosts.

The logic is a Verus library in `src/`, with contracts that Verus proves. A few calls into the standard
library are trusted; the comment above each says what is believed of it. What touches the network,
files, processes and the window is in `app/`.

- `src/json.rs`, `src/reader.rs`, `src/roundtrip.rs`: JSON, written and read, and that one undoes the
  other.
- `src/num.rs`, `src/big.rs`, `src/numeral.rs`, `src/shortest.rs`: double-precision numbers as bit
  patterns, computed with and written exactly.
- `src/http.rs`, `src/url.rs`, `src/exchange.rs`, `src/addresses.rs`: HTTP messages and addresses, and
  that each side reads what the other sends.
- `src/panel.rs`: the three calls that read the traffic of a panel.
- `src/metrics.rs`, `src/agent.rs`, `src/normalize.rs`: the state of a machine, its report, and what the
  page shows of it.
- `src/config.rs`, `src/serve.rs`, `src/laws.rs`: the configuration file, the dashboard's answers, and
  what holds of both.
- `src/gui.rs`, `src/sent.rs`, `src/launcher.rs`, `src/form_laws.rs`: the launcher's forms, what it sends,
  and that a host survives the way through a form.
- `src/cli.rs`, `src/web.rs`, `src/clock.rs`: the command line, the page and the time.
- `src/text.rs`, `src/digits.rs`, `src/bytes.rs`, `src/table.rs`: texts, numerals, bytes and tables.
