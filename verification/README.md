# Network Monitor

A live network dashboard for Linux: bandwidth, latency, sockets, processes, wireless networks,
interfaces, VPN profiles, firewall rules, alerts, reports and a history of readings.

- `src/` is the library `netmon_core`: it reads what the system's tools and files print, keeps
  track of it over time, and decides what is shown. It is written in Verus, and every function
  states and proves what it returns.
- `app/` is the application around it: it runs the commands, reads the files, keeps the history
  in SQLite, fetches what is on the network, computes in floating point, and draws the window
  with Tauri.
- `tests/` runs the library on concrete values.

## The library

| Module | What it is about |
| --- | --- |
| `chars`, `text` | text as sequences of characters: what operations on it mean, and the operations |
| `numbers`, `order`, `table`, `paths` | numbers as text, stable sorting, rows by name, paths as bytes |
| `pattern` | the regular expressions of the `regex` crate |
| `command` | what a command left behind |
| `connections` | sockets, their processes, and their rates from poll to poll |
| `netdev`, `interfaces`, `lan` | traffic counters, interfaces, bonds and neighbours |
| `wifi`, `vpn`, `dns` | what `nmcli` and `resolvectl` print |
| `firewall`, `nethogs`, `packets`, `ports` | scans |
| `alerts`, `monitor` | unusual traffic, alerts, and what the poll loop decides |
| `history`, `reports`, `geoip`, `settings`, `autostart`, `speedtest` | the rest of the application's rules |
| `format`, `pages` | what is shown |

Rates are kept as exact bytes and nanoseconds; only the application divides them. Lines that a
module does not understand are left out, and what is not known is shown as a dash.

## What is not proved

The contracts of these calls into other code are taken as they are stated: `Regex::new` and
`Regex::captures` in `pattern`, `GzDecoder` in `geoip`, `str::to_uppercase` in `format` and
`String::push` in `text`.
