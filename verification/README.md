# dxca

The spot-handling core of a DX-cluster and FT8/FT4 spot aggregator, written
in Verus: every function in `src/` carries a contract that Verus proves.

- `src/` — the verified library: the ADIF and `cty.xml` parsers, the DXCC
  resolver, the per-user worked/confirmed matrix and its award statistics,
  the alert classifier, the WSJT-X wire format, the band plan, the
  DX-cluster line grammar and client session, the telnet login exchange,
  the radio (SmartSDR, TCI) and MQTT/UDP payloads, and the FCC licence
  table. Laws that relate several functions are public proof functions
  named `law_…`.
- `tests/` — tests of the library on concrete values.
- `app/` — the parts that are not proved: sockets, threads, HTTP downloads,
  archives, floating-point frequency text and the solar model.
