# tcpvisr

TCP flow over time, from a capture: which connections there were, how each went through its
states, and for every segment the bytes in flight, the round trip, the rates, and whether it was a
retransmission or out of order.

The library is written in Verus. Every function states what it returns in `requires` and `ensures`
clauses, and Verus proves it.

- `src/` the library
  - `time`, `seq`, `net`, `endpoint`, `flow`, `segment`, `metric`, `name`: the values everything
    else is made of
  - `link`, `decode`, `dns`, `ingest`, `replay`, `live`: from bytes to segments and names
  - `state`, `conn`, `config`, `index`, `metrics`, `tracker`, `recording`, `retention`, `sort`,
    `timeline`, `passes`: from segments to connections and their series
  - `plot`, `detail`, `inflight`, `rtt`, `throughput`: from series to marks on a graph
  - `service`, `rows`, `transport`, `app`, `keys`, `format`, `view`: the interactive program
  - `report`: what the commands print
- `tests/` its tests
- `app/` the `tcp-visr` program: files, interfaces, the terminal

The functions named `law_..` state what holds of several functions together. What the library
takes from other crates stands behind declarations in `decode`, `dns`, `replay`, `text` and `app`,
each with a comment on what is taken for granted.
