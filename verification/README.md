# trin

The peer bookkeeping and content-fetch logic of a Portal Network history
client, written in Verus: every operation states what it does in a contract,
and Verus proves the code against it.

## Layout

- `src/` — the verified library.
  - `distance`, `enr`: node ids, XOR distances, node records.
  - `peer`, `peers`, `census`: liveness history of peers, the peer table,
    peer selection by distance and radius, record deduplication.
  - `selection`: the stable "closest first" selection all of them use.
  - `id_set`, `coordinator`, `network`: which peer is asked for which
    content, with the limits on attempts and concurrent tasks.
  - `sync`, `commands`, `utils`: block ranges, batches, per-peer content.
  - `protocol`: FINDNODES distances and PING answers.
  - `bootnodes`: the bootstrap node setting and its parsing.
  - `storage`, `tools`, `endpoints`: store settings, the distance column
    update (key file, update value, id ranges), JSON-RPC endpoint names.
  - `block_chain`: the next block to fetch and the parent-hash check of
    the block hash fetcher.
- `tests/` — tests of the library on concrete values.
- `app/` — the program around it: command line, discv5 and uTP I/O, the
  census and fetch loops, reputations (floating point), and the timer
  schedule of liveness checks.
