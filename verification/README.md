# adg-xdp

Active Defense Gateway: an XDP packet observer with a userspace daemon that
scores every host's recent behaviour, publishes a trust score and level per
host to a kernel map for an SDN controller, and keeps a flow table and a
communication graph for network-level analysis.

## Layout

- `src/` — the verified library (Verus).
  - `common.rs` — records shared with the kernel program (headers, per-host
    counters, trust-map entry, flow event).
  - `packet.rs` — the per-frame classifier: header decoding from raw bytes,
    the verdict, the flow event for TCP control packets, and the counter
    updates of the per-host maps.
  - `profiler.rs`, `trust.rs` — behavioural classification of a host's
    counters and the trust score derived from it.
  - `window.rs` — windowed assessment: counter deltas between polls, profile,
    score and trust-map entry of one window.
  - `events.rs` — folding a kernel flow event into the flow table and graph.
  - `network_intelligence/` — the bounded flow table, the per-host flow
    summary, the security graph, and breadth-first, depth-first and
    connected-component traversals.
  - `ordering.rs`, `sorted.rs` — order facts over map keys and sorted
    address vectors used by the proofs.
- `tests/` — executable tests of the library.
- `app/` — the daemon (program loading, kernel maps, perf events, the polling
  loop) and the floating-point parts of the intelligence layer: rates, the
  network risk score, minimum-risk paths, weighted degrees, weighted max-min
  fair allocation and the boot report.

Each public function of the library states its result exactly in its
`ensures`; the properties that span functions (trust recovery after a quiet
window, monotonicity of the classifications and levels, completeness of flow
expiry, uniqueness of the traversal orders, ...) are public proof functions
next to the code they speak of.
