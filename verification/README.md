# aegisec_agent

The decision-making core of the AegiSec host agent, written in Verus with
its behaviour stated in `requires` / `ensures` contracts and proved.

- `src/drs.rs` — the dynamic risk scoring engine: detection heuristics,
  score capping, state transitions, the enumeration velocity window and the
  decay pass, with laws on what scoring and decay keep.
- `src/isolator.rs` — containment planning: the descendants of a process in
  a process table, the order of the stop/kill signals, and the firewall
  rules for a UID or a destination address.
- `src/telemetry.rs` — payloads, heartbeats, channel routing and the batch
  that is flushed at 50 events.
- `src/sensor/` — parsers and state machines behind the process, network
  and file-integrity sensors (netlink proc-connector messages, `/proc`
  status and `/proc/net/tcp` texts).
- `src/config.rs` — thresholds and the fallback configuration.
- `src/text.rs` — string helpers with contracts, shared by the modules above.

`app/` holds the parts that talk to the operating system and the network
(sockets, `/proc` reads, signals, firewall commands, HTTP, YAML, the clock
and the random agent id) and hands
plain values to the library. Scores are counted in thousandths of a point.
