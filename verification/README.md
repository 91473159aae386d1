# resource_monitor

A distributed resource monitor: agents sample their machine and report to a
manager, which keeps recent reports per machine, serves them over HTTP and
scans the local network to count which roster users are present, per grade.

`src/` is the verified library:

- `state` — the manager's state: per-machine report histories bounded to
  `MAX_HISTORY` reports, the scan settings and the presence snapshot.
- `api` — what each HTTP endpoint answers, apart from the transport.
- `network` — MAC normalization, the MAC/user roster CSV, the Linux ARP table,
  roster users, per-user presence and per-grade counts.
- `presence` — the state kept across network scans (which IPs belong to
  which users, how many scans in a row each failed to answer).
- `route` — the ARP entries of a macOS routing table dump.
- `agent` — the agent's machine id and the user ids of process owners.
- `shared` — the API envelope and the error type.
- `table`, `text` — a string-keyed table and the string operations the rest
  is built on.

`app/` holds the two programs (`manager` and `agent` subcommands): HTTP
serving, sockets, files, the clock and the random machine id, system
measurement and the floating-point averaging. The library takes the time of an
answer and a freshly drawn id as arguments.
