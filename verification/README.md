# openportal

The logic of the OpenPortal agents, verified with Verus: the destination
paths that jobs travel along, the registry of connected agents, the bridge's
request authentication (canonical signing strings, rate limiting, replay
protection, client-address resolution), and the Slurm agent's naming,
command building, login steps (token command, token, API version), node
table, server session state and cache eviction, and the reading of Slurm's
replies: nodes, users, associations, accounts, limits, clusters and job
records, and the classification and clipping of a day's job attempts, the
daily and per-user counts kept from them, the steps of a call to slurmrestd,
the choice of cluster, and the routing of diagnostics requests.

- `src/` is the library. Every function there carries a contract that Verus
  proves; the `law_*` proof functions state properties that span calls.
- `tests/` runs the library on concrete values.
- `app/` is the process around it: configuration, process-wide state,
  running commands, turning serde_json values into the library's `Json`,
  and performing the network steps that the library decides.
