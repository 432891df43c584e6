# rind

`rind` is a small init system built around *flows*: states and signals with
typed payloads that start and stop services, branch services per payload,
reach external programs through transports and persist across restarts.

## Layout

- `src/` — the verified library (Verus). Every function carries a contract:
  - `flow`, `json`, `triggers` — payloads, the JSON model, matching rules,
    branch keys and the merging of JSON branches;
  - `store`, `keyed`, `units`, `name` — loaded units, enabled units and their
    persistence in the `active` state, set states;
  - `engine` — the steps of setting and removing states (branch bookkeeping,
    dependent states, activation on none);
  - `change` — the guard that keeps one flow change from re-entering itself,
    and the first decision of setting a state;
  - `supervise`, `services`, `order` — which services start or stop on a flow
    change, dependency order, exit handling, branch instances;
  - `transport` — transport messages and when transports are set up;
  - `daemon` — the replies of the control daemon;
  - `logger`, `common` — the log record format and segment names, configuration
    defaults;
  - `login`, `text` — session parameters of the login programs, text helpers.
- `app/` — the programs around it: the init process (process spawning, signals,
  mounts, the supervisor loop, the flow driver, transports' I/O, the daemon
  socket, the logger thread), the `rind` client and the demo programs.
- `tests/` — tests of the library.
