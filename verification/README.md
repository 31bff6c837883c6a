# shell_mon

A real-time socket monitor for the terminal, over the `ss` command: TCP/UDP
(and UNIX) sockets, their states and queues, the owning process, trust zones
of the addresses, exposed services, connections coming in from the LAN and
connections opened by browser processes. It also writes a log of defensive
events, sends desktop notifications and prints a triage report (`--triage`).

The logic is a library verified with Verus; the program around it runs the
commands, reads `/proc`, draws the interface and talks to the desktop.

## Layout

- `src/` — the verified library, each function with its contract:
  - `text` — characters, words, lines, numbers: the parsing toolkit;
  - `analysis` — trust zones of addresses, the walk up the process tree,
    browser detection;
  - `socket` — parsing of `ss -tuanpH` and the summary counts;
  - `netcfg` — gateways, DNS servers (with the hijack check), neighbours,
    firewall state;
  - `rdns` — brands from PTR names and the reverse-DNS cache;
  - `events` — the diff of listeners and LAN connections between two looks;
  - `notify` — which notifications are sent (no repeats within 30 s);
  - `procinfo` — `/proc/<pid>` files: I/O, CPU, memory, command line;
  - `app` — the monitor's state: filtering, ordering, selection, refresh,
    highlights, exposure debounce, keys;
  - `triage` — the sorting of the report;
  - `palette` — colours of states and zones;
  - `keyed` — small association lists keyed by strings.
- `app/` — the program: arguments, commands and files, threads, the
  terminal interface (ratatui), the report.
- `tests/` — tests of the library.
