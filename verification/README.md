# ipv6-router-advertisement

Policy-free processing of IPv6 Router Advertisements, verified with Verus.

The kernel receives and validates Router Advertisements, but it does not hand
on most of what they say: DNS servers (RDNSS), search domains (DNSSL),
prefixes, flags and lifetimes. This project parses the messages, keeps track of
every advertised lifetime, aggregates what is valid per interface, and emits an
event with the complete state of a section whenever that section changes. It
configures nothing and decides nothing.

## Layers

```text
message -> router_advertisement -> detector -> lifecycle -> aggregator -> events
                                   \___________ monitor ___________/
```

| Module                 | What it does                                                    |
|------------------------|-----------------------------------------------------------------|
| `router_advertisement` | reads messages and options, builds solicitations                |
| `detector`             | turns one advertisement into the events that it announces       |
| `lifecycle`            | turns lifetimes into deadlines and drops what has lapsed        |
| `aggregator`           | merges what all routers contribute and reports what changed     |
| `monitor`              | runs the layers; says what to emit, to send and to stop         |
| `sync`                 | laws: what is aggregated is exactly what is valid               |
| `repetition`           | laws: what an advertisement changes when it comes again         |
| `wire`                 | laws: what is encoded is what is read                           |
| `merge`, `list`, `table` | lists without duplicates, rankings, insertion-ordered tables  |
| `bytes`, `text`, `address`, `time`, `error`, `control_message` | plain values    |

Everything under `src/` is verified. Contracts speak of mathematical views
(`DeepView`): bytes as sequences, tables as sequences of key and value, states
as plain structures. Functions named `law_...` state what holds of several
operations together.

The one thing that is trusted is how `String::from_utf8_lossy` decodes the
bytes of a domain name (`text`).

`app/` is the asynchronous shell around the library: raw sockets, timers,
background tasks and the event stream.

## Rules

- An event is emitted only when aggregated state changes, and carries the
  complete state of its section. The one exception is the advisory event for a
  prefix that reached its preferred lifetime.
- A router with lifetime zero is withdrawn with everything that it announced,
  and so is a router that expires.
- DNS options replace what the same router advertised before; a zero lifetime
  in one of them withdraws all.
- Prefixes are leases that are refreshed, withdrawn and expire one by one. An
  announcement renews both the valid and the preferred lifetime of its prefix;
  a preferred lifetime of zero is none and leaves an earlier one as it was.
- Every observation is reported by exactly one change of validity.
- DNS servers and search domains with longer lifetimes come first; of equal
  items the first stays.
- Aggregation follows the order in which routers were first seen, so that its
  result is deterministic.
- Malformed options leave an advertisement without options.
