# sedsnet

A library for boards that exchange telemetry over links: serial lines, radios, buses. Boards find
out about one another, route packets to the endpoints that want them, send again what is lost, and
agree on addresses, values and the time.

Everything in `src/` is verified with Verus: each public function states in its contract what it
returns and what it changes, and the laws of the library stand beside the functions as public proof
functions named `lemma_...`.

## Layout

| Part | Modules |
| --- | --- |
| What packets are and how they are written | `meta`, `definition`, `schema`, `table`, `registry`, `packet`, `text`, `wire_format`, `codec`, `varint`, `rle`, `endpoint_set`, `hash`, `crc32`, `error` |
| How a router decides | `router`, `ingress`, `egress`, `jobs`, `queue`, `recent`, `reliable`, `routes`, `presence`, `topology`, `discovery`, `pump`, `assoc` |
| What goes over a link | `transport`, `compact`, `chunks`, `e2e`, `capacity`, `stats` |
| What boards do for one another | `address`, `p2p`, `timesync`, `timekeeper`, `variables`, `ledger`, `receipt`, `inquiry` |
| A board as a whole | `station`, `exchange`, `duties`, `intake`, `report` |
| Two boards that meet | `encounter`, `meeting`, `brevity` |
| Definitions and helpers that networks share | `common` |

`station::Station` is where to start: it holds a router, what is known of its links and of other
boards, and its methods in `intake`, `exchange`, `duties`, `receipt` and `inquiry` take what comes and decide what is to
be done. The jobs that come of it are had from `Router::next_job` and handed back to
`Router::finish_job`; the library itself calls nobody and reads no clock.

`app/` is ordinary Rust around the library: it reads the clock, holds the callbacks of a program,
does the jobs, has payloads locked and unlocked, and deals in floating-point numbers.

`tests/` runs the compiled library: `network.rs` puts whole networks together, `laws.rs` checks the
laws and the limits on chosen values.
