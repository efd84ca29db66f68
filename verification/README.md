# orbit

Runtime-local, fleet-aware primitives for sibling processes on one host: bounded
rings of frames for recent history, a bounded table of leases for current state,
and the layers on top of them. The functions of the library carry contracts, which
Verus proves.

## Layers

| Module | What it holds |
| --- | --- |
| `id`, `node`, `epoch`, `clock`, `text`, `buf`, `error` | identifiers, member slots, time, text and byte buffers |
| `ring` | fixed-capacity rings, cursors and loss accounting, the registry of rings, rings over shared-memory segments |
| `shm` | segment names and the decisions made while a segment is opened |
| `fleet` | one member's handle on its fleet, publishing, reading, heartbeats |
| `orbital` | fixed-length records over a ring |
| `contest` | claims, leases, guards and fencing over the lease table |
| `cache` | key/value facts over one ring |
| `fleet_cache` | a fleet-coherent local cache over a mutation ring and a payload ring |
| `rpc` | requests and replies addressed to members |

A ring is modelled by the log of everything written to it; a fleet by its rings, its
lease table and the identifiers it has minted; a local cache by its entries in order
of use. Contracts speak of these values. What holds across operations is stated by
the proof functions whose names begin with `law_`.

What is taken from outside crates (`bytes`, `dashmap`, `netid64`) and from `std`
stands behind small wrappers in `buf`, `ring::registry`, `id`, `text` and `clock`,
each with the contract that the proofs rely on.

## Processes

The library works on values that one caller owns: an operation that changes the
fleet takes it as `&mut`. What another process may have left in a segment is taken as
it is: a ring attaches to any segment whose header fits, and a lease table works on whatever
its slots hold. The crate under `app/` shares a fleet between threads, maps segments,
joins fleets in shared memory, releases guards that go out of scope and wakes futures.
