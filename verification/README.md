# rxdp

**AF_XDP** (XDP socket) helpers for high-performance UDP ingest and egress, with
the protocol and bookkeeping logic verified in Verus.

## The four rings

| Ring         | Producer | Consumer | Meaning                            |
|--------------|----------|----------|------------------------------------|
| `FILL`       | us       | kernel   | "here are empty frames to fill"    |
| `RX`         | kernel   | us       | "here are frames I filled for you" |
| `TX`         | us       | kernel   | "please transmit these frames"     |
| `COMPLETION` | kernel   | us       | "I'm done with these TX frames"    |

**The rule:** every UMEM frame is on at most one ring (or in our hands) at a time.
`src/pools.rs` states it and proves that every step of the socket keeps it.

## Layout

| Path              | What                                                         |
|-------------------|--------------------------------------------------------------|
| `src/packet.rs`   | Ethernet/IPv4/UDP parse and build; parsing undoes building.  |
| `src/checksum.rs` | IPv4 and UDP checksums; what is sent verifies.               |
| `src/addr.rs`     | MAC and IPv4 addresses.                                      |
| `src/mac_text.rs` | MAC addresses as text.                                       |
| `src/ip_text.rs`  | IPv4 addresses as text.                                      |
| `src/debug.rs`    | `Debug` for addresses, over `core::fmt::Formatter`.          |
| `src/config.rs`   | Validated `XdpConfig` and the RX/TX pool split.              |
| `src/pools.rs`    | Model of which frame is where, and its laws.                 |
| `src/socket.rs`   | `XdpSocket`: the decisions of a socket, without system calls.|
| `src/error.rs`    | Error types.                                                 |
| `tests/`          | Tests on concrete values.                                    |
| `app/`            | The transport over `xsk-rs` (Linux only) and two programs.   |

The transport needs `libbpf`, a recent Linux kernel and `CAP_NET_ADMIN`. The
library and its tests need none of these.
