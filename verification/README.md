# nethop

Combined ping + traceroute with round-trip statistics, over Linux's
unprivileged ICMP "ping socket".

- `src/icmp.rs`: echo request construction, the RFC 1071 Internet checksum,
  ICMP header and IPv4 header-length parsing, with the checksum and
  round-trip laws proved.
- `src/probe.rs`: what a received datagram says (target, hop, nothing) and
  which TTL the hop-by-hop trace probes next.
- `src/stats.rs`: the `Rtt` round-trip time and per-hop statistics
  (sent, received, min, mean, max).
- `app/main.rs`: the command line, the socket, timing, printing and the
  loss percentage (floating point).
