//! Ping and traceroute logic: ICMP echo packets, the Internet checksum,
//! reply classification, hop-by-hop trace decisions and round-trip statistics.

pub mod icmp;
pub mod stats;
pub mod probe;
