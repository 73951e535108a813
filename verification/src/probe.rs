//! The decisions of a ping or trace round: what a received datagram says,
//! and which TTL the hop-by-hop trace probes next.

use vstd::prelude::*;
use crate::icmp::{parse_icmp_header, spec_parse_icmp_header, TYPE_ECHO_REPLY, TYPE_TIME_EXCEEDED};

verus! {

/// What a datagram received after a probe says.
#[derive(Debug, Clone, Copy, PartialEq, Eq, Structural)]
pub enum ReplyKind {
    /// An echo reply: the target itself answered.
    Target,
    /// A time-exceeded message: a router on the way answered.
    Hop,
    /// Too short to hold an ICMP header, or of another type: no reply.
    Ignored,
}

/// The kind of a datagram whose ICMP header starts at its first byte.
pub open spec fn spec_classify_reply(buf: Seq<u8>) -> ReplyKind {
    match spec_parse_icmp_header(buf, 0) {
        None => ReplyKind::Ignored,
        Some(header) => {
            if header.icmp_type == TYPE_ECHO_REPLY {
                ReplyKind::Target
            } else if header.icmp_type == TYPE_TIME_EXCEEDED {
                ReplyKind::Hop
            } else {
                ReplyKind::Ignored
            }
        },
    }
}

/// Classifies a datagram read from a ping socket, which delivers the ICMP
/// message with no IP header attached.
pub fn classify_reply(buf: &[u8]) -> (kind: ReplyKind)
    ensures
        kind == spec_classify_reply(buf@),
        buf@.len() < 8 ==> kind == ReplyKind::Ignored,
        buf@.len() >= 8 ==> (kind == ReplyKind::Target <==> buf@[0] == TYPE_ECHO_REPLY),
        buf@.len() >= 8 ==> (kind == ReplyKind::Hop <==> buf@[0] == TYPE_TIME_EXCEEDED),
{
    proof {
        lemma_classify_reply_by_type(buf@);
    }
    match parse_icmp_header(buf, 0) {
        None => ReplyKind::Ignored,
        Some(header) => {
            if header.icmp_type == TYPE_ECHO_REPLY {
                ReplyKind::Target
            } else if header.icmp_type == TYPE_TIME_EXCEEDED {
                ReplyKind::Hop
            } else {
                ReplyKind::Ignored
            }
        },
    }
}

/// A datagram of at least eight bytes is the target's reply exactly when its
/// first byte is type 0 (echo reply) and a hop's exactly when it is type 11
/// (time exceeded); a shorter one is no reply.
pub proof fn lemma_classify_reply_by_type(buf: Seq<u8>)
    ensures
        buf.len() < 8 ==> spec_classify_reply(buf) == ReplyKind::Ignored,
        buf.len() >= 8 ==> (spec_classify_reply(buf) == ReplyKind::Target <==> buf[0]
            == TYPE_ECHO_REPLY),
        buf.len() >= 8 ==> (spec_classify_reply(buf) == ReplyKind::Hop <==> buf[0]
            == TYPE_TIME_EXCEEDED),
{
    crate::icmp::lemma_parse_reads_header(buf, 0);
}

/// What the hop-by-hop trace does next.
#[derive(Debug, Clone, Copy, PartialEq, Eq, Structural)]
pub enum TraceStep {
    /// Send a probe with this TTL.
    Probe(u8),
    /// The trace is over.
    Done,
}

/// The first step of a trace that may go `max_hops` hops far.
pub fn trace_start(max_hops: u8) -> (step: TraceStep)
    ensures
        step == (if max_hops >= 1 {
            TraceStep::Probe(1)
        } else {
            TraceStep::Done
        }),
{
    if max_hops >= 1 {
        TraceStep::Probe(1)
    } else {
        TraceStep::Done
    }
}

/// The step after the probe with TTL `ttl` was answered as `reply` (a probe
/// that timed out counts as `Ignored`): the trace ends once the target itself
/// answered or `max_hops` is reached, and otherwise probes the next TTL.
pub fn trace_next(ttl: u8, max_hops: u8, reply: ReplyKind) -> (step: TraceStep)
    requires
        1 <= ttl <= max_hops,
    ensures
        step == (if reply == ReplyKind::Target || ttl == max_hops {
            TraceStep::Done
        } else {
            TraceStep::Probe((ttl + 1) as u8)
        }),
{
    match reply {
        ReplyKind::Target => TraceStep::Done,
        _ => {
            if ttl == max_hops {
                TraceStep::Done
            } else {
                TraceStep::Probe(ttl + 1)
            }
        },
    }
}

} // verus!
