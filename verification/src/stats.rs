//! Round-trip statistics, including packet loss counts: the core "mtr"
//! numbers computed from a set of per-probe results.

use vstd::prelude::*;

verus! {

/// Nanoseconds in one second.
pub const NANOS_PER_SEC: u128 = 1_000_000_000;

/// The longest round-trip time that can be held: `u64::MAX` seconds and
/// 999 999 999 nanoseconds.
pub const MAX_RTT_NANOS: u128 = 18_446_744_073_709_551_615_999_999_999;

/// A round-trip time with nanosecond resolution, from zero up to
/// `MAX_RTT_NANOS`.
#[derive(Debug, Clone, Copy, PartialEq, Eq, Structural)]
pub struct Rtt {
    nanos: u128,
}

impl Rtt {
    #[verifier::type_invariant]
    spec fn within_range(self) -> bool {
        self.nanos <= MAX_RTT_NANOS
    }

    /// The zero round-trip time.
    pub fn zero() -> (r: Rtt)
        ensures
            r@ == 0,
    {
        Rtt { nanos: 0 }
    }

    /// The round-trip time of `secs` whole seconds and `subsec_nanos`
    /// nanoseconds.
    pub fn from_parts(secs: u64, subsec_nanos: u32) -> (r: Rtt)
        requires
            subsec_nanos < NANOS_PER_SEC,
        ensures
            r@ == secs * NANOS_PER_SEC + subsec_nanos,
    {
        assert(secs * NANOS_PER_SEC <= 18_446_744_073_709_551_615 * NANOS_PER_SEC) by (nonlinear_arith)
            requires
                secs <= 18_446_744_073_709_551_615u64,
        ;
        Rtt { nanos: (secs as u128) * NANOS_PER_SEC + (subsec_nanos as u128) }
    }

    /// The round-trip time of `millis` milliseconds.
    pub fn from_millis(millis: u64) -> (r: Rtt)
        ensures
            r@ == millis * 1_000_000,
    {
        assert(millis * 1_000_000 <= 18_446_744_073_709_551_615 * 1_000_000) by (nonlinear_arith)
            requires
                millis <= 18_446_744_073_709_551_615u64,
        ;
        Rtt { nanos: (millis as u128) * 1_000_000 }
    }

    /// The whole round-trip time in nanoseconds.
    pub fn as_nanos(&self) -> (n: u128)
        ensures
            n == self@,
    {
        self.nanos
    }

    /// The whole seconds of the round-trip time.
    pub fn as_secs(&self) -> (s: u64)
        ensures
            s == self@ / NANOS_PER_SEC as nat,
    {
        proof {
            use_type_invariant(self);
        }
        (self.nanos / NANOS_PER_SEC) as u64
    }

    /// The nanoseconds past the whole seconds of the round-trip time.
    pub fn subsec_nanos(&self) -> (n: u32)
        ensures
            n == self@ % NANOS_PER_SEC as nat,
    {
        (self.nanos % NANOS_PER_SEC) as u32
    }
}

impl View for Rtt {
    type V = nat;

    /// The round-trip time in nanoseconds.
    closed spec fn view(&self) -> nat {
        self.nanos as nat
    }
}

/// Statistics of one hop: probes sent, replies received, and the least,
/// mean and greatest round-trip time over the replies.
#[derive(Debug, Clone, Copy, PartialEq, Eq, Structural)]
pub struct HopStats {
    pub sent: usize,
    pub received: usize,
    pub min: Rtt,
    pub avg: Rtt,
    pub max: Rtt,
}

/// The round-trip times, in nanoseconds and in order, of the probes that got
/// a reply.
pub open spec fn received_rtts(samples: Seq<Option<Rtt>>) -> Seq<nat>
    decreases samples.len(),
{
    if samples.len() == 0 {
        Seq::empty()
    } else {
        let earlier = received_rtts(samples.drop_last());
        match samples.last() {
            Some(r) => earlier.push(r@),
            None => earlier,
        }
    }
}

/// The round-trip time of a sample that got a reply, in nanoseconds.
pub open spec fn reply_rtt() -> spec_fn(Option<Rtt>) -> Option<nat> {
    |x: Option<Rtt>|
        match x {
            Some(r) => Some(r@),
            None => None,
        }
}

/// Whether a sample got a reply.
pub open spec fn is_reply() -> spec_fn(Option<Rtt>) -> bool {
    |x: Option<Rtt>| x is Some
}

/// Addition of naturals, for folds.
pub open spec fn add_nat() -> spec_fn(nat, nat) -> nat {
    |acc: nat, x: nat| acc + x
}

/// The sum of `s`.
pub open spec fn seq_sum(s: Seq<nat>) -> nat
    decreases s.len(),
{
    if s.len() == 0 {
        0
    } else {
        seq_sum(s.drop_last()) + s.last()
    }
}

/// The least element of `s` (0 for an empty `s`).
pub open spec fn seq_min(s: Seq<nat>) -> nat
    decreases s.len(),
{
    if s.len() == 0 {
        0
    } else if s.len() == 1 {
        s[0]
    } else if seq_min(s.drop_last()) <= s.last() {
        seq_min(s.drop_last())
    } else {
        s.last()
    }
}

/// The greatest element of `s` (0 for an empty `s`).
pub open spec fn seq_max(s: Seq<nat>) -> nat
    decreases s.len(),
{
    if s.len() == 0 {
        0
    } else if s.len() == 1 {
        s[0]
    } else if seq_max(s.drop_last()) >= s.last() {
        seq_max(s.drop_last())
    } else {
        s.last()
    }
}

/// What the sum of the received round-trip times is divided by for the
/// mean: their count taken as a 32-bit number.
pub open spec fn avg_divisor(count: nat) -> nat {
    count % 0x1_0000_0000
}

proof fn lemma_received_prefix(samples: Seq<Option<Rtt>>, i: int)
    requires
        0 <= i <= samples.len(),
    ensures
        seq_sum(received_rtts(samples.take(i))) <= seq_sum(received_rtts(samples)),
        received_rtts(samples.take(i)).len() <= i,
    decreases samples.len(),
{
    if i == samples.len() {
        assert(samples.take(i) =~= samples);
        lemma_received_at_most_sent(samples);
    } else {
        assert(samples.take(i) =~= samples.drop_last().take(i));
        lemma_received_prefix(samples.drop_last(), i);
        let earlier = received_rtts(samples.drop_last());
        if let Some(r) = samples.last() {
            assert(earlier.push(r@).drop_last() =~= earlier);
        }
    }
}

/// No more replies are counted than probes were sent.
pub proof fn lemma_received_at_most_sent(samples: Seq<Option<Rtt>>)
    ensures
        received_rtts(samples).len() <= samples.len(),
    decreases samples.len(),
{
    if samples.len() > 0 {
        lemma_received_at_most_sent(samples.drop_last());
    }
}

/// `samples` has one entry per probe sent, `None` for a probe that got no
/// reply at all (real loss, not just "not measured yet").
pub fn compute_hop_stats(samples: &[Option<Rtt>]) -> (stats: HopStats)
    requires
        seq_sum(received_rtts(samples@)) <= MAX_RTT_NANOS,
        received_rtts(samples@).len() == 0 || avg_divisor(received_rtts(samples@).len()) != 0,
    ensures
        stats.sent == samples@.len(),
        stats.received == received_rtts(samples@).len(),
        stats.received <= stats.sent,
        stats.received == 0 ==> stats.min@ == 0 && stats.avg@ == 0 && stats.max@ == 0,
        stats.received > 0 ==> {
            &&& stats.min@ == seq_min(received_rtts(samples@))
            &&& stats.max@ == seq_max(received_rtts(samples@))
            &&& stats.avg@ == seq_sum(received_rtts(samples@)) / avg_divisor(
                received_rtts(samples@).len(),
            )
        },
        stats.received == samples@.filter(is_reply()).len(),
        forall|i: int|
            0 <= i < samples@.len() && samples@[i] is Some ==> stats.min@ <= samples@[i]->0@
                && samples@[i]->0@ <= stats.max@,
        stats.received > 0 ==> some_reply_took(samples@, stats.min@) && some_reply_took(
            samples@,
            stats.max@,
        ),
        stats.received > 0 ==> stats.avg@ == samples@.filter_map(reply_rtt()).fold_left(
            0nat,
            add_nat(),
        ) / avg_divisor(stats.received as nat),
        0 < stats.received < 0x1_0000_0000 ==> stats.avg@ == samples@.filter_map(
            reply_rtt(),
        ).fold_left(0nat, add_nat()) / (stats.received as nat),
{
    let n = samples.len();
    let mut count: usize = 0;
    let mut total: u128 = 0;
    let mut min = Rtt::zero();
    let mut max = Rtt::zero();
    let mut i: usize = 0;
    assert(samples@.take(0) =~= Seq::<Option<Rtt>>::empty());
    while i < n
        invariant
            i <= n,
            n == samples@.len(),
            seq_sum(received_rtts(samples@)) <= MAX_RTT_NANOS,
            count == received_rtts(samples@.take(i as int)).len(),
            count <= i,
            total == seq_sum(received_rtts(samples@.take(i as int))),
            count > 0 ==> min@ == seq_min(received_rtts(samples@.take(i as int))),
            count > 0 ==> max@ == seq_max(received_rtts(samples@.take(i as int))),
            count == 0 ==> min@ == 0 && max@ == 0,
        decreases n - i,
    {
        let ghost before = received_rtts(samples@.take(i as int));
        assert(samples@.take(i + 1).drop_last() =~= samples@.take(i as int));
        proof {
            lemma_received_prefix(samples@, i + 1);
        }
        match samples[i] {
            Some(r) => {
                proof {
                    assert(before.push(r@).drop_last() =~= before);
                }
                total = total + r.nanos;
                if count == 0 || r.nanos < min.nanos {
                    min = r;
                }
                if count == 0 || r.nanos > max.nanos {
                    max = r;
                }
                count = count + 1;
                proof {
                    let after = received_rtts(samples@.take(i + 1));
                    assert(after == before.push(r@));
                    assert(after.drop_last() =~= before);
                    if before.len() == 0 {
                        assert(after.len() == 1);
                    }
                }
            },
            None => {},
        }
        i = i + 1;
    }
    assert(samples@.take(n as int) =~= samples@);
    proof {
        let rs = received_rtts(samples@);
        lemma_received_rtts_are_the_replies(samples@);
        lemma_received_rtts_members(samples@);
        lemma_seq_sum_adds_all(rs);
        if rs.len() > 0 {
            lemma_seq_min_is_least(rs);
            lemma_seq_max_is_greatest(rs);
            assert(forall|i: int|
                0 <= i < samples@.len() && samples@[i] is Some ==> #[trigger] rs.contains(
                    samples@[i]->0@,
                ));
            let kmin = choose|k: int| 0 <= k < rs.len() && rs[k] == seq_min(rs);
            assert(some_reply_took(samples@, rs[kmin]));
            let kmax = choose|k: int| 0 <= k < rs.len() && rs[k] == seq_max(rs);
            assert(some_reply_took(samples@, rs[kmax]));
        }
    }
    if count == 0 {
        return HopStats { sent: n, received: 0, min: Rtt::zero(), avg: Rtt::zero(), max: Rtt::zero() };
    }
    let divisor = #[verifier::truncate] (count as u32);
    assert((count as u32) as u64 == (count as u64) % 0x1_0000_0000) by (bit_vector);
    assert(total / (divisor as u128) <= total) by (nonlinear_arith)
        requires
            divisor >= 1,
    ;
    let avg = Rtt { nanos: total / (divisor as u128) };
    HopStats { sent: n, received: count, min, avg, max }
}


proof fn lemma_sum_bounds(s: Seq<nat>)
    requires
        s.len() > 0,
    ensures
        s.len() * seq_min(s) <= seq_sum(s),
        seq_sum(s) <= s.len() * seq_max(s),
    decreases s.len(),
{
    if s.len() == 1 {
        assert(s.drop_last().len() == 0);
    } else {
        let t = s.drop_last();
        let x = s.last();
        lemma_sum_bounds(t);
        let lo = seq_min(s);
        let hi = seq_max(s);
        let k = t.len();
        assert(k * lo <= k * seq_min(t)) by (nonlinear_arith)
            requires
                lo <= seq_min(t),
        ;
        assert(k * seq_max(t) <= k * hi) by (nonlinear_arith)
            requires
                seq_max(t) <= hi,
        ;
        assert(s.len() * lo == k * lo + lo) by (nonlinear_arith)
            requires
                s.len() == k + 1,
        ;
        assert(s.len() * hi == k * hi + hi) by (nonlinear_arith)
            requires
                s.len() == k + 1,
        ;
    }
}

/// Where the number of replies fits in 32 bits, the mean round-trip time
/// lies between the least and the greatest.
pub proof fn lemma_avg_between_min_and_max(rtts: Seq<nat>)
    requires
        0 < rtts.len() < 0x1_0000_0000,
    ensures
        seq_min(rtts) <= seq_sum(rtts) / avg_divisor(rtts.len()),
        seq_sum(rtts) / avg_divisor(rtts.len()) <= seq_max(rtts),
{
    lemma_sum_bounds(rtts);
    let n = rtts.len();
    assert(avg_divisor(n) == n);
    let lo = seq_min(rtts);
    let hi = seq_max(rtts);
    let total = seq_sum(rtts);
    assert(lo <= total / n) by (nonlinear_arith)
        requires
            n > 0,
            n * lo <= total,
    {
        vstd::arithmetic::div_mod::lemma_div_is_ordered((n * lo) as int, total as int, n as int);
        vstd::arithmetic::div_mod::lemma_div_multiples_vanish(lo as int, n as int);
    }
    assert(total / n <= hi) by (nonlinear_arith)
        requires
            n > 0,
            total <= n * hi,
    {
        vstd::arithmetic::div_mod::lemma_div_is_ordered(total as int, (n * hi) as int, n as int);
        vstd::arithmetic::div_mod::lemma_div_multiples_vanish(hi as int, n as int);
    }
}


/// The replies are exactly the samples that are `Some`, in order, with their
/// round-trip times: as many as there are `Some` samples, none dropped,
/// merged or reordered.
pub proof fn lemma_received_rtts_are_the_replies(samples: Seq<Option<Rtt>>)
    ensures
        received_rtts(samples) == samples.filter_map(reply_rtt()),
        received_rtts(samples).len() == samples.filter(is_reply()).len(),
    decreases samples.len(),
{
    if samples.len() > 0 {
        let rest = samples.drop_last();
        let x = samples.last();
        lemma_received_rtts_are_the_replies(rest);
        assert(samples =~= rest.push(x));
        rest.lemma_filter_push(x, is_reply());
        if let Some(r) = x {
            assert(rest.filter_map(reply_rtt()) + seq![r@] =~= rest.filter_map(reply_rtt()).push(r@));
        }
    }
}

/// Whether some sample got a reply of round-trip time `x` nanoseconds.
pub open spec fn some_reply_took(samples: Seq<Option<Rtt>>, x: nat) -> bool {
    exists|i: int| 0 <= i < samples.len() && samples[i] == Some(rtt_witness(samples, i)) && rtt_witness(samples, i)@ == x
}

/// The round-trip time of sample `i`, where it got a reply.
pub open spec fn rtt_witness(samples: Seq<Option<Rtt>>, i: int) -> Rtt {
    samples[i]->0
}

/// Every sample that got a reply is among the received round-trip times, and
/// every received round-trip time is that of a sample that got a reply.
pub proof fn lemma_received_rtts_members(samples: Seq<Option<Rtt>>)
    ensures
        forall|i: int|
            0 <= i < samples.len() && samples[i] is Some ==> received_rtts(samples).contains(
                samples[i]->0@,
            ),
        forall|j: int|
            0 <= j < received_rtts(samples).len() ==> some_reply_took(
                samples,
                #[trigger] received_rtts(samples)[j],
            ),
    decreases samples.len(),
{
    if samples.len() > 0 {
        let rest = samples.drop_last();
        let n = samples.len() - 1;
        lemma_received_rtts_members(rest);
        let before = received_rtts(rest);
        let after = received_rtts(samples);
        assert forall|i: int|
            0 <= i < samples.len() && samples[i] is Some implies after.contains(samples[i]->0@) by {
            if i < n {
                assert(rest[i] == samples[i]);
                let k = choose|k: int| 0 <= k < before.len() && before[k] == samples[i]->0@;
                assert(after[k] == before[k]);
            } else {
                assert(after[after.len() - 1] == samples[i]->0@);
            }
        }
        assert forall|j: int| 0 <= j < after.len() implies some_reply_took(samples, #[trigger] after[j]) by {
            if j < before.len() {
                assert(after[j] == before[j]);
                assert(some_reply_took(rest, before[j]));
                let i = choose|i: int|
                    0 <= i < rest.len() && rest[i] == Some(rtt_witness(rest, i)) && rtt_witness(rest, i)@ == before[j];
                assert(samples[i] == rest[i]);
                assert(rtt_witness(samples, i) == rtt_witness(rest, i));
            } else {
                assert(samples[n] == Some(rtt_witness(samples, n)));
            }
        }
    }
}

/// The least element of a non-empty sequence is one of its elements and no
/// element is smaller.
pub proof fn lemma_seq_min_is_least(s: Seq<nat>)
    requires
        s.len() > 0,
    ensures
        s.contains(seq_min(s)),
        forall|i: int| 0 <= i < s.len() ==> seq_min(s) <= s[i],
    decreases s.len(),
{
    if s.len() > 1 {
        let t = s.drop_last();
        lemma_seq_min_is_least(t);
        assert forall|i: int| 0 <= i < s.len() implies seq_min(s) <= s[i] by {
            if i < t.len() {
                assert(t[i] == s[i]);
            }
        }
        if seq_min(t) <= s.last() {
            let k = choose|k: int| 0 <= k < t.len() && t[k] == seq_min(t);
            assert(s[k] == t[k]);
        } else {
            assert(s[s.len() - 1] == s.last());
        }
    } else {
        assert(s[0] == seq_min(s));
    }
}

/// The greatest element of a non-empty sequence is one of its elements and
/// no element is greater.
pub proof fn lemma_seq_max_is_greatest(s: Seq<nat>)
    requires
        s.len() > 0,
    ensures
        s.contains(seq_max(s)),
        forall|i: int| 0 <= i < s.len() ==> s[i] <= seq_max(s),
    decreases s.len(),
{
    if s.len() > 1 {
        let t = s.drop_last();
        lemma_seq_max_is_greatest(t);
        assert forall|i: int| 0 <= i < s.len() implies s[i] <= seq_max(s) by {
            if i < t.len() {
                assert(t[i] == s[i]);
            }
        }
        if seq_max(t) >= s.last() {
            let k = choose|k: int| 0 <= k < t.len() && t[k] == seq_max(t);
            assert(s[k] == t[k]);
        } else {
            assert(s[s.len() - 1] == s.last());
        }
    } else {
        assert(s[0] == seq_max(s));
    }
}

/// `seq_sum` adds up every element: it is the left fold of addition from 0.
pub proof fn lemma_seq_sum_adds_all(s: Seq<nat>)
    ensures
        seq_sum(s) == s.fold_left(0nat, add_nat()),
    decreases s.len(),
{
    if s.len() > 0 {
        lemma_seq_sum_adds_all(s.drop_last());
    }
}

} // verus!
