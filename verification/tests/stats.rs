use std::time::Duration;

use nethop::stats::{compute_hop_stats, Rtt};

fn rtt(d: Duration) -> Rtt {
    Rtt::from_parts(d.as_secs(), d.subsec_nanos())
}

#[test]
fn min_avg_max_computed_only_over_received_samples() {
    let stats = compute_hop_stats(&[
        Some(rtt(Duration::from_millis(10))),
        None,
        Some(rtt(Duration::from_millis(30))),
    ]);
    assert_eq!(stats.min, rtt(Duration::from_millis(10)));
    assert_eq!(stats.max, rtt(Duration::from_millis(30)));
    assert_eq!(stats.avg, rtt(Duration::from_millis(20)));
}

#[test]
fn all_probes_lost_receives_nothing() {
    let stats = compute_hop_stats(&[None, None, None]);
    assert_eq!(stats.sent, 3);
    assert_eq!(stats.received, 0);
    assert_eq!(stats.min, Rtt::zero());
    assert_eq!(stats.avg, Rtt::zero());
    assert_eq!(stats.max, Rtt::zero());
}

#[test]
fn no_probes_sent_at_all_gives_all_zero_stats() {
    let stats = compute_hop_stats(&[]);
    assert_eq!(stats.sent, 0);
    assert_eq!(stats.received, 0);
    assert_eq!(stats.avg, Rtt::zero());
}

#[test]
fn partial_loss_counts_sent_and_received() {
    let stats = compute_hop_stats(&[
        Some(rtt(Duration::from_millis(10))),
        None,
        Some(rtt(Duration::from_millis(20))),
        None,
    ]);
    assert_eq!(stats.sent, 4);
    assert_eq!(stats.received, 2);
    assert_eq!(stats.avg, Rtt::from_millis(15));
}

#[test]
fn all_probes_received_counts_every_probe() {
    let stats = compute_hop_stats(&[
        Some(rtt(Duration::from_millis(10))),
        Some(rtt(Duration::from_millis(20))),
    ]);
    assert_eq!(stats.sent, 2);
    assert_eq!(stats.received, 2);
}

#[test]
fn average_rounds_down_to_the_nanosecond() {
    let stats = compute_hop_stats(&[
        Some(Rtt::from_parts(0, 1)),
        Some(Rtt::from_parts(0, 2)),
    ]);
    assert_eq!(stats.avg.as_nanos(), 1);
    assert_eq!(stats.min.as_nanos(), 1);
    assert_eq!(stats.max.as_nanos(), 2);
}

#[test]
fn min_and_max_do_not_depend_on_order() {
    let stats = compute_hop_stats(&[
        Some(Rtt::from_millis(50)),
        Some(Rtt::from_millis(5)),
        None,
        Some(Rtt::from_millis(70)),
        Some(Rtt::from_millis(20)),
    ]);
    assert_eq!(stats.min, Rtt::from_millis(5));
    assert_eq!(stats.max, Rtt::from_millis(70));
    assert_eq!(stats.avg, Rtt::from_parts(0, 36_250_000));
    assert!(stats.min.as_nanos() <= stats.avg.as_nanos());
    assert!(stats.avg.as_nanos() <= stats.max.as_nanos());
}

#[test]
fn a_single_reply_is_its_own_min_avg_and_max() {
    let one = Rtt::from_parts(2, 500_000_000);
    let stats = compute_hop_stats(&[None, Some(one)]);
    assert_eq!(stats.min, one);
    assert_eq!(stats.avg, one);
    assert_eq!(stats.max, one);
}

#[test]
fn rtt_converts_to_and_from_seconds_and_nanoseconds() {
    let d = Duration::new(3, 141_592_653);
    let r = rtt(d);
    assert_eq!(r.as_secs(), 3);
    assert_eq!(r.subsec_nanos(), 141_592_653);
    assert_eq!(r.as_nanos(), d.as_nanos());
    assert_eq!(Rtt::from_millis(1234).as_nanos(), 1_234_000_000);
    let longest = rtt(Duration::MAX);
    assert_eq!(longest.as_secs(), u64::MAX);
    assert_eq!(longest.subsec_nanos(), 999_999_999);
}
