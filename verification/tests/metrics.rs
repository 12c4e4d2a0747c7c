use renet::network_info::{ewma, NetworkInfo};
use renet::timer::Timer;

#[test]
fn first_sample_is_taken_as_is() {
    assert_eq!(ewma(0, 12_345, 50), 12_345);
    assert_eq!(ewma(0, 0, 50), 0);
}

#[test]
fn step_moves_five_percent() {
    // 5% of the distance 1000 is 50.
    assert_eq!(ewma(1_000, 2_000, 50), 1_050);
    assert_eq!(ewma(2_000, 1_000, 50), 1_950);
}

#[test]
fn constant_sample_drives_monotonically_and_stays_bounded() {
    let target: u64 = 5_000;
    let mut m: u64 = 1_000;
    let mut prev = m;
    for _ in 0..500 {
        m = ewma(m, target, 50);
        assert!(m >= prev);
        assert!(m <= target);
        prev = m;
    }
    assert_eq!(m, target);

    let mut m: u64 = 9_000;
    let mut prev = m;
    for _ in 0..500 {
        m = ewma(m, target, 50);
        assert!(m <= prev);
        assert!(m >= target);
        prev = m;
    }
    assert_eq!(m, target);
}

#[test]
fn tiny_distance_snaps_to_sample() {
    // A step that rounds to nothing snaps to the sample instead of stalling.
    assert_eq!(ewma(100, 101, 50), 101);
}

#[test]
fn network_info_starts_at_zero() {
    let info = NetworkInfo::default();
    assert_eq!(info.rtt, 0);
    assert_eq!(info.sent_bandwidth_kbps, 0);
    assert_eq!(info.received_bandwidth_kbps, 0);
    assert_eq!(info.packet_loss, 0);
}

#[test]
fn timer_deadline_and_reset() {
    let mut t = Timer::new(100, 50);
    assert!(!t.is_finished(149));
    assert!(t.is_finished(150));
    assert!(t.is_finished(151));
    t.reset(200);
    assert!(!t.is_finished(299));
    assert!(t.is_finished(300));
}
