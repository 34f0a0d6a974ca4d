use softrx::pi_filter::DiscretePI;
use softrx::syncword::{SyncwordPacketizer, SyncwordScanXCorr};

#[test]
fn pi_with_zero_ki_is_purely_proportional() {
    let mut pi = DiscretePI::new(7, 0);
    for e in [-3i64, 0, 5, 100, -41] {
        assert_eq!(pi.update(e), 7 * e);
    }
}

#[test]
fn pi_with_zero_kp_integrates_the_error_sum() {
    let mut pi = DiscretePI::new(0, 3);
    let errors = [4i64, -1, 0, 10, -2];
    let mut sum = 0i64;
    for e in errors {
        sum += e;
        assert_eq!(pi.update(e), 3 * sum);
    }
}

#[test]
fn pi_output_combines_integrator_and_proportional_term() {
    let mut pi = DiscretePI::new(2, 1);
    assert_eq!(pi.update(10), 10 + 20);
    assert_eq!(pi.update(1), 11 + 2);
}

#[test]
fn correlator_locks_exactly_when_the_pattern_completes() {
    let pattern = [true, false, true, true, false];
    let mut scan = SyncwordScanXCorr::new(pattern, 0);
    for (i, s) in pattern.iter().enumerate() {
        let locked = scan.tick(*s);
        assert_eq!(locked, i == pattern.len() - 1);
    }
}

#[test]
fn correlator_reset_clears_the_lock() {
    let pattern = [true, true];
    let mut scan = SyncwordScanXCorr::new(pattern, 0);
    scan.tick(true);
    assert!(scan.tick(true));
    assert!(!scan.reset());
    // the same alignment does not re-trigger right after a reset
    assert!(!scan.tick(true));
}

#[test]
fn correlator_threshold_tolerates_mismatches() {
    let pattern = [true, false, true];
    let mut scan = SyncwordScanXCorr::new(pattern, 1);
    // one bit of the fed pattern is flipped: still within threshold 1
    assert!(!scan.tick(true));
    assert!(!scan.tick(true));
    assert!(scan.tick(true));
}

#[test]
fn packetizer_emits_exactly_one_packet_after_the_syncword() {
    let pattern = [false, true, true, false, true];
    let payload = [true, false, false, true];
    let mut packetizer = SyncwordPacketizer::<5, 4>::new(pattern, 0);
    for s in pattern {
        assert!(packetizer.tick(s).is_none());
    }
    for (i, s) in payload.iter().enumerate() {
        let out = packetizer.tick(*s);
        if i < payload.len() - 1 {
            assert!(out.is_none());
        } else {
            assert_eq!(out, Some(payload));
        }
    }
    // nothing more comes out until another syncword has been seen
    for s in [true, false, true, false, true, false] {
        assert!(packetizer.tick(s).is_none());
    }
}

#[test]
fn packetizer_finds_a_second_packet_after_the_first() {
    let pattern = [true, false];
    let mut packetizer = SyncwordPacketizer::<2, 3>::new(pattern, 0);
    assert!(packetizer.tick(true).is_none());
    assert!(packetizer.tick(false).is_none());
    assert!(packetizer.tick(true).is_none());
    assert!(packetizer.tick(true).is_none());
    assert_eq!(packetizer.tick(false), Some([true, true, false]));
    assert!(packetizer.tick(true).is_none());
    assert!(packetizer.tick(false).is_none());
    assert!(packetizer.tick(false).is_none());
    assert!(packetizer.tick(false).is_none());
    assert_eq!(packetizer.tick(true), Some([false, false, true]));
}
