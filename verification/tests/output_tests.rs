use software_synth::output::{sample_time, PICOS_PER_SECOND, SAMPLE_RATE};

#[test]
fn one_second_of_samples() {
    assert_eq!(sample_time(SAMPLE_RATE as u64, 1), PICOS_PER_SECOND);
    assert_eq!(sample_time(2 * SAMPLE_RATE as u64, 2), 1_000_000_000_000);
    assert_eq!(sample_time(0, 2), 0);
}

#[test]
fn sample_times_round_down() {
    // 1 / 44100 s is 22675736.96 ps.
    assert_eq!(sample_time(1, 1), 22_675_736);
    assert_eq!(sample_time(3, 2), 34_013_605);
}

#[test]
fn sample_clock_is_monotonic() {
    let mut last = 0;
    for c in 0..10_000u64 {
        let t = sample_time(c, 2);
        assert!(t >= last);
        last = t;
    }
}

#[test]
fn sample_clock_strictly_increases_for_any_channel_count() {
    for channels in [1u16, 2, 23, 64, 1_000, 65_535] {
        let mut last = sample_time(0, channels);
        assert_eq!(last, 0);
        for c in 1..5_000u64 {
            let t = sample_time(c, channels);
            assert!(t > last);
            last = t;
        }
    }
    assert_eq!(sample_time(1, 23), 985_901);
    assert_eq!(sample_time(1, 65_535), 346);
}

#[test]
fn sample_clock_saturates() {
    assert_eq!(sample_time(u64::MAX, 1), u64::MAX);
    assert_eq!(sample_time(u64::MAX, 65_535), u64::MAX);
}
