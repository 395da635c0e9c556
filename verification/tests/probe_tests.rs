use fuzzy_rocks::probe::{KeyProbe, ProbeState, MAX_QUESTIONS, RECORD_COUNT_HINT};

/// Runs a probe against a table that holds exactly the keys below `n`, and
/// returns the count together with the number of keys that were asked for.
fn probe_dense(n: u64, hint: u64) -> (u64, u32) {
    let mut probe = KeyProbe::new(hint);
    let mut asked = 0;
    while let Some(key) = probe.pending() {
        probe.record(key < n);
        asked += 1;
        assert!(asked <= 200, "the probe for {} from {} does not end", n, hint);
    }
    (probe.count().unwrap(), asked)
}

const HINTS: [u64; 12] = [
    0,
    1,
    2,
    3,
    16,
    255,
    1000,
    0xFFFF,
    0xFFFF_FFFF,
    0x1_0000_0000,
    u64::MAX - 1,
    u64::MAX,
];

#[test]
fn probe_finds_small_counts() {
    for n in 0..=1200u64 {
        for hint in HINTS {
            assert_eq!(probe_dense(n, hint).0, n, "n = {}, hint = {}", n, hint);
        }
    }
}

#[test]
fn probe_finds_large_counts() {
    let counts = [
        65024,
        65025,
        65026,
        1 << 20,
        (1 << 32) - 1,
        1 << 32,
        (1 << 32) + 1,
        (1 << 40) + 12345,
        (1 << 63) - 1,
        1 << 63,
        u64::MAX - 1,
        u64::MAX,
    ];
    for n in counts {
        for hint in HINTS {
            assert_eq!(probe_dense(n, hint).0, n, "n = {}, hint = {}", n, hint);
        }
    }
}

#[test]
fn probe_counts_around_the_hint() {
    for hint in [1u64, 2, 7, 255, 256, 4096] {
        for n in [hint - 1, hint, hint + 1, hint * hint - 1, hint * hint, hint * hint + 1] {
            assert_eq!(probe_dense(n, hint).0, n, "n = {}, hint = {}", n, hint);
        }
    }
}

#[test]
fn probe_of_an_empty_table_counts_zero() {
    for hint in HINTS {
        assert_eq!(probe_dense(0, hint).0, 0);
    }
    // from the hint that is used when a store is opened
    let (count, asked) = probe_dense(0, RECORD_COUNT_HINT);
    assert_eq!(count, 0);
    // 255, 127, 63, 31, 15, 7, 3, 1, 0
    assert_eq!(asked, 9);
}

#[test]
fn probe_needs_few_questions() {
    for n in [0u64, 1, 255, 256, 70000, 1 << 33, u64::MAX] {
        for hint in HINTS {
            let (_, asked) = probe_dense(n, hint);
            assert!(asked as u64 <= MAX_QUESTIONS, "n = {}, hint = {}: {}", n, hint, asked);
        }
    }
    // a good hint saves questions
    assert!(probe_dense(70000, 255).1 <= 20);
    assert!(probe_dense(1 << 33, 1 << 16).1 <= 40);
}

#[test]
fn probe_ends_whatever_the_answers() {
    // answers that no table without gaps would give
    let mut seed: u64 = 0x9E37_79B9_7F4A_7C15;
    for round in 0..2000u64 {
        let mut probe = KeyProbe::new(HINTS[(round % 12) as usize]);
        let mut asked = 0u64;
        while probe.pending().is_some() {
            seed = seed.wrapping_mul(6364136223846793005).wrapping_add(1442695040888963407);
            probe.record((seed >> 63) == 1 || round % 7 == 0);
            asked += 1;
            assert!(asked <= MAX_QUESTIONS);
        }
        assert!(probe.count().is_some());
    }
}

fn fields(probe: &KeyProbe) -> (u64, u64, u64, u64) {
    let ProbeState { min, max, guess_max, cur_val } = probe.state();
    (min, max, guess_max, cur_val)
}

#[test]
fn probe_start_state() {
    let probe = KeyProbe::new(255);
    assert_eq!(fields(&probe), (0, u64::MAX, 65025, 255));
    assert_eq!(probe.pending(), Some(255));
    assert_eq!(probe.count(), None);

    assert_eq!(fields(&KeyProbe::new(0)), (0, u64::MAX, 1, 0));
    assert_eq!(fields(&KeyProbe::new(1)), (0, u64::MAX, 1, 1));
    assert_eq!(
        fields(&KeyProbe::new(0xFFFF_FFFF)),
        (0, u64::MAX, 0xFFFF_FFFE_0000_0001, 0xFFFF_FFFF)
    );
    assert_eq!(
        fields(&KeyProbe::new(0x1_0000_0000)),
        (0, u64::MAX, u64::MAX, 0x1_0000_0000)
    );
}

#[test]
fn probe_step_after_a_hit() {
    let mut probe = KeyProbe::new(255);
    probe.record(true);
    // the lower bound moves behind the key, the stride doubles, and the next
    // key is halfway to the end of the stride
    assert_eq!(fields(&probe), (256, u64::MAX, 130050, 65153));
    probe.record(true);
    assert_eq!(fields(&probe), (65154, u64::MAX, 260100, 162627));
}

#[test]
fn probe_step_after_a_miss() {
    let mut probe = KeyProbe::new(255);
    probe.record(false);
    assert_eq!(fields(&probe), (0, 255, 255, 127));
    probe.record(true);
    // doubling would pass the upper bound, so the stride ends there
    assert_eq!(fields(&probe), (128, 255, 255, 191));
    probe.record(false);
    assert_eq!(fields(&probe), (128, 191, 191, 159));
}

#[test]
fn probe_stride_stops_doubling_at_half_the_upper_bound() {
    // the stride of 2^62 is below half of the upper bound and doubles
    let mut probe = KeyProbe::new(1 << 31);
    assert_eq!(probe.state().guess_max, 1 << 62);
    probe.record(true);
    assert_eq!(probe.state().guess_max, 1 << 63);
    // the stride of 2^63 is not, and the next stride ends at the upper bound
    probe.record(true);
    assert_eq!(probe.state().guess_max, u64::MAX);
    assert_eq!(probe.state().max, u64::MAX);
}

#[test]
fn probe_ends_when_the_bounds_meet() {
    let mut probe = KeyProbe::new(1);
    assert_eq!(probe.pending(), Some(1));
    probe.record(false);
    assert_eq!(probe.pending(), Some(0));
    probe.record(true);
    assert_eq!(probe.pending(), None);
    assert_eq!(probe.count(), Some(1));
}

#[test]
fn probe_ignores_answers_after_the_end() {
    let mut probe = KeyProbe::new(1);
    probe.record(false);
    probe.record(true);
    let end = fields(&probe);
    probe.record(true);
    assert_eq!(fields(&probe), end);
    probe.record(false);
    assert_eq!(fields(&probe), end);
    assert_eq!(probe.count(), Some(1));
}

#[test]
fn probe_with_the_largest_key_present() {
    // a table that holds every key there is: the count does not fit, and
    // the probe stops at the largest value instead of running over
    let mut probe = KeyProbe::new(u64::MAX);
    assert_eq!(probe.pending(), Some(u64::MAX));
    probe.record(true);
    assert_eq!(probe.pending(), None);
    assert_eq!(probe.count(), Some(u64::MAX));
}
