use tsptw::instance::TimeWindow;
use tsptw::state::ElapsedTime;

#[test]
fn add_exact_shifts_the_point() {
    let t = ElapsedTime::FixedAmount { duration: 7 };
    assert_eq!(t.add_duration(5), ElapsedTime::FixedAmount { duration: 12 });
}

#[test]
fn add_range_shifts_both_ends() {
    let t = ElapsedTime::FuzzyAmount { earliest: 3, latest: 9 };
    assert_eq!(
        t.add_duration(4),
        ElapsedTime::FuzzyAmount { earliest: 7, latest: 13 }
    );
}

#[test]
fn add_zero_is_identity() {
    let t = ElapsedTime::FuzzyAmount { earliest: 3, latest: 9 };
    assert_eq!(t.add_duration(0), t);
}

#[test]
fn clip_raises_lower_end() {
    let t = ElapsedTime::FuzzyAmount { earliest: 2, latest: 9 };
    let w = TimeWindow { earliest: 5, latest: 20 };
    assert_eq!(
        t.clip_to_window(w),
        ElapsedTime::FuzzyAmount { earliest: 5, latest: 9 }
    );
}

#[test]
fn clip_lowers_upper_end() {
    let t = ElapsedTime::FuzzyAmount { earliest: 2, latest: 9 };
    let w = TimeWindow { earliest: 0, latest: 6 };
    assert_eq!(
        t.clip_to_window(w),
        ElapsedTime::FuzzyAmount { earliest: 2, latest: 6 }
    );
}

#[test]
fn clip_never_widens_a_range() {
    let t = ElapsedTime::FuzzyAmount { earliest: 10, latest: 30 };
    let cases = [(0u64, 100u64), (15, 100), (0, 25), (15, 25), (12, 18)];
    for (we, wl) in cases {
        let r = t.clip_to_window(TimeWindow { earliest: we, latest: wl });
        assert!(r.earliest() >= t.earliest());
        assert!(r.latest() <= t.latest());
    }
}

#[test]
fn clip_signals_infeasibility_by_inverted_ends() {
    // Arriving within [2, 3] at a window opening at 5: the raised lower
    // end passes the upper end, which callers detect by comparison.
    let t = ElapsedTime::FuzzyAmount { earliest: 2, latest: 3 };
    let w = TimeWindow { earliest: 5, latest: 10 };
    let r = t.clip_to_window(w);
    assert_eq!(r, ElapsedTime::FuzzyAmount { earliest: 5, latest: 3 });
    assert!(r.earliest() > r.latest());
}

#[test]
fn clip_collapses_to_exact_when_ends_meet() {
    let t = ElapsedTime::FuzzyAmount { earliest: 2, latest: 9 };
    let w = TimeWindow { earliest: 9, latest: 50 };
    assert_eq!(t.clip_to_window(w), ElapsedTime::FixedAmount { duration: 9 });
}

#[test]
fn clip_exact_waits_for_the_window() {
    let t = ElapsedTime::FixedAmount { duration: 4 };
    let w = TimeWindow { earliest: 10, latest: 10 };
    assert_eq!(t.clip_to_window(w), ElapsedTime::FixedAmount { duration: 10 });
}

#[test]
fn accessors_read_both_variants() {
    let a = ElapsedTime::FixedAmount { duration: 8 };
    assert_eq!(a.earliest(), 8);
    assert_eq!(a.latest(), 8);
    let b = ElapsedTime::FuzzyAmount { earliest: 1, latest: 4 };
    assert_eq!(b.earliest(), 1);
    assert_eq!(b.latest(), 4);
}
