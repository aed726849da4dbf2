use dns2tor::admission::{admit_decision, AdmissionTable, RateEntry};

#[test]
fn first_request_from_unseen_source_is_admitted() {
    let mut t = AdmissionTable::new(60);
    assert!(t.admit_request(10, 0));
}

#[test]
fn nth_request_admitted_iff_within_limit() {
    let max: u64 = 60;
    let mut t = AdmissionTable::new(max);
    let ip: u128 = 0x7f000001;
    for n in 1..=max {
        assert!(t.admit_request(ip, n % 50), "request {} should be admitted", n);
    }
    assert!(!t.admit_request(ip, 50), "request 61 in the same window must be denied");
    assert!(!t.admit_request(ip, 55), "further requests in the window stay denied");
}

#[test]
fn sixty_first_request_with_limit_sixty_is_dropped() {
    let mut t = AdmissionTable::new(60);
    let ip: u128 = 0xc0a80001;
    let mut decisions = Vec::new();
    for i in 0..61u64 {
        decisions.push(t.admit_request(ip, i / 2));
    }
    assert_eq!(decisions.iter().filter(|d| **d).count(), 60);
    assert_eq!(decisions[60], false);
}

#[test]
fn window_rollover_admits_and_resets_count() {
    let mut t = AdmissionTable::new(2);
    let ip: u128 = 1;
    assert!(t.admit_request(ip, 100));
    assert!(t.admit_request(ip, 110));
    assert!(!t.admit_request(ip, 120));
    // 61 seconds past the window's start: admitted unconditionally.
    assert!(t.admit_request(ip, 161));
    // The new window starts with count 1, so one more fits before the limit.
    assert!(t.admit_request(ip, 162));
    assert!(!t.admit_request(ip, 163));
}

#[test]
fn exactly_sixty_seconds_is_still_the_same_window() {
    let mut t = AdmissionTable::new(1);
    let ip: u128 = 2;
    assert!(t.admit_request(ip, 100));
    // elapsed == 60 does not expire the window; the limit still applies.
    assert!(!t.admit_request(ip, 160));
    // elapsed == 61 does.
    assert!(t.admit_request(ip, 161));
}

#[test]
fn distinct_sources_do_not_share_a_budget() {
    let mut t = AdmissionTable::new(1);
    assert!(t.admit_request(1, 0));
    assert!(!t.admit_request(1, 1));
    // A different source decides independently of the exhausted one.
    assert!(t.admit_request(2, 1));
    assert!(t.admit_request(3, 1));
    assert!(!t.admit_request(2, 2));
}

#[test]
fn zero_limit_still_admits_window_openers() {
    // An unseen source, or a spent window, is admitted unconditionally by
    // the rule, even with a limit of zero.
    let mut t = AdmissionTable::new(0);
    assert!(t.admit_request(1, 0));
    assert!(!t.admit_request(1, 1));
    assert!(t.admit_request(1, 61));
}

#[test]
fn decision_values_match_the_rule() {
    assert_eq!(
        admit_decision(None, 5, 3),
        (true, RateEntry { count: 1, window_start: 5 })
    );
    assert_eq!(
        admit_decision(Some(RateEntry { count: 2, window_start: 100 }), 150, 3),
        (true, RateEntry { count: 3, window_start: 100 })
    );
    assert_eq!(
        admit_decision(Some(RateEntry { count: 3, window_start: 100 }), 150, 3),
        (false, RateEntry { count: 3, window_start: 100 })
    );
    assert_eq!(
        admit_decision(Some(RateEntry { count: 3, window_start: 100 }), 161, 3),
        (true, RateEntry { count: 1, window_start: 161 })
    );
}

#[test]
fn clock_read_before_window_start_counts_as_no_time() {
    let (allowed, e) = admit_decision(Some(RateEntry { count: 1, window_start: 100 }), 40, 2);
    assert!(allowed);
    assert_eq!(e, RateEntry { count: 2, window_start: 100 });
}

#[test]
fn limit_is_kept() {
    let t = AdmissionTable::new(17);
    assert_eq!(t.max_per_window(), 17);
}
