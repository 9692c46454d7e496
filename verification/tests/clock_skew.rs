use neurograph::clock_skew::{ClockSkewChecker, SkewStats, SkewVerdict, DEFAULT_MAX_SKEW_MS, SEVERE_SKEW_MS};
use std::time::{SystemTime, UNIX_EPOCH};

fn now_secs() -> u64 {
    SystemTime::now().duration_since(UNIX_EPOCH).unwrap().as_secs()
}

#[test]
fn test_recent_tx_is_ok() {
    let mut checker = ClockSkewChecker::with_default();
    let ts = now_secs();
    let verdict = checker.check(ts, "alice");
    assert_eq!(verdict, Some(SkewVerdict::Normal));
    let stats = checker.global_stats();
    assert_eq!(stats.total_checked, 1);
    assert_eq!(stats.warnings, 0);
}

#[test]
fn test_old_tx_triggers_warning() {
    let mut checker = ClockSkewChecker::new(100);
    let ts = now_secs().saturating_sub(10);
    let verdict = checker.check(ts, "bob");
    assert_eq!(verdict, Some(SkewVerdict::Severe));
    let stats = checker.global_stats();
    assert_eq!(stats.warnings, 1);
    assert_eq!(stats.severe, 1);
}

#[test]
fn test_future_tx_triggers_warning() {
    let mut checker = ClockSkewChecker::new(100);
    let ts = now_secs().saturating_add(10);
    let verdict = checker.check(ts, "mallory");
    assert_eq!(verdict, Some(SkewVerdict::Severe));
}

#[test]
fn test_per_peer_tracking() {
    let mut checker = ClockSkewChecker::new(100);
    for _ in 0..3 {
        checker.check(now_secs(), "alice");
    }
    for _ in 0..2 {
        checker.check(now_secs().saturating_sub(10), "bob");
    }
    let alice = checker.peer_stats("alice").unwrap();
    assert_eq!(alice.total_checked, 3);
    assert_eq!(alice.warnings, 0);
    let bob = checker.peer_stats("bob").unwrap();
    assert_eq!(bob.total_checked, 2);
    assert_eq!(bob.warnings, 2);
    assert_eq!(bob.severe, 2);
}

#[test]
fn test_top_offenders_orders_by_warnings() {
    let mut checker = ClockSkewChecker::new(100);
    for _ in 0..5 {
        checker.check(now_secs().saturating_sub(10), "carol");
    }
    for _ in 0..2 {
        checker.check(now_secs().saturating_sub(10), "dave");
    }
    for _ in 0..10 {
        checker.check(now_secs(), "eve");
    }
    let offenders = checker.top_offenders(3);
    assert_eq!(offenders.len(), 2);
    assert_eq!(offenders[0].0, "carol");
    assert_eq!(offenders[0].1.warnings, 5);
    assert_eq!(offenders[1].0, "dave");
    assert_eq!(offenders[1].1.warnings, 2);
}

#[test]
fn test_custom_threshold() {
    let mut checker = ClockSkewChecker::new(100);
    let ts = now_secs().saturating_sub(1);
    let verdict = checker.check(ts, "frank");
    assert_eq!(verdict, Some(SkewVerdict::Warning));
}

#[test]
fn test_reset_clears_stats() {
    let mut checker = ClockSkewChecker::new(100);
    checker.check(now_secs().saturating_sub(10), "alice");
    assert_eq!(checker.global_stats().warnings, 1);
    checker.reset();
    assert_eq!(checker.global_stats().warnings, 0);
    assert_eq!(checker.global_stats().total_checked, 0);
}

#[test]
fn check_at_exact_skews_and_sums() {
    let mut checker = ClockSkewChecker::new(100);
    assert_eq!(checker.check_at(1_000, 1_000, "a"), Some(SkewVerdict::Normal));
    assert_eq!(checker.check_at(1_000, 990, "a"), Some(SkewVerdict::Severe));
    assert_eq!(checker.check_at(1_000, 1_001, "a"), Some(SkewVerdict::Warning));
    let g = checker.global_stats();
    assert_eq!(g.total_checked, 3);
    assert_eq!(g.sum_skew_ms, 10_000 - 1_000);
    assert_eq!(g.max_skew_ms, 10_000);
    assert_eq!(g.warnings, 2);
    assert_eq!(g.severe, 1);
}

#[test]
fn check_at_refuses_overflowing_skew() {
    let mut checker = ClockSkewChecker::with_default();
    // A time stamp near 2^62 seconds makes the skew in milliseconds overflow.
    assert_eq!(checker.check_at(1_000, 1u64 << 62, "x"), None);
    assert_eq!(checker.global_stats().total_checked, 0);
    assert!(checker.peer_stats("x").is_none());
}

#[test]
fn thresholds_of_new_and_default() {
    assert_eq!(DEFAULT_MAX_SKEW_MS, 600_000);
    assert_eq!(SEVERE_SKEW_MS, 3_600_000);
    let mut small = ClockSkewChecker::new(10);
    // severe threshold is at least 5 s: a 4 s skew is a warning
    assert_eq!(small.check_at(100, 96, "p"), Some(SkewVerdict::Warning));
    assert_eq!(small.check_at(100, 94, "p"), Some(SkewVerdict::Severe));
    let s: SkewStats = SkewStats::default();
    assert_eq!(s.total_checked, 0);
    assert!(SkewVerdict::Warning.is_problem());
    assert!(!SkewVerdict::Normal.is_problem());
}

#[test]
fn test_mean_skew_calculation() {
    let mut checker = ClockSkewChecker::new(100);
    checker.check(now_secs(), "alice");
    checker.check(now_secs(), "alice");
    checker.check(now_secs().saturating_sub(10), "alice");
    let stats = checker.global_stats();
    assert_eq!(stats.total_checked, 3);
    let mean = stats.sum_skew_ms as f64 / stats.total_checked as f64;
    assert!(mean > 1000.0, "Mean skew should be positive (tx in past): got {}", mean);
}

#[test]
fn skew_stats_keep_severe_within_warnings_within_total() {
    let mut checker = ClockSkewChecker::with_thresholds(1_000, 5_000);
    let now: u64 = 1_700_000_000;
    let stamps = [now, now - 2, now + 3, now - 10, now + 60, now, now - 1];
    for (i, ts) in stamps.iter().enumerate() {
        let sender = if i % 2 == 0 { "even" } else { "odd" };
        assert!(checker.check_at(now, *ts, sender).is_some());
        let g = checker.global_stats();
        assert!(g.severe <= g.warnings && g.warnings <= g.total_checked);
        for name in ["even", "odd"] {
            if let Some(p) = checker.peer_stats(name) {
                assert!(p.severe <= p.warnings && p.warnings <= p.total_checked);
            }
        }
    }
    let g = checker.global_stats();
    assert_eq!((g.total_checked, g.warnings, g.severe), (7, 4, 2));
}
