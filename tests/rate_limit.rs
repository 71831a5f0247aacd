use ironwatch::detect::{
    extract_recent_ips, find_suspects, find_suspects_timed, rate_reason_text, recent_addresses,
};
use ironwatch::rate_limit::extract_suspects;

const FMT: &str = "%d/%b/%Y:%H:%M:%S %z";

fn at(seconds: u32) -> String {
    format!("10/Oct/2023:13:55:{:02} +0000", seconds)
}

fn records(ip: &str, seconds: &[u32]) -> Vec<(String, String)> {
    seconds.iter().map(|s| (ip.to_string(), at(*s))).collect()
}

#[test]
fn three_hits_in_two_seconds_flag() {
    let r = find_suspects(records("10.0.0.9", &[0, 1, 2, 3]), 3, 2, FMT);
    assert_eq!(r, vec!["10.0.0.9".to_string()]);
}

#[test]
fn five_hits_are_not_reached() {
    let r = find_suspects(records("10.0.0.9", &[0, 1, 2, 3]), 5, 2, FMT);
    assert!(r.is_empty());
}

#[test]
fn order_of_records_does_not_matter() {
    let a = find_suspects(records("10.0.0.9", &[0, 1, 2, 3]), 3, 2, FMT);
    let b = find_suspects(records("10.0.0.9", &[3, 0, 2, 1]), 3, 2, FMT);
    assert_eq!(a, b);
    let c = find_suspects(records("10.0.0.9", &[3, 0, 2, 1]), 4, 2, FMT);
    assert!(c.is_empty());
}

#[test]
fn zero_window_counts_equal_times_only() {
    let r = find_suspects(records("1.1.1.1", &[5, 5, 6]), 2, 0, FMT);
    assert_eq!(r, vec!["1.1.1.1".to_string()]);
    let r = find_suspects(records("1.1.1.1", &[5, 6, 7]), 2, 0, FMT);
    assert!(r.is_empty());
}

#[test]
fn threshold_zero_or_one_flags_any_hit() {
    assert_eq!(find_suspects(records("1.1.1.1", &[5]), 0, 10, FMT).len(), 1);
    assert_eq!(find_suspects(records("1.1.1.1", &[5]), 1, 10, FMT).len(), 1);
}

#[test]
fn unparsable_timestamps_are_left_out() {
    let mut recs = records("2.2.2.2", &[1, 2]);
    recs.push(("2.2.2.2".to_string(), "not a time".to_string()));
    assert!(find_suspects(recs.clone(), 3, 60, FMT).is_empty());
    assert_eq!(find_suspects(recs, 2, 60, FMT), vec!["2.2.2.2".to_string()]);
}

#[test]
fn each_address_reported_once() {
    let timed = vec![
        ("a".to_string(), Some((10, 0))),
        ("b".to_string(), Some((10, 0))),
        ("a".to_string(), Some((11, 0))),
        ("a".to_string(), Some((12, 0))),
        ("b".to_string(), None),
    ];
    assert_eq!(find_suspects_timed(&timed, 2, 5), vec!["a".to_string()]);
    assert_eq!(find_suspects_timed(&timed, 1, 0), vec!["a".to_string(), "b".to_string()]);
}

#[test]
fn rate_reason_names_rule_address_and_limits() {
    let r = rate_reason_text("burst", &"10.0.0.9".to_string(), 3, 2);
    assert_eq!(r, "(RULE: burst)[IP 10.0.0.9 EXCEEDED 3 REQUESTS IN 2 SECONDS WINDOW]");
}

#[test]
fn rule_skips_whitelisted_addresses() {
    let log = format!(
        "1.1.1.1 - - [{}] /api\n1.1.1.1 - - [{}] /api\n2.2.2.2 - - [{}] /api\n2.2.2.2 - - [{}] /api\n",
        at(1),
        at(2),
        at(1),
        at(2)
    );
    let r = extract_suspects("r", &log, "/api", 2, 5, FMT, &vec!["2.2.2.2".to_string()]);
    assert_eq!(
        r,
        vec![(
            "1.1.1.1".to_string(),
            "(RULE: r)[IP 1.1.1.1 EXCEEDED 2 REQUESTS IN 5 SECONDS WINDOW]".to_string()
        )]
    );
}

#[test]
fn trailing_window_keeps_recent_addresses() {
    let timed = vec![
        ("old".to_string(), Some((100, 0))),
        ("new".to_string(), Some((950, 0))),
        ("future".to_string(), Some((1001, 0))),
        ("bad".to_string(), None),
        ("new".to_string(), Some((990, 0))),
    ];
    assert_eq!(recent_addresses(&timed, (1000, 0), Some(60)), vec!["new".to_string()]);
    assert_eq!(
        recent_addresses(&timed, (1000, 0), None),
        vec!["old".to_string(), "new".to_string(), "future".to_string(), "bad".to_string()]
    );
}

#[test]
fn recent_ips_use_the_current_time() {
    let now = chrono::Utc::now();
    let fresh = (now - chrono::Duration::seconds(10)).format(FMT).to_string();
    let stale = (now - chrono::Duration::seconds(7200)).format(FMT).to_string();
    let log = format!("3.3.3.3 - - [{}] /p\n4.4.4.4 - - [{}] /p\n", fresh, stale);
    assert_eq!(extract_recent_ips(&log, "/p", Some(600), FMT), vec!["3.3.3.3".to_string()]);
    assert_eq!(
        extract_recent_ips(&log, "/p", None, FMT),
        vec!["3.3.3.3".to_string(), "4.4.4.4".to_string()]
    );
}

#[test]
fn fractional_seconds_count_in_windows() {
    let apart = vec![("f".to_string(), Some((1, 0))), ("f".to_string(), Some((3, 500_000_000)))];
    assert!(find_suspects_timed(&apart, 2, 2).is_empty());
    let close = vec![("f".to_string(), Some((1, 0))), ("f".to_string(), Some((3, 0)))];
    assert_eq!(find_suspects_timed(&close, 2, 2), vec!["f".to_string()]);
    let fmt = "%Y-%m-%d %H:%M:%S%.f %z";
    let recs = vec![
        ("g".to_string(), "2023-10-10 13:55:01.000 +0000".to_string()),
        ("g".to_string(), "2023-10-10 13:55:03.500 +0000".to_string()),
    ];
    assert!(find_suspects(recs.clone(), 2, 2, fmt).is_empty());
    assert_eq!(find_suspects(recs, 2, 3, fmt), vec!["g".to_string()]);
}
