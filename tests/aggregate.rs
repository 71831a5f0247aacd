use ironwatch::aggregate::{contains_key, merge_suspects, ScanRun};

fn p(a: &str, b: &str) -> (String, String) {
    (a.to_string(), b.to_string())
}

#[test]
fn first_rule_reason_wins() {
    let mut agg = Vec::new();
    merge_suspects(&mut agg, vec![p("10.0.0.5", "rule one")], &vec![]);
    merge_suspects(&mut agg, vec![p("10.0.0.5", "rule two"), p("10.0.0.6", "rule two")], &vec![]);
    assert_eq!(agg, vec![p("10.0.0.5", "rule one"), p("10.0.0.6", "rule two")]);
}

#[test]
fn whitelisted_addresses_never_appear() {
    let wl = vec!["8.8.8.8".to_string()];
    let mut agg = Vec::new();
    merge_suspects(&mut agg, vec![p("8.8.8.8", "a"), p("1.1.1.1", "a")], &wl);
    merge_suspects(&mut agg, vec![p("8.8.8.8", "b")], &wl);
    assert_eq!(agg, vec![p("1.1.1.1", "a")]);
}

#[test]
fn duplicates_within_one_rule_collapse() {
    let mut agg = Vec::new();
    merge_suspects(&mut agg, vec![p("1.1.1.1", "a"), p("1.1.1.1", "b")], &vec![]);
    assert_eq!(agg, vec![p("1.1.1.1", "a")]);
    assert!(contains_key(&agg, &"1.1.1.1".to_string()));
    assert!(!contains_key(&agg, &"2.2.2.2".to_string()));
}

#[test]
fn run_keeps_first_rule_and_skips_whitelist() {
    let mut run = ScanRun::new(vec!["9.9.9.9".to_string()]);
    run.record(vec![p("10.0.0.5", "rule one"), p("9.9.9.9", "rule one")]);
    assert_eq!(run.suspects(), &vec![p("10.0.0.5", "rule one")]);
    run.record(vec![p("10.0.0.5", "rule two"), p("9.9.9.9", "rule two"), p("10.0.0.7", "rule two")]);
    assert_eq!(run.whitelist(), &vec!["9.9.9.9".to_string()]);
    assert_eq!(
        run.into_suspects(),
        vec![p("10.0.0.5", "rule one"), p("10.0.0.7", "rule two")]
    );
}
