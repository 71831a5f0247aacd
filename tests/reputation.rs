use ironwatch::reputation::{
    find_history, plan_checks, reputation_reason_text, resolve_checks, HistoryIP, ReputationCheck,
};

fn s(x: &str) -> String {
    x.to_string()
}

fn query_ips(plan: &[ReputationCheck]) -> Vec<String> {
    plan.iter()
        .filter_map(|c| match c {
            ReputationCheck::Query { ip } => Some(ip.clone()),
            ReputationCheck::Cached { .. } => None,
        })
        .collect()
}

#[test]
fn history_is_reused_without_a_query() {
    let history = vec![HistoryIP { ip: s("5.5.5.5"), reason: s("blocked before") }];
    let plan = plan_checks(&vec![s("5.5.5.5")], &vec![], &vec![], &history);
    assert!(query_ips(&plan).is_empty());
    let r = resolve_checks("rep", &plan, &vec![None], 80);
    assert_eq!(r, vec![(s("5.5.5.5"), s("blocked before"))]);
}

#[test]
fn score_at_threshold_flags_with_score_in_reason() {
    let plan = plan_checks(&vec![s("6.6.6.6")], &vec![], &vec![], &vec![]);
    assert_eq!(query_ips(&plan), vec![s("6.6.6.6")]);
    let r = resolve_checks("rep", &plan, &vec![Some(85)], 80);
    assert_eq!(r.len(), 1);
    assert_eq!(r[0].0, "6.6.6.6");
    assert!(r[0].1.contains("85"));
    assert_eq!(r[0].1, "(RULE: rep)[IP: 6.6.6.6 IS A POTENTIAL SPAM (CONFIDENCE: 85)]");
}

#[test]
fn score_below_threshold_clears() {
    let plan = plan_checks(&vec![s("6.6.6.6")], &vec![], &vec![], &vec![]);
    assert!(resolve_checks("rep", &plan, &vec![Some(79)], 80).is_empty());
}

#[test]
fn failed_query_clears() {
    let plan = plan_checks(&vec![s("7.7.7.7")], &vec![], &vec![], &vec![]);
    assert!(resolve_checks("rep", &plan, &vec![None], 80).is_empty());
}

#[test]
fn whitelisted_and_previous_addresses_are_skipped() {
    let addrs = vec![s("1.1.1.1"), s("2.2.2.2"), s("3.3.3.3")];
    let previous = vec![(s("2.2.2.2"), s("earlier rule"))];
    let history = vec![
        HistoryIP { ip: s("3.3.3.3"), reason: s("first") },
        HistoryIP { ip: s("3.3.3.3"), reason: s("second") },
    ];
    let plan = plan_checks(&addrs, &vec![s("1.1.1.1")], &previous, &history);
    assert_eq!(plan.len(), 1);
    match &plan[0] {
        ReputationCheck::Cached { ip, reason } => {
            assert_eq!(ip, "3.3.3.3");
            assert_eq!(reason, "first");
        }
        ReputationCheck::Query { .. } => panic!("expected a cached verdict"),
    }
}

#[test]
fn history_lookup_takes_first_entry() {
    let history = vec![
        HistoryIP { ip: s("a"), reason: s("x") },
        HistoryIP { ip: s("b"), reason: s("y") },
        HistoryIP { ip: s("b"), reason: s("z") },
    ];
    assert_eq!(find_history(&history, &s("b")), Some(s("y")));
    assert_eq!(find_history(&history, &s("c")), None);
}

#[test]
fn reputation_reason_text_exact() {
    assert_eq!(
        reputation_reason_text("r1", &s("9.9.9.9"), 100),
        "(RULE: r1)[IP: 9.9.9.9 IS A POTENTIAL SPAM (CONFIDENCE: 100)]"
    );
}
