use chrono::Datelike;
use ironwatch::rotation::{select_token, select_token_at};
use ironwatch::template::{resolve_conf, resolve_logfile_template, resolve_template_on};

fn pool(n: usize) -> Vec<String> {
    (0..n).map(|i| format!("key{}", i)).collect()
}

#[test]
fn three_keys_rotate_every_eight_hours() {
    let p = pool(3);
    assert_eq!(select_token_at(&p, 0), Some("key0".to_string()));
    assert_eq!(select_token_at(&p, 479), Some("key0".to_string()));
    assert_eq!(select_token_at(&p, 480), Some("key1".to_string()));
    assert_eq!(select_token_at(&p, 960), Some("key2".to_string()));
    assert_eq!(select_token_at(&p, 1439), Some("key2".to_string()));
}

#[test]
fn one_key_always_chosen() {
    let p = pool(1);
    for m in [0u32, 1, 720, 1439] {
        assert_eq!(select_token_at(&p, m), Some("key0".to_string()));
    }
}

#[test]
fn uneven_segments_wrap_around() {
    let p = pool(7);
    // 1440 / 7 = 205 minutes per segment; segment 7 wraps to key0.
    assert_eq!(select_token_at(&p, 205), Some("key1".to_string()));
    assert_eq!(select_token_at(&p, 1435), Some("key0".to_string()));
}

#[test]
fn empty_pool_has_no_key() {
    assert_eq!(select_token_at(&Vec::new(), 10), None);
    assert_eq!(select_token(Vec::new()), None);
}

#[test]
fn current_key_comes_from_pool() {
    let p = pool(4);
    let k = select_token(p.clone()).unwrap();
    assert!(p.contains(&k));
}

#[test]
fn template_tokens_are_replaced() {
    let r = resolve_template_on(
        "/var/log/{YYYY}/{YY}-{MM}-{DD}/{MD}/{M}.{D}/{YYYYMMDD}.log",
        2026,
        3,
        7,
    );
    assert_eq!(r, "/var/log/2026/26-03-07/0307/3.7/20260307.log");
}

#[test]
fn template_without_tokens_is_unchanged() {
    assert_eq!(resolve_template_on("/a/{X}/b{", 2026, 1, 1), "/a/{X}/b{");
}

#[test]
fn template_years_outside_four_digits() {
    assert_eq!(resolve_template_on("{YYYY}|{YY}", 12345, 1, 1), "+12345|45");
    assert_eq!(resolve_template_on("{YYYY}|{YY}", -5, 1, 1), "-0005|95");
    assert_eq!(resolve_template_on("{YYYY}", 99, 1, 1), "0099");
}

#[test]
fn template_matches_formatted_date() {
    let today = chrono::Local::now();
    let manual = today.format("%Y-%m").to_string();
    assert_eq!(
        resolve_template_on("{YYYY}-{MM}", today.year(), today.month(), today.day()),
        manual
    );
    let before = chrono::Local::now().format("%Y%m%d").to_string();
    let r = resolve_logfile_template("access-{YYYYMMDD}.log");
    let after = chrono::Local::now().format("%Y%m%d").to_string();
    assert!(r == format!("access-{}.log", before) || r == format!("access-{}.log", after));
}

#[test]
fn conf_path_uses_unpadded_month() {
    assert_eq!(resolve_conf("/etc/block-{MM}.conf", "03"), "/etc/block-3.conf");
    assert_eq!(resolve_conf("/etc/block-{MM}.conf", "11"), "/etc/block-11.conf");
    assert_eq!(resolve_conf("/etc/{MM}/{MM}", "10"), "/etc/10/10");
}

#[test]
fn year_and_month_tokens_match_manual_replacement() {
    let t = "/logs/{YYYY}/{MM}/access-{YYYY}{MM}.log";
    let (y, m) = (2026, 4);
    let manual = t
        .replace("{YYYY}", &format!("{:04}", y))
        .replace("{MM}", &format!("{:02}", m));
    assert_eq!(resolve_template_on(t, y, m, 18), manual);
}
