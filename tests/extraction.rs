use ironwatch::logline::{extract_ip_and_timestamp, match_log_line};
use ironwatch::text::{chars_of, decimal_chars, string_of, zero_padded_chars};

fn line(s: &str) -> Vec<char> {
    s.chars().collect()
}

fn pair(a: &str, b: &str) -> (String, String) {
    (a.to_string(), b.to_string())
}

#[test]
fn extracts_matching_lines_in_order() {
    let log = "10.0.0.1 - - [10/Oct/2023:13:55:36 +0000] \"GET /login HTTP/1.1\" 200\n\
               10.0.0.2 - - [10/Oct/2023:13:55:37 +0000] \"GET /home HTTP/1.1\" 200\n\
               10.0.0.3 - - [10/Oct/2023:13:55:38 +0000] \"POST /login HTTP/1.1\" 200\n";
    let r = extract_ip_and_timestamp(log, "/login");
    assert_eq!(
        r,
        vec![
            pair("10.0.0.1", "10/Oct/2023:13:55:36 +0000"),
            pair("10.0.0.3", "10/Oct/2023:13:55:38 +0000"),
        ]
    );
}

#[test]
fn empty_log_gives_no_records() {
    assert!(extract_ip_and_timestamp("", "/").is_empty());
}

#[test]
fn lines_without_the_pattern_are_dropped() {
    let log = "garbage /x\n10.0.0.1 [no separator] /x\n1.2.3.4 - - [] /x\n1.2.3.4 - - [open /x\n";
    assert!(extract_ip_and_timestamp(log, "/x").is_empty());
}

#[test]
fn crlf_endings_and_last_line_without_newline() {
    let log = "1.1.1.1 - - [a] /r\r\n2.2.2.2 - - [b] /r";
    let r = extract_ip_and_timestamp(log, "/r");
    assert_eq!(r, vec![pair("1.1.1.1", "a"), pair("2.2.2.2", "b")]);
}

#[test]
fn first_position_of_the_shape_wins() {
    let r = match_log_line(&line("1234.5.6.7 - - [t]"));
    let (a, t) = r.unwrap();
    assert_eq!(string_of(&a), "234.5.6.7");
    assert_eq!(string_of(&t), "t");
    assert!(match_log_line(&line("1.2.3.4567 - - [t]")).is_none());
    let (a, t) = match_log_line(&line("x 9.9.9.9 - - [one] 8.8.8.8 - - [two]")).unwrap();
    assert_eq!(string_of(&a), "9.9.9.9");
    assert_eq!(string_of(&t), "one");
}

#[test]
fn decimal_rendering() {
    assert_eq!(string_of(&decimal_chars(0)), "0");
    assert_eq!(string_of(&decimal_chars(85)), "85");
    assert_eq!(string_of(&decimal_chars(4294967295)), "4294967295");
    assert_eq!(string_of(&zero_padded_chars(7, 2)), "07");
    assert_eq!(string_of(&zero_padded_chars(2026, 4)), "2026");
    assert_eq!(string_of(&zero_padded_chars(123, 2)), "123");
}

#[test]
fn chars_round_trip() {
    assert_eq!(chars_of("añb"), vec!['a', 'ñ', 'b']);
    assert_eq!(string_of(&vec!['x', 'y']), "xy");
}
