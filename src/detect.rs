//! Timestamp parsing, the trailing time-window filter and the rate-limit detector.

use vstd::prelude::*;
use vstd::multiset::Multiset;
use crate::logline::{pairs_view, log_records, extract_ip_and_timestamp};
use crate::text::{append_chars, append_str, decimal, decimal_chars, string_of};

verus! {

/// Nanoseconds in a second.
pub const NANOS_PER_SECOND: i128 = 1_000_000_000;

/// The instant, as whole seconds since the Unix epoch and nanoseconds past that second,
/// that `s` denotes in the strftime-style format `fmt`, or `None` when `s` does not parse.
pub uninterp spec fn parsed_time(s: Seq<char>, fmt: Seq<char>) -> Option<(i64, u32)>;

/// Relies on chrono's `DateTime::parse_from_str` (a timestamp with an offset, read in
/// format `fmt`), `DateTime::timestamp` (its whole seconds since the Unix epoch) and
/// `DateTime::timestamp_subsec_nanos` (the nanoseconds past that second).
#[verifier::external_body]
fn parse_timestamp(s: &str, fmt: &str) -> (r: Option<(i64, u32)>)
    ensures
        r == parsed_time(s@, fmt@),
{
    match chrono::DateTime::parse_from_str(s, fmt) {
        Ok(t) => Some((t.timestamp(), t.timestamp_subsec_nanos())),
        Err(_) => None,
    }
}

/// Relies on chrono's `Utc::now`, `DateTime::timestamp` and
/// `DateTime::timestamp_subsec_nanos`: the current time as seconds since the Unix epoch
/// and nanoseconds past that second.
#[verifier::external_body]
fn utc_now() -> (r: (i64, u32)) {
    let now = chrono::Utc::now();
    (now.timestamp(), now.timestamp_subsec_nanos())
}

/// An instant given as seconds and nanoseconds, in nanoseconds since the Unix epoch.
pub open spec fn nanos(t: (i64, u32)) -> int {
    t.0 * 1_000_000_000 + t.1
}

/// An instant given as seconds and nanoseconds, in nanoseconds since the Unix epoch.
pub fn nanos_of(t: (i64, u32)) -> (r: i128)
    ensures
        r == nanos(t),
        -10_000_000_000_000_000_000_000_000_000 <= r <= 10_000_000_000_000_000_000_000_000_000,
{
    let (s, n) = t;
    assert(-9_300_000_000_000_000_000_000_000_000 <= s * 1_000_000_000 <= 9_300_000_000_000_000_000_000_000_000)
        by (nonlinear_arith)
        requires
            -9_223_372_036_854_775_808 <= s <= 9_223_372_036_854_775_807,
    ;
    s as i128 * NANOS_PER_SECOND + n as i128
}

/// Records with their timestamps parsed in format `fmt`.
pub open spec fn parse_all(recs: Seq<(Seq<char>, Seq<char>)>, fmt: Seq<char>) -> Seq<
    (Seq<char>, Option<(i64, u32)>),
> {
    recs.map_values(|p: (Seq<char>, Seq<char>)| (p.0, parsed_time(p.1, fmt)))
}

/// The views of a sequence of parsed records.
pub open spec fn timed_view(v: Seq<(String, Option<(i64, u32)>)>) -> Seq<(Seq<char>, Option<(i64, u32)>)> {
    v.map_values(|p: (String, Option<(i64, u32)>)| (p.0@, p.1))
}

/// The views of a sequence of strings.
pub open spec fn strings_view(v: Seq<String>) -> Seq<Seq<char>> {
    v.map_values(|s: String| s@)
}

/// One step of counting the records of address `a` whose time lies in `[lo, hi]`.
pub open spec fn hit_step(a: Seq<char>, lo: int, hi: int) -> spec_fn(nat, (Seq<char>, Option<(i64, u32)>)) -> nat {
    |n: nat, h: (Seq<char>, Option<(i64, u32)>)|
        if h.0 == a && h.1 is Some && lo <= nanos(h.1->0) <= hi {
            n + 1
        } else {
            n
        }
}

/// The number of records of address `a` whose time, in nanoseconds, lies in `[lo, hi]`.
pub open spec fn hits(recs: Seq<(Seq<char>, Option<(i64, u32)>)>, a: Seq<char>, lo: int, hi: int) -> nat {
    recs.fold_left(0, hit_step(a, lo, hi))
}

/// Record `j` is an anchor for its address: from its time `t` on, the span from `t` to
/// `w` seconds later holds at least `k` records of that address.
pub open spec fn is_anchor(recs: Seq<(Seq<char>, Option<(i64, u32)>)>, j: int, k: nat, w: nat) -> bool {
    0 <= j < recs.len() && recs[j].1 is Some && hits(
        recs,
        recs[j].0,
        nanos(recs[j].1->0),
        nanos(recs[j].1->0) + w * 1_000_000_000,
    ) >= k
}

/// Address `a` reaches `k` hits within some window of `w` seconds.
pub open spec fn rate_flagged(recs: Seq<(Seq<char>, Option<(i64, u32)>)>, a: Seq<char>, k: nat, w: nat) -> bool {
    exists|j: int| #[trigger] is_anchor(recs, j, k, w) && recs[j].0 == a
}

/// Record `j` lies in the trailing window of `delta` seconds before `now` (in nanoseconds
/// since the Unix epoch), or no window is set.
pub open spec fn in_window(recs: Seq<(Seq<char>, Option<(i64, u32)>)>, j: int, now: int, delta: Option<i64>) -> bool {
    0 <= j < recs.len() && match delta {
        None => true,
        Some(d) => recs[j].1 is Some && now - d * 1_000_000_000 <= nanos(recs[j].1->0) <= now,
    }
}

/// Address `a` has a record in the trailing window.
pub open spec fn recent(recs: Seq<(Seq<char>, Option<(i64, u32)>)>, a: Seq<char>, now: int, delta: Option<i64>) -> bool {
    exists|j: int| #[trigger] in_window(recs, j, now, delta) && recs[j].0 == a
}

pub proof fn lemma_push_contains(s: Seq<Seq<char>>, x: Seq<char>, a: Seq<char>)
    ensures
        s.push(x).contains(a) <==> (s.contains(a) || a == x),
{
    if s.contains(a) {
        let m = choose|m: int| 0 <= m < s.len() && s[m] == a;
        assert(s.push(x)[m] == a);
    }
    if a == x {
        assert(s.push(x)[s.len() as int] == a);
    }
    if s.push(x).contains(a) && a != x {
        let m = choose|m: int| 0 <= m < s.push(x).len() && s.push(x)[m] == a;
        assert(s[m] == a);
    }
}

proof fn lemma_hits_permutation(
    left: Seq<(Seq<char>, Option<(i64, u32)>)>,
    right: Seq<(Seq<char>, Option<(i64, u32)>)>,
    a: Seq<char>,
    lo: int,
    hi: int,
)
    requires
        left.to_multiset() == right.to_multiset(),
    ensures
        hits(left, a, lo, hi) == hits(right, a, lo, hi),
{
    let f = hit_step(a, lo, hi);
    assert(vstd::seq_lib::commutative_foldl(f));
    vstd::seq_lib::lemma_fold_left_permutation(left, right, f, 0nat);
}

proof fn lemma_flagged_one_way(
    left: Seq<(Seq<char>, Option<(i64, u32)>)>,
    right: Seq<(Seq<char>, Option<(i64, u32)>)>,
    a: Seq<char>,
    k: nat,
    w: nat,
)
    requires
        left.to_multiset() == right.to_multiset(),
        rate_flagged(left, a, k, w),
    ensures
        rate_flagged(right, a, k, w),
{
    broadcast use vstd::seq_lib::group_to_multiset_ensures;

    let j = choose|j: int| #[trigger] is_anchor(left, j, k, w) && left[j].0 == a;
    assert(left.contains(left[j]));
    assert(left.to_multiset().count(left[j]) > 0);
    assert(right.contains(left[j]));
    let j2 = choose|j2: int| 0 <= j2 < right.len() && right[j2] == left[j];
    lemma_hits_permutation(left, right, a, nanos(left[j].1->0), nanos(left[j].1->0) + w * 1_000_000_000);
    assert(is_anchor(right, j2, k, w));
}

proof fn lemma_map_to_multiset(l: Seq<(Seq<char>, Seq<char>)>, fmt: Seq<char>)
    ensures
        parse_all(l, fmt).to_multiset() == l.fold_left(
            Multiset::empty(),
            |m: Multiset<(Seq<char>, Option<(i64, u32)>)>, x: (Seq<char>, Seq<char>)|
                m.insert((x.0, parsed_time(x.1, fmt))),
        ),
    decreases l.len(),
{
    broadcast use vstd::seq_lib::group_to_multiset_ensures;

    if l.len() == 0 {
        assert(parse_all(l, fmt) =~= Seq::empty());
        assert(parse_all(l, fmt).to_multiset().len() == 0);
        assert(parse_all(l, fmt).to_multiset() =~= Multiset::empty());
    } else {
        lemma_map_to_multiset(l.drop_last(), fmt);
        assert(parse_all(l, fmt) =~= parse_all(l.drop_last(), fmt).push(
            (l.last().0, parsed_time(l.last().1, fmt)),
        ));
    }
}

/// The rate-limit verdict does not depend on the order of the records: two record
/// sequences that hold the same records, in any order, flag the same addresses.
pub proof fn lemma_rate_order_independent(
    r1: Seq<(Seq<char>, Seq<char>)>,
    r2: Seq<(Seq<char>, Seq<char>)>,
    fmt: Seq<char>,
    a: Seq<char>,
    k: nat,
    w: nat,
)
    requires
        r1.to_multiset() == r2.to_multiset(),
    ensures
        rate_flagged(parse_all(r1, fmt), a, k, w) == rate_flagged(parse_all(r2, fmt), a, k, w),
{
    let g = |m: Multiset<(Seq<char>, Option<(i64, u32)>)>, x: (Seq<char>, Seq<char>)|
        m.insert((x.0, parsed_time(x.1, fmt)));
    assert forall|x: (Seq<char>, Seq<char>), y: (Seq<char>, Seq<char>), v: Multiset<(Seq<char>, Option<(i64, u32)>)>|
        #[trigger] g(g(v, x), y) == g(g(v, y), x) by {
        assert(g(g(v, x), y) =~= g(g(v, y), x));
    }
    assert(vstd::seq_lib::commutative_foldl(g));
    vstd::seq_lib::lemma_fold_left_permutation(r1, r2, g, Multiset::empty());
    lemma_map_to_multiset(r1, fmt);
    lemma_map_to_multiset(r2, fmt);
    if rate_flagged(parse_all(r1, fmt), a, k, w) {
        lemma_flagged_one_way(parse_all(r1, fmt), parse_all(r2, fmt), a, k, w);
    }
    if rate_flagged(parse_all(r2, fmt), a, k, w) {
        lemma_flagged_one_way(parse_all(r2, fmt), parse_all(r1, fmt), a, k, w);
    }
}

/// `found` holds exactly the addresses with a record in the trailing window.
pub open spec fn exactly_recent(
    found: Seq<Seq<char>>,
    recs: Seq<(Seq<char>, Option<(i64, u32)>)>,
    now: int,
    delta: Option<i64>,
) -> bool {
    forall|a: Seq<char>| found.contains(a) <==> recent(recs, a, now, delta)
}

/// Whether `v` holds a string equal to `s`.
pub fn contains_string(v: &Vec<String>, s: &String) -> (b: bool)
    ensures
        b == strings_view(v@).contains(s@),
{
    let mut i: usize = 0;
    while i < v.len()
        invariant
            i <= v@.len(),
            forall|j: int| 0 <= j < i ==> v@[j]@ != s@,
        decreases v@.len() - i,
    {
        if v[i] == *s {
            assert(strings_view(v@)[i as int] == s@);
            return true;
        }
        i = i + 1;
    }
    assert(!strings_view(v@).contains(s@)) by {
        if strings_view(v@).contains(s@) {
            let j = choose|j: int| 0 <= j < strings_view(v@).len() && strings_view(v@)[j] == s@;
            assert(v@[j]@ == s@);
        }
    }
    false
}

/// The records with their timestamps parsed in format `fmt`.
pub fn parse_records(records: &Vec<(String, String)>, fmt: &str) -> (r: Vec<(String, Option<(i64, u32)>)>)
    ensures
        timed_view(r@) == parse_all(pairs_view(records@), fmt@),
{
    let mut out: Vec<(String, Option<(i64, u32)>)> = Vec::new();
    let mut i: usize = 0;
    while i < records.len()
        invariant
            i <= records@.len(),
            out@.len() == i,
            forall|k: int|
                0 <= k < i ==> #[trigger] out@[k].0@ == records@[k].0@ && out@[k].1 == parsed_time(
                    records@[k].1@,
                    fmt@,
                ),
        decreases records@.len() - i,
    {
        let t = parse_timestamp(records[i].1.as_str(), fmt);
        out.push((records[i].0.clone(), t));
        i = i + 1;
    }
    assert(timed_view(out@) =~= parse_all(pairs_view(records@), fmt@));
    out
}

/// The number of records of `address` whose time lies in `[lo, hi]`.
fn count_hits(recs: &Vec<(String, Option<(i64, u32)>)>, address: &String, lo: i128, hi: i128) -> (n: usize)
    ensures
        n == hits(timed_view(recs@), address@, lo as int, hi as int),
{
    let ghost f = hit_step(address@, lo as int, hi as int);
    let mut n: usize = 0;
    let mut i: usize = 0;
    while i < recs.len()
        invariant
            i <= recs@.len(),
            n <= i,
            f == hit_step(address@, lo as int, hi as int),
            n == timed_view(recs@).subrange(0, i as int).fold_left(0, f),
        decreases recs@.len() - i,
    {
        let ghost prefix = timed_view(recs@).subrange(0, i as int);
        assert(timed_view(recs@).subrange(0, i + 1).drop_last() =~= prefix);
        if recs[i].0 == *address {
            match recs[i].1 {
                Some(t) => {
                    let x = nanos_of(t);
                    if lo <= x && x <= hi {
                        n = n + 1;
                    }
                },
                None => {},
            }
        }
        i = i + 1;
    }
    assert(timed_view(recs@).subrange(0, i as int) =~= timed_view(recs@));
    n
}

/// The addresses of `records` (address and parsed time) that reach `hit_count` hits in
/// some window of `window_seconds` seconds, each once, in order of first appearance.
/// A window starts at a record's time and includes both ends.
pub fn find_suspects_timed(records: &Vec<(String, Option<(i64, u32)>)>, hit_count: u32, window_seconds: u32) -> (r: Vec<String>)
    ensures
        strings_view(r@).no_duplicates(),
        forall|a: Seq<char>|
            strings_view(r@).contains(a) <==> rate_flagged(
                timed_view(records@),
                a,
                hit_count as nat,
                window_seconds as nat,
            ),
{
    let ghost recs = timed_view(records@);
    let mut out: Vec<String> = Vec::new();
    let mut j: usize = 0;
    while j < records.len()
        invariant
            j <= records@.len(),
            recs == timed_view(records@),
            strings_view(out@).no_duplicates(),
            forall|a: Seq<char>|
                strings_view(out@).contains(a) <==> exists|i: int|
                    0 <= i < j && #[trigger] is_anchor(recs, i, hit_count as nat, window_seconds as nat)
                        && recs[i].0 == a,
        decreases records@.len() - j,
    {
        let ghost before = out@;
        match records[j].1 {
            Some(t) => {
                if !contains_string(&out, &records[j].0) {
                    let start = nanos_of(t);
                    let end = start + window_seconds as i128 * NANOS_PER_SECOND;
                    let n = count_hits(records, &records[j].0, start, end);
                    if n >= hit_count as usize {
                        out.push(records[j].0.clone());
                        assert(strings_view(out@) =~= strings_view(before).push(recs[j as int].0));
                    }
                }
            },
            None => {},
        }
        assert forall|a: Seq<char>|
            strings_view(out@).contains(a) <==> exists|i: int|
                0 <= i < j + 1 && #[trigger] is_anchor(recs, i, hit_count as nat, window_seconds as nat)
                    && recs[i].0 == a by {
            if out@.len() > before.len() {
                lemma_push_contains(strings_view(before), recs[j as int].0, a);
            }
            if strings_view(out@).contains(a) && !strings_view(before).contains(a) {
                assert(is_anchor(recs, j as int, hit_count as nat, window_seconds as nat));
            }
        }
        j = j + 1;
    }
    out
}

/// The addresses of `records`, each once, in order of first appearance.
/// Timestamps are parsed in `datetime_format`; records whose timestamp does not parse
/// are left out. See `find_suspects_timed` for when an address is reported.
pub fn find_suspects(
    records: Vec<(String, String)>,
    hit_count: u32,
    window_seconds: u32,
    datetime_format: &str,
) -> (r: Vec<String>)
    ensures
        strings_view(r@).no_duplicates(),
        forall|a: Seq<char>|
            strings_view(r@).contains(a) <==> rate_flagged(
                parse_all(pairs_view(records@), datetime_format@),
                a,
                hit_count as nat,
                window_seconds as nat,
            ),
{
    let timed = parse_records(&records, datetime_format);
    find_suspects_timed(&timed, hit_count, window_seconds)
}

/// The addresses, each once, that have a record in the trailing window of `delta`
/// seconds before `now` (both ends included); with no window, every address.
pub fn recent_addresses(records: &Vec<(String, Option<(i64, u32)>)>, now: (i64, u32), delta: Option<i64>) -> (r: Vec<String>)
    ensures
        strings_view(r@).no_duplicates(),
        forall|a: Seq<char>|
            strings_view(r@).contains(a) <==> recent(timed_view(records@), a, nanos(now), delta),
{
    let now_ns = nanos_of(now);
    let ghost recs = timed_view(records@);
    let mut out: Vec<String> = Vec::new();
    let mut j: usize = 0;
    while j < records.len()
        invariant
            j <= records@.len(),
            recs == timed_view(records@),
            strings_view(out@).no_duplicates(),
            forall|a: Seq<char>|
                strings_view(out@).contains(a) <==> exists|i: int|
                    0 <= i < j && #[trigger] in_window(recs, i, now_ns as int, delta) && recs[i].0 == a,
            now_ns == nanos(now),
            -10_000_000_000_000_000_000_000_000_000 <= now_ns <= 10_000_000_000_000_000_000_000_000_000,
        decreases records@.len() - j,
    {
        let ghost before = out@;
        let inside = match delta {
            None => true,
            Some(d) => match records[j].1 {
                Some(t) => {
                    let tn = nanos_of(t);
                    assert(-9_300_000_000_000_000_000_000_000_000 <= d * 1_000_000_000
                        <= 9_300_000_000_000_000_000_000_000_000) by (nonlinear_arith)
                        requires
                            -9_223_372_036_854_775_808 <= d <= 9_223_372_036_854_775_807,
                    ;
                    now_ns - d as i128 * NANOS_PER_SECOND <= tn && tn <= now_ns
                },
                None => false,
            },
        };
        if inside && !contains_string(&out, &records[j].0) {
            out.push(records[j].0.clone());
            assert(strings_view(out@) =~= strings_view(before).push(recs[j as int].0));
        }
        assert forall|a: Seq<char>|
            strings_view(out@).contains(a) <==> exists|i: int|
                0 <= i < j + 1 && #[trigger] in_window(recs, i, now_ns as int, delta) && recs[i].0 == a by {
            if out@.len() > before.len() {
                lemma_push_contains(strings_view(before), recs[j as int].0, a);
            }
            if strings_view(out@).contains(a) && !strings_view(before).contains(a) {
                assert(in_window(recs, j as int, now_ns as int, delta));
            }
        }
        j = j + 1;
    }
    out
}

/// The addresses, each once, of the lines of `log` that contain `target_route` and whose
/// record lies in the trailing window of `delta` seconds before the current time
/// (timestamps parsed in `timestamp_fmt`); with no window, every such address.
pub fn extract_recent_ips(log: &str, target_route: &str, delta: Option<i64>, timestamp_fmt: &str) -> (r: Vec<String>)
    ensures
        strings_view(r@).no_duplicates(),
        exists|now: int|
            #[trigger] exactly_recent(
                strings_view(r@),
                parse_all(log_records(log@, target_route@), timestamp_fmt@),
                now,
                delta,
            ),
{
    let records = extract_ip_and_timestamp(log, target_route);
    let timed = parse_records(&records, timestamp_fmt);
    let now = utc_now();
    let r = recent_addresses(&timed, now, delta);
    assert(exactly_recent(
        strings_view(r@),
        parse_all(log_records(log@, target_route@), timestamp_fmt@),
        nanos(now),
        delta,
    ));
    r
}

/// The reason given for an address that a rate-limit rule flags.
pub open spec fn rate_reason(name: Seq<char>, ip: Seq<char>, requests: nat, window: nat) -> Seq<char> {
    "(RULE: "@ + name + ")[IP "@ + ip + " EXCEEDED "@ + decimal(requests) + " REQUESTS IN "@
        + decimal(window) + " SECONDS WINDOW]"@
}

/// The reason given for an address that a rate-limit rule flags.
pub fn rate_reason_text(name: &str, ip: &String, requests: u32, window: u32) -> (r: String)
    ensures
        r@ == rate_reason(name@, ip@, requests as nat, window as nat),
{
    let mut out: Vec<char> = Vec::new();
    append_str(&mut out, "(RULE: ");
    append_str(&mut out, name);
    append_str(&mut out, ")[IP ");
    append_str(&mut out, ip.as_str());
    append_str(&mut out, " EXCEEDED ");
    let k = decimal_chars(requests as u64);
    append_chars(&mut out, &k);
    append_str(&mut out, " REQUESTS IN ");
    let w = decimal_chars(window as u64);
    append_chars(&mut out, &w);
    append_str(&mut out, " SECONDS WINDOW]");
    string_of(&out)
}

} // verus!
