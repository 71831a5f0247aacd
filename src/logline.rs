//! Extraction of (address, timestamp) records from access-log text.
//!
//! A record line holds a dotted-quad address (four groups of one to three ASCII digits
//! joined by dots) immediately followed by ` - - [`, a non-empty timestamp field and a
//! closing `]`. The first position in the line where that shape starts is the match.

use vstd::prelude::*;
use crate::text::{chars_of, string_of};

verus! {

pub open spec fn is_digit(c: char) -> bool {
    '0' <= c && c <= '9'
}

/// The number of consecutive digits of `l` from position `p` on.
pub open spec fn digit_run(l: Seq<char>, p: int) -> nat
    decreases l.len() - p,
{
    if 0 <= p < l.len() && is_digit(l[p]) {
        1 + digit_run(l, p + 1)
    } else {
        0
    }
}

/// Where a dotted group of `k + 1` numbers of one to three digits, starting at `p`, ends.
pub open spec fn quad_end(l: Seq<char>, p: int, k: nat) -> Option<int>
    decreases k,
{
    let n = digit_run(l, p);
    if n < 1 || n > 3 {
        None
    } else if k == 0 {
        Some(p + n)
    } else if p + n < l.len() && l[p + n] == '.' {
        quad_end(l, p + n + 1, (k - 1) as nat)
    } else {
        None
    }
}

/// The text between an address and its timestamp field.
pub open spec fn separator() -> Seq<char> {
    seq![' ', '-', ' ', '-', ' ', '[']
}

/// The position of the first `]` at or after `q`, or the length of `l` when there is none.
pub open spec fn close_pos(l: Seq<char>, q: int) -> int
    decreases l.len() - q,
{
    if q < 0 || q >= l.len() {
        l.len() as int
    } else if l[q] == ']' {
        q
    } else {
        close_pos(l, q + 1)
    }
}

/// The address and timestamp of a record that starts at position `s`, if one does.
pub open spec fn fields_at(l: Seq<char>, s: int) -> Option<(Seq<char>, Seq<char>)> {
    match quad_end(l, s, 3) {
        None => None,
        Some(e) => {
            let q = e + 6;
            if q <= l.len() && l.subrange(e, q) == separator() && q < close_pos(l, q) < l.len() {
                Some((l.subrange(s, e), l.subrange(q, close_pos(l, q))))
            } else {
                None
            }
        },
    }
}

/// The record of the first position at or after `s` where one starts.
pub open spec fn fields_from(l: Seq<char>, s: int) -> Option<(Seq<char>, Seq<char>)>
    decreases l.len() - s,
{
    if s < 0 || s >= l.len() {
        None
    } else if fields_at(l, s) is Some {
        fields_at(l, s)
    } else {
        fields_from(l, s + 1)
    }
}

/// The (address, timestamp) record of a log line, if it holds one.
pub open spec fn log_fields(l: Seq<char>) -> Option<(Seq<char>, Seq<char>)> {
    fields_from(l, 0)
}

/// `l` contains `r` as a contiguous part.
pub open spec fn contains(l: Seq<char>, r: Seq<char>) -> bool {
    exists|i: int| 0 <= i <= l.len() - r.len() && #[trigger] l.subrange(i, i + r.len()) == r
}

/// What one line contributes: its record, when the line contains the route and holds one.
pub open spec fn line_record(l: Seq<char>, route: Seq<char>) -> Seq<(Seq<char>, Seq<char>)> {
    if contains(l, route) && log_fields(l) is Some {
        seq![log_fields(l)->0]
    } else {
        seq![]
    }
}

/// A line without the `\r` of a `\r\n` ending.
pub open spec fn strip_cr(l: Seq<char>) -> Seq<char> {
    if l.len() > 0 && l.last() == '\r' {
        l.drop_last()
    } else {
        l
    }
}

/// The records of the text `c`, where the current line started at `start` and the scan
/// stands at `i`. Lines end at `\n` (or `\r\n`); a last line without an ending counts too.
pub open spec fn records_from(c: Seq<char>, route: Seq<char>, start: int, i: int) -> Seq<
    (Seq<char>, Seq<char>),
>
    decreases c.len() - i,
{
    if i < 0 || i >= c.len() {
        if 0 <= start < c.len() {
            line_record(c.subrange(start, c.len() as int), route)
        } else {
            seq![]
        }
    } else if c[i] == '\n' {
        line_record(strip_cr(c.subrange(start, i)), route) + records_from(c, route, i + 1, i + 1)
    } else {
        records_from(c, route, start, i + 1)
    }
}

/// The records, in order, of every line of the log text `c` that contains `route`.
pub open spec fn log_records(c: Seq<char>, route: Seq<char>) -> Seq<(Seq<char>, Seq<char>)> {
    records_from(c, route, 0, 0)
}

/// The views of a sequence of string pairs.
pub open spec fn pairs_view(v: Seq<(String, String)>) -> Seq<(Seq<char>, Seq<char>)> {
    v.map_values(|p: (String, String)| (p.0@, p.1@))
}

fn digit_run_exec(l: &Vec<char>, p: usize) -> (n: usize)
    requires
        p <= l@.len(),
    ensures
        n == digit_run(l@, p as int),
        p + n <= l@.len(),
{
    let mut i = p;
    while i < l.len() && '0' <= l[i] && l[i] <= '9'
        invariant
            p <= i <= l@.len(),
            digit_run(l@, p as int) == (i - p) + digit_run(l@, i as int),
        decreases l@.len() - i,
    {
        i = i + 1;
    }
    i - p
}

fn quad_end_exec(l: &Vec<char>, p: usize, k: usize) -> (r: Option<usize>)
    requires
        p <= l@.len(),
    ensures
        r matches Some(e) ==> quad_end(l@, p as int, k as nat) == Some(e as int) && p <= e <= l@.len(),
        r is None ==> quad_end(l@, p as int, k as nat) is None,
    decreases k,
{
    let len = l.len();
    let n = digit_run_exec(l, p);
    if n < 1 || n > 3 {
        None
    } else if k == 0 {
        Some(p + n)
    } else if p + n < l.len() && l[p + n] == '.' {
        quad_end_exec(l, p + n + 1, k - 1)
    } else {
        None
    }
}

fn close_pos_exec(l: &Vec<char>, q: usize) -> (r: usize)
    requires
        q <= l@.len(),
    ensures
        r == close_pos(l@, q as int),
        q <= r <= l@.len(),
{
    let mut i = q;
    while i < l.len() && l[i] != ']'
        invariant
            q <= i <= l@.len(),
            close_pos(l@, q as int) == close_pos(l@, i as int),
        decreases l@.len() - i,
    {
        i = i + 1;
    }
    i
}

/// `l[from..from + r.len()]` equals `r`.
pub(crate) fn matches_at(l: &Vec<char>, from: usize, r: &Vec<char>) -> (b: bool)
    requires
        from <= l@.len(),
    ensures
        b == (from + r@.len() <= l@.len() && l@.subrange(from as int, from + r@.len()) == r@),
{
    if r.len() > l.len() - from {
        return false;
    }
    let mut j: usize = 0;
    while j < r.len()
        invariant
            from + r@.len() <= l@.len(),
            l@.len() <= usize::MAX,
            j <= r@.len(),
            forall|t: int| 0 <= t < j ==> l@[from + t] == r@[t],
        decreases r@.len() - j,
    {
        if l[from + j] != r[j] {
            assert(l@.subrange(from as int, from + r@.len())[j as int] != r@[j as int]);
            return false;
        }
        j = j + 1;
    }
    assert(l@.subrange(from as int, from + r@.len()) =~= r@);
    true
}

fn fields_at_exec(l: &Vec<char>, s: usize, sep: &Vec<char>) -> (r: Option<(usize, usize, usize)>)
    requires
        s <= l@.len(),
        sep@ == separator(),
    ensures
        r is None <==> fields_at(l@, s as int) is None,
        r matches Some((e, q, t)) ==> s <= e <= q <= t <= l@.len() && fields_at(l@, s as int)
            == Some((l@.subrange(s as int, e as int), l@.subrange(q as int, t as int))),
{
    let len = l.len();
    assert(separator().len() == 6);
    match quad_end_exec(l, s, 3) {
        None => None,
        Some(e) => {
            if matches_at(l, e, sep) {
                let q = e + 6;
                let t = close_pos_exec(l, q);
                if q < t && t < l.len() {
                    Some((e, q, t))
                } else {
                    None
                }
            } else {
                None
            }
        },
    }
}

pub(crate) fn subvec(l: &Vec<char>, from: usize, to: usize) -> (r: Vec<char>)
    requires
        from <= to <= l@.len(),
    ensures
        r@ == l@.subrange(from as int, to as int),
{
    let mut out: Vec<char> = Vec::new();
    let mut i = from;
    while i < to
        invariant
            from <= i <= to,
            to <= l@.len(),
            out@ == l@.subrange(from as int, i as int),
        decreases to - i,
    {
        out.push(l[i]);
        i = i + 1;
        assert(out@ =~= l@.subrange(from as int, i as int));
    }
    out
}

/// The (address, timestamp) record of a log line, if it holds one.
pub fn match_log_line(l: &Vec<char>) -> (r: Option<(Vec<char>, Vec<char>)>)
    ensures
        r is None <==> log_fields(l@) is None,
        r matches Some((a, t)) ==> log_fields(l@) == Some((a@, t@)),
{
    let sep = chars_of(" - - [");
    proof {
        reveal_strlit(" - - [");
        assert(sep@ =~= separator());
    }
    let mut s: usize = 0;
    while s < l.len()
        invariant
            s <= l@.len(),
            sep@ == separator(),
            log_fields(l@) == fields_from(l@, s as int),
        decreases l@.len() - s,
    {
        match fields_at_exec(l, s, &sep) {
            Some((b, q, t)) => {
                let a = subvec(l, s, b);
                let ts = subvec(l, q, t);
                return Some((a, ts));
            },
            None => {
                s = s + 1;
            },
        }
    }
    None
}

/// Whether `r` occurs in `l`.
pub fn contains_exec(l: &Vec<char>, r: &Vec<char>) -> (b: bool)
    ensures
        b == contains(l@, r@),
{
    if r.len() > l.len() {
        return false;
    }
    let last = l.len() - r.len();
    let mut i: usize = 0;
    while i <= last
        invariant
            last == l@.len() - r@.len(),
            i <= last + 1,
            forall|j: int| 0 <= j < i ==> #[trigger] l@.subrange(j, j + r@.len()) != r@,
        decreases last + 1 - i,
    {
        if matches_at(l, i, r) {
            return true;
        }
        if i == last {
            return false;
        }
        i = i + 1;
    }
    false
}

fn strip_cr_exec(l: Vec<char>) -> (r: Vec<char>)
    ensures
        r@ == strip_cr(l@),
{
    let mut l = l;
    if l.len() > 0 && l[l.len() - 1] == '\r' {
        l.pop();
    }
    l
}

fn push_line_record(out: &mut Vec<(String, String)>, l: &Vec<char>, route: &Vec<char>)
    ensures
        pairs_view(final(out)@) == pairs_view(old(out)@) + line_record(l@, route@),
{
    if contains_exec(l, route) {
        match match_log_line(l) {
            Some((a, t)) => {
                out.push((string_of(&a), string_of(&t)));
                assert(pairs_view(out@) =~= pairs_view(old(out)@) + line_record(l@, route@));
            },
            None => {
                assert(pairs_view(out@) =~= pairs_view(old(out)@) + line_record(l@, route@));
            },
        }
    } else {
        assert(pairs_view(out@) =~= pairs_view(old(out)@) + line_record(l@, route@));
    }
}

/// The (address, timestamp) records, in order, of the lines of `log` that contain
/// `target_route`. Timestamps are left unparsed.
pub fn extract_ip_and_timestamp(log: &str, target_route: &str) -> (r: Vec<(String, String)>)
    ensures
        pairs_view(r@) == log_records(log@, target_route@),
{
    let c = chars_of(log);
    let route = chars_of(target_route);
    let mut out: Vec<(String, String)> = Vec::new();
    let mut start: usize = 0;
    let mut i: usize = 0;
    assert(pairs_view(out@) =~= seq![]);
    while i < c.len()
        invariant
            start <= i <= c@.len(),
            c@ == log@,
            route@ == target_route@,
            pairs_view(out@) + records_from(c@, route@, start as int, i as int) == log_records(
                log@,
                target_route@,
            ),
        decreases c@.len() - i,
    {
        if c[i] == '\n' {
            let line = strip_cr_exec(subvec(&c, start, i));
            let ghost before = out@;
            push_line_record(&mut out, &line, &route);
            assert(pairs_view(before) + records_from(c@, route@, start as int, i as int)
                =~= pairs_view(out@) + records_from(c@, route@, i + 1, i + 1));
            start = i + 1;
        }
        i = i + 1;
    }
    if start < c.len() {
        let line = subvec(&c, start, c.len());
        push_line_record(&mut out, &line, &route);
    } else {
        assert(pairs_view(out@) + records_from(c@, route@, start as int, i as int) =~= pairs_view(out@));
    }
    out
}

} // verus!
