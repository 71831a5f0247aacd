//! Date templates for log and configuration paths.
//!
//! A template may hold the tokens `{YYYY}` (four-digit year), `{YY}` (two-digit year),
//! `{MM}` and `{DD}` (zero-padded month and day), `{MD}` (month and day, zero-padded),
//! `{M}` and `{D}` (month and day without padding) and `{YYYYMMDD}`. Each is replaced by
//! that part of a date; all other text stays as it is.

use vstd::prelude::*;
use crate::logline::{is_digit, matches_at};
use crate::text::{
    append_chars, chars_of, decimal, decimal_chars, digit_char, string_of, zero_padded, zero_padded_chars,
};

verus! {

/// Number of date tokens.
pub const TOKEN_COUNT: usize = 8;

/// The date token with index `k`.
pub open spec fn token(k: int) -> Seq<char> {
    if k == 0 {
        seq!['{', 'Y', 'Y', 'Y', 'Y', '}']
    } else if k == 1 {
        seq!['{', 'Y', 'Y', '}']
    } else if k == 2 {
        seq!['{', 'M', 'M', '}']
    } else if k == 3 {
        seq!['{', 'D', 'D', '}']
    } else if k == 4 {
        seq!['{', 'M', 'D', '}']
    } else if k == 5 {
        seq!['{', 'M', '}']
    } else if k == 6 {
        seq!['{', 'D', '}']
    } else {
        seq!['{', 'Y', 'Y', 'Y', 'Y', 'M', 'M', 'D', 'D', '}']
    }
}

/// A year as four digits, zero-padded; outside 0 to 9999, with a sign in front.
pub open spec fn year_text(y: int) -> Seq<char> {
    if 0 <= y <= 9999 {
        zero_padded(y as nat, 4)
    } else if y < 0 {
        seq!['-'] + zero_padded((-y) as nat, 4)
    } else {
        seq!['+'] + zero_padded(y as nat, 4)
    }
}

/// What the date token with index `k` stands for on the date `y`-`m`-`d`.
pub open spec fn token_value(k: int, y: int, m: nat, d: nat) -> Seq<char> {
    if k == 0 {
        year_text(y)
    } else if k == 1 {
        zero_padded((y % 100) as nat, 2)
    } else if k == 2 {
        zero_padded(m, 2)
    } else if k == 3 {
        zero_padded(d, 2)
    } else if k == 4 {
        zero_padded(m, 2) + zero_padded(d, 2)
    } else if k == 5 {
        decimal(m)
    } else if k == 6 {
        decimal(d)
    } else {
        year_text(y) + zero_padded(m, 2) + zero_padded(d, 2)
    }
}

/// A date token starts at position `i` of `t`.
pub open spec fn token_starts(t: Seq<char>, i: int, k: int) -> bool {
    0 <= i && i + token(k).len() <= t.len() && t.subrange(i, i + token(k).len()) == token(k)
}

/// The first date token, from index `k` on, that starts at position `i` of `t`.
pub open spec fn token_at(t: Seq<char>, i: int, k: int) -> Option<int>
    decreases 8 - k,
{
    if k < 0 || k >= 8 {
        None
    } else if token_starts(t, i, k) {
        Some(k)
    } else {
        token_at(t, i, k + 1)
    }
}

proof fn lemma_token_at(t: Seq<char>, i: int, k0: int)
    ensures
        token_at(t, i, k0) matches Some(k) ==> k0 <= k < 8 && token_starts(t, i, k) && token(k).len() > 0,
    decreases 8 - k0,
{
    if 0 <= k0 < 8 && !token_starts(t, i, k0) {
        lemma_token_at(t, i, k0 + 1);
    }
}

/// `t` from position `i` on with its date tokens replaced.
pub open spec fn expand_from(t: Seq<char>, i: int, y: int, m: nat, d: nat) -> Seq<char>
    decreases t.len() - i,
{
    if i < 0 || i >= t.len() {
        seq![]
    } else {
        match token_at(t, i, 0) {
            Some(k) => if 0 < token(k).len() && i + token(k).len() <= t.len() {
                token_value(k, y, m, d) + expand_from(t, i + token(k).len(), y, m, d)
            } else {
                seq![]
            },
            None => seq![t[i]] + expand_from(t, i + 1, y, m, d),
        }
    }
}

/// The template `t` with its date tokens replaced by the parts of the date `y`-`m`-`d`.
pub open spec fn expand(t: Seq<char>, y: int, m: nat, d: nat) -> Seq<char> {
    expand_from(t, 0, y, m, d)
}

proof fn lemma_token_brace(k: int)
    ensures
        token(k).len() >= 3,
        token(k)[0] == '{',
{
}

/// `t` with every occurrence of date token `k`, from left to right, replaced by `v`.
pub open spec fn replace_token(t: Seq<char>, k: int, v: Seq<char>) -> Seq<char>
    decreases t.len(),
{
    if t.len() == 0 {
        seq![]
    } else if token_starts(t, 0, k) && token(k).len() > 0 {
        v + replace_token(t.subrange(token(k).len() as int, t.len() as int), k, v)
    } else {
        seq![t[0]] + replace_token(t.subrange(1, t.len() as int), k, v)
    }
}

/// The only date tokens in `t` are `{YYYY}` and `{MM}`.
pub open spec fn only_year_month(t: Seq<char>) -> bool {
    forall|i: int, k: int| 0 <= k < 8 && #[trigger] token_starts(t, i, k) ==> k == 0 || k == 2
}

/// `s` holds no `{`, and does not start with `M` or `}`.
spec fn inert(s: Seq<char>) -> bool {
    &&& s.len() > 0
    &&& s[0] != 'M' && s[0] != '}'
    &&& forall|i: int| 0 <= i < s.len() ==> s[i] != '{'
}

proof fn lemma_decimal_digits(n: nat)
    ensures
        forall|i: int| 0 <= i < decimal(n).len() ==> is_digit(#[trigger] decimal(n)[i]),
        decimal(n).len() > 0,
    decreases n,
{
    assert forall|d: nat| is_digit(#[trigger] digit_char(d)) by {
        let r = d % 10;
        assert(0 <= r < 10);
    }
    if n >= 10 {
        lemma_decimal_digits(n / 10);
    }
}

proof fn lemma_padded_digits(n: nat, w: nat)
    ensures
        forall|i: int| 0 <= i < zero_padded(n, w).len() ==> is_digit(#[trigger] zero_padded(n, w)[i]),
        zero_padded(n, w).len() > 0,
{
    lemma_decimal_digits(n);
    let d = decimal(n);
    if d.len() < w {
        let z = Seq::new((w - d.len()) as nat, |i: int| '0');
        assert forall|i: int| 0 <= i < zero_padded(n, w).len() implies is_digit(#[trigger] zero_padded(n, w)[i]) by {
            if i >= z.len() {
                assert(zero_padded(n, w)[i] == d[i - z.len()]);
            }
        }
    }
}

proof fn lemma_year_inert(y: int)
    ensures
        inert(year_text(y)),
{
    if 0 <= y <= 9999 {
        lemma_padded_digits(y as nat, 4);
    } else if y < 0 {
        lemma_padded_digits((-y) as nat, 4);
        let p = zero_padded((-y) as nat, 4);
        assert forall|i: int| 0 <= i < year_text(y).len() implies year_text(y)[i] != '{' by {
            if i > 0 {
                assert(year_text(y)[i] == p[i - 1]);
            }
        }
    } else {
        lemma_padded_digits(y as nat, 4);
        let p = zero_padded(y as nat, 4);
        assert forall|i: int| 0 <= i < year_text(y).len() implies year_text(y)[i] != '{' by {
            if i > 0 {
                assert(year_text(y)[i] == p[i - 1]);
            }
        }
    }
}

proof fn lemma_tail_tokens(t: Seq<char>, a: int, i: int, k: int)
    requires
        0 <= a <= t.len(),
    ensures
        token_starts(t.subrange(a, t.len() as int), i, k) ==> token_starts(t, a + i, k),
{
    let s = t.subrange(a, t.len() as int);
    if token_starts(s, i, k) {
        assert(s.subrange(i, i + token(k).len()) =~= t.subrange(a + i, a + i + token(k).len()));
    }
}

proof fn lemma_tail_only(t: Seq<char>, a: int)
    requires
        0 <= a <= t.len(),
        only_year_month(t),
    ensures
        only_year_month(t.subrange(a, t.len() as int)),
{
    assert forall|i: int, k: int|
        0 <= k < 8 && #[trigger] token_starts(t.subrange(a, t.len() as int), i, k) implies k == 0 || k == 2 by {
        lemma_tail_tokens(t, a, i, k);
    }
}

/// `expand_from` at a position is `expand` of the rest of the template.
proof fn lemma_expand_tail(t: Seq<char>, i: int, y: int, m: nat, d: nat)
    requires
        0 <= i <= t.len(),
    ensures
        expand_from(t, i, y, m, d) == expand(t.subrange(i, t.len() as int), y, m, d),
    decreases t.len() - i,
{
    let s = t.subrange(i, t.len() as int);
    if i < t.len() {
        assert forall|k: int| token_starts(t, i, k) == token_starts(s, 0, k) by {
            if i + token(k).len() <= t.len() {
                assert(s.subrange(0, token(k).len() as int) =~= t.subrange(i, i + token(k).len()));
            }
        }
        assert(token_at(t, i, 0) == token_at(s, 0, 0)) by {
            assert(token_at(t, i, 8) == token_at(s, 0, 8));
            assert(token_at(t, i, 7) == token_at(s, 0, 7));
            assert(token_at(t, i, 6) == token_at(s, 0, 6));
            assert(token_at(t, i, 5) == token_at(s, 0, 5));
            assert(token_at(t, i, 4) == token_at(s, 0, 4));
            assert(token_at(t, i, 3) == token_at(s, 0, 3));
            assert(token_at(t, i, 2) == token_at(s, 0, 2));
            assert(token_at(t, i, 1) == token_at(s, 0, 1));
        }
        lemma_token_at(t, i, 0);
        match token_at(t, i, 0) {
            Some(k) => {
                let n = token(k).len() as int;
                lemma_expand_tail(t, i + n, y, m, d);
                lemma_expand_tail(s, n, y, m, d);
                assert(s.subrange(n, s.len() as int) =~= t.subrange(i + n, t.len() as int));
            },
            None => {
                lemma_expand_tail(t, i + 1, y, m, d);
                lemma_expand_tail(s, 1, y, m, d);
                assert(s.subrange(1, s.len() as int) =~= t.subrange(i + 1, t.len() as int));
            },
        }
    }
}

/// Replacing a token leaves a leading part without `{` as it is.
proof fn lemma_replace_inert_prefix(p: Seq<char>, s: Seq<char>, k: int, v: Seq<char>)
    requires
        forall|i: int| 0 <= i < p.len() ==> p[i] != '{',
    ensures
        replace_token(p + s, k, v) == p + replace_token(s, k, v),
    decreases p.len(),
{
    if p.len() > 0 {
        let t = p + s;
        assert(!token_starts(t, 0, k)) by {
            if token_starts(t, 0, k) {
                lemma_token_brace(k);
                assert(t.subrange(0, token(k).len() as int)[0] == t[0]);
            }
        }
        let q = p.subrange(1, p.len() as int);
        lemma_replace_inert_prefix(q, s, k, v);
        assert(t.subrange(1, t.len() as int) =~= q + s);
        assert(p =~= seq![p[0]] + q);
    }
}

/// If replacing `{YYYY}` in `s` by `v` gives text that starts with `c`, where `c` is
/// neither `{` nor the first character of `v`, then `s` starts with `c` too.
proof fn lemma_replace_first(s: Seq<char>, v: Seq<char>, c: char)
    requires
        inert(v),
        c != '{',
        c != v[0],
        replace_token(s, 0, v).len() > 0,
        replace_token(s, 0, v)[0] == c,
    ensures
        s.len() > 0,
        s[0] == c,
        replace_token(s, 0, v) == seq![c] + replace_token(s.subrange(1, s.len() as int), 0, v),
{
    if token_starts(s, 0, 0) {
        assert((v + replace_token(s.subrange(6, s.len() as int), 0, v))[0] == v[0]);
    }
}

/// A template whose only date tokens are `{YYYY}` and `{MM}` resolves to the template
/// with each `{YYYY}` replaced by the year written with four digits, and then each `{MM}`
/// replaced by the month written with two digits.
pub proof fn lemma_year_month_template(t: Seq<char>, y: int, m: nat, d: nat)
    requires
        1 <= m <= 12,
        1 <= d <= 31,
        only_year_month(t),
    ensures
        expand(t, y, m, d) == replace_token(replace_token(t, 0, year_text(y)), 2, zero_padded(m, 2)),
    decreases t.len(),
{
    let yv = year_text(y);
    let mv = zero_padded(m, 2);
    lemma_year_inert(y);
    if t.len() > 0 {
        lemma_token_at(t, 0, 0);
        if token_starts(t, 0, 0) {
            let rest = t.subrange(6, t.len() as int);
            lemma_expand_tail(t, 6, y, m, d);
            lemma_tail_only(t, 6);
            lemma_year_month_template(rest, y, m, d);
            lemma_replace_inert_prefix(yv, replace_token(rest, 0, yv), 2, mv);
        } else if token_starts(t, 0, 2) {
            let rest = t.subrange(4, t.len() as int);
            assert(t.subrange(0, 4) =~= token(2));
            assert(t[1] == 'M' && t[2] == 'M' && t[3] == '}');
            assert(!token_starts(t, 0, 1)) by {
                if token_starts(t, 0, 1) {
                    assert(t.subrange(0, 4)[1] == 'Y');
                }
            }
            assert(token_at(t, 0, 2) == Some(2int));
            assert(token_at(t, 0, 1) == Some(2int));
            lemma_expand_tail(t, 4, y, m, d);
            lemma_tail_only(t, 4);
            lemma_year_month_template(rest, y, m, d);
            let mmb = seq!['M', 'M', '}'];
            assert(t.subrange(1, t.len() as int) =~= mmb + rest);
            lemma_replace_inert_prefix(mmb, rest, 0, yv);
            let r0 = replace_token(t, 0, yv);
            assert(r0 =~= token(2) + replace_token(rest, 0, yv));
            assert(r0.subrange(0, 4) =~= token(2));
            assert(r0.subrange(4, r0.len() as int) =~= replace_token(rest, 0, yv));
        } else {
            assert forall|k: int| 0 <= k < 8 implies !token_starts(t, 0, k) by {
                if token_starts(t, 0, k) {
                    assert(k == 0 || k == 2);
                }
            }
            assert(token_at(t, 0, 0) is None) by {
                assert(token_at(t, 0, 7) is None);
                assert(token_at(t, 0, 6) is None);
                assert(token_at(t, 0, 5) is None);
                assert(token_at(t, 0, 4) is None);
                assert(token_at(t, 0, 3) is None);
                assert(token_at(t, 0, 2) is None);
                assert(token_at(t, 0, 1) is None);
            }
            let rest = t.subrange(1, t.len() as int);
            lemma_expand_tail(t, 1, y, m, d);
            lemma_tail_only(t, 1);
            lemma_year_month_template(rest, y, m, d);
            let r1 = replace_token(rest, 0, yv);
            let r0 = replace_token(t, 0, yv);
            assert(r0 == seq![t[0]] + r1);
            assert(!token_starts(r0, 0, 2)) by {
                if token_starts(r0, 0, 2) {
                    assert(r0.subrange(0, 4) =~= token(2));
                    assert(r0[0] == '{' && r0[1] == 'M' && r0[2] == 'M' && r0[3] == '}');
                    assert(r1[0] == r0[1]);
                    lemma_replace_first(rest, yv, 'M');
                    let rest2 = rest.subrange(1, rest.len() as int);
                    let r2 = replace_token(rest2, 0, yv);
                    assert(r2[0] == r0[2]);
                    lemma_replace_first(rest2, yv, 'M');
                    let rest3 = rest2.subrange(1, rest2.len() as int);
                    let r3 = replace_token(rest3, 0, yv);
                    assert(r3[0] == r0[3]);
                    lemma_replace_first(rest3, yv, '}');
                    assert(t.subrange(0, 4) =~= token(2));
                }
            }
            assert(r0.subrange(1, r0.len() as int) =~= r1);
        }
    }
}

/// `s` without its leading zeros.
pub open spec fn trim_zeros(s: Seq<char>) -> Seq<char>
    decreases s.len(),
{
    if s.len() > 0 && s[0] == '0' {
        trim_zeros(s.drop_first())
    } else {
        s
    }
}

/// `t` from position `i` on with each `{MM}` replaced by `v`.
pub open spec fn replace_month_from(t: Seq<char>, i: int, v: Seq<char>) -> Seq<char>
    decreases t.len() - i,
{
    if i < 0 || i >= t.len() {
        seq![]
    } else if token_starts(t, i, 2) {
        v + replace_month_from(t, i + 4, v)
    } else {
        seq![t[i]] + replace_month_from(t, i + 1, v)
    }
}

/// The path of the server configuration for a month: `location` with each `{MM}`
/// replaced by `month` without leading zeros.
pub fn resolve_conf(location: &str, month: &str) -> (r: String)
    ensures
        r@ == replace_month_from(location@, 0, trim_zeros(month@)),
{
    let m = chars_of(month);
    let mut start: usize = 0;
    assert(m@.subrange(0, m@.len() as int) =~= m@);
    while start < m.len() && m[start] == '0'
        invariant
            start <= m@.len(),
            trim_zeros(m@) == trim_zeros(m@.subrange(start as int, m@.len() as int)),
        decreases m@.len() - start,
    {
        assert(m@.subrange(start as int, m@.len() as int).drop_first() =~= m@.subrange(start + 1, m@.len() as int));
        start = start + 1;
    }
    let v = crate::logline::subvec(&m, start, m.len());
    let t = chars_of(location);
    let tok = token_chars(2);
    let mut out: Vec<char> = Vec::new();
    let mut i: usize = 0;
    while i < t.len()
        invariant
            i <= t@.len(),
            t@ == location@,
            tok@ == token(2),
            out@ + replace_month_from(t@, i as int, v@) == replace_month_from(t@, 0, v@),
        decreases t@.len() - i,
    {
        let ghost before = out@;
        if matches_at(&t, i, &tok) {
            append_chars(&mut out, &v);
            assert(before + replace_month_from(t@, i as int, v@) =~= out@ + replace_month_from(t@, i + 4, v@));
            i = i + 4;
        } else {
            out.push(t[i]);
            assert(before + replace_month_from(t@, i as int, v@) =~= out@ + replace_month_from(t@, i + 1, v@));
            i = i + 1;
        }
    }
    assert(out@ + replace_month_from(t@, i as int, v@) =~= out@);
    string_of(&out)
}

/// Relies on chrono's `Local::now` and `Datelike::year`, `Datelike::month` (1 to 12)
/// and `Datelike::day` (1 to 31): today's local date.
#[verifier::external_body]
fn local_date_now() -> (r: (i32, u32, u32))
    ensures
        1 <= r.1 <= 12,
        1 <= r.2 <= 31,
{
    let now = chrono::Local::now();
    (chrono::Datelike::year(&now), chrono::Datelike::month(&now), chrono::Datelike::day(&now))
}

fn year_chars(y: i32) -> (r: Vec<char>)
    ensures
        r@ == year_text(y as int),
{
    if 0 <= y && y <= 9999 {
        zero_padded_chars(y as u64, 4)
    } else {
        let mut out: Vec<char> = Vec::new();
        let magnitude: u64 = if y < 0 {
            out.push('-');
            (-(y as i64)) as u64
        } else {
            out.push('+');
            y as u64
        };
        let digits = zero_padded_chars(magnitude, 4);
        append_chars(&mut out, &digits);
        out
    }
}

fn year_mod_100(y: i32) -> (r: u64)
    ensures
        r == (y as int) % 100,
{
    if y >= 0 {
        (y % 100) as u64
    } else {
        let u: u64 = (-(y as i64)) as u64;
        let rem: u64 = u % 100;
        if rem == 0 {
            assert((y as int) % 100 == 0) by (nonlinear_arith)
                requires
                    u == -(y as int),
                    rem == u % 100,
                    rem == 0,
            ;
            0
        } else {
            assert((y as int) % 100 == 100 - rem) by (nonlinear_arith)
                requires
                    u == -(y as int),
                    rem == u % 100,
                    rem != 0,
            ;
            100 - rem
        }
    }
}

fn token_value_chars(k: usize, y: i32, m: u32, d: u32) -> (r: Vec<char>)
    requires
        k < 8,
    ensures
        r@ == token_value(k as int, y as int, m as nat, d as nat),
{
    if k == 0 {
        year_chars(y)
    } else if k == 1 {
        zero_padded_chars(year_mod_100(y), 2)
    } else if k == 2 {
        zero_padded_chars(m as u64, 2)
    } else if k == 3 {
        zero_padded_chars(d as u64, 2)
    } else if k == 4 {
        let mut out = zero_padded_chars(m as u64, 2);
        let dd = zero_padded_chars(d as u64, 2);
        append_chars(&mut out, &dd);
        out
    } else if k == 5 {
        decimal_chars(m as u64)
    } else if k == 6 {
        decimal_chars(d as u64)
    } else {
        let mut out = year_chars(y);
        let mm = zero_padded_chars(m as u64, 2);
        append_chars(&mut out, &mm);
        let dd = zero_padded_chars(d as u64, 2);
        append_chars(&mut out, &dd);
        out
    }
}

fn token_chars(k: usize) -> (r: Vec<char>)
    requires
        k < 8,
    ensures
        r@ == token(k as int),
{
    let s = if k == 0 {
        "{YYYY}"
    } else if k == 1 {
        "{YY}"
    } else if k == 2 {
        "{MM}"
    } else if k == 3 {
        "{DD}"
    } else if k == 4 {
        "{MD}"
    } else if k == 5 {
        "{M}"
    } else if k == 6 {
        "{D}"
    } else {
        "{YYYYMMDD}"
    };
    let r = chars_of(s);
    proof {
        reveal_strlit("{YYYY}");
        reveal_strlit("{YY}");
        reveal_strlit("{MM}");
        reveal_strlit("{DD}");
        reveal_strlit("{MD}");
        reveal_strlit("{M}");
        reveal_strlit("{D}");
        reveal_strlit("{YYYYMMDD}");
        assert(r@ =~= token(k as int));
    }
    r
}

/// The template `template` with its date tokens replaced by the parts of the date
/// `year`-`month`-`day`.
pub fn resolve_template_on(template: &str, year: i32, month: u32, day: u32) -> (r: String)
    ensures
        r@ == expand(template@, year as int, month as nat, day as nat),
{
    let t = chars_of(template);
    let mut toks: Vec<Vec<char>> = Vec::new();
    let mut vals: Vec<Vec<char>> = Vec::new();
    let mut k: usize = 0;
    while k < TOKEN_COUNT
        invariant
            k <= 8,
            toks@.len() == k,
            vals@.len() == k,
            forall|j: int| 0 <= j < k ==> #[trigger] toks@[j]@ == token(j),
            forall|j: int| 0 <= j < k ==> #[trigger] vals@[j]@ == token_value(j, year as int, month as nat, day as nat),
        decreases 8 - k,
    {
        toks.push(token_chars(k));
        vals.push(token_value_chars(k, year, month, day));
        k = k + 1;
    }
    let ghost (y, m, d) = (year as int, month as nat, day as nat);
    let mut out: Vec<char> = Vec::new();
    let mut i: usize = 0;
    while i < t.len()
        invariant
            i <= t@.len(),
            t@ == template@,
            toks@.len() == 8,
            vals@.len() == 8,
            forall|j: int| 0 <= j < 8 ==> #[trigger] toks@[j]@ == token(j),
            forall|j: int| 0 <= j < 8 ==> #[trigger] vals@[j]@ == token_value(j, y, m, d),
            out@ + expand_from(t@, i as int, y, m, d) == expand(t@, y, m, d),
        decreases t@.len() - i,
    {
        let ghost before = out@;
        let mut k: usize = 0;
        let mut found: Option<usize> = None;
        while k < TOKEN_COUNT
            invariant
                k <= 8,
                i < t@.len(),
                toks@.len() == 8,
                forall|j: int| 0 <= j < 8 ==> #[trigger] toks@[j]@ == token(j),
                found is None ==> token_at(t@, i as int, 0) == token_at(t@, i as int, k as int),
                found matches Some(f) ==> f < 8 && token_at(t@, i as int, 0) == Some(f as int),
            decreases 8 - k,
        {
            if found.is_none() {
                if matches_at(&t, i, &toks[k]) {
                    found = Some(k);
                }
            }
            k = k + 1;
        }
        proof {
            lemma_token_at(t@, i as int, 0);
        }
        match found {
            Some(f) => {
                let n = toks[f].len();
                append_chars(&mut out, &vals[f]);
                assert(before + expand_from(t@, i as int, y, m, d) =~= out@ + expand_from(t@, i + n, y, m, d));
                i = i + n;
            },
            None => {
                out.push(t[i]);
                assert(before + expand_from(t@, i as int, y, m, d) =~= out@ + expand_from(t@, i + 1, y, m, d));
                i = i + 1;
            },
        }
    }
    assert(out@ + expand_from(t@, i as int, y, m, d) =~= out@);
    string_of(&out)
}

/// The template `template` with its date tokens replaced by the parts of today's local date.
pub fn resolve_logfile_template(template: &str) -> (r: String)
    ensures
        exists|y: i32, m: u32, d: u32|
            1 <= m <= 12 && 1 <= d <= 31 && r@ == #[trigger] expand(template@, y as int, m as nat, d as nat),
{
    let (y, m, d) = local_date_now();
    resolve_template_on(template, y, m, d)
}

} // verus!
