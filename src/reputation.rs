//! The reputation rule. Deciding which addresses need an outside confidence score is
//! split from turning the scores into suspects, so that the caller performs exactly the
//! queries that the plan asks for: none for an address with a recorded verdict.

use vstd::prelude::*;
use crate::detect::{contains_string, strings_view};
use crate::rate_limit::addresses;
use crate::aggregate::keys;
use crate::text::{append_chars, append_str, decimal, decimal_chars, string_of};

verus! {

/// A verdict recorded earlier for an address.
pub struct HistoryIP {
    pub ip: String,
    pub reason: String,
}

/// What is to be done about one address.
pub enum ReputationCheck {
    /// A verdict is recorded: its reason is reused, and no query is made.
    Cached { ip: String, reason: String },
    /// No verdict is recorded: the address's confidence score is to be queried.
    Query { ip: String },
}

impl ReputationCheck {
    pub open spec fn view_pair(&self) -> (Seq<char>, Option<Seq<char>>) {
        match self {
            ReputationCheck::Cached { ip, reason } => (ip@, Some(reason@)),
            ReputationCheck::Query { ip } => (ip@, None),
        }
    }
}

/// The views of a plan: each address with its recorded reason, if any.
pub open spec fn plan_view(p: Seq<ReputationCheck>) -> Seq<(Seq<char>, Option<Seq<char>>)> {
    p.map_values(|c: ReputationCheck| c.view_pair())
}

/// The reason of the first entry of `h` at or after `k` for address `a`.
pub open spec fn history_from(h: Seq<HistoryIP>, a: Seq<char>, k: int) -> Option<Seq<char>>
    decreases h.len() - k,
{
    if k < 0 || k >= h.len() {
        None
    } else if h[k].ip@ == a {
        Some(h[k].reason@)
    } else {
        history_from(h, a, k + 1)
    }
}

/// The reason recorded for address `a`: that of its first entry in `h`.
pub open spec fn history_reason(h: Seq<HistoryIP>, a: Seq<char>) -> Option<Seq<char>> {
    history_from(h, a, 0)
}

/// The plan for `addrs`: the addresses that are neither whitelisted nor already among
/// the suspects of this run, in order, each with its recorded reason, if any.
pub open spec fn plan_of(
    addrs: Seq<Seq<char>>,
    whitelist: Seq<Seq<char>>,
    previous: Seq<Seq<char>>,
    h: Seq<HistoryIP>,
) -> Seq<(Seq<char>, Option<Seq<char>>)> {
    addrs.filter(|a: Seq<char>| !whitelist.contains(a) && !previous.contains(a)).map_values(
        |a: Seq<char>| (a, history_reason(h, a)),
    )
}

proof fn lemma_filter_unique(s: Seq<Seq<char>>, keep: spec_fn(Seq<char>) -> bool)
    requires
        s.no_duplicates(),
    ensures
        s.filter(keep).no_duplicates(),
        forall|x: Seq<char>| s.filter(keep).contains(x) ==> s.contains(x),
    decreases s.len(),
{
    reveal_with_fuel(Seq::filter, 1);
    if s.len() > 0 {
        let init = s.drop_last();
        assert(init.no_duplicates());
        lemma_filter_unique(init, keep);
        if keep(s.last()) {
            let f = init.filter(keep);
            assert(s.filter(keep) == f.push(s.last()));
            assert(!f.contains(s.last())) by {
                if f.contains(s.last()) {
                    assert(init.contains(s.last()));
                    let i = choose|i: int| 0 <= i < init.len() && init[i] == s.last();
                    assert(s[i] == s[s.len() - 1]);
                }
            }
            assert forall|x: Seq<char>| f.push(s.last()).contains(x) implies s.contains(x) by {
                crate::detect::lemma_push_contains(f, s.last(), x);
                if f.contains(x) {
                    assert(init.contains(x));
                    let i = choose|i: int| 0 <= i < init.len() && init[i] == x;
                    assert(s[i] == x);
                } else {
                    assert(s[s.len() - 1] == x);
                }
            }
        } else {
            assert(s.filter(keep) == init.filter(keep));
            assert forall|x: Seq<char>| s.filter(keep).contains(x) implies s.contains(x) by {
                assert(init.contains(x));
                let i = choose|i: int| 0 <= i < init.len() && init[i] == x;
                assert(s[i] == x);
            }
        }
    }
}

/// A plan asks for at most one query per address when the addresses it is made from are
/// distinct, and never for an address with a recorded verdict.
pub proof fn lemma_plan_queries(
    addrs: Seq<Seq<char>>,
    whitelist: Seq<Seq<char>>,
    previous: Seq<Seq<char>>,
    h: Seq<HistoryIP>,
)
    ensures
        forall|i: int|
            0 <= i < plan_of(addrs, whitelist, previous, h).len() && #[trigger] plan_of(
                addrs,
                whitelist,
                previous,
                h,
            )[i].1 is None ==> history_reason(h, plan_of(addrs, whitelist, previous, h)[i].0)
                is None,
        addrs.no_duplicates() ==> forall|i: int, j: int|
            0 <= i < j < plan_of(addrs, whitelist, previous, h).len() ==> (#[trigger] plan_of(
                addrs,
                whitelist,
                previous,
                h,
            )[i]).0 != (#[trigger] plan_of(addrs, whitelist, previous, h)[j]).0,
{
    let keep = |a: Seq<char>| !whitelist.contains(a) && !previous.contains(a);
    if addrs.no_duplicates() {
        lemma_filter_unique(addrs, keep);
    }
}

/// The reason given for an address whose confidence score meets the threshold.
pub open spec fn reputation_reason(name: Seq<char>, ip: Seq<char>, score: nat) -> Seq<char> {
    "(RULE: "@ + name + ")[IP: "@ + ip + " IS A POTENTIAL SPAM (CONFIDENCE: "@ + decimal(score)
        + ")]"@
}

/// The score used for a query's outcome: a failed query counts as zero.
pub open spec fn score_of(s: Option<u32>) -> nat {
    match s {
        Some(v) => v as nat,
        None => 0,
    }
}

/// The suspects that the first `n` checks of a plan give, with `scores[k]` the outcome
/// of the query for check `k`.
pub open spec fn resolved(
    name: Seq<char>,
    plan: Seq<(Seq<char>, Option<Seq<char>>)>,
    scores: Seq<Option<u32>>,
    confidence: nat,
    n: int,
) -> Seq<(Seq<char>, Seq<char>)>
    decreases n,
{
    if n <= 0 {
        seq![]
    } else {
        let rest = resolved(name, plan, scores, confidence, n - 1);
        let (a, cached) = plan[n - 1];
        match cached {
            Some(reason) => rest.push((a, reason)),
            None => if score_of(scores[n - 1]) >= confidence {
                rest.push((a, reputation_reason(name, a, score_of(scores[n - 1]))))
            } else {
                rest
            },
        }
    }
}

/// A failed query gives no suspect: when check `n` of a plan asks for a query whose
/// outcome is a failure, and the threshold is above zero, the suspects stay as they were.
pub proof fn lemma_failed_query_clears(
    name: Seq<char>,
    plan: Seq<(Seq<char>, Option<Seq<char>>)>,
    scores: Seq<Option<u32>>,
    confidence: nat,
    n: int,
)
    requires
        0 <= n < plan.len(),
        n < scores.len(),
        plan[n].1 is None,
        scores[n] is None,
        confidence > 0,
    ensures
        resolved(name, plan, scores, confidence, n + 1) == resolved(name, plan, scores, confidence, n),
{
}

proof fn lemma_resolved_keys(
    name: Seq<char>,
    plan: Seq<(Seq<char>, Option<Seq<char>>)>,
    scores: Seq<Option<u32>>,
    confidence: nat,
    n: int,
    x: Seq<char>,
)
    requires
        0 <= n <= plan.len(),
    ensures
        keys(resolved(name, plan, scores, confidence, n)).contains(x) ==> exists|i: int|
            0 <= i < n && #[trigger] plan[i].0 == x && (plan[i].1 is Some || score_of(scores[i])
                >= confidence),
    decreases n,
{
    if n > 0 {
        lemma_resolved_keys(name, plan, scores, confidence, n - 1, x);
        let rest = resolved(name, plan, scores, confidence, n - 1);
        let cur = resolved(name, plan, scores, confidence, n);
        if cur != rest && keys(cur).contains(x) {
            let e = cur.last();
            assert(cur == rest.push(e));
            crate::detect::lemma_push_contains(keys(rest), e.0, x);
            assert(keys(cur) =~= keys(rest).push(e.0));
            if e.0 == x {
                assert(plan[n - 1].0 == x);
            }
        }
    }
}

proof fn lemma_resolved_unique(
    name: Seq<char>,
    plan: Seq<(Seq<char>, Option<Seq<char>>)>,
    scores: Seq<Option<u32>>,
    confidence: nat,
    n: int,
)
    requires
        0 <= n <= plan.len(),
        forall|i: int, j: int| 0 <= i < j < plan.len() ==> (#[trigger] plan[i]).0 != (#[trigger] plan[j]).0,
    ensures
        keys(resolved(name, plan, scores, confidence, n)).no_duplicates(),
    decreases n,
{
    if n == 0 {
        assert(keys(resolved(name, plan, scores, confidence, n)) =~= seq![]);
    } else {
        lemma_resolved_unique(name, plan, scores, confidence, n - 1);
        let rest = resolved(name, plan, scores, confidence, n - 1);
        let cur = resolved(name, plan, scores, confidence, n);
        if cur != rest {
            let e = cur.last();
            assert(cur == rest.push(e));
            assert(e.0 == plan[n - 1].0);
            assert(keys(cur) =~= keys(rest).push(e.0));
            lemma_resolved_keys(name, plan, scores, confidence, n - 1, e.0);
            assert(!keys(rest).contains(e.0));
            assert forall|i: int, j: int|
                0 <= i < keys(cur).len() && 0 <= j < keys(cur).len() && i != j
                    implies keys(cur)[i] != keys(cur)[j] by {
                if i == keys(rest).len() as int {
                    assert(keys(rest)[j] == keys(cur)[j]);
                } else if j == keys(rest).len() as int {
                    assert(keys(rest)[i] == keys(cur)[i]);
                } else {
                    assert(keys(rest)[i] == keys(cur)[i]);
                    assert(keys(rest)[j] == keys(cur)[j]);
                }
            }
        }
    }
}

proof fn lemma_resolved_cached(
    name: Seq<char>,
    plan: Seq<(Seq<char>, Option<Seq<char>>)>,
    scores: Seq<Option<u32>>,
    confidence: nat,
    n: int,
    i: int,
)
    requires
        0 <= i < n <= plan.len(),
        plan[i].1 is Some,
    ensures
        resolved(name, plan, scores, confidence, n).contains((plan[i].0, plan[i].1->0)),
    decreases n,
{
    let rest = resolved(name, plan, scores, confidence, n - 1);
    let cur = resolved(name, plan, scores, confidence, n);
    if i == n - 1 {
        assert(cur == rest.push((plan[i].0, plan[i].1->0)));
        assert(cur[rest.len() as int] == (plan[i].0, plan[i].1->0));
    } else {
        lemma_resolved_cached(name, plan, scores, confidence, n - 1, i);
        let k = choose|k: int| 0 <= k < rest.len() && rest[k] == (plan[i].0, plan[i].1->0);
        if cur != rest {
            assert(cur == rest.push(cur.last()));
            assert(cur[k] == rest[k]);
        }
    }
}

/// A queried address is a suspect of the rule, with its score in the reason, exactly when
/// its score (zero for a failed query) reaches the threshold; the plan's addresses being
/// distinct, it is then a suspect once.
pub proof fn lemma_query_outcome(
    name: Seq<char>,
    plan: Seq<(Seq<char>, Option<Seq<char>>)>,
    scores: Seq<Option<u32>>,
    confidence: nat,
    i: int,
)
    requires
        0 <= i < plan.len(),
        plan[i].1 is None,
        forall|x: int, y: int| 0 <= x < y < plan.len() ==> (#[trigger] plan[x]).0 != (#[trigger] plan[y]).0,
    ensures
        score_of(scores[i]) >= confidence ==> resolved(name, plan, scores, confidence, plan.len() as int).contains(
            (plan[i].0, reputation_reason(name, plan[i].0, score_of(scores[i]))),
        ),
        score_of(scores[i]) < confidence ==> !keys(
            resolved(name, plan, scores, confidence, plan.len() as int),
        ).contains(plan[i].0),
        keys(resolved(name, plan, scores, confidence, plan.len() as int)).no_duplicates(),
{
    lemma_resolved_unique(name, plan, scores, confidence, plan.len() as int);
    lemma_resolved_keys(name, plan, scores, confidence, plan.len() as int, plan[i].0);
    if score_of(scores[i]) >= confidence {
        lemma_resolved_queried(name, plan, scores, confidence, plan.len() as int, i);
    }
}

proof fn lemma_resolved_queried(
    name: Seq<char>,
    plan: Seq<(Seq<char>, Option<Seq<char>>)>,
    scores: Seq<Option<u32>>,
    confidence: nat,
    n: int,
    i: int,
)
    requires
        0 <= i < n <= plan.len(),
        plan[i].1 is None,
        score_of(scores[i]) >= confidence,
    ensures
        resolved(name, plan, scores, confidence, n).contains(
            (plan[i].0, reputation_reason(name, plan[i].0, score_of(scores[i]))),
        ),
    decreases n,
{
    let e = (plan[i].0, reputation_reason(name, plan[i].0, score_of(scores[i])));
    let rest = resolved(name, plan, scores, confidence, n - 1);
    let cur = resolved(name, plan, scores, confidence, n);
    if i == n - 1 {
        assert(cur == rest.push(e));
        assert(cur[rest.len() as int] == e);
    } else {
        lemma_resolved_queried(name, plan, scores, confidence, n - 1, i);
        let k = choose|k: int| 0 <= k < rest.len() && rest[k] == e;
        if cur != rest {
            assert(cur == rest.push(cur.last()));
            assert(cur[k] == rest[k]);
        }
    }
}

/// An address of the rule's (distinct) addresses that is neither whitelisted nor already a
/// suspect, and that has a recorded verdict, gets exactly one check, a cached one, so it
/// is never queried; and the rule's suspects hold it exactly once, with the recorded
/// reason verbatim, whatever the queries return.
pub proof fn lemma_history_reused(
    addrs: Seq<Seq<char>>,
    whitelist: Seq<Seq<char>>,
    previous: Seq<Seq<char>>,
    h: Seq<HistoryIP>,
    name: Seq<char>,
    scores: Seq<Option<u32>>,
    confidence: nat,
    a: Seq<char>,
)
    requires
        addrs.no_duplicates(),
        addrs.contains(a),
        !whitelist.contains(a),
        !previous.contains(a),
        history_reason(h, a) is Some,
    ensures
        exists|i: int|
            0 <= i < plan_of(addrs, whitelist, previous, h).len() && #[trigger] plan_of(
                addrs,
                whitelist,
                previous,
                h,
            )[i] == (a, history_reason(h, a)) && forall|j: int|
                0 <= j < plan_of(addrs, whitelist, previous, h).len() && (#[trigger] plan_of(
                    addrs,
                    whitelist,
                    previous,
                    h,
                )[j]).0 == a ==> j == i,
        resolved(
            name,
            plan_of(addrs, whitelist, previous, h),
            scores,
            confidence,
            plan_of(addrs, whitelist, previous, h).len() as int,
        ).contains((a, history_reason(h, a)->0)),
        keys(
            resolved(
                name,
                plan_of(addrs, whitelist, previous, h),
                scores,
                confidence,
                plan_of(addrs, whitelist, previous, h).len() as int,
            ),
        ).no_duplicates(),
{
    let keep = |x: Seq<char>| !whitelist.contains(x) && !previous.contains(x);
    let plan = plan_of(addrs, whitelist, previous, h);
    let f = addrs.filter(keep);
    addrs.filter_lemma(keep);
    lemma_filter_unique(addrs, keep);
    let ai = choose|ai: int| 0 <= ai < addrs.len() && addrs[ai] == a;
    assert(f.contains(addrs[ai]));
    let i = choose|i: int| 0 <= i < f.len() && f[i] == a;
    assert(plan[i] == (a, history_reason(h, a)));
    assert forall|j: int| 0 <= j < plan.len() && (#[trigger] plan[j]).0 == a implies j == i by {
        assert(f[j] == plan[j].0);
    }
    assert forall|x: int, y: int| 0 <= x < y < plan.len() implies (#[trigger] plan[x]).0 != (#[trigger] plan[y]).0 by {
        assert(f[x] == plan[x].0 && f[y] == plan[y].0);
    }
    lemma_resolved_cached(name, plan, scores, confidence, plan.len() as int, i);
    lemma_resolved_unique(name, plan, scores, confidence, plan.len() as int);
}

/// A whitelisted address gets no check (no lookup and no query) and is never a suspect
/// of the rule.
pub proof fn lemma_whitelisted_skipped(
    addrs: Seq<Seq<char>>,
    whitelist: Seq<Seq<char>>,
    previous: Seq<Seq<char>>,
    h: Seq<HistoryIP>,
    name: Seq<char>,
    scores: Seq<Option<u32>>,
    confidence: nat,
    a: Seq<char>,
)
    requires
        whitelist.contains(a),
    ensures
        forall|i: int|
            0 <= i < plan_of(addrs, whitelist, previous, h).len() ==> (#[trigger] plan_of(
                addrs,
                whitelist,
                previous,
                h,
            )[i]).0 != a,
        !keys(
            resolved(
                name,
                plan_of(addrs, whitelist, previous, h),
                scores,
                confidence,
                plan_of(addrs, whitelist, previous, h).len() as int,
            ),
        ).contains(a),
{
    let keep = |x: Seq<char>| !whitelist.contains(x) && !previous.contains(x);
    let plan = plan_of(addrs, whitelist, previous, h);
    addrs.filter_lemma(keep);
    assert forall|i: int| 0 <= i < plan.len() implies (#[trigger] plan[i]).0 != a by {
        assert(plan[i].0 == addrs.filter(keep)[i]);
    }
    lemma_resolved_keys(name, plan, scores, confidence, plan.len() as int, a);
}

/// The reason recorded for `ip` in `history`, if any.
pub fn find_history(history: &Vec<HistoryIP>, ip: &String) -> (r: Option<String>)
    ensures
        r matches Some(s) ==> history_reason(history@, ip@) == Some(s@),
        r is None ==> history_reason(history@, ip@) is None,
{
    let mut k: usize = 0;
    while k < history.len()
        invariant
            k <= history@.len(),
            history_reason(history@, ip@) == history_from(history@, ip@, k as int),
        decreases history@.len() - k,
    {
        if history[k].ip == *ip {
            return Some(history[k].reason.clone());
        }
        k = k + 1;
    }
    None
}

/// The checks to make for the addresses found by a reputation rule, in order: addresses
/// in `whitelist` or among the `previous` suspects of this run are left out; an address
/// with an entry in `history` reuses its reason; every other address is to be queried.
pub fn plan_checks(
    addrs: &Vec<String>,
    whitelist: &Vec<String>,
    previous: &Vec<(String, String)>,
    history: &Vec<HistoryIP>,
) -> (r: Vec<ReputationCheck>)
    ensures
        plan_view(r@) == plan_of(
            strings_view(addrs@),
            strings_view(whitelist@),
            addresses(previous@),
            history@,
        ),
{
    let ghost wl = strings_view(whitelist@);
    let ghost prev = addresses(previous@);
    let ghost keep = |a: Seq<char>| !wl.contains(a) && !prev.contains(a);
    let ghost f = |a: Seq<char>| (a, history_reason(history@, a));
    let mut prev_ips: Vec<String> = Vec::new();
    let mut j: usize = 0;
    while j < previous.len()
        invariant
            j <= previous@.len(),
            prev_ips@.len() == j,
            forall|t: int| 0 <= t < j ==> #[trigger] prev_ips@[t]@ == previous@[t].0@,
        decreases previous@.len() - j,
    {
        prev_ips.push(previous[j].0.clone());
        j = j + 1;
    }
    assert(strings_view(prev_ips@) =~= addresses(previous@));
    let mut out: Vec<ReputationCheck> = Vec::new();
    let mut i: usize = 0;
    while i < addrs.len()
        invariant
            i <= addrs@.len(),
            strings_view(prev_ips@) == prev,
            wl == strings_view(whitelist@),
            keep == (|a: Seq<char>| !wl.contains(a) && !prev.contains(a)),
            f == (|a: Seq<char>| (a, history_reason(history@, a))),
            plan_view(out@) == strings_view(addrs@).subrange(0, i as int).filter(keep).map_values(f),
        decreases addrs@.len() - i,
    {
        let ghost before = out@;
        let ghost sv = strings_view(addrs@);
        assert(sv.subrange(0, i + 1).drop_last() =~= sv.subrange(0, i as int));
        assert(sv.subrange(0, i + 1).last() == addrs@[i as int]@);
        reveal_with_fuel(Seq::filter, 1);
        let ip = &addrs[i];
        if !contains_string(whitelist, ip) && !contains_string(&prev_ips, ip) {
            let check = match find_history(history, ip) {
                Some(reason) => ReputationCheck::Cached { ip: ip.clone(), reason },
                None => ReputationCheck::Query { ip: ip.clone() },
            };
            let ghost fs = sv.subrange(0, i as int).filter(keep);
            assert(keep(ip@));
            assert(sv.subrange(0, i + 1).filter(keep) == fs.push(ip@));
            assert(fs.push(ip@).map_values(f) =~= fs.map_values(f).push(f(ip@)));
            assert(check.view_pair() == f(ip@));
            out.push(check);
            assert(plan_view(out@) =~= plan_view(before).push(check.view_pair()));
        } else {
            assert(plan_view(out@) =~= sv.subrange(0, i + 1).filter(keep).map_values(f));
        }
        i = i + 1;
    }
    assert(strings_view(addrs@).subrange(0, i as int) =~= strings_view(addrs@));
    out
}

/// The reason given for an address whose confidence score meets the threshold.
pub fn reputation_reason_text(name: &str, ip: &String, score: u32) -> (r: String)
    ensures
        r@ == reputation_reason(name@, ip@, score as nat),
{
    let mut out: Vec<char> = Vec::new();
    append_str(&mut out, "(RULE: ");
    append_str(&mut out, name);
    append_str(&mut out, ")[IP: ");
    append_str(&mut out, ip.as_str());
    append_str(&mut out, " IS A POTENTIAL SPAM (CONFIDENCE: ");
    let d = decimal_chars(score as u64);
    append_chars(&mut out, &d);
    append_str(&mut out, ")]");
    string_of(&out)
}

/// The suspects of a reputation rule named `name`, given its plan and, for each check,
/// the outcome of its query (`None` for a failed query, or where none was made): a
/// cached check gives its recorded reason; a queried address is flagged when its score
/// (zero for a failed query) reaches `confidence`.
pub fn resolve_checks(
    name: &str,
    plan: &Vec<ReputationCheck>,
    scores: &Vec<Option<u32>>,
    confidence: u32,
) -> (r: Vec<(String, String)>)
    requires
        scores@.len() == plan@.len(),
    ensures
        crate::logline::pairs_view(r@) == resolved(
            name@,
            plan_view(plan@),
            scores@,
            confidence as nat,
            plan@.len() as int,
        ),
{
    let mut out: Vec<(String, String)> = Vec::new();
    let mut k: usize = 0;
    assert(crate::logline::pairs_view(out@) =~= seq![]);
    while k < plan.len()
        invariant
            k <= plan@.len(),
            scores@.len() == plan@.len(),
            crate::logline::pairs_view(out@) == resolved(
                name@,
                plan_view(plan@),
                scores@,
                confidence as nat,
                k as int,
            ),
        decreases plan@.len() - k,
    {
        let ghost before = out@;
        match &plan[k] {
            ReputationCheck::Cached { ip, reason } => {
                out.push((ip.clone(), reason.clone()));
            },
            ReputationCheck::Query { ip } => {
                let score: u32 = match scores[k] {
                    Some(v) => v,
                    None => 0,
                };
                if score >= confidence {
                    let reason = reputation_reason_text(name, ip, score);
                    out.push((ip.clone(), reason));
                }
            },
        }
        assert(crate::logline::pairs_view(out@) =~= resolved(
            name@,
            plan_view(plan@),
            scores@,
            confidence as nat,
            k + 1,
        ));
        k = k + 1;
    }
    out
}

} // verus!
