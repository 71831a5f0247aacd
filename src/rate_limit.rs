//! The rate-limit rule: addresses with too many hits on a route within a short window.

use vstd::prelude::*;
use crate::detect::{find_suspects, parse_all, rate_flagged, rate_reason, rate_reason_text, strings_view, contains_string};
use crate::logline::{extract_ip_and_timestamp, log_records};

verus! {

/// The addresses of a sequence of (address, reason) pairs.
pub open spec fn addresses(v: Seq<(String, String)>) -> Seq<Seq<char>> {
    v.map_values(|p: (String, String)| p.0@)
}

/// The suspects of a rate-limit rule named `name` over the log text `log`: every address
/// outside `whitelist` whose hits on `path` reach `requests` within `window` seconds
/// (timestamps in `timestamp_fmt`), once, with a reason naming the rule, the address,
/// the threshold and the window.
pub fn extract_suspects(
    name: &str,
    log: &str,
    path: &str,
    requests: u32,
    window: u32,
    timestamp_fmt: &str,
    whitelist: &Vec<String>,
) -> (r: Vec<(String, String)>)
    ensures
        addresses(r@).no_duplicates(),
        forall|k: int|
            0 <= k < r@.len() ==> #[trigger] r@[k].1@ == rate_reason(
                name@,
                r@[k].0@,
                requests as nat,
                window as nat,
            ),
        forall|a: Seq<char>|
            addresses(r@).contains(a) <==> (rate_flagged(
                parse_all(log_records(log@, path@), timestamp_fmt@),
                a,
                requests as nat,
                window as nat,
            ) && !strings_view(whitelist@).contains(a)),
{
    let records = extract_ip_and_timestamp(log, path);
    let flagged = find_suspects(records, requests, window, timestamp_fmt);
    let mut out: Vec<(String, String)> = Vec::new();
    let mut i: usize = 0;
    while i < flagged.len()
        invariant
            i <= flagged@.len(),
            strings_view(flagged@).no_duplicates(),
            addresses(out@).no_duplicates(),
            forall|k: int|
                0 <= k < out@.len() ==> #[trigger] out@[k].1@ == rate_reason(
                    name@,
                    out@[k].0@,
                    requests as nat,
                    window as nat,
                ),
            forall|a: Seq<char>|
                addresses(out@).contains(a) <==> (strings_view(flagged@.subrange(0, i as int)).contains(a)
                    && !strings_view(whitelist@).contains(a)),
        decreases flagged@.len() - i,
    {
        let ghost before = out@;
        let ip = &flagged[i];
        assert(strings_view(flagged@.subrange(0, i + 1)) =~= strings_view(
            flagged@.subrange(0, i as int),
        ).push(ip@));
        if !contains_string(whitelist, ip) {
            let reason = rate_reason_text(name, ip, requests, window);
            out.push((ip.clone(), reason));
            assert(addresses(out@) =~= addresses(before).push(ip@));
            assert(!addresses(before).contains(ip@)) by {
                if addresses(before).contains(ip@) {
                    let m = choose|m: int| 0 <= m < i && strings_view(flagged@.subrange(0, i as int))[m] == ip@;
                    assert(flagged@[m]@ == flagged@[i as int]@);
                    assert(strings_view(flagged@)[m] == strings_view(flagged@)[i as int]);
                }
            }
        }
        assert forall|a: Seq<char>|
            addresses(out@).contains(a) <==> (strings_view(flagged@.subrange(0, i + 1)).contains(a)
                && !strings_view(whitelist@).contains(a)) by {
            crate::detect::lemma_push_contains(strings_view(flagged@.subrange(0, i as int)), ip@, a);
            if out@.len() > before.len() {
                crate::detect::lemma_push_contains(addresses(before), ip@, a);
            }
        }
        i = i + 1;
    }
    assert(flagged@.subrange(0, i as int) =~= flagged@);
    out
}

} // verus!
