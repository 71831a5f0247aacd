//! Clock-driven round-robin choice among several API credentials.

use vstd::prelude::*;

verus! {

/// Minutes in a day.
pub const MINUTES_PER_DAY: u32 = 1440;

/// The index chosen among `n` credentials at `minutes` past midnight: the day is cut
/// into segments of `1440 / n` minutes, and segment `k` uses credential `k mod n`.
pub open spec fn segment_index(n: nat, minutes: nat) -> int
    recommends
        1 <= n <= 1440,
{
    ((minutes / (1440nat / n)) % n) as int
}

/// The credential of `tokens` chosen at `minutes` past midnight.
pub open spec fn token_for(tokens: Seq<String>, minutes: nat) -> Seq<char> {
    tokens[segment_index(tokens.len(), minutes)]@
}

/// Relies on chrono's `Local::now`, `Timelike::hour` (0 to 23) and `Timelike::minute`
/// (0 to 59): the local time of day as hour and minute.
#[verifier::external_body]
fn local_time_now() -> (r: (u32, u32))
    ensures
        r.0 < 24,
        r.1 < 60,
{
    let now = chrono::Local::now();
    (chrono::Timelike::hour(&now), chrono::Timelike::minute(&now))
}

/// The credential for the time of day `minutes` (minutes past midnight), or `None`
/// for an empty pool.
pub fn select_token_at(tokens: &Vec<String>, minutes: u32) -> (r: Option<String>)
    requires
        tokens@.len() <= 1440,
    ensures
        tokens@.len() == 0 <==> r is None,
        tokens@.len() > 0 ==> (r matches Some(t) && t@ == token_for(tokens@, minutes as nat)),
{
    let total: u32 = tokens.len() as u32;
    if total == 0 {
        return None;
    }
    let per_segment: u32 = MINUTES_PER_DAY / total;
    assert(per_segment >= 1) by (nonlinear_arith)
        requires
            1 <= total <= 1440,
            per_segment == 1440u32 / total,
    ;
    let index: u32 = (minutes / per_segment) % total;
    Some(tokens[index as usize].clone())
}

/// The credential for the current local time of day, or `None` for an empty pool.
pub fn select_token(tokens: Vec<String>) -> (r: Option<String>)
    requires
        tokens@.len() <= 1440,
    ensures
        tokens@.len() == 0 <==> r is None,
        tokens@.len() > 0 ==> exists|m: nat|
            m < 1440 && (r matches Some(t) && t@ == #[trigger] token_for(tokens@, m)),
{
    let (hour, minute) = local_time_now();
    let minutes: u32 = hour * 60 + minute;
    select_token_at(&tokens, minutes)
}

} // verus!
