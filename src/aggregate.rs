//! Merging the suspects of successive rules into one list: whitelisted addresses are
//! dropped, and the first rule to name an address keeps it.

use vstd::prelude::*;
use crate::detect::{contains_string, strings_view};
use crate::logline::pairs_view;

verus! {

/// The addresses of a sequence of (address, reason) suspects.
pub open spec fn keys(s: Seq<(Seq<char>, Seq<char>)>) -> Seq<Seq<char>> {
    s.map_values(|p: (Seq<char>, Seq<char>)| p.0)
}

/// `agg` after merging the suspects `found` in order: a suspect is appended unless its
/// address is whitelisted or already present.
pub open spec fn merged(
    agg: Seq<(Seq<char>, Seq<char>)>,
    found: Seq<(Seq<char>, Seq<char>)>,
    whitelist: Seq<Seq<char>>,
) -> Seq<(Seq<char>, Seq<char>)>
    decreases found.len(),
{
    if found.len() == 0 {
        agg
    } else {
        let before = merged(agg, found.drop_last(), whitelist);
        let s = found.last();
        if whitelist.contains(s.0) || keys(before).contains(s.0) {
            before
        } else {
            before.push(s)
        }
    }
}

/// The aggregate of a run whose rules, in order, found the suspects `batches`.
pub open spec fn aggregate(
    batches: Seq<Seq<(Seq<char>, Seq<char>)>>,
    whitelist: Seq<Seq<char>>,
) -> Seq<(Seq<char>, Seq<char>)>
    decreases batches.len(),
{
    if batches.len() == 0 {
        seq![]
    } else {
        merged(aggregate(batches.drop_last(), whitelist), batches.last(), whitelist)
    }
}

/// Whether some suspect in `v` has address `a`.
pub fn contains_key(v: &Vec<(String, String)>, a: &String) -> (b: bool)
    ensures
        b == keys(pairs_view(v@)).contains(a@),
{
    let mut i: usize = 0;
    while i < v.len()
        invariant
            i <= v@.len(),
            forall|j: int| 0 <= j < i ==> v@[j].0@ != a@,
        decreases v@.len() - i,
    {
        if v[i].0 == *a {
            assert(keys(pairs_view(v@))[i as int] == a@);
            return true;
        }
        i = i + 1;
    }
    assert(!keys(pairs_view(v@)).contains(a@)) by {
        if keys(pairs_view(v@)).contains(a@) {
            let j = choose|j: int| 0 <= j < keys(pairs_view(v@)).len() && keys(pairs_view(v@))[j] == a@;
            assert(v@[j].0@ == a@);
        }
    }
    false
}

/// Appends to `aggregate`, in order, each suspect of `found` whose address is neither in
/// `whitelist` nor already in `aggregate`.
pub fn merge_suspects(aggregate: &mut Vec<(String, String)>, found: Vec<(String, String)>, whitelist: &Vec<String>)
    ensures
        pairs_view(final(aggregate)@) == merged(
            pairs_view(old(aggregate)@),
            pairs_view(found@),
            strings_view(whitelist@),
        ),
{
    let ghost start = pairs_view(aggregate@);
    let ghost fv = pairs_view(found@);
    let ghost wl = strings_view(whitelist@);
    let mut i: usize = 0;
    assert(fv.subrange(0, 0) =~= seq![]);
    while i < found.len()
        invariant
            i <= found@.len(),
            start == pairs_view(old(aggregate)@),
            fv == pairs_view(found@),
            wl == strings_view(whitelist@),
            pairs_view(aggregate@) == merged(start, fv.subrange(0, i as int), wl),
        decreases found@.len() - i,
    {
        let ghost before = aggregate@;
        assert(fv.subrange(0, i + 1).drop_last() =~= fv.subrange(0, i as int));
        let s = &found[i];
        if !contains_string(whitelist, &s.0) && !contains_key(aggregate, &s.0) {
            aggregate.push((s.0.clone(), s.1.clone()));
            assert(pairs_view(aggregate@) =~= pairs_view(before).push(fv[i as int]));
        }
        i = i + 1;
    }
    assert(fv.subrange(0, i as int) =~= fv);
}

/// A run in progress: the suspects so far, the whitelist, and (as ghost state) the
/// suspects that each rule recorded so far found, in rule order.
pub struct ScanRun {
    suspects: Vec<(String, String)>,
    whitelist: Vec<String>,
    found: Ghost<Seq<Seq<(Seq<char>, Seq<char>)>>>,
}

impl ScanRun {
    /// The suspects that the rules recorded so far found, in rule order.
    pub closed spec fn rules_found(&self) -> Seq<Seq<(Seq<char>, Seq<char>)>> {
        self.found@
    }

    /// The run's whitelist.
    pub closed spec fn whitelist_view(&self) -> Seq<Seq<char>> {
        strings_view(self.whitelist@)
    }

    /// The suspects so far.
    pub closed spec fn suspects_view(&self) -> Seq<(Seq<char>, Seq<char>)> {
        pairs_view(self.suspects@)
    }

    /// The suspects so far are the aggregate of what the recorded rules found.
    pub open spec fn wf(&self) -> bool {
        self.suspects_view() == aggregate(self.rules_found(), self.whitelist_view())
    }

    /// A run with no rule recorded yet.
    pub fn new(whitelist: Vec<String>) -> (r: ScanRun)
        ensures
            r.wf(),
            r.rules_found() == Seq::<Seq<(Seq<char>, Seq<char>)>>::empty(),
            r.whitelist_view() == strings_view(whitelist@),
    {
        let ghost none: Seq<Seq<(Seq<char>, Seq<char>)>> = seq![];
        let r = ScanRun { suspects: Vec::new(), whitelist, found: Ghost(none) };
        assert(r.suspects_view() =~= seq![]);
        r
    }

    /// The suspects so far.
    pub fn suspects(&self) -> (r: &Vec<(String, String)>)
        ensures
            pairs_view(r@) == self.suspects_view(),
    {
        &self.suspects
    }

    /// The run's whitelist.
    pub fn whitelist(&self) -> (r: &Vec<String>)
        ensures
            strings_view(r@) == self.whitelist_view(),
    {
        &self.whitelist
    }

    /// Records the suspects that the next rule found.
    pub fn record(&mut self, found: Vec<(String, String)>)
        requires
            old(self).wf(),
        ensures
            final(self).wf(),
            final(self).rules_found() == old(self).rules_found().push(pairs_view(found@)),
            final(self).whitelist_view() == old(self).whitelist_view(),
    {
        let ghost batch = pairs_view(found@);
        merge_suspects(&mut self.suspects, found, &self.whitelist);
        let ghost all = self.found@.push(batch);
        self.found = Ghost(all);
        assert(self.found@.drop_last() =~= old(self).found@);
    }

    /// The run's result: the aggregate of what the recorded rules found. Each address
    /// appears once, and no whitelisted address appears.
    pub fn into_suspects(self) -> (r: Vec<(String, String)>)
        requires
            self.wf(),
        ensures
            pairs_view(r@) == aggregate(self.rules_found(), self.whitelist_view()),
            keys(pairs_view(r@)).no_duplicates(),
            forall|i: int|
                0 <= i < r@.len() ==> !self.whitelist_view().contains(#[trigger] r@[i].0@),
    {
        proof {
            lemma_aggregate_clean(self.rules_found(), self.whitelist_view());
            assert forall|i: int| 0 <= i < self.suspects@.len() implies !self.whitelist_view().contains(
                #[trigger] self.suspects@[i].0@,
            ) by {
                assert(pairs_view(self.suspects@)[i].0 == self.suspects@[i].0@);
            }
        }
        self.suspects
    }
}

/// Merging only appends: what was in the aggregate stays, in place.
pub proof fn lemma_merged_extends(
    agg: Seq<(Seq<char>, Seq<char>)>,
    found: Seq<(Seq<char>, Seq<char>)>,
    whitelist: Seq<Seq<char>>,
)
    ensures
        merged(agg, found, whitelist).len() >= agg.len(),
        forall|i: int| 0 <= i < agg.len() ==> #[trigger] merged(agg, found, whitelist)[i] == agg[i],
    decreases found.len(),
{
    if found.len() > 0 {
        lemma_merged_extends(agg, found.drop_last(), whitelist);
    }
}

/// Merging keeps addresses unique and keeps whitelisted addresses out.
pub proof fn lemma_merged_clean(
    agg: Seq<(Seq<char>, Seq<char>)>,
    found: Seq<(Seq<char>, Seq<char>)>,
    whitelist: Seq<Seq<char>>,
)
    requires
        keys(agg).no_duplicates(),
        forall|i: int| 0 <= i < agg.len() ==> !whitelist.contains(#[trigger] agg[i].0),
    ensures
        keys(merged(agg, found, whitelist)).no_duplicates(),
        forall|i: int|
            0 <= i < merged(agg, found, whitelist).len() ==> !whitelist.contains(
                #[trigger] merged(agg, found, whitelist)[i].0,
            ),
    decreases found.len(),
{
    if found.len() > 0 {
        lemma_merged_clean(agg, found.drop_last(), whitelist);
        let before = merged(agg, found.drop_last(), whitelist);
        let s = found.last();
        if !(whitelist.contains(s.0) || keys(before).contains(s.0)) {
            assert(keys(before.push(s)) =~= keys(before).push(s.0));
            assert forall|i: int, j: int|
                0 <= i < keys(before.push(s)).len() && 0 <= j < keys(before.push(s)).len() && i != j
                    implies keys(before.push(s))[i] != keys(before.push(s))[j] by {
                if i < keys(before).len() && j < keys(before).len() {
                } else if i < keys(before).len() {
                    assert(keys(before)[i] == keys(before.push(s))[i]);
                } else {
                    assert(keys(before)[j] == keys(before.push(s))[j]);
                }
            }
        }
    }
}

/// Every address of a run's aggregate appears in it once.
pub proof fn lemma_aggregate_unique(batches: Seq<Seq<(Seq<char>, Seq<char>)>>, whitelist: Seq<Seq<char>>)
    ensures
        keys(aggregate(batches, whitelist)).no_duplicates(),
    decreases batches.len(),
{
    lemma_aggregate_clean(batches, whitelist);
}

/// No suspect of a run's aggregate has a whitelisted address, whatever the rules found.
pub proof fn lemma_aggregate_excludes_whitelist(
    batches: Seq<Seq<(Seq<char>, Seq<char>)>>,
    whitelist: Seq<Seq<char>>,
    a: Seq<char>,
)
    requires
        whitelist.contains(a),
    ensures
        !keys(aggregate(batches, whitelist)).contains(a),
{
    lemma_aggregate_clean(batches, whitelist);
    let agg = aggregate(batches, whitelist);
    if keys(agg).contains(a) {
        let i = choose|i: int| 0 <= i < keys(agg).len() && keys(agg)[i] == a;
        assert(agg[i].0 == a);
    }
}

proof fn lemma_keys_push(s: Seq<(Seq<char>, Seq<char>)>, p: (Seq<char>, Seq<char>), x: Seq<char>)
    ensures
        keys(s.push(p)).contains(x) <==> (keys(s).contains(x) || p.0 == x),
{
    assert(keys(s.push(p)) =~= keys(s).push(p.0));
    crate::detect::lemma_push_contains(keys(s), p.0, x);
}

proof fn lemma_merged_keys(
    agg: Seq<(Seq<char>, Seq<char>)>,
    found: Seq<(Seq<char>, Seq<char>)>,
    whitelist: Seq<Seq<char>>,
    x: Seq<char>,
)
    ensures
        keys(merged(agg, found, whitelist)).contains(x) ==> keys(agg).contains(x) || keys(
            found,
        ).contains(x),
    decreases found.len(),
{
    if found.len() > 0 {
        lemma_merged_keys(agg, found.drop_last(), whitelist, x);
        let before = merged(agg, found.drop_last(), whitelist);
        lemma_keys_push(before, found.last(), x);
        lemma_keys_push(found.drop_last(), found.last(), x);
        assert(found.drop_last().push(found.last()) =~= found);
    }
}

proof fn lemma_aggregate_keys(batches: Seq<Seq<(Seq<char>, Seq<char>)>>, whitelist: Seq<Seq<char>>, x: Seq<char>)
    ensures
        keys(aggregate(batches, whitelist)).contains(x) ==> exists|j: int|
            0 <= j < batches.len() && #[trigger] keys(batches[j]).contains(x),
    decreases batches.len(),
{
    if batches.len() > 0 {
        lemma_aggregate_keys(batches.drop_last(), whitelist, x);
        lemma_merged_keys(aggregate(batches.drop_last(), whitelist), batches.last(), whitelist, x);
        if keys(aggregate(batches, whitelist)).contains(x) {
            if keys(batches.last()).contains(x) {
                assert(keys(batches[batches.len() - 1]).contains(x));
            } else {
                let j = choose|j: int|
                    0 <= j < batches.drop_last().len() && #[trigger] keys(batches.drop_last()[j]).contains(x);
                assert(batches[j] == batches.drop_last()[j]);
            }
        }
    }
}

proof fn lemma_merged_first(
    agg: Seq<(Seq<char>, Seq<char>)>,
    found: Seq<(Seq<char>, Seq<char>)>,
    whitelist: Seq<Seq<char>>,
    k: int,
)
    requires
        0 <= k < found.len(),
        !whitelist.contains(found[k].0),
        !keys(agg).contains(found[k].0),
        forall|j: int| 0 <= j < k ==> (#[trigger] found[j]).0 != found[k].0,
    ensures
        merged(agg, found, whitelist).contains(found[k]),
    decreases found.len(),
{
    let before = merged(agg, found.drop_last(), whitelist);
    let a = found[k].0;
    if k == found.len() - 1 {
        lemma_merged_keys(agg, found.drop_last(), whitelist, a);
        if keys(found.drop_last()).contains(a) {
            let j = choose|j: int| 0 <= j < keys(found.drop_last()).len() && keys(found.drop_last())[j] == a;
            assert(found[j].0 == a);
        }
        assert(merged(agg, found, whitelist) == before.push(found[k]));
        assert(before.push(found[k])[before.len() as int] == found[k]);
    } else {
        lemma_merged_first(agg, found.drop_last(), whitelist, k);
        let m = choose|m: int| 0 <= m < before.len() && before[m] == found[k];
        lemma_merged_extends(before, seq![], whitelist);
        if merged(agg, found, whitelist) != before {
            assert(merged(agg, found, whitelist) == before.push(found.last()));
            assert(before.push(found.last())[m] == found[k]);
        }
    }
}

/// The first rule to flag an address wins: when rule `i` is the first whose suspects name
/// `a`, and its first suspect for `a` has reason `r`, the aggregate holds exactly one
/// suspect for `a`, and that is `(a, r)` (unless `a` is whitelisted).
pub proof fn lemma_first_rule_wins(
    batches: Seq<Seq<(Seq<char>, Seq<char>)>>,
    whitelist: Seq<Seq<char>>,
    i: int,
    k: int,
)
    requires
        0 <= i < batches.len(),
        0 <= k < batches[i].len(),
        !whitelist.contains(batches[i][k].0),
        forall|j: int| 0 <= j < i ==> !(#[trigger] keys(batches[j])).contains(batches[i][k].0),
        forall|j: int| 0 <= j < k ==> (#[trigger] batches[i][j]).0 != batches[i][k].0,
    ensures
        exists|m: int|
            0 <= m < aggregate(batches, whitelist).len() && aggregate(batches, whitelist)[m]
                == batches[i][k] && forall|n: int|
                0 <= n < aggregate(batches, whitelist).len() && (#[trigger] aggregate(
                    batches,
                    whitelist,
                )[n]).0 == batches[i][k].0 ==> n == m,
{
    lemma_aggregate_holds(batches, whitelist, i, k);
    lemma_aggregate_unique(batches, whitelist);
    let agg = aggregate(batches, whitelist);
    let m = choose|m: int| 0 <= m < agg.len() && agg[m] == batches[i][k];
    assert forall|n: int| 0 <= n < agg.len() && (#[trigger] agg[n]).0 == batches[i][k].0 implies n == m by {
        assert(keys(agg)[n] == keys(agg)[m]);
    }
}

proof fn lemma_aggregate_holds(
    batches: Seq<Seq<(Seq<char>, Seq<char>)>>,
    whitelist: Seq<Seq<char>>,
    i: int,
    k: int,
)
    requires
        0 <= i < batches.len(),
        0 <= k < batches[i].len(),
        !whitelist.contains(batches[i][k].0),
        forall|j: int| 0 <= j < i ==> !(#[trigger] keys(batches[j])).contains(batches[i][k].0),
        forall|j: int| 0 <= j < k ==> (#[trigger] batches[i][j]).0 != batches[i][k].0,
    ensures
        aggregate(batches, whitelist).contains(batches[i][k]),
    decreases batches.len(),
{
    let prev = aggregate(batches.drop_last(), whitelist);
    let a = batches[i][k].0;
    if i == batches.len() - 1 {
        lemma_aggregate_keys(batches.drop_last(), whitelist, a);
        if keys(prev).contains(a) {
            let j = choose|j: int|
                0 <= j < batches.drop_last().len() && #[trigger] keys(batches.drop_last()[j]).contains(a);
            assert(batches.drop_last()[j] == batches[j]);
        }
        lemma_merged_first(prev, batches.last(), whitelist, k);
    } else {
        assert forall|j: int| 0 <= j < i implies !(#[trigger] keys(batches.drop_last()[j])).contains(a) by {
            assert(batches.drop_last()[j] == batches[j]);
        }
        assert forall|j: int| 0 <= j < k implies (#[trigger] batches.drop_last()[i][j]).0 != a by {
            assert(batches.drop_last()[i] == batches[i]);
        }
        lemma_aggregate_holds(batches.drop_last(), whitelist, i, k);
        let m = choose|m: int| 0 <= m < prev.len() && prev[m] == batches[i][k];
        lemma_merged_extends(prev, batches.last(), whitelist);
        assert(aggregate(batches, whitelist)[m] == batches[i][k]);
    }
}

proof fn lemma_aggregate_clean(batches: Seq<Seq<(Seq<char>, Seq<char>)>>, whitelist: Seq<Seq<char>>)
    ensures
        keys(aggregate(batches, whitelist)).no_duplicates(),
        forall|i: int|
            0 <= i < aggregate(batches, whitelist).len() ==> !whitelist.contains(
                #[trigger] aggregate(batches, whitelist)[i].0,
            ),
    decreases batches.len(),
{
    if batches.len() == 0 {
        assert(keys(aggregate(batches, whitelist)) =~= seq![]);
    } else {
        lemma_aggregate_clean(batches.drop_last(), whitelist);
        lemma_merged_clean(aggregate(batches.drop_last(), whitelist), batches.last(), whitelist);
    }
}

} // verus!
