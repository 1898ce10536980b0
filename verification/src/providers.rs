//! The provider registry and the gap filler.
//!
//! The gap filler turns one provider's sparse sequence of daily snapshots
//! into a dense one: every calendar day from the earliest snapshot up to the
//! given reference day carries a table, a missing day carrying the nearest
//! preceding snapshot's table forward under the caller's provenance label.

use vstd::prelude::*;
use crate::date::{Date, max_day_index, lemma_day_number_le_max};
use crate::models::{DailyRates, daily_eq};

verus! {

/// Smallest date index among the snapshots.
pub open spec fn min_date_index(s: Seq<DailyRates>) -> int
    recommends
        s.len() > 0,
    decreases s.len(),
{
    if s.len() <= 1 {
        s[0].date.index()
    } else {
        let m = min_date_index(s.drop_last());
        if s.last().date.index() < m {
            s.last().date.index()
        } else {
            m
        }
    }
}

/// Largest date index among the snapshots.
pub open spec fn max_date_index(s: Seq<DailyRates>) -> int
    recommends
        s.len() > 0,
    decreases s.len(),
{
    if s.len() <= 1 {
        s[0].date.index()
    } else {
        let m = max_date_index(s.drop_last());
        if s.last().date.index() > m {
            s.last().date.index()
        } else {
            m
        }
    }
}

pub proof fn lemma_min_date_index(s: Seq<DailyRates>)
    requires
        s.len() > 0,
    ensures
        exists|i: int| 0 <= i < s.len() && (#[trigger] s[i]).date.index() == min_date_index(s),
        forall|i: int| 0 <= i < s.len() ==> min_date_index(s) <= (#[trigger] s[i]).date.index(),
    decreases s.len(),
{
    if s.len() > 1 {
        lemma_min_date_index(s.drop_last());
        let m = min_date_index(s.drop_last());
        if s.last().date.index() < m {
            assert(s[s.len() - 1].date.index() == min_date_index(s));
        } else {
            let i = choose|i: int|
                0 <= i < s.len() - 1 && (#[trigger] s.drop_last()[i]).date.index() == m;
            assert(s[i].date.index() == m);
        }
        assert forall|i: int| 0 <= i < s.len() implies min_date_index(s) <= (
        #[trigger] s[i]).date.index() by {
            if i < s.len() - 1 {
                assert(s.drop_last()[i] == s[i]);
            }
        }
    } else {
        assert(s[0].date.index() == min_date_index(s));
    }
}

pub proof fn lemma_max_date_index(s: Seq<DailyRates>)
    requires
        s.len() > 0,
    ensures
        exists|i: int| 0 <= i < s.len() && (#[trigger] s[i]).date.index() == max_date_index(s),
        forall|i: int| 0 <= i < s.len() ==> (#[trigger] s[i]).date.index() <= max_date_index(s),
    decreases s.len(),
{
    if s.len() > 1 {
        lemma_max_date_index(s.drop_last());
        let m = max_date_index(s.drop_last());
        if s.last().date.index() > m {
            assert(s[s.len() - 1].date.index() == max_date_index(s));
        } else {
            let i = choose|i: int|
                0 <= i < s.len() - 1 && (#[trigger] s.drop_last()[i]).date.index() == m;
            assert(s[i].date.index() == m);
        }
        assert forall|i: int| 0 <= i < s.len() implies (#[trigger] s[i]).date.index()
            <= max_date_index(s) by {
            if i < s.len() - 1 {
                assert(s.drop_last()[i] == s[i]);
            }
        }
    } else {
        assert(s[0].date.index() == max_date_index(s));
    }
}

/// `s[j]` is the latest snapshot dated at or before day `n`.
pub open spec fn latest_at_or_before(s: Seq<DailyRates>, j: int, n: int) -> bool {
    &&& 0 <= j < s.len()
    &&& s[j].date.index() <= n
    &&& forall|i: int|
        0 <= i < s.len() && (#[trigger] s[i]).date.index() <= n ==> s[i].date.index()
            <= s[j].date.index()
}

/// The snapshot at position `k` of the filled output is synthetic: it copies
/// the nearest preceding real snapshot's table and base currency and carries
/// the filler's provenance label.
pub open spec fn filled_from(
    out: Seq<DailyRates>,
    s: Seq<DailyRates>,
    k: int,
    label: Seq<char>,
) -> bool {
    exists|j: int|
        {
            &&& #[trigger] latest_at_or_before(s, j, out[k].date.index())
            &&& out[k].base_currency@ == s[j].base_currency@
            &&& out[k].rates.entries@ == s[j].rates.entries@
            &&& out[k].provider@ == label
        }
}

fn position_of_min(rates: &Vec<DailyRates>) -> (r: usize)
    requires
        rates@.len() > 0,
    ensures
        r < rates@.len(),
        rates@[r as int].date.index() == min_date_index(rates@),
{
    let n = rates.len();
    let mut best: usize = 0;
    let mut i: usize = 1;
    while i < n
        invariant
            n == rates@.len(),
            0 < n,
            best < i <= n,
            rates@[best as int].date.index() == min_date_index(rates@.subrange(0, i as int)),
        decreases n - i,
    {
        proof {
            assert(rates@.subrange(0, i as int + 1).drop_last() =~= rates@.subrange(0, i as int));
            assert(rates@.subrange(0, i as int + 1).last() == rates@[i as int]);
        }
        if rates[i].date.day_index() < rates[best].date.day_index() {
            best = i;
        }
        i = i + 1;
    }
    proof {
        assert(rates@.subrange(0, n as int) =~= rates@);
    }
    best
}

fn largest_date_index(rates: &Vec<DailyRates>) -> (r: u32)
    requires
        rates@.len() > 0,
    ensures
        r as int == max_date_index(rates@),
{
    let n = rates.len();
    let mut best: u32 = rates[0].date.day_index();
    let mut i: usize = 1;
    while i < n
        invariant
            n == rates@.len(),
            0 < n,
            1 <= i <= n,
            best as int == max_date_index(rates@.subrange(0, i as int)),
        decreases n - i,
    {
        proof {
            assert(rates@.subrange(0, i as int + 1).drop_last() =~= rates@.subrange(0, i as int));
            assert(rates@.subrange(0, i as int + 1).last() == rates@[i as int]);
        }
        let d = rates[i].date.day_index();
        if d > best {
            best = d;
        }
        proof {
            let s1 = rates@.subrange(0, i as int + 1);
            assert(s1.len() >= 2);
            assert(max_date_index(s1) == if s1.last().date.index() > max_date_index(
                s1.drop_last(),
            ) {
                s1.last().date.index()
            } else {
                max_date_index(s1.drop_last())
            });
            assert(best as int == max_date_index(s1));
        }
        i = i + 1;
    }
    proof {
        assert(rates@.subrange(0, n as int) =~= rates@);
    }
    best
}

fn find_at(rates: &Vec<DailyRates>, target: u32) -> (r: Option<usize>)
    ensures
        r matches Some(i) ==> i < rates@.len() && rates@[i as int].date.index() == target,
        r is None ==> forall|i: int|
            0 <= i < rates@.len() ==> (#[trigger] rates@[i]).date.index() != target,
{
    let n = rates.len();
    let mut i: usize = 0;
    while i < n
        invariant
            n == rates@.len(),
            i <= n,
            forall|j: int| 0 <= j < i ==> (#[trigger] rates@[j]).date.index() != target,
        decreases n - i,
    {
        if rates[i].date.day_index() == target {
            return Some(i);
        }
        i = i + 1;
    }
    None
}

/// Copies the snapshot field by field, equal in every specification.
fn copy_daily(d: &DailyRates) -> (r: DailyRates)
    ensures
        daily_eq(r, *d),
{
    DailyRates {
        date: d.date,
        base_currency: d.base_currency.clone(),
        rates: d.rates.duplicate(),
        provider: d.provider.clone(),
    }
}

/// Fills gaps in one provider's snapshots (weekends, holidays) by carrying
/// the previous available day's table forward, through the reference day
/// `today`. Synthetic snapshots carry `provider_name` as provenance.
///
/// The output is dense and ascending: one snapshot per day from the earliest
/// input date through the later of `today` and the latest input date. Each
/// input snapshot appears unchanged at its own day; every other day copies
/// the nearest preceding input snapshot's table and base currency.
#[verifier::rlimit(100)]
pub fn fill_gaps(rates: Vec<DailyRates>, provider_name: &str, today: Date) -> (r: Vec<
    DailyRates,
>)
    requires
        today.wf(),
        forall|i: int| 0 <= i < rates@.len() ==> (#[trigger] rates@[i]).wf(),
        forall|i: int, j: int|
            0 <= i < j < rates@.len() ==> (#[trigger] rates@[i]).date.index() != (
            #[trigger] rates@[j]).date.index(),
    ensures
        rates@.len() == 0 ==> r@.len() == 0,
        rates@.len() > 0 ==> {
            let lo = min_date_index(rates@);
            let hi = if today.index() > max_date_index(rates@) {
                today.index()
            } else {
                max_date_index(rates@)
            };
            &&& r@.len() == hi - lo + 1
            &&& forall|k: int|
                0 <= k < r@.len() ==> (#[trigger] r@[k]).wf() && r@[k].date.index() == lo + k
            &&& forall|i: int|
                0 <= i < rates@.len() ==> daily_eq(
                    r@[(#[trigger] rates@[i]).date.index() - lo],
                    rates@[i],
                )
            &&& forall|k: int|
                0 <= k < r@.len() && (forall|i: int|
                    0 <= i < rates@.len() ==> (#[trigger] rates@[i]).date.index() != lo + k)
                    ==> filled_from(r@, rates@, k, provider_name@)
        },
{
    let n = rates.len();
    if n == 0 {
        return rates;
    }
    let min_i = position_of_min(&rates);
    let hi0 = largest_date_index(&rates);
    let hi: u32 = if today.day_index() > hi0 {
        today.day_index()
    } else {
        hi0
    };
    let lo: u32 = rates[min_i].date.day_index();
    proof {
        lemma_min_date_index(rates@);
        lemma_max_date_index(rates@);
        let wi = choose|i: int|
            0 <= i < rates@.len() && (#[trigger] rates@[i]).date.index() == max_date_index(rates@);
        lemma_day_number_le_max(
            rates@[wi].date.year as int,
            rates@[wi].date.month as int,
            rates@[wi].date.day as int,
        );
        lemma_day_number_le_max(today.year as int, today.month as int, today.day as int);
    }
    let count: usize = (hi - lo) as usize + 1;
    let mut out: Vec<DailyRates> = Vec::new();
    let mut cur: Date = rates[min_i].date;
    let mut prev: usize = min_i;
    while out.len() < count
        invariant
            n == rates@.len(),
            0 < n,
            min_i < n,
            forall|i: int| 0 <= i < rates@.len() ==> (#[trigger] rates@[i]).wf(),
            forall|i: int, j: int|
                0 <= i < j < rates@.len() ==> (#[trigger] rates@[i]).date.index() != (
                #[trigger] rates@[j]).date.index(),
            lo == min_date_index(rates@),
            hi == if today.index() > max_date_index(rates@) {
                today.index()
            } else {
                max_date_index(rates@)
            },
            lo <= hi,
            hi <= max_day_index(),
            forall|i: int| 0 <= i < rates@.len() ==> (#[trigger] rates@[i]).date.index() <= hi,
            forall|i: int| 0 <= i < rates@.len() ==> lo <= (#[trigger] rates@[i]).date.index(),
            count == hi - lo + 1,
            out@.len() <= count,
            out@.len() < count ==> cur.wf() && cur.index() == lo + out@.len(),
            out@.len() > 0 ==> latest_at_or_before(rates@, prev as int, lo + out@.len() - 1),
            prev < n,
            forall|k: int|
                0 <= k < out@.len() ==> (#[trigger] out@[k]).wf() && out@[k].date.index() == lo
                    + k,
            forall|i: int|
                0 <= i < rates@.len() && (#[trigger] rates@[i]).date.index() < lo + out@.len()
                    ==> daily_eq(out@[rates@[i].date.index() - lo], rates@[i]),
            forall|k: int|
                0 <= k < out@.len() && (forall|i: int|
                    0 <= i < rates@.len() ==> (#[trigger] rates@[i]).date.index() != lo + k)
                    ==> filled_from(out@, rates@, k, provider_name@),
        decreases count - out@.len(),
    {
        let ghost out0 = out@;
        let ghost k = out@.len() as int;
        match find_at(&rates, cur.day_index()) {
            Some(idx) => {
                out.push(copy_daily(&rates[idx]));
                proof {
                    assert(latest_at_or_before(rates@, idx as int, lo + k));
                    assert forall|i: int|
                        0 <= i < rates@.len() && (#[trigger] rates@[i]).date.index() < lo
                            + out@.len() implies daily_eq(
                        out@[rates@[i].date.index() - lo],
                        rates@[i],
                    ) by {
                        if rates@[i].date.index() == lo + k {
                            assert(i == idx as int);
                            assert(out@[k] == out@.last());
                        } else {
                            assert(out@[rates@[i].date.index() - lo] == out0[rates@[i].date.index()
                                - lo]);
                        }
                    }
                }
                prev = idx;
            },
            None => {
                proof {
                    // The first day always has a real snapshot: the minimum
                    // is attained, so this arm needs an earlier day's entry.
                    if k == 0 {
                        lemma_min_date_index(rates@);
                        let wi = choose|i: int|
                            0 <= i < rates@.len() && (#[trigger] rates@[i]).date.index()
                                == min_date_index(rates@);
                        assert(rates@[wi].date.index() == cur.index());
                        assert(false);
                    }
                    assert(latest_at_or_before(rates@, prev as int, lo + k));
                }
                let filler = DailyRates {
                    date: cur,
                    base_currency: rates[prev].base_currency.clone(),
                    rates: rates[prev].rates.duplicate(),
                    provider: provider_name.to_owned(),
                };
                out.push(filler);
            },
        }
        proof {
            assert(out@.len() == k + 1);
            assert(out@[k].date.index() == lo + k);
            assert forall|k2: int|
                0 <= k2 < out@.len() && (forall|i: int|
                    0 <= i < rates@.len() ==> (#[trigger] rates@[i]).date.index() != lo + k2)
                implies filled_from(out@, rates@, k2, provider_name@) by {
                if k2 < k {
                    assert(filled_from(out0, rates@, k2, provider_name@));
                    let j = choose|j: int|
                        {
                            &&& #[trigger] latest_at_or_before(rates@, j, out0[k2].date.index())
                            &&& out0[k2].base_currency@ == rates@[j].base_currency@
                            &&& out0[k2].rates.entries@ == rates@[j].rates.entries@
                            &&& out0[k2].provider@ == provider_name@
                        };
                    assert(out@[k2] == out0[k2]);
                    assert(latest_at_or_before(rates@, j, out@[k2].date.index()));
                }
            }
        }
        if out.len() < count {
            cur = cur.next_day();
        }
    }
    proof {
        assert(out@.len() == count);
    }
    out
}

/// One registered provider: its unique name and a human-readable description.
#[derive(Clone, Debug)]
pub struct ProviderEntry {
    pub name: String,
    pub description: String,
}

/// Registry of all available providers, a name-keyed lookup used for
/// startup wiring and sync-all runs.
#[derive(Debug)]
pub struct ProviderRegistry {
    pub providers: Vec<ProviderEntry>,
}

impl ProviderRegistry {
    /// Names are distinct.
    pub open spec fn wf(self) -> bool {
        forall|i: int, j: int|
            0 <= i < j < self.providers@.len() ==> (#[trigger] self.providers@[i]).name@ != (
            #[trigger] self.providers@[j]).name@
    }

    pub open spec fn has(self, name: Seq<char>) -> bool {
        exists|i: int| 0 <= i < self.providers@.len() && (#[trigger] self.providers@[i]).name@ == name
    }

    pub fn new() -> (r: ProviderRegistry)
        ensures
            r.wf(),
            r.providers@.len() == 0,
    {
        ProviderRegistry { providers: Vec::new() }
    }

    /// Registers a provider; a provider of the same name is replaced.
    pub fn register(&mut self, provider: ProviderEntry)
        requires
            old(self).wf(),
        ensures
            final(self).wf(),
            final(self).has(provider.name@),
            forall|n: Seq<char>| old(self).has(n) ==> final(self).has(n),
            forall|n: Seq<char>| final(self).has(n) ==> old(self).has(n) || n == provider.name@,
    {
        let n = self.providers.len();
        let mut i: usize = 0;
        while i < n
            invariant
                self.wf(),
                self.providers@ == old(self).providers@,
                n == self.providers@.len(),
                i <= n,
                forall|j: int|
                    0 <= j < i ==> (#[trigger] self.providers@[j]).name@ != provider.name@,
        decreases n - i,
        {
            if self.providers[i].name == provider.name {
                let ghost before = self.providers@;
                self.providers[i] = provider;
                proof {
                    assert(self.providers@[i as int].name@ == provider.name@);
                    assert forall|m: Seq<char>| old(self).has(m) implies self.has(m) by {
                        let j = choose|j: int|
                            0 <= j < before.len() && (#[trigger] before[j]).name@ == m;
                        assert(self.providers@[j].name@ == m);
                    }
                    assert forall|m: Seq<char>| self.has(m) implies old(self).has(m) || m
                        == provider.name@ by {
                        let j = choose|j: int|
                            0 <= j < self.providers@.len() && (#[trigger] self.providers@[j]).name@
                                == m;
                        if j != i {
                            assert(before[j].name@ == m);
                        }
                    }
                }
                return;
            }
            i = i + 1;
        }
        let ghost before = self.providers@;
        self.providers.push(provider);
        proof {
            assert(self.providers@[n as int].name@ == provider.name@);
            assert forall|m: Seq<char>| old(self).has(m) implies self.has(m) by {
                let j = choose|j: int| 0 <= j < before.len() && (#[trigger] before[j]).name@ == m;
                assert(self.providers@[j].name@ == m);
            }
            assert forall|m: Seq<char>| self.has(m) implies old(self).has(m) || m
                == provider.name@ by {
                let j = choose|j: int|
                    0 <= j < self.providers@.len() && (#[trigger] self.providers@[j]).name@ == m;
                if j < n {
                    assert(before[j].name@ == m);
                }
            }
        }
    }

    /// Looks a provider up by name.
    pub fn get(&self, name: &str) -> (r: Option<ProviderEntry>)
        requires
            self.wf(),
        ensures
            r is Some <==> self.has(name@),
            r matches Some(p) ==> p.name@ == name@ && exists|i: int|
                0 <= i < self.providers@.len() && (#[trigger] self.providers@[i]).name@ == name@
                    && self.providers@[i].description@ == p.description@,
    {
        let needle: String = name.to_owned();
        let n = self.providers.len();
        let mut i: usize = 0;
        while i < n
            invariant
                self.wf(),
                needle@ == name@,
                n == self.providers@.len(),
                i <= n,
                forall|j: int| 0 <= j < i ==> (#[trigger] self.providers@[j]).name@ != name@,
            decreases n - i,
        {
            if self.providers[i].name == needle {
                return Some(
                    ProviderEntry {
                        name: self.providers[i].name.clone(),
                        description: self.providers[i].description.clone(),
                    },
                );
            }
            i = i + 1;
        }
        None
    }

    /// All registered providers, in registration order.
    pub fn all(&self) -> (r: Vec<ProviderEntry>)
        ensures
            r@.len() == self.providers@.len(),
            forall|i: int|
                0 <= i < r@.len() ==> (#[trigger] r@[i]).name@ == self.providers@[i].name@
                    && r@[i].description@ == self.providers@[i].description@,
    {
        let n = self.providers.len();
        let mut out: Vec<ProviderEntry> = Vec::new();
        let mut i: usize = 0;
        while i < n
            invariant
                n == self.providers@.len(),
                i <= n,
                out@.len() == i,
                forall|j: int|
                    0 <= j < i ==> (#[trigger] out@[j]).name@ == self.providers@[j].name@
                        && out@[j].description@ == self.providers@[j].description@,
            decreases n - i,
        {
            out.push(
                ProviderEntry {
                    name: self.providers[i].name.clone(),
                    description: self.providers[i].description.clone(),
                },
            );
            i = i + 1;
        }
        out
    }

    /// The registered provider names, in registration order.
    pub fn names(&self) -> (r: Vec<String>)
        ensures
            r@.len() == self.providers@.len(),
            forall|i: int| 0 <= i < r@.len() ==> (#[trigger] r@[i])@ == self.providers@[i].name@,
    {
        let n = self.providers.len();
        let mut out: Vec<String> = Vec::new();
        let mut i: usize = 0;
        while i < n
            invariant
                n == self.providers@.len(),
                i <= n,
                out@.len() == i,
                forall|j: int| 0 <= j < i ==> (#[trigger] out@[j])@ == self.providers@[j].name@,
            decreases n - i,
        {
            out.push(self.providers[i].name.clone());
            i = i + 1;
        }
        out
    }
}

} // verus!
