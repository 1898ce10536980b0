//! An in-memory reference model of the storage contract: exchange-rate rows
//! deduplicated on the unique tuple (date, base, target, provider), a
//! currency catalog keyed by (code, provider), and a sync log.
//!
//! Writing a snapshot expands it into rows, skipping the pivot-to-pivot
//! pair; re-writing any overlap is idempotent because writes upsert on the
//! unique tuple. The surrounding process persists and reloads these rows
//! through its own database.

use vstd::prelude::*;
use crate::date::Date;
use crate::models::{DailyRates, ExchangeRate};
use crate::rate::Rate;
use crate::table::RateTable;

verus! {

/// The unique tuple a rate row is keyed by: day index, base, target, provider.
pub type RowKey = (int, Seq<char>, Seq<char>, Seq<char>);

pub open spec fn row_key(r: ExchangeRate) -> RowKey {
    (r.date.index(), r.base_currency@, r.target_currency@, r.provider@)
}

/// The map denoted by the row list; later rows override earlier ones.
pub open spec fn rows_map(s: Seq<ExchangeRate>) -> Map<RowKey, Rate>
    decreases s.len(),
{
    if s.len() == 0 {
        Map::empty()
    } else {
        rows_map(s.drop_last()).insert(row_key(s.last()), s.last().rate)
    }
}

pub open spec fn distinct_row_keys(s: Seq<ExchangeRate>) -> bool {
    forall|i: int, j: int|
        0 <= i < j < s.len() ==> row_key(#[trigger] s[i]) != row_key(#[trigger] s[j])
}

pub proof fn lemma_rows_map_domain(s: Seq<ExchangeRate>, k: RowKey)
    ensures
        rows_map(s).contains_key(k) <==> exists|i: int|
            0 <= i < s.len() && row_key(#[trigger] s[i]) == k,
    decreases s.len(),
{
    if s.len() > 0 {
        lemma_rows_map_domain(s.drop_last(), k);
        if rows_map(s).contains_key(k) {
            if row_key(s.last()) == k {
                assert(row_key(s[s.len() - 1]) == k);
            } else {
                let i = choose|i: int|
                    0 <= i < s.len() - 1 && row_key(#[trigger] s.drop_last()[i]) == k;
                assert(row_key(s[i]) == k);
            }
        }
        if exists|i: int| 0 <= i < s.len() && row_key(#[trigger] s[i]) == k {
            let i = choose|i: int| 0 <= i < s.len() && row_key(#[trigger] s[i]) == k;
            if i < s.len() - 1 {
                assert(row_key(s.drop_last()[i]) == k);
            }
        }
    }
}

pub proof fn lemma_rows_map_at(s: Seq<ExchangeRate>, i: int)
    requires
        distinct_row_keys(s),
        0 <= i < s.len(),
    ensures
        rows_map(s).contains_key(row_key(s[i])),
        rows_map(s)[row_key(s[i])] == s[i].rate,
    decreases s.len(),
{
    if i == s.len() - 1 {
    } else {
        assert(distinct_row_keys(s.drop_last()));
        lemma_rows_map_at(s.drop_last(), i);
        assert(s.drop_last()[i] == s[i]);
        assert(row_key(s[i]) != row_key(s.last()));
    }
}

pub proof fn lemma_rows_map_update(s: Seq<ExchangeRate>, i: int, r: ExchangeRate)
    requires
        distinct_row_keys(s),
        0 <= i < s.len(),
        row_key(r) == row_key(s[i]),
    ensures
        rows_map(s.update(i, r)) =~= rows_map(s).insert(row_key(r), r.rate),
    decreases s.len(),
{
    let t = s.update(i, r);
    if i == s.len() - 1 {
        assert(t.drop_last() =~= s.drop_last());
        assert(t.last() == r);
    } else {
        assert(distinct_row_keys(s.drop_last()));
        assert(s.drop_last()[i] == s[i]);
        lemma_rows_map_update(s.drop_last(), i, r);
        assert(t.drop_last() =~= s.drop_last().update(i, r));
        assert(t.last() == s.last());
        assert(row_key(s[i]) != row_key(s.last()));
    }
}

/// The row key `k` is covered by the snapshot `d`: it addresses `d`'s date,
/// base and provider and a non-pivot currency `d` quotes.
pub open spec fn daily_covers(d: DailyRates, k: RowKey) -> bool {
    k.0 == d.date.index() && k.1 == d.base_currency@ && k.3 == d.provider@ && k.2
        != d.base_currency@ && d.rates.as_map().contains_key(k.2)
}

/// Writing one snapshot: every covered key is upserted with the snapshot's
/// quote; everything else is untouched. The pivot-to-pivot pair is never
/// written.
pub open spec fn apply_daily(m: Map<RowKey, Rate>, d: DailyRates) -> Map<RowKey, Rate> {
    Map::new(
        |k: RowKey| m.contains_key(k) || daily_covers(d, k),
        |k: RowKey|
            if daily_covers(d, k) {
                d.rates.as_map()[k.2]
            } else {
                m[k]
            },
    )
}

/// Writing a batch of snapshots, in order.
pub open spec fn apply_batch(m: Map<RowKey, Rate>, s: Seq<DailyRates>) -> Map<RowKey, Rate>
    decreases s.len(),
{
    if s.len() == 0 {
        m
    } else {
        apply_daily(apply_batch(m, s.drop_last()), s.last())
    }
}

/// Number of non-pivot quotes of a snapshot's table.
pub open spec fn np_count(entries: Seq<(String, Rate)>, base: Seq<char>) -> int
    decreases entries.len(),
{
    if entries.len() == 0 {
        0
    } else {
        np_count(entries.drop_last(), base) + if entries.last().0@ != base {
            1int
        } else {
            0int
        }
    }
}

/// Number of rows a batch writes (counting overwrites).
pub open spec fn batch_np_count(s: Seq<DailyRates>) -> int
    decreases s.len(),
{
    if s.len() == 0 {
        0
    } else {
        batch_np_count(s.drop_last()) + np_count(s.last().rates.entries@, s.last().base_currency@)
    }
}

pub proof fn lemma_np_count_nonneg(entries: Seq<(String, Rate)>, base: Seq<char>)
    ensures
        0 <= np_count(entries, base) <= entries.len(),
    decreases entries.len(),
{
    if entries.len() > 0 {
        lemma_np_count_nonneg(entries.drop_last(), base);
    }
}

pub proof fn lemma_batch_np_prefix(s: Seq<DailyRates>, j: int)
    requires
        0 <= j <= s.len(),
    ensures
        0 <= batch_np_count(s.subrange(0, j)) <= batch_np_count(s),
    decreases s.len(),
{
    if s.len() == 0 {
        assert(s.subrange(0, j) =~= s);
    } else if j == s.len() {
        assert(s.subrange(0, j) =~= s);
        lemma_batch_np_prefix(s.drop_last(), s.len() - 1);
        assert(s.drop_last() =~= s.subrange(0, s.len() - 1));
        lemma_np_count_nonneg(s.last().rates.entries@, s.last().base_currency@);
    } else {
        lemma_batch_np_prefix(s.drop_last(), j);
        assert(s.drop_last().subrange(0, j) =~= s.subrange(0, j));
        lemma_np_count_nonneg(s.last().rates.entries@, s.last().base_currency@);
    }
}

/// The quotes a single-date read returns: the fold, in row order, of every
/// row addressing the date and base (and the provider, when one is named).
pub open spec fn date_table(
    rows: Seq<ExchangeRate>,
    idx: int,
    base: Seq<char>,
    prov: Option<Seq<char>>,
) -> Map<Seq<char>, Rate>
    decreases rows.len(),
{
    if rows.len() == 0 {
        Map::empty()
    } else {
        let rest = date_table(rows.drop_last(), idx, base, prov);
        let r = rows.last();
        if r.date.index() == idx && r.base_currency@ == base && (prov matches Some(p) ==> r.provider@
            == p) {
            rest.insert(r.target_currency@, r.rate)
        } else {
            rest
        }
    }
}

/// With a provider named, the single-date read is a function of the row map
/// alone: key `c` maps to the row keyed (idx, base, c, provider).
pub proof fn lemma_date_table_from_map(
    rows: Seq<ExchangeRate>,
    idx: int,
    base: Seq<char>,
    p: Seq<char>,
)
    requires
        distinct_row_keys(rows),
    ensures
        forall|c: Seq<char>|
            date_table(rows, idx, base, Some(p)).contains_key(c) <==> rows_map(
                rows,
            ).contains_key((idx, base, c, p)),
        forall|c: Seq<char>|
            #[trigger] date_table(rows, idx, base, Some(p)).contains_key(c) ==> date_table(
                rows,
                idx,
                base,
                Some(p),
            )[c] == rows_map(rows)[(idx, base, c, p)],
    decreases rows.len(),
{
    if rows.len() > 0 {
        assert(distinct_row_keys(rows.drop_last()));
        lemma_date_table_from_map(rows.drop_last(), idx, base, p);
        let r = rows.last();
        let dt = date_table(rows, idx, base, Some(p));
        let rest = date_table(rows.drop_last(), idx, base, Some(p));
        let mt = rows_map(rows);
        let mrest = rows_map(rows.drop_last());
        assert(mt == mrest.insert(row_key(r), r.rate));
        let sel = r.date.index() == idx && r.base_currency@ == base && r.provider@ == p;
        assert(dt == if sel {
            rest.insert(r.target_currency@, r.rate)
        } else {
            rest
        });
        assert forall|c: Seq<char>| #[trigger] dt.contains_key(c) implies mt.contains_key(
            (idx, base, c, p),
        ) && dt[c] == mt[(idx, base, c, p)] by {
            if sel && c == r.target_currency@ {
                assert(row_key(r) == (idx, base, c, p));
            } else {
                assert(rest.contains_key(c));
                assert(mrest.contains_key((idx, base, c, p)));
                assert(row_key(r) != (idx, base, c, p)) by {
                    if row_key(r) == (idx, base, c, p) {
                        assert(sel && c == r.target_currency@);
                    }
                }
            }
        }
        assert forall|c: Seq<char>| mt.contains_key((idx, base, c, p)) implies dt.contains_key(
            c,
        ) by {
            if row_key(r) == (idx, base, c, p) {
                assert(sel && c == r.target_currency@);
            } else {
                assert(mrest.contains_key((idx, base, c, p)));
                assert(rest.contains_key(c));
            }
        }
    }
}

/// Every quote a date read returns is positive when every stored row is
/// well formed.
pub proof fn lemma_date_table_pos(
    rows: Seq<ExchangeRate>,
    idx: int,
    base: Seq<char>,
    prov: Option<Seq<char>>,
)
    requires
        forall|i: int| 0 <= i < rows.len() ==> (#[trigger] rows[i]).wf(),
    ensures
        forall|c: Seq<char>|
            #[trigger] date_table(rows, idx, base, prov).contains_key(c) ==> date_table(
                rows,
                idx,
                base,
                prov,
            )[c].pos(),
    decreases rows.len(),
{
    if rows.len() > 0 {
        assert(forall|i: int| 0 <= i < rows.len() - 1 ==> (#[trigger] rows.drop_last()[i]).wf());
        lemma_date_table_pos(rows.drop_last(), idx, base, prov);
        assert(rows[rows.len() - 1].wf());
        let dt = date_table(rows, idx, base, prov);
        let rest = date_table(rows.drop_last(), idx, base, prov);
        let r = rows.last();
        assert forall|c: Seq<char>| #[trigger] dt.contains_key(c) implies dt[c].pos() by {
            let sel = r.date.index() == idx && r.base_currency@ == base && (prov matches Some(p)
                ==> r.provider@ == p);
            if sel && c == r.target_currency@ {
                assert(dt[c] == r.rate);
            } else {
                assert(rest.contains_key(c));
                assert(dt[c] == rest[c]);
            }
        }
    }
}

/// One entry of the sync log.
#[derive(Clone, Debug)]
pub struct SyncEntry {
    pub provider: String,
    pub records_count: usize,
    pub status: String,
    pub synced_at: String,
}

/// Timestamp of the most recent successful sync for the provider.
pub open spec fn last_success(log: Seq<SyncEntry>, p: Seq<char>) -> Option<Seq<char>>
    decreases log.len(),
{
    if log.len() == 0 {
        None
    } else if log.last().provider@ == p && log.last().status@ == "success"@ {
        Some(log.last().synced_at@)
    } else {
        last_success(log.drop_last(), p)
    }
}

/// Number of rows carrying the provider's tag.
pub open spec fn count_provider(rows: Seq<ExchangeRate>, p: Seq<char>) -> int
    decreases rows.len(),
{
    if rows.len() == 0 {
        0
    } else {
        count_provider(rows.drop_last(), p) + if rows.last().provider@ == p {
            1int
        } else {
            0int
        }
    }
}

/// The in-memory rate store.
#[derive(Debug)]
pub struct RatesRepository {
    pub rows: Vec<ExchangeRate>,
    pub currencies: Vec<(String, String, String)>,
    pub sync_log: Vec<SyncEntry>,
}

impl RatesRepository {
    /// Row keys are unique, every row is well formed, and the catalog has
    /// one entry per (code, provider).
    pub open spec fn wf(self) -> bool {
        &&& distinct_row_keys(self.rows@)
        &&& forall|i: int| 0 <= i < self.rows@.len() ==> (#[trigger] self.rows@[i]).wf()
        &&& distinct_cat_keys(self.currencies@)
    }

    /// The store's rows, as the map the unique tuple induces.
    pub open spec fn as_rows_map(self) -> Map<RowKey, Rate> {
        rows_map(self.rows@)
    }

    pub fn new() -> (r: RatesRepository)
        ensures
            r.wf(),
            r.rows@.len() == 0,
            r.currencies@.len() == 0,
            r.sync_log@.len() == 0,
            r.as_rows_map() =~= Map::empty(),
    {
        RatesRepository { rows: Vec::new(), currencies: Vec::new(), sync_log: Vec::new() }
    }

    fn row_position(&self, date_num: u32, base: &String, target: &String, provider: &String) -> (r:
        Option<usize>)
        requires
            self.wf(),
        ensures
            r matches Some(i) ==> i < self.rows@.len() && row_key(self.rows@[i as int]) == (
                date_num as int,
                base@,
                target@,
                provider@,
            ),
            r is None ==> forall|i: int|
                0 <= i < self.rows@.len() ==> row_key(#[trigger] self.rows@[i]) != (
                    date_num as int,
                    base@,
                    target@,
                    provider@,
                ),
    {
        let n = self.rows.len();
        let mut i: usize = 0;
        while i < n
            invariant
                self.wf(),
                n == self.rows@.len(),
                i <= n,
                forall|j: int|
                    0 <= j < i ==> row_key(#[trigger] self.rows@[j]) != (
                        date_num as int,
                        base@,
                        target@,
                        provider@,
                    ),
            decreases n - i,
        {
            let row = &self.rows[i];
            if row.date.day_index() == date_num && row.base_currency == *base && row.target_currency
                == *target && row.provider == *provider {
                return Some(i);
            }
            i = i + 1;
        }
        None
    }

    /// Stores a single exchange rate, upserting on the unique tuple.
    pub fn store_rate(&mut self, rate: &ExchangeRate)
        requires
            old(self).wf(),
            rate.wf(),
        ensures
            final(self).wf(),
            final(self).as_rows_map() =~= old(self).as_rows_map().insert(
                row_key(*rate),
                rate.rate,
            ),
            final(self).currencies@ == old(self).currencies@,
            final(self).sync_log@ == old(self).sync_log@,
    {
        let copy = ExchangeRate {
            date: rate.date,
            base_currency: rate.base_currency.clone(),
            target_currency: rate.target_currency.clone(),
            rate: rate.rate,
            provider: rate.provider.clone(),
        };
        match self.row_position(
            copy.date.day_index(),
            &copy.base_currency,
            &copy.target_currency,
            &copy.provider,
        ) {
            Some(i) => {
                proof {
                    lemma_rows_map_update(self.rows@, i as int, copy);
                }
                self.rows[i] = copy;
            },
            None => {
                let ghost s = self.rows@;
                self.rows.push(copy);
                proof {
                    assert(self.rows@.drop_last() =~= s);
                    lemma_rows_map_domain(s, row_key(copy));
                }
            },
        }
    }

    /// Stores one snapshot: one row per quote, skipping the pivot itself.
    pub fn store_daily_rates(&mut self, daily: &DailyRates) -> (count: usize)
        requires
            old(self).wf(),
            daily.wf(),
        ensures
            final(self).wf(),
            final(self).as_rows_map() =~= apply_daily(old(self).as_rows_map(), *daily),
            count as int == np_count(daily.rates.entries@, daily.base_currency@),
            final(self).currencies@ == old(self).currencies@,
            final(self).sync_log@ == old(self).sync_log@,
    {
        let ghost m0 = self.as_rows_map();
        let n = daily.rates.len();
        let mut count: usize = 0;
        let mut i: usize = 0;
        while i < n
            invariant
                self.wf(),
                daily.wf(),
                n == daily.rates.entries@.len(),
                i <= n,
                count as int == np_count(daily.rates.entries@.subrange(0, i as int), daily.base_currency@),
                count <= i,
                self.as_rows_map() =~= Map::new(
                    |k: RowKey| m0.contains_key(k) || covers_upto(*daily, k, i as int),
                    |k: RowKey|
                        if covers_upto(*daily, k, i as int) {
                            daily.rates.as_map()[k.2]
                        } else {
                            m0[k]
                        },
                ),
                self.currencies@ == old(self).currencies@,
                self.sync_log@ == old(self).sync_log@,
            decreases n - i,
        {
            let code = daily.rates.code_at(i);
            let rate = daily.rates.rate_at(i);
            proof {
                crate::table::lemma_entries_map_at(daily.rates.entries@, i as int);
                assert(daily.rates.entries@.subrange(0, i as int + 1).drop_last()
                    =~= daily.rates.entries@.subrange(0, i as int));
                assert(daily.rates.entries@.subrange(0, i as int + 1).last()
                    == daily.rates.entries@[i as int]);
            }
            if !(code == daily.base_currency) {
                let row = ExchangeRate {
                    date: daily.date,
                    base_currency: daily.base_currency.clone(),
                    target_currency: code,
                    rate,
                    provider: daily.provider.clone(),
                };
                let ghost before = self.as_rows_map();
                self.store_rate(&row);
                proof {
                    assert(self.as_rows_map() =~= before.insert(row_key(row), row.rate));
                    assert forall|k: RowKey| #[trigger] self.as_rows_map().contains_key(k) <==> (
                        m0.contains_key(k) || covers_upto(*daily, k, i as int + 1)) by {
                        if k == row_key(row) {
                            assert(covers_upto(*daily, k, i as int + 1));
                        } else {
                            covers_upto_step(*daily, k, i as int);
                        }
                    }
                    assert forall|k: RowKey| self.as_rows_map().contains_key(k) implies
                        #[trigger] self.as_rows_map()[k] == if covers_upto(*daily, k, i as int + 1) {
                        daily.rates.as_map()[k.2]
                    } else {
                        m0[k]
                    } by {
                        if k == row_key(row) {
                        } else {
                            covers_upto_step(*daily, k, i as int);
                        }
                    }
                }
                count = count + 1;
            } else {
                proof {
                    assert forall|k: RowKey| covers_upto(*daily, k, i as int + 1) implies
                        covers_upto(*daily, k, i as int) by {
                        covers_upto_step(*daily, k, i as int);
                    }
                }
            }
            i = i + 1;
        }
        proof {
            assert(daily.rates.entries@.subrange(0, n as int) =~= daily.rates.entries@);
            assert forall|k: RowKey| covers_upto(*daily, k, n as int) <==> daily_covers(
                *daily,
                k,
            ) by {
                crate::table::lemma_entries_map_domain(daily.rates.entries@, k.2);
            }
            assert(self.as_rows_map() =~= apply_daily(m0, *daily));
        }
        count
    }

    /// Stores a batch of snapshots as one durable write; the count reports
    /// every row written, overwrites included.
    pub fn store_daily_rates_batch(&mut self, rates: &Vec<DailyRates>) -> (count: usize)
        requires
            old(self).wf(),
            forall|i: int| 0 <= i < rates@.len() ==> (#[trigger] rates@[i]).wf(),
            batch_np_count(rates@) <= usize::MAX,
        ensures
            final(self).wf(),
            final(self).as_rows_map() =~= apply_batch(old(self).as_rows_map(), rates@),
            count as int == batch_np_count(rates@),
            final(self).currencies@ == old(self).currencies@,
            final(self).sync_log@ == old(self).sync_log@,
    {
        let ghost m0 = self.as_rows_map();
        let n = rates.len();
        let mut count: usize = 0;
        let mut i: usize = 0;
        while i < n
            invariant
                self.wf(),
                forall|j: int| 0 <= j < rates@.len() ==> (#[trigger] rates@[j]).wf(),
                batch_np_count(rates@) <= usize::MAX,
                n == rates@.len(),
                i <= n,
                count as int == batch_np_count(rates@.subrange(0, i as int)),
                self.as_rows_map() =~= apply_batch(m0, rates@.subrange(0, i as int)),
                self.currencies@ == old(self).currencies@,
                self.sync_log@ == old(self).sync_log@,
            decreases n - i,
        {
            proof {
                assert(rates@.subrange(0, i as int + 1).drop_last() =~= rates@.subrange(
                    0,
                    i as int,
                ));
                assert(rates@.subrange(0, i as int + 1).last() == rates@[i as int]);
                lemma_batch_np_prefix(rates@, i as int + 1);
            }
            let c = self.store_daily_rates(&rates[i]);
            count = count + c;
            i = i + 1;
        }
        proof {
            assert(rates@.subrange(0, n as int) =~= rates@);
        }
        count
    }

    /// The latest stored date, over all rows or those of one provider.
    pub fn get_latest_date(&self, provider: Option<&String>) -> (r: Option<Date>)
        requires
            self.wf(),
        ensures
            r is None <==> forall|i: int|
                0 <= i < self.rows@.len() ==> !provider_sel(#[trigger] self.rows@[i], provider),
            r matches Some(d) ==> d.wf() && (exists|i: int|
                provider_sel(#[trigger] self.rows@[i], provider) && 0 <= i < self.rows@.len()
                    && self.rows@[i].date == d) && forall|i: int|
                0 <= i < self.rows@.len() && provider_sel(#[trigger] self.rows@[i], provider)
                    ==> self.rows@[i].date.index() <= d.index(),
    {
        let n = self.rows.len();
        let mut best: Option<Date> = None;
        let mut i: usize = 0;
        while i < n
            invariant
                self.wf(),
                n == self.rows@.len(),
                i <= n,
                best is None <==> forall|j: int|
                    0 <= j < i ==> !provider_sel(#[trigger] self.rows@[j], provider),
                best matches Some(d) ==> d.wf() && (exists|j: int|
                    provider_sel(#[trigger] self.rows@[j], provider) && 0 <= j < i
                        && self.rows@[j].date == d) && forall|j: int|
                    0 <= j < i && provider_sel(#[trigger] self.rows@[j], provider)
                        ==> self.rows@[j].date.index() <= d.index(),
            decreases n - i,
        {
            let row = &self.rows[i];
            let selected = match provider {
                Some(p) => row.provider == *p,
                None => true,
            };
            if selected {
                let take = match &best {
                    Some(d) => row.date.day_index() > d.day_index(),
                    None => true,
                };
                if take {
                    best = Some(row.date);
                }
            }
            proof {
                if best matches Some(d) {
                    assert(provider_sel(self.rows@[i as int], provider) || i > 0);
                }
            }
            i = i + 1;
        }
        best
    }

    /// All quotes stored for the date against the base, optionally from one
    /// provider. With a provider named the result is exactly the rows keyed
    /// (date, base, _, provider).
    pub fn get_rates_for_date(&self, date: Date, base_currency: &str, provider: Option<&String>)
        -> (r: RateTable)
        requires
            self.wf(),
        ensures
            r.wf(),
            r.as_map() == date_table(
                self.rows@,
                date.index(),
                base_currency@,
                match provider {
                    Some(p) => Some(p@),
                    None => None,
                },
            ),
            forall|i: int| 0 <= i < r.entries@.len() ==> (#[trigger] r.entries@[i]).1.pos(),
    {
        let ghost pspec: Option<Seq<char>> = match provider {
            Some(p) => Some(p@),
            None => None,
        };
        let needle: String = base_currency.to_owned();
        let n = self.rows.len();
        let mut out = RateTable::new();
        let mut i: usize = 0;
        while i < n
            invariant
                self.wf(),
                n == self.rows@.len(),
                i <= n,
                needle@ == base_currency@,
                pspec == (match provider {
                    Some(p) => Some(p@),
                    None => None::<Seq<char>>,
                }),
                out.wf(),
                forall|c: Seq<char>|
                    out.as_map().contains_key(c) ==> (#[trigger] out.as_map()[c]).pos(),
                out.as_map() == date_table(
                    self.rows@.subrange(0, i as int),
                    date.index(),
                    base_currency@,
                    pspec,
                ),
            decreases n - i,
        {
            proof {
                assert(self.rows@.subrange(0, i as int + 1).drop_last() =~= self.rows@.subrange(
                    0,
                    i as int,
                ));
                assert(self.rows@.subrange(0, i as int + 1).last() == self.rows@[i as int]);
            }
            let row = &self.rows[i];
            let selected = match provider {
                Some(p) => row.provider == *p,
                None => true,
            };
            if selected && row.date.day_index() == date.day_index() && row.base_currency == needle {
                out.upsert(row.target_currency.clone(), row.rate);
            }
            i = i + 1;
        }
        proof {
            assert(self.rows@.subrange(0, n as int) =~= self.rows@);
            assert forall|j: int| 0 <= j < out.entries@.len() implies (
            #[trigger] out.entries@[j]).1.pos() by {
                out.lemma_view();
            }
        }
        out
    }

    /// All quotes stored for each date of the inclusive range: one entry per
    /// date with data, ascending; dates without data are absent.
    #[verifier::rlimit(100)]
    pub fn get_rates_for_range(
        &self,
        start: Date,
        end: Date,
        base_currency: &str,
        provider: Option<&String>,
    ) -> (r: Vec<(Date, RateTable)>)
        requires
            self.wf(),
            start.wf(),
            end.wf(),
        ensures
            forall|k: int|
                0 <= k < r@.len() ==> range_entry_ok(
                    self.rows@,
                    base_currency@,
                    spec_prov(provider),
                    start.index(),
                    end.index(),
                    #[trigger] r@[k],
                ),
            forall|k1: int, k2: int|
                0 <= k1 < k2 < r@.len() ==> (#[trigger] r@[k1]).0.index() < (
                #[trigger] r@[k2]).0.index(),
            forall|idx: int|
                start.index() <= idx <= end.index() && day_has_data(
                    self.rows@,
                    idx,
                    base_currency@,
                    spec_prov(provider),
                ) ==> day_listed(r@, idx),
    {
        let mut out: Vec<(Date, RateTable)> = Vec::new();
        if end.day_index() < start.day_index() {
            return out;
        }
        proof {
            crate::date::lemma_day_number_le_max(end.year as int, end.month as int, end.day as int);
        }
        let count: usize = (end.day_index() - start.day_index()) as usize + 1;
        let mut cur: Date = start;
        let mut k: usize = 0;
        while k < count
            invariant
                self.wf(),
                start.wf(),
                end.wf(),
                start.index() <= end.index(),
                end.index() <= crate::date::max_day_index(),
                count == end.index() - start.index() + 1,
                k <= count,
                k < count ==> cur.wf() && cur.index() == start.index() + k,
                forall|j: int|
                    0 <= j < out@.len() ==> range_entry_ok(
                        self.rows@,
                        base_currency@,
                        spec_prov(provider),
                        start.index(),
                        end.index(),
                        #[trigger] out@[j],
                    ) && out@[j].0.index() < start.index() + k,
                forall|j1: int, j2: int|
                    0 <= j1 < j2 < out@.len() ==> (#[trigger] out@[j1]).0.index() < (
                    #[trigger] out@[j2]).0.index(),
                forall|idx: int|
                    start.index() <= idx < start.index() + k && day_has_data(
                        self.rows@,
                        idx,
                        base_currency@,
                        spec_prov(provider),
                    ) ==> day_listed(out@, idx),
            decreases count - k,
        {
            let ghost out0 = out@;
            let table = self.get_rates_for_date(cur, base_currency, provider);
            if !table.is_empty() {
                out.push((cur, table));
                proof {
                    assert(range_entry_ok(
                        self.rows@,
                        base_currency@,
                        spec_prov(provider),
                        start.index(),
                        end.index(),
                        out@[out@.len() - 1],
                    ));
                }
            } else {
                proof {
                    assert(date_table(
                        self.rows@,
                        cur.index(),
                        base_currency@,
                        spec_prov(provider),
                    ).dom() =~= Set::<Seq<char>>::empty());
                    assert(!day_has_data(
                        self.rows@,
                        cur.index(),
                        base_currency@,
                        spec_prov(provider),
                    ));
                }
            }
            proof {
                assert forall|idx: int|
                    start.index() <= idx < start.index() + k + 1 && day_has_data(
                        self.rows@,
                        idx,
                        base_currency@,
                        spec_prov(provider),
                    ) implies day_listed(out@, idx) by {
                    if idx < start.index() + k {
                        assert(day_listed(out0, idx));
                        let j = choose|j: int|
                            0 <= j < out0.len() && (#[trigger] out0[j]).0.index() == idx;
                        assert(out@[j].0.index() == idx);
                    } else {
                        assert(out@[out@.len() - 1].0.index() == idx);
                    }
                }
            }
            k = k + 1;
            if k < count {
                cur = cur.next_day();
            }
        }
        out
    }

    /// Stores the provider's currency catalog, upserting on (code, provider).
    pub fn store_currencies(&mut self, currencies: &Vec<(String, String)>, provider: &str)
        requires
            old(self).wf(),
        ensures
            final(self).wf(),
            cat_map(final(self).currencies@) =~= apply_catalog(
                cat_map(old(self).currencies@),
                currencies@,
                provider@,
            ),
            final(self).rows@ == old(self).rows@,
            final(self).sync_log@ == old(self).sync_log@,
    {
        let n = currencies.len();
        let mut i: usize = 0;
        while i < n
            invariant
                self.wf(),
                n == currencies@.len(),
                i <= n,
                cat_map(self.currencies@) =~= apply_catalog(
                    cat_map(old(self).currencies@),
                    currencies@.subrange(0, i as int),
                    provider@,
                ),
                self.rows@ == old(self).rows@,
                self.sync_log@ == old(self).sync_log@,
            decreases n - i,
        {
            proof {
                assert(currencies@.subrange(0, i as int + 1).drop_last() =~= currencies@.subrange(
                    0,
                    i as int,
                ));
                assert(currencies@.subrange(0, i as int + 1).last() == currencies@[i as int]);
            }
            let code = currencies[i].0.clone();
            let name = currencies[i].1.clone();
            self.upsert_currency(code, name, provider);
            i = i + 1;
        }
        proof {
            assert(currencies@.subrange(0, n as int) =~= currencies@);
        }
    }

    fn upsert_currency(&mut self, code: String, name: String, provider: &str)
        requires
            old(self).wf(),
        ensures
            final(self).wf(),
            cat_map(final(self).currencies@) =~= cat_map(old(self).currencies@).insert(
                (code@, provider@),
                name@,
            ),
            final(self).rows@ == old(self).rows@,
            final(self).sync_log@ == old(self).sync_log@,
    {
        let prov: String = provider.to_owned();
        let n = self.currencies.len();
        let mut i: usize = 0;
        while i < n
            invariant
                self.wf(),
                self.currencies@ == old(self).currencies@,
                self.rows@ == old(self).rows@,
                self.sync_log@ == old(self).sync_log@,
                prov@ == provider@,
                n == self.currencies@.len(),
                i <= n,
                forall|j: int|
                    0 <= j < i ==> !((#[trigger] self.currencies@[j]).0@ == code@
                        && self.currencies@[j].2@ == provider@),
            decreases n - i,
        {
            if self.currencies[i].0 == code && self.currencies[i].2 == prov {
                let ghost before = self.currencies@;
                self.currencies[i] = (code, name, prov);
                proof {
                    lemma_cat_map_update(before, i as int, self.currencies@[i as int]);
                }
                return;
            }
            i = i + 1;
        }
        let ghost before = self.currencies@;
        self.currencies.push((code, name, prov));
        proof {
            assert(self.currencies@.drop_last() =~= before);
            assert(self.currencies@.last().0@ == code@ && self.currencies@.last().2@ == provider@);
        }
    }

    /// The distinct currencies with stored rates, each with its display
    /// name from the catalog (the code itself when the catalog has none).
    pub fn get_currencies(&self, provider: Option<&String>) -> (r: Vec<(String, String)>)
        requires
            self.wf(),
        ensures
            forall|k1: int, k2: int|
                0 <= k1 < k2 < r@.len() ==> (#[trigger] r@[k1]).0@ != (#[trigger] r@[k2]).0@,
            forall|k: int|
                0 <= k < r@.len() ==> (#[trigger] r@[k]).1@ == name_for(
                    self.currencies@,
                    r@[k].0@,
                ),
            forall|k: int|
                0 <= k < r@.len() ==> code_has_rate(self.rows@, provider, (#[trigger] r@[k]).0@),
            forall|i: int|
                0 <= i < self.rows@.len() && provider_sel(#[trigger] self.rows@[i], provider)
                    ==> listed(r@, self.rows@[i].target_currency@),
    {
        let n = self.rows.len();
        let mut out: Vec<(String, String)> = Vec::new();
        let mut i: usize = 0;
        while i < n
            invariant
                self.wf(),
                n == self.rows@.len(),
                i <= n,
                forall|k1: int, k2: int|
                    0 <= k1 < k2 < out@.len() ==> (#[trigger] out@[k1]).0@ != (
                    #[trigger] out@[k2]).0@,
                forall|k: int|
                    0 <= k < out@.len() ==> (#[trigger] out@[k]).1@ == name_for(
                        self.currencies@,
                        out@[k].0@,
                    ),
                forall|k: int|
                    0 <= k < out@.len() ==> code_has_rate(
                        self.rows@,
                        provider,
                        (#[trigger] out@[k]).0@,
                    ),
                forall|j: int|
                    0 <= j < i && provider_sel(#[trigger] self.rows@[j], provider) ==> listed(
                        out@,
                        self.rows@[j].target_currency@,
                    ),
            decreases n - i,
        {
            let ghost out0 = out@;
            let row = &self.rows[i];
            let selected = match provider {
                Some(p) => row.provider == *p,
                None => true,
            };
            proof {
                assert(selected == provider_sel(self.rows@[i as int], provider));
            }
            if selected {
                let seen = has_code(&out, &row.target_currency);
                if !seen {
                    let name = self.lookup_name(&row.target_currency);
                    out.push((row.target_currency.clone(), name));
                    proof {
                        assert(code_has_rate(
                            self.rows@,
                            provider,
                            out@[out@.len() - 1].0@,
                        )) by {
                            assert(provider_sel(self.rows@[i as int], provider)
                                && self.rows@[i as int].target_currency@ == out@[out@.len()
                                - 1].0@);
                        }
                    }
                }
                proof {
                    assert(listed(out@, self.rows@[i as int].target_currency@)) by {
                        if !seen {
                            assert(out@[out@.len() - 1].0@
                                == self.rows@[i as int].target_currency@);
                        } else {
                            let k = choose|k: int|
                                0 <= k < out0.len() && (#[trigger] out0[k]).0@
                                    == self.rows@[i as int].target_currency@;
                            assert(out@[k].0@ == self.rows@[i as int].target_currency@);
                        }
                    }
                }
            }
            proof {
                assert forall|j: int|
                    0 <= j < i + 1 && provider_sel(#[trigger] self.rows@[j], provider) implies
                    listed(out@, self.rows@[j].target_currency@) by {
                    if j < i {
                        let k = choose|k: int|
                            0 <= k < out0.len() && (#[trigger] out0[k]).0@
                                == self.rows@[j].target_currency@;
                        assert(out@[k].0@ == self.rows@[j].target_currency@);
                    }
                }
            }
            i = i + 1;
        }
        out
    }

    fn lookup_name(&self, code: &String) -> (r: String)
        ensures
            r@ == name_for(self.currencies@, code@),
    {
        let n = self.currencies.len();
        let mut name: String = code.clone();
        let mut i: usize = 0;
        while i < n
            invariant
                n == self.currencies@.len(),
                i <= n,
                name@ == name_for(self.currencies@.subrange(0, i as int), code@),
            decreases n - i,
        {
            proof {
                assert(self.currencies@.subrange(0, i as int + 1).drop_last()
                    =~= self.currencies@.subrange(0, i as int));
                assert(self.currencies@.subrange(0, i as int + 1).last()
                    == self.currencies@[i as int]);
            }
            if self.currencies[i].0 == *code {
                name = self.currencies[i].1.clone();
            }
            i = i + 1;
        }
        proof {
            assert(self.currencies@.subrange(0, n as int) =~= self.currencies@);
        }
        name
    }

    /// Appends one entry to the sync log.
    pub fn log_sync(&mut self, provider: &str, records_count: usize, status: &str, synced_at: &str)
        requires
            old(self).wf(),
        ensures
            final(self).wf(),
            final(self).sync_log@.len() == old(self).sync_log@.len() + 1,
            forall|i: int|
                0 <= i < old(self).sync_log@.len() ==> final(self).sync_log@[i] == old(
                    self,
                ).sync_log@[i],
            final(self).sync_log@.last().provider@ == provider@,
            final(self).sync_log@.last().records_count == records_count,
            final(self).sync_log@.last().status@ == status@,
            final(self).sync_log@.last().synced_at@ == synced_at@,
            final(self).rows@ == old(self).rows@,
            final(self).currencies@ == old(self).currencies@,
    {
        self.sync_log.push(
            SyncEntry {
                provider: provider.to_owned(),
                records_count,
                status: status.to_owned(),
                synced_at: synced_at.to_owned(),
            },
        );
    }

    /// Timestamp of the most recent successful sync of the provider.
    pub fn get_last_sync(&self, provider: &str) -> (r: Option<String>)
        ensures
            r is Some <==> last_success(self.sync_log@, provider@) is Some,
            r matches Some(s) ==> last_success(self.sync_log@, provider@) matches Some(v) && v
                == s@,
    {
        let success: String = String::from_str("success");
        let prov: String = provider.to_owned();
        let n = self.sync_log.len();
        let mut found: Option<String> = None;
        let mut i: usize = 0;
        while i < n
            invariant
                n == self.sync_log@.len(),
                i <= n,
                success@ == "success"@,
                prov@ == provider@,
                found is Some <==> last_success(
                    self.sync_log@.subrange(0, i as int),
                    provider@,
                ) is Some,
                found matches Some(s) ==> last_success(
                    self.sync_log@.subrange(0, i as int),
                    provider@,
                ) matches Some(v) && v == s@,
            decreases n - i,
        {
            proof {
                assert(self.sync_log@.subrange(0, i as int + 1).drop_last()
                    =~= self.sync_log@.subrange(0, i as int));
                assert(self.sync_log@.subrange(0, i as int + 1).last()
                    == self.sync_log@[i as int]);
            }
            let entry = &self.sync_log[i];
            if entry.provider == prov && entry.status == success {
                found = Some(entry.synced_at.clone());
            }
            i = i + 1;
        }
        proof {
            assert(self.sync_log@.subrange(0, n as int) =~= self.sync_log@);
        }
        found
    }

    /// Number of stored rows carrying the provider's tag.
    pub fn get_rates_count(&self, provider: &str) -> (r: usize)
        ensures
            r as int == count_provider(self.rows@, provider@),
    {
        let prov: String = provider.to_owned();
        let n = self.rows.len();
        let mut count: usize = 0;
        let mut i: usize = 0;
        while i < n
            invariant
                n == self.rows@.len(),
                i <= n,
                prov@ == provider@,
                count <= i,
                count as int == count_provider(self.rows@.subrange(0, i as int), provider@),
            decreases n - i,
        {
            proof {
                assert(self.rows@.subrange(0, i as int + 1).drop_last() =~= self.rows@.subrange(
                    0,
                    i as int,
                ));
                assert(self.rows@.subrange(0, i as int + 1).last() == self.rows@[i as int]);
            }
            if self.rows[i].provider == prov {
                count = count + 1;
            }
            i = i + 1;
        }
        proof {
            assert(self.rows@.subrange(0, n as int) =~= self.rows@);
        }
        count
    }
}

/// A well-formed output entry of a range read: a date inside the range
/// whose table is exactly the stored quotes of that date, and not empty.
pub open spec fn range_entry_ok(
    rows: Seq<ExchangeRate>,
    base: Seq<char>,
    prov: Option<Seq<char>>,
    lo: int,
    hi: int,
    e: (Date, RateTable),
) -> bool {
    &&& e.0.wf()
    &&& lo <= e.0.index() <= hi
    &&& e.1.wf()
    &&& e.1.entries@.len() > 0
    &&& e.1.as_map() == date_table(rows, e.0.index(), base, prov)
}

/// Some quote is stored for the day.
pub open spec fn day_has_data(
    rows: Seq<ExchangeRate>,
    idx: int,
    base: Seq<char>,
    prov: Option<Seq<char>>,
) -> bool {
    date_table(rows, idx, base, prov).dom() != Set::<Seq<char>>::empty()
}

/// The output has an entry for the day.
pub open spec fn day_listed(out: Seq<(Date, RateTable)>, idx: int) -> bool {
    exists|k: int| 0 <= k < out.len() && (#[trigger] out[k]).0.index() == idx
}

/// Some stored row selected by the provider filter quotes the code.
pub open spec fn code_has_rate(
    rows: Seq<ExchangeRate>,
    provider: Option<&String>,
    code: Seq<char>,
) -> bool {
    exists|i: int|
        0 <= i < rows.len() && provider_sel(#[trigger] rows[i], provider)
            && rows[i].target_currency@ == code
}

/// The code occurs among the collected pairs.
pub open spec fn listed(out: Seq<(String, String)>, code: Seq<char>) -> bool {
    exists|k: int| 0 <= k < out.len() && (#[trigger] out[k]).0@ == code
}

/// Whether the code already occurs among the collected pairs.
fn has_code(out: &Vec<(String, String)>, code: &String) -> (r: bool)
    ensures
        r <==> exists|k: int| 0 <= k < out@.len() && (#[trigger] out@[k]).0@ == code@,
{
    let m = out.len();
    let mut k: usize = 0;
    while k < m
        invariant
            m == out@.len(),
            k <= m,
            forall|k2: int| 0 <= k2 < k ==> (#[trigger] out@[k2]).0@ != code@,
        decreases m - k,
    {
        if out[k].0 == *code {
            proof {
                assert(out@[k as int].0@ == code@);
            }
            return true;
        }
        k = k + 1;
    }
    false
}

/// The optional provider filter, as the specification sees it.
pub open spec fn spec_prov(provider: Option<&String>) -> Option<Seq<char>> {
    match provider {
        Some(p) => Some(p@),
        None => None,
    }
}

pub proof fn lemma_cat_map_update(
    s: Seq<(String, String, String)>,
    i: int,
    e: (String, String, String),
)
    requires
        distinct_cat_keys(s),
        0 <= i < s.len(),
        e.0@ == s[i].0@,
        e.2@ == s[i].2@,
    ensures
        cat_map(s.update(i, e)) =~= cat_map(s).insert((e.0@, e.2@), e.1@),
    decreases s.len(),
{
    let t = s.update(i, e);
    if i == s.len() - 1 {
        assert(t.drop_last() =~= s.drop_last());
        assert(t.last() == e);
    } else {
        assert(distinct_cat_keys(s.drop_last()));
        lemma_cat_map_update(s.drop_last(), i, e);
        assert(s.drop_last()[i] == s[i]);
        assert(t.drop_last() =~= s.drop_last().update(i, e));
        assert(t.last() == s.last());
        assert(!(s[i].0@ == s.last().0@ && s[i].2@ == s.last().2@));
    }
}

/// The key is covered by some snapshot of the batch.
pub open spec fn batch_covers(s: Seq<DailyRates>, k: RowKey) -> bool
    decreases s.len(),
{
    if s.len() == 0 {
        false
    } else {
        batch_covers(s.drop_last(), k) || daily_covers(s.last(), k)
    }
}

/// The quote the last covering snapshot of the batch writes for the key.
pub open spec fn batch_value(s: Seq<DailyRates>, k: RowKey) -> Rate
    recommends
        batch_covers(s, k),
    decreases s.len(),
{
    if s.len() == 0 {
        Rate { num: 1, den: 1 }
    } else if daily_covers(s.last(), k) {
        s.last().rates.as_map()[k.2]
    } else {
        batch_value(s.drop_last(), k)
    }
}

/// Writing a batch, key by key: a covered key carries the last covering
/// snapshot's quote; any other key is untouched.
pub proof fn lemma_apply_batch_pointwise(m: Map<RowKey, Rate>, s: Seq<DailyRates>)
    ensures
        forall|k: RowKey|
            #[trigger] apply_batch(m, s).contains_key(k) <==> m.contains_key(k) || batch_covers(
                s,
                k,
            ),
        forall|k: RowKey|
            #[trigger] apply_batch(m, s).contains_key(k) ==> apply_batch(m, s)[k] == if
                batch_covers(s, k) {
                batch_value(s, k)
            } else {
                m[k]
            },
    decreases s.len(),
{
    if s.len() > 0 {
        lemma_apply_batch_pointwise(m, s.drop_last());
        let inner = apply_batch(m, s.drop_last());
        let full = apply_batch(m, s);
        assert(full == apply_daily(inner, s.last()));
        assert forall|k: RowKey| full.contains_key(k) <==> m.contains_key(k) || batch_covers(
            s,
            k,
        ) by {
            assert(full.contains_key(k) <==> inner.contains_key(k) || daily_covers(s.last(), k));
            assert(inner.contains_key(k) <==> m.contains_key(k) || batch_covers(s.drop_last(), k));
        }
        assert forall|k: RowKey| #[trigger] full.contains_key(k) implies full[k] == if
            batch_covers(s, k) {
            batch_value(s, k)
        } else {
            m[k]
        } by {
            if daily_covers(s.last(), k) {
                assert(full[k] == s.last().rates.as_map()[k.2]);
            } else {
                assert(full[k] == inner[k]);
            }
        }
    }
}

/// Storing the same batch twice leaves the rows exactly as one write left
/// them: writes upsert on the unique row tuple, so a re-run duplicates
/// nothing and the stored count is unchanged.
pub proof fn lemma_store_batch_idempotent(m: Map<RowKey, Rate>, s: Seq<DailyRates>)
    ensures
        apply_batch(apply_batch(m, s), s) =~= apply_batch(m, s),
{
    let once = apply_batch(m, s);
    let twice = apply_batch(once, s);
    lemma_apply_batch_pointwise(m, s);
    lemma_apply_batch_pointwise(once, s);
    assert forall|k: RowKey| #[trigger] twice.contains_key(k) implies once.contains_key(k)
        && twice[k] == once[k] by {
        if batch_covers(s, k) {
            assert(once.contains_key(k));
            assert(twice[k] == batch_value(s, k));
            assert(once[k] == batch_value(s, k));
        } else {
            assert(once.contains_key(k));
            assert(twice[k] == once[k]);
        }
    }
    assert forall|k: RowKey| #[trigger] once.contains_key(k) implies twice.contains_key(k) by {}
}

/// Reading back the date and provider of a stored snapshot reproduces every
/// one of its (currency, rate) pairs except the pivot's own, which is never
/// persisted; conversely every quote read was either the snapshot's or was
/// already stored under the same date, base and provider.
pub proof fn lemma_store_read_round_trip(
    rows: Seq<ExchangeRate>,
    m: Map<RowKey, Rate>,
    d: DailyRates,
)
    requires
        distinct_row_keys(rows),
        rows_map(rows) =~= apply_daily(m, d),
        !m.contains_key((d.date.index(), d.base_currency@, d.base_currency@, d.provider@)),
    ensures
        forall|c: Seq<char>|
            c != d.base_currency@ && #[trigger] d.rates.as_map().contains_key(c) ==> {
                let read = date_table(rows, d.date.index(), d.base_currency@, Some(d.provider@));
                read.contains_key(c) && read[c] == d.rates.as_map()[c]
            },
        forall|c: Seq<char>|
            #[trigger] date_table(
                rows,
                d.date.index(),
                d.base_currency@,
                Some(d.provider@),
            ).contains_key(c) ==> c != d.base_currency@ && (d.rates.as_map().contains_key(c)
                || m.contains_key((d.date.index(), d.base_currency@, c, d.provider@))),
{
    lemma_date_table_from_map(rows, d.date.index(), d.base_currency@, d.provider@);
    assert forall|c: Seq<char>|
        #[trigger] date_table(
            rows,
            d.date.index(),
            d.base_currency@,
            Some(d.provider@),
        ).contains_key(c) implies c != d.base_currency@ && (d.rates.as_map().contains_key(c)
        || m.contains_key((d.date.index(), d.base_currency@, c, d.provider@))) by {
        let k = (d.date.index(), d.base_currency@, c, d.provider@);
        assert(rows_map(rows).contains_key(k));
        if !daily_covers(d, k) {
            assert(m.contains_key(k));
        }
    }
}

/// The largest day index among the stored rows.
pub open spec fn max_row_day(rows: Seq<ExchangeRate>) -> int
    recommends
        rows.len() > 0,
    decreases rows.len(),
{
    if rows.len() <= 1 {
        rows[0].date.index()
    } else {
        let m = max_row_day(rows.drop_last());
        if rows.last().date.index() > m {
            rows.last().date.index()
        } else {
            m
        }
    }
}

pub proof fn lemma_max_row_day(rows: Seq<ExchangeRate>)
    requires
        rows.len() > 0,
    ensures
        exists|i: int| 0 <= i < rows.len() && (#[trigger] rows[i]).date.index() == max_row_day(rows),
        forall|i: int| 0 <= i < rows.len() ==> (#[trigger] rows[i]).date.index() <= max_row_day(rows),
    decreases rows.len(),
{
    if rows.len() > 1 {
        lemma_max_row_day(rows.drop_last());
        let m = max_row_day(rows.drop_last());
        if rows.last().date.index() > m {
            assert(rows[rows.len() - 1].date.index() == max_row_day(rows));
        } else {
            let i = choose|i: int|
                0 <= i < rows.len() - 1 && (#[trigger] rows.drop_last()[i]).date.index() == m;
            assert(rows[i].date.index() == m);
        }
        assert forall|i: int| 0 <= i < rows.len() implies (#[trigger] rows[i]).date.index()
            <= max_row_day(rows) by {
            if i < rows.len() - 1 {
                assert(rows.drop_last()[i] == rows[i]);
            }
        }
    } else {
        assert(rows[0].date.index() == max_row_day(rows));
    }
}

/// The stored row keys carrying the provider's tag.
pub open spec fn provider_keys(m: Map<RowKey, Rate>, p: Seq<char>) -> Set<RowKey> {
    m.dom().filter(|k: RowKey| k.3 == p)
}

/// Under unique row keys, the per-provider row count is the number of the
/// provider's keys in the row map: the count a re-run reports depends on
/// the stored map alone.
pub proof fn lemma_count_is_card(rows: Seq<ExchangeRate>, p: Seq<char>)
    requires
        distinct_row_keys(rows),
    ensures
        rows_map(rows).dom().finite(),
        count_provider(rows, p) == provider_keys(rows_map(rows), p).len(),
    decreases rows.len(),
{
    broadcast use vstd::set::axiom_set_insert_len;
    if rows.len() == 0 {
        assert(rows_map(rows).dom() =~= Set::empty());
        assert(provider_keys(rows_map(rows), p) =~= Set::empty());
    } else {
        assert(distinct_row_keys(rows.drop_last()));
        lemma_count_is_card(rows.drop_last(), p);
        let k = row_key(rows.last());
        let prev = rows_map(rows.drop_last());
        assert(!prev.contains_key(k)) by {
            lemma_rows_map_domain(rows.drop_last(), k);
            if exists|i: int| 0 <= i < rows.len() - 1 && row_key(#[trigger] rows.drop_last()[i]) == k {
                let i = choose|i: int|
                    0 <= i < rows.len() - 1 && row_key(#[trigger] rows.drop_last()[i]) == k;
                assert(row_key(rows[i]) == row_key(rows[rows.len() - 1]));
            }
        }
        assert(rows_map(rows).dom() =~= prev.dom().insert(k));
        if k.3 == p {
            assert(provider_keys(rows_map(rows), p) =~= provider_keys(prev, p).insert(k));
            assert(!provider_keys(prev, p).contains(k));
        } else {
            assert(provider_keys(rows_map(rows), p) =~= provider_keys(prev, p));
        }
    }
}

/// Two stores holding the same row map report the same per-provider count:
/// with [`lemma_store_batch_idempotent`], re-running a sync never changes
/// what `get_rates_count` reports.
pub proof fn lemma_count_from_map(r1: Seq<ExchangeRate>, r2: Seq<ExchangeRate>, p: Seq<char>)
    requires
        distinct_row_keys(r1),
        distinct_row_keys(r2),
        rows_map(r1) == rows_map(r2),
    ensures
        count_provider(r1, p) == count_provider(r2, p),
{
    lemma_count_is_card(r1, p);
    lemma_count_is_card(r2, p);
}

/// The catalog has at most one entry per (code, provider).
pub open spec fn distinct_cat_keys(s: Seq<(String, String, String)>) -> bool {
    forall|i: int, j: int|
        0 <= i < j < s.len() ==> !((#[trigger] s[i]).0@ == (#[trigger] s[j]).0@ && s[i].2@
            == s[j].2@)
}

/// The catalog list as the map its (code, provider) key induces.
pub open spec fn cat_map(s: Seq<(String, String, String)>) -> Map<(Seq<char>, Seq<char>), Seq<char>>
    decreases s.len(),
{
    if s.len() == 0 {
        Map::empty()
    } else {
        cat_map(s.drop_last()).insert((s.last().0@, s.last().2@), s.last().1@)
    }
}

/// Upserting the given pairs for the provider, in order.
pub open spec fn apply_catalog(
    m: Map<(Seq<char>, Seq<char>), Seq<char>>,
    pairs: Seq<(String, String)>,
    prov: Seq<char>,
) -> Map<(Seq<char>, Seq<char>), Seq<char>>
    decreases pairs.len(),
{
    if pairs.len() == 0 {
        m
    } else {
        apply_catalog(m, pairs.drop_last(), prov).insert((pairs.last().0@, prov), pairs.last().1@)
    }
}

/// Display name for a code: the last catalog entry with the code, or the
/// code itself when the catalog has none.
pub open spec fn name_for(cats: Seq<(String, String, String)>, code: Seq<char>) -> Seq<char>
    decreases cats.len(),
{
    if cats.len() == 0 {
        code
    } else if cats.last().0@ == code {
        cats.last().1@
    } else {
        name_for(cats.drop_last(), code)
    }
}

/// The row is selected by the optional provider filter.
pub open spec fn provider_sel(r: ExchangeRate, provider: Option<&String>) -> bool {
    match provider {
        Some(p) => r.provider@ == p@,
        None => true,
    }
}

/// The key is covered by one of the first `i` table entries of the snapshot.
pub open spec fn covers_upto(d: DailyRates, k: RowKey, i: int) -> bool {
    k.0 == d.date.index() && k.1 == d.base_currency@ && k.3 == d.provider@ && k.2
        != d.base_currency@ && exists|j: int|
        0 <= j < i && (#[trigger] d.rates.entries@[j]).0@ == k.2
}

proof fn covers_upto_step(d: DailyRates, k: RowKey, i: int)
    requires
        0 <= i < d.rates.entries@.len(),
        k != (d.date.index(), d.base_currency@, d.rates.entries@[i].0@, d.provider@),
    ensures
        covers_upto(d, k, i + 1) <==> covers_upto(d, k, i),
{
    if covers_upto(d, k, i + 1) {
        let j = choose|j: int| 0 <= j < i + 1 && (#[trigger] d.rates.entries@[j]).0@ == k.2;
        if j == i {
            assert(k == (d.date.index(), d.base_currency@, d.rates.entries@[i].0@, d.provider@));
        }
    }
}

} // verus!
