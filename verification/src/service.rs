//! The query service and the sync decision procedure.
//!
//! All persisted rates are quoted against the internal pivot currency.
//! Queries load the pivot table, re-insert the pivot at exactly one,
//! convert to the requested base, filter, scale by the amount and round as
//! the final shaping step.

use vstd::prelude::*;
use crate::convert::{convert_base_currency, converted, convert_fits, is_recip, reduced_quotients};
use crate::date::Date;
use crate::error::AppError;
use crate::models::{DailyRates, ProviderInfo, RatesResponse, TimeSeriesResponse};
use crate::providers::ProviderRegistry;
use crate::rate::{Rate, is_quotient, round6_num, lemma_round6_value, scaled_fits, red_num, red_den};
use crate::store::{
    RatesRepository, date_table, batch_np_count, apply_batch, apply_catalog, cat_map, count_provider,
    last_success, spec_prov, range_entry_ok, day_has_data, day_listed,
};
use crate::table::RateTable;

verus! {

/// The internal pivot currency: every persisted rate is quoted against it.
pub fn internal_base() -> (r: &'static str)
    ensures
        r@ == "USD"@,
{
    "USD"
}

/// The pivot's code, as the specification sees it.
pub open spec fn pivot_seq() -> Seq<char> {
    "USD"@
}

/// The stored pivot table of a day with the pivot itself at exactly one.
pub open spec fn with_pivot(t: Map<Seq<char>, Rate>) -> Map<Seq<char>, Rate> {
    t.insert(pivot_seq(), Rate { num: 1, den: 1 })
}

/// The key set of a response before symbol filtering: the day's table
/// re-anchored to `base` (the pivot replaces `base` when they differ).
pub open spec fn display_keys(t1: Map<Seq<char>, Rate>, base: Seq<char>) -> Set<Seq<char>> {
    if base == pivot_seq() {
        t1.dom()
    } else {
        t1.dom().remove(base).insert(pivot_seq())
    }
}

/// The exact pre-rounding value of the response entry for `c`, as a
/// numerator-denominator pair: the re-anchored quote times the amount.
pub open spec fn display_frac(
    t1: Map<Seq<char>, Rate>,
    base: Seq<char>,
    amount: Rate,
    c: Seq<char>,
) -> (int, int) {
    if base == pivot_seq() {
        (amount.num * t1[c].num, amount.den * t1[c].den)
    } else if c == pivot_seq() {
        (amount.num * t1[base].den, amount.den * t1[base].num)
    } else {
        (amount.num * (t1[c].num * t1[base].den), amount.den * (t1[c].den * t1[base].num))
    }
}

/// The exact representation the shaping pipeline computes for key `c` of
/// the re-anchored table, before scaling: the stored quote itself when the
/// requested base is the pivot, the plain reciprocal for the pivot's own
/// entry, and the reduced quotient otherwise.
pub open spec fn shaped_value(t1: Map<Seq<char>, Rate>, base: Seq<char>, c: Seq<char>) -> Rate {
    if base == pivot_seq() {
        t1[c]
    } else if c == pivot_seq() {
        Rate { num: t1[base].den, den: t1[base].num }
    } else {
        Rate {
            num: red_num(
                (t1[c].num * t1[base].den) as nat,
                (t1[c].den * t1[base].num) as nat,
            ) as u64,
            den: red_den(
                (t1[c].num * t1[base].den) as nat,
                (t1[c].den * t1[base].num) as nat,
            ) as u64,
        }
    }
}

/// Success condition of the query shaping: the requested base is the pivot
/// or a quoted currency whose conversion fits the representation, and every
/// retained entry survives scaling and rounding. A query fails with an
/// internal error exactly when this does not hold (and the data and base
/// checks pass).
pub open spec fn query_fits(
    t1: Map<Seq<char>, Rate>,
    base: Seq<char>,
    symbols: Option<&Vec<String>>,
    amount: Rate,
) -> bool {
    &&& base == pivot_seq() || (t1.contains_key(base) && convert_fits(t1, base))
    &&& forall|c: Seq<char>|
        display_keys(t1, base).contains(c) && symbol_sel(symbols, c) ==> scaled_fits(
            amount,
            #[trigger] shaped_value(t1, base, c),
        )
}

/// The requested symbol filter admits the code (no filter admits every code).
pub open spec fn symbol_sel(symbols: Option<&Vec<String>>, c: Seq<char>) -> bool {
    match symbols {
        Some(list) => exists|i: int| 0 <= i < list@.len() && (#[trigger] list@[i])@ == c,
        None => true,
    }
}

/// The response carries exactly the admitted keys of the re-anchored table,
/// each rounded to six decimal places from its exact value.
pub open spec fn response_table_ok(
    t1: Map<Seq<char>, Rate>,
    base: Seq<char>,
    symbols: Option<&Vec<String>>,
    amount: Rate,
    out: RateTable,
) -> bool {
    &&& out.wf()
    &&& forall|c: Seq<char>|
        #[trigger] out.as_map().contains_key(c) <==> display_keys(t1, base).contains(c)
            && symbol_sel(symbols, c)
    &&& forall|c: Seq<char>|
        #[trigger] out.as_map().contains_key(c) ==> out.as_map()[c].den == 1000000
            && out.as_map()[c].num as int == round6_num(
            display_frac(t1, base, amount, c).0,
            display_frac(t1, base, amount, c).1,
        )
}

/// The pivot-to-pivot pair is never persisted, yet after pivot insertion a
/// plain query re-derives it as exactly one: the response carries the pivot
/// at one times the amount, rounded, which for an amount of one is exactly
/// 1.000000.
pub proof fn lemma_pivot_rederived(t0: Map<Seq<char>, Rate>, out: RateTable)
    requires
        response_table_ok(with_pivot(t0), pivot_seq(), None, Rate { num: 1, den: 1 }, out),
    ensures
        out.as_map().contains_key(pivot_seq()),
        out.as_map()[pivot_seq()] == (Rate { num: 1000000, den: 1000000 }),
{
    let t1 = with_pivot(t0);
    assert(t1.contains_key(pivot_seq()));
    assert(display_keys(t1, pivot_seq()).contains(pivot_seq()));
    assert(out.as_map().contains_key(pivot_seq()));
    assert(display_frac(t1, pivot_seq(), Rate { num: 1, den: 1 }, pivot_seq()) == (1int, 1int));
    assert(round6_num(1, 1) == 1000000) by {
        vstd::arithmetic::div_mod::lemma_fundamental_div_mod_converse_div(2000001, 2, 1000000, 1);
    }
}

/// The decision of one provider sync.
#[derive(Clone, Copy, Debug)]
pub enum SyncPlan {
    /// Nothing stored yet: backfill the full history.
    FullHistory,
    /// Stored data already reaches the reference day: nothing to fetch.
    UpToDate,
    /// Fetch the inclusive range; the start repeats the last stored day on
    /// purpose, since writes upsert on the unique row tuple.
    Range(Date, Date),
}

/// Decides, from the latest stored date and the reference day, whether a
/// provider needs a full backfill, nothing, or an incremental range.
pub fn plan_sync(last: Option<Date>, today: Date) -> (r: SyncPlan)
    requires
        today.wf(),
        last matches Some(d) ==> d.wf(),
    ensures
        last is None ==> r is FullHistory,
        last matches Some(d) && d.index() >= today.index() ==> r is UpToDate,
        last matches Some(d) ==> (d.index() < today.index() ==> (r matches SyncPlan::Range(s, e)
            && s == d && e == today)),
{
    match last {
        None => SyncPlan::FullHistory,
        Some(d) => {
            if d.day_index() >= today.day_index() {
                SyncPlan::UpToDate
            } else {
                SyncPlan::Range(d, today)
            }
        },
    }
}

/// Service for currency rate operations: composes the store, the provider
/// registry and the conversion engine.
pub struct RatesService {
    pub repository: RatesRepository,
    pub providers: ProviderRegistry,
    /// Default base currency for responses when a client names none.
    pub default_api_base: String,
}

impl RatesService {
    pub open spec fn wf(self) -> bool {
        self.repository.wf() && self.providers.wf()
    }

    pub fn new(repository: RatesRepository, providers: ProviderRegistry, default_api_base: String) -> (r:
        RatesService)
        ensures
            r.repository == repository,
            r.providers == providers,
            r.default_api_base == default_api_base,
    {
        RatesService { repository, providers, default_api_base }
    }

    /// Decides the sync step for the named provider: an unknown name is a
    /// distinct failure; otherwise the decision follows from the latest
    /// stored date of that provider and the reference day.
    pub fn sync_provider_plan(&self, provider_name: &str, today: Date) -> (r: Result<
        SyncPlan,
        AppError,
    >)
        requires
            self.wf(),
            today.wf(),
        ensures
            r is Err <==> !self.providers.has(provider_name@),
            r matches Err(e) ==> e is Provider,
            r matches Ok(plan) ==> {
                let rows = self.repository.rows@;
                &&& (plan is FullHistory <==> forall|i: int|
                    0 <= i < rows.len() ==> (#[trigger] rows[i]).provider@ != provider_name@)
                &&& (plan matches SyncPlan::Range(s, e) ==> e == today && s.wf() && s.index()
                    < today.index() && (exists|i: int|
                    0 <= i < rows.len() && (#[trigger] rows[i]).provider@ == provider_name@
                        && rows[i].date == s) && forall|i: int|
                    0 <= i < rows.len() && (#[trigger] rows[i]).provider@ == provider_name@
                        ==> rows[i].date.index() <= s.index())
                &&& (plan is UpToDate ==> exists|i: int|
                    0 <= i < rows.len() && (#[trigger] rows[i]).provider@ == provider_name@
                        && rows[i].date.index() >= today.index())
            },
    {
        if self.providers.get(provider_name).is_none() {
            let mut msg = String::from_str("unknown provider: ");
            msg.append(provider_name);
            return Err(AppError::Provider(msg));
        }
        let owned: String = provider_name.to_owned();
        let last = self.repository.get_latest_date(Some(&owned));
        Ok(plan_sync(last, today))
    }

    /// Persists what one provider sync fetched: the snapshot batch as one
    /// durable write, then the provider's currency catalog. Returns the
    /// stored row count, overwrites included.
    pub fn apply_sync_result(
        &mut self,
        provider_name: &str,
        rates: &Vec<DailyRates>,
        currencies: &Vec<(String, String)>,
    ) -> (count: usize)
        requires
            old(self).wf(),
            forall|i: int| 0 <= i < rates@.len() ==> (#[trigger] rates@[i]).wf(),
            batch_np_count(rates@) <= usize::MAX,
        ensures
            final(self).wf(),
            final(self).repository.as_rows_map() =~= apply_batch(
                old(self).repository.as_rows_map(),
                rates@,
            ),
            cat_map(final(self).repository.currencies@) =~= apply_catalog(
                cat_map(old(self).repository.currencies@),
                currencies@,
                provider_name@,
            ),
            count as int == batch_np_count(rates@),
            final(self).repository.sync_log@ == old(self).repository.sync_log@,
            final(self).providers == old(self).providers,
            final(self).default_api_base == old(self).default_api_base,
    {
        let count = self.repository.store_daily_rates_batch(rates);
        self.repository.store_currencies(currencies, provider_name);
        count
    }

    /// Records the outcome of one provider sync in the sync log.
    pub fn log_sync_outcome(
        &mut self,
        provider_name: &str,
        count: usize,
        status: &str,
        synced_at: &str,
    )
        requires
            old(self).wf(),
        ensures
            final(self).wf(),
            final(self).repository.sync_log@.len() == old(self).repository.sync_log@.len() + 1,
            final(self).repository.sync_log@.last().provider@ == provider_name@,
            final(self).repository.sync_log@.last().records_count == count,
            final(self).repository.sync_log@.last().status@ == status@,
            final(self).repository.sync_log@.last().synced_at@ == synced_at@,
            forall|i: int|
                0 <= i < old(self).repository.sync_log@.len() ==> final(self).repository.sync_log@[i]
                    == old(self).repository.sync_log@[i],
            final(self).repository.rows@ == old(self).repository.rows@,
            final(self).repository.currencies@ == old(self).repository.currencies@,
            final(self).providers == old(self).providers,
            final(self).default_api_base == old(self).default_api_base,
    {
        self.repository.log_sync(provider_name, count, status, synced_at);
    }

    /// Applies the symbol filter: keeps exactly the requested codes that the
    /// table carries; unknown requested codes are dropped without error.
    fn filter_symbols(table: RateTable, symbols: Option<&Vec<String>>) -> (r: RateTable)
        requires
            table.wf(),
            forall|i: int| 0 <= i < table.entries@.len() ==> (#[trigger] table.entries@[i]).1.pos(),
        ensures
            r.wf(),
            forall|c: Seq<char>|
                #[trigger] r.as_map().contains_key(c) <==> table.as_map().contains_key(c)
                    && symbol_sel(symbols, c),
            forall|c: Seq<char>|
                #[trigger] r.as_map().contains_key(c) ==> r.as_map()[c] == table.as_map()[c],
            forall|i: int| 0 <= i < r.entries@.len() ==> (#[trigger] r.entries@[i]).1.pos(),
    {
        let list = match symbols {
            None => {
                return table;
            },
            Some(list) => list,
        };
        let n = list.len();
        let mut out = RateTable::new();
        let mut i: usize = 0;
        while i < n
            invariant
                table.wf(),
                forall|j: int|
                    0 <= j < table.entries@.len() ==> (#[trigger] table.entries@[j]).1.pos(),
                n == list@.len(),
                i <= n,
                out.wf(),
                forall|c: Seq<char>|
                    #[trigger] out.as_map().contains_key(c) <==> table.as_map().contains_key(c)
                        && exists|j: int| 0 <= j < i && (#[trigger] list@[j])@ == c,
                forall|c: Seq<char>|
                    #[trigger] out.as_map().contains_key(c) ==> out.as_map()[c]
                        == table.as_map()[c],
            decreases n - i,
        {
            match table.get(list[i].as_str()) {
                Some(rate) => {
                    out.upsert(list[i].clone(), rate);
                },
                None => {},
            }
            i = i + 1;
        }
        proof {
            assert forall|i2: int| 0 <= i2 < out.entries@.len() implies (
            #[trigger] out.entries@[i2]).1.pos() by {
                out.lemma_view();
                let c = out.entries@[i2].0@;
                assert(out.as_map().contains_key(c));
                assert(table.as_map().contains_key(c));
                table.lemma_view();
                let j = choose|j: int|
                    0 <= j < table.entries@.len() && (#[trigger] table.entries@[j]).0@ == c;
                assert(table.entries@[j].1.pos());
            }
        }
        out
    }

    /// Scales every retained quote by the amount and rounds it to six
    /// decimal places, the final response-shaping step.
    fn scale_and_round(table: &RateTable, amount: Rate) -> (r: Result<RateTable, AppError>)
        requires
            table.wf(),
            amount.wf(),
            forall|i: int| 0 <= i < table.entries@.len() ==> (#[trigger] table.entries@[i]).1.pos(),
        ensures
            r is Ok <==> forall|c: Seq<char>|
                #[trigger] table.as_map().contains_key(c) ==> scaled_fits(
                    amount,
                    table.as_map()[c],
                ),
            r matches Ok(out) ==> {
                &&& out.wf()
                &&& forall|c: Seq<char>|
                    #[trigger] out.as_map().contains_key(c) <==> table.as_map().contains_key(c)
                &&& forall|c: Seq<char>|
                    #[trigger] out.as_map().contains_key(c) ==> out.as_map()[c].den == 1000000
                        && out.as_map()[c].num as int == round6_num(
                        amount.num * table.as_map()[c].num,
                        amount.den * table.as_map()[c].den,
                    )
            },
            r is Err ==> r matches Err(AppError::Internal(_)),
    {
        let n = table.len();
        let mut out = RateTable::new();
        let mut i: usize = 0;
        while i < n
            invariant
                table.wf(),
                amount.wf(),
                forall|j: int|
                    0 <= j < table.entries@.len() ==> (#[trigger] table.entries@[j]).1.pos(),
                n == table.entries@.len(),
                i <= n,
                out.wf(),
                forall|j: int|
                    0 <= j < i ==> scaled_fits(amount, (#[trigger] table.entries@[j]).1),
                forall|c: Seq<char>|
                    #[trigger] out.as_map().contains_key(c) <==> exists|j: int|
                        0 <= j < i && (#[trigger] table.entries@[j]).0@ == c,
                forall|c: Seq<char>|
                    #[trigger] out.as_map().contains_key(c) ==> out.as_map()[c].den == 1000000
                        && out.as_map()[c].num as int == round6_num(
                        amount.num * table.as_map()[c].num,
                        amount.den * table.as_map()[c].den,
                    ),
            decreases n - i,
        {
            let code = table.code_at(i);
            let rate = table.rate_at(i);
            proof {
                crate::table::lemma_entries_map_at(table.entries@, i as int);
            }
            let scaled = match amount.checked_mul(&rate) {
                Some(m) => m,
                None => {
                    proof {
                        assert(!scaled_fits(amount, table.as_map()[code@]));
                    }
                    return Err(
                        AppError::Internal(String::from_str("scaled rate out of range")),
                    );
                },
            };
            let rounded = match scaled.round6() {
                Some(v) => v,
                None => {
                    proof {
                        assert(!scaled_fits(amount, table.as_map()[code@]));
                    }
                    return Err(
                        AppError::Internal(String::from_str("rounded rate out of range")),
                    );
                },
            };
            proof {
                // The rounded numerator is determined by the exact value of
                // amount times the stored quote.
                assert(scaled.num * (amount.den * rate.den) == (amount.num * rate.num)
                    * scaled.den);
                assert(amount.den * rate.den >= 1) by (nonlinear_arith)
                    requires amount.den >= 1, rate.den >= 1;
                assert(amount.num * rate.num >= 0) by (nonlinear_arith);
                lemma_round6_value(
                    scaled.num as int,
                    scaled.den as int,
                    amount.num * rate.num,
                    amount.den * rate.den,
                );
                assert(scaled_fits(amount, table.entries@[i as int].1));
            }
            out.upsert(code, rounded);
            i = i + 1;
        }
        proof {
            assert forall|c: Seq<char>| #[trigger] out.as_map().contains_key(c) <==> table.as_map(
            ).contains_key(c) by {
                crate::table::lemma_entries_map_domain(table.entries@, c);
            }
            assert forall|c: Seq<char>| #[trigger] table.as_map().contains_key(c) implies
                scaled_fits(amount, table.as_map()[c]) by {
                crate::table::lemma_entries_map_domain(table.entries@, c);
                let j = choose|j: int|
                    0 <= j < table.entries@.len() && (#[trigger] table.entries@[j]).0@ == c;
                crate::table::lemma_entries_map_at(table.entries@, j);
            }
        }
        Ok(out)
    }

    /// Re-anchors a day's stored pivot table to the requested base, filters
    /// it to the requested symbols, scales by the amount and rounds.
    fn shape_table(table: RateTable, base: &str, symbols: Option<&Vec<String>>, amount: Rate)
        -> (r: Result<RateTable, AppError>)
        requires
            table.wf(),
            forall|i: int| 0 <= i < table.entries@.len() ==> (#[trigger] table.entries@[i]).1.pos(),
            amount.wf(),
        ensures
            ({
                let t1 = with_pivot(table.as_map());
                &&& (r is Ok <==> query_fits(t1, base@, symbols, amount))
                &&& (r matches Ok(out) ==> response_table_ok(t1, base@, symbols, amount, out))
                &&& (base@ != pivot_seq() && !t1.contains_key(base@) ==> (r matches Err(
                    AppError::InvalidCurrency(c),
                ) && c@ == base@))
                &&& (r matches Err(AppError::InvalidCurrency(c)) ==> c@ == base@ && base@
                    != pivot_seq() && !t1.contains_key(base@))
                &&& (r matches Err(e) ==> e is InvalidCurrency || e is Internal)
            }),
    {
        let ghost t0 = table.as_map();
        proof {
            assert forall|c: Seq<char>| #[trigger] t0.contains_key(c) implies t0[c].pos() by {
                table.lemma_view();
                let i = choose|i: int|
                    0 <= i < table.entries@.len() && (#[trigger] table.entries@[i]).0@ == c;
                assert(table.as_map()[table.entries@[i].0@] == table.entries@[i].1);
            }
        }
        let mut full = table;
        full.upsert(String::from_str("USD"), Rate::one());
        let ghost t1 = full.as_map();
        proof {
            assert(t1 =~= with_pivot(t0));
            assert forall|c: Seq<char>| #[trigger] t1.contains_key(c) implies t1[c].pos() by {
                if c != pivot_seq() {
                    assert(t1[c] == t0[c]);
                }
            }
            assert forall|i2: int| 0 <= i2 < full.entries@.len() implies (
            #[trigger] full.entries@[i2]).1.pos() by {
                full.lemma_view();
            }
        }
        let base_owned: String = base.to_owned();
        let pivot_owned: String = String::from_str("USD");
        let is_pivot = base_owned == pivot_owned;
        let conv: RateTable;
        if is_pivot {
            conv = full;
        } else {
            conv = match convert_base_currency(&full, internal_base(), base) {
                Ok(t) => t,
                Err(e) => {
                    proof {
                        assert(!(t1.contains_key(base@) && convert_fits(t1, base@)));
                        assert(!query_fits(t1, base@, symbols, amount));
                    }
                    return Err(e);
                },
            };
        }
        let ghost conv_map = conv.as_map();
        proof {
            assert forall|c: Seq<char>| #[trigger] conv_map.contains_key(c) implies
                conv_map[c].pos() by {
                conv.lemma_view();
            }
            // The converted table holds exactly the shaped representations.
            assert(conv_map.dom() =~= display_keys(t1, base@));
            assert forall|c: Seq<char>| #[trigger] conv_map.contains_key(c) implies conv_map[c]
                == shaped_value(t1, base@, c) by {
                if is_pivot {
                } else {
                    assert(reduced_quotients(t1, conv_map, pivot_seq(), base@));
                    if c != pivot_seq() {
                        assert(t1.contains_key(c) && c != base@);
                        assert(crate::rate::div_fits(t1[c], t1[base@]));
                        assert(conv_map[c].num as nat == red_num(
                            (t1[c].num * t1[base@].den) as nat,
                            (t1[c].den * t1[base@].num) as nat,
                        ));
                        assert(conv_map[c].den as nat == red_den(
                            (t1[c].num * t1[base@].den) as nat,
                            (t1[c].den * t1[base@].num) as nat,
                        ));
                    }
                }
            }
        }
        let filtered = Self::filter_symbols(conv, symbols);
        let rounded = match Self::scale_and_round(&filtered, amount) {
            Ok(t) => t,
            Err(e) => {
                proof {
                    assert(!query_fits(t1, base@, symbols, amount)) by {
                        if query_fits(t1, base@, symbols, amount) {
                            assert forall|c: Seq<char>|
                                #[trigger] filtered.as_map().contains_key(c) implies scaled_fits(
                                amount,
                                filtered.as_map()[c],
                            ) by {
                                assert(conv_map.contains_key(c) && symbol_sel(symbols, c));
                                assert(display_keys(t1, base@).contains(c));
                                assert(filtered.as_map()[c] == conv_map[c]);
                                assert(conv_map[c] == shaped_value(t1, base@, c));
                            }
                            assert(false);
                        }
                    }
                }
                return Err(e);
            },
        };
        proof {
            lemma_response_ok(t1, base@, symbols, amount, conv_map, filtered.as_map(), rounded);
            assert(query_fits(t1, base@, symbols, amount)) by {
                assert forall|c: Seq<char>|
                    display_keys(t1, base@).contains(c) && symbol_sel(symbols, c) implies
                    scaled_fits(amount, #[trigger] shaped_value(t1, base@, c)) by {
                    assert(conv_map.contains_key(c));
                    assert(filtered.as_map().contains_key(c));
                    assert(scaled_fits(amount, filtered.as_map()[c]));
                    assert(filtered.as_map()[c] == conv_map[c]);
                }
            }
        }
        Ok(rounded)
    }

    /// Rates for one date, converted to the requested base, filtered to the
    /// requested symbols, scaled by the amount and rounded.
    pub fn get_rates_for_date(
        &self,
        date: Date,
        base: &str,
        symbols: Option<&Vec<String>>,
        amount: Rate,
    ) -> (r: Result<RatesResponse, AppError>)
        requires
            self.wf(),
            amount.wf(),
        ensures
            ({
                let t0 = date_table(self.repository.rows@, date.index(), pivot_seq(), None);
                let t1 = with_pivot(t0);
                &&& (r is Ok <==> !(t0.dom() =~= Set::<Seq<char>>::empty()) && query_fits(
                    t1,
                    base@,
                    symbols,
                    amount,
                ))
                &&& (r matches Err(AppError::NoDataAvailable) <==> t0.dom() =~= Set::<
                    Seq<char>,
                >::empty())
                &&& (!(t0.dom() =~= Set::<Seq<char>>::empty()) && base@ != pivot_seq()
                    && !t1.contains_key(base@) ==> (r matches Err(AppError::InvalidCurrency(c))
                    && c@ == base@))
                &&& (r matches Err(AppError::InvalidCurrency(c)) ==> c@ == base@ && base@
                    != pivot_seq() && !t1.contains_key(base@))
                &&& (r matches Ok(resp) ==> {
                    &&& resp.base@ == base@
                    &&& resp.date == date
                    &&& resp.amount == amount
                    &&& response_table_ok(t1, base@, symbols, amount, resp.rates)
                })
                &&& (r matches Err(e) ==> e is NoDataAvailable || e is InvalidCurrency
                    || e is Internal)
            }),
    {
        let ghost t0 = date_table(self.repository.rows@, date.index(), pivot_seq(), None);
        let usd_rates = self.repository.get_rates_for_date(date, internal_base(), None);
        if usd_rates.is_empty() {
            return Err(AppError::NoDataAvailable);
        }
        proof {
            assert(!(t0.dom() =~= Set::<Seq<char>>::empty())) by {
                assert(!(t0 =~= Map::<Seq<char>, Rate>::empty()));
                assert(exists|c: Seq<char>| t0.dom().contains(c)) by {
                    if forall|c: Seq<char>| !(#[trigger] t0.dom().contains(c)) {
                        assert(t0 =~= Map::<Seq<char>, Rate>::empty());
                    }
                }
            }
        }
        let base_owned: String = base.to_owned();
        match Self::shape_table(usd_rates, base, symbols, amount) {
            Ok(rates) => Ok(RatesResponse { amount, base: base_owned, date, rates }),
            Err(e) => Err(e),
        }
    }

    /// The latest rates: resolves the most recent stored date over all
    /// providers and answers the single-date query for it.
    pub fn get_latest(
        &self,
        base: Option<&str>,
        symbols: Option<&Vec<String>>,
        amount: Option<Rate>,
    ) -> (r: Result<RatesResponse, AppError>)
        requires
            self.wf(),
            amount matches Some(a) ==> a.wf(),
        ensures
            ({
                let rows = self.repository.rows@;
                let t1 = with_pivot(
                    date_table(rows, crate::store::max_row_day(rows), pivot_seq(), None),
                );
                let eff_base = match base {
                    Some(b) => b@,
                    None => self.default_api_base@,
                };
                let eff_amount = match amount {
                    Some(a) => a,
                    None => Rate { num: 1, den: 1 },
                };
                r is Ok <==> rows.len() > 0 && !(date_table(
                    rows,
                    crate::store::max_row_day(rows),
                    pivot_seq(),
                    None,
                ).dom() =~= Set::<Seq<char>>::empty()) && query_fits(
                    t1,
                    eff_base,
                    symbols,
                    eff_amount,
                )
            }),
            self.repository.rows@.len() == 0 ==> r matches Err(AppError::NoDataAvailable),
            r matches Ok(resp) ==> {
                let t1 = with_pivot(
                    date_table(self.repository.rows@, resp.date.index(), pivot_seq(), None),
                );
                &&& resp.date.wf()
                &&& exists|i: int|
                    0 <= i < self.repository.rows@.len() && (
                    #[trigger] self.repository.rows@[i]).date == resp.date
                &&& forall|i: int|
                    0 <= i < self.repository.rows@.len() ==> (
                    #[trigger] self.repository.rows@[i]).date.index() <= resp.date.index()
                &&& resp.amount == (match amount {
                    Some(a) => a,
                    None => Rate { num: 1, den: 1 },
                })
                &&& resp.base@ == (match base {
                    Some(b) => b@,
                    None => self.default_api_base@,
                })
                &&& response_table_ok(t1, resp.base@, symbols, resp.amount, resp.rates)
            },
            r matches Err(e) ==> e is NoDataAvailable || e is InvalidCurrency || e is Internal,
    {
        let amount_v = match amount {
            Some(a) => a,
            None => Rate::one(),
        };
        let base_s: &str = match base {
            Some(b) => b,
            None => self.default_api_base.as_str(),
        };
        let date = match self.repository.get_latest_date(None) {
            Some(d) => d,
            None => {
                return Err(AppError::NoDataAvailable);
            },
        };
        proof {
            // The resolved date carries the largest stored day index.
            crate::store::lemma_max_row_day(self.repository.rows@);
            let m = crate::store::max_row_day(self.repository.rows@);
            let i = choose|i: int|
                0 <= i < self.repository.rows@.len() && (
                #[trigger] self.repository.rows@[i]).date.index() == m;
            assert(date.index() == m);
        }
        self.get_rates_for_date(date, base_s, symbols, amount_v)
    }

    /// Rates for every stored date of the inclusive range, each day shaped
    /// independently; a day without data is simply absent. The whole call
    /// fails with no data only when the range holds no data at all.
    pub fn get_time_series(
        &self,
        start: Date,
        end: Date,
        base: &str,
        symbols: Option<&Vec<String>>,
        amount: Rate,
    ) -> (r: Result<TimeSeriesResponse, AppError>)
        requires
            self.wf(),
            start.wf(),
            end.wf(),
            amount.wf(),
        ensures
            r is Ok <==> (exists|idx: int|
                start.index() <= idx <= end.index() && #[trigger] day_has_data(
                    self.repository.rows@,
                    idx,
                    pivot_seq(),
                    None,
                )) && (forall|idx: int|
                start.index() <= idx <= end.index() && #[trigger] day_has_data(
                    self.repository.rows@,
                    idx,
                    pivot_seq(),
                    None,
                ) ==> query_fits(
                    with_pivot(date_table(self.repository.rows@, idx, pivot_seq(), None)),
                    base@,
                    symbols,
                    amount,
                )),
            r matches Err(AppError::NoDataAvailable) <==> (forall|idx: int|
                start.index() <= idx <= end.index() ==> !day_has_data(
                    self.repository.rows@,
                    idx,
                    pivot_seq(),
                    None,
                )),
            r matches Ok(resp) ==> {
                &&& resp.start_date == start
                &&& resp.end_date == end
                &&& resp.base@ == base@
                &&& resp.amount == amount
                &&& forall|k: int|
                    0 <= k < resp.rates@.len() ==> {
                        let d = (#[trigger] resp.rates@[k]).0;
                        &&& d.wf()
                        &&& start.index() <= d.index() <= end.index()
                        &&& day_has_data(self.repository.rows@, d.index(), pivot_seq(), None)
                        &&& response_table_ok(
                            with_pivot(
                                date_table(self.repository.rows@, d.index(), pivot_seq(), None),
                            ),
                            base@,
                            symbols,
                            amount,
                            resp.rates@[k].1,
                        )
                    }
                &&& forall|k1: int, k2: int|
                    0 <= k1 < k2 < resp.rates@.len() ==> (#[trigger] resp.rates@[k1]).0.index() < (
                    #[trigger] resp.rates@[k2]).0.index()
                &&& forall|idx: int|
                    start.index() <= idx <= end.index() && day_has_data(
                        self.repository.rows@,
                        idx,
                        pivot_seq(),
                        None,
                    ) ==> day_listed(resp.rates@, idx)
            },
            r matches Err(AppError::InvalidCurrency(c)) ==> c@ == base@ && base@ != pivot_seq(),
            r matches Err(e) ==> e is NoDataAvailable || e is InvalidCurrency || e is Internal,
    {
        let days = self.repository.get_rates_for_range(start, end, internal_base(), None);
        if days.is_empty() {
            proof {
                assert forall|idx: int|
                    start.index() <= idx <= end.index() implies !day_has_data(
                        self.repository.rows@,
                        idx,
                        pivot_seq(),
                        None,
                    ) by {
                    if day_has_data(self.repository.rows@, idx, pivot_seq(), None) {
                        assert(day_listed(days@, idx));
                    }
                }
            }
            return Err(AppError::NoDataAvailable);
        }
        proof {
            assert(range_entry_ok(
                self.repository.rows@,
                pivot_seq(),
                None,
                start.index(),
                end.index(),
                days@[0],
            ));
            assert(day_has_data(self.repository.rows@, days@[0].0.index(), pivot_seq(), None)) by {
                let tbl = days@[0].1;
                tbl.lemma_view();
                assert(tbl.as_map().contains_key(tbl.entries@[0].0@));
                assert(date_table(
                    self.repository.rows@,
                    days@[0].0.index(),
                    pivot_seq(),
                    None,
                ).dom().contains(tbl.entries@[0].0@));
            }
        }
        let n = days.len();
        let mut out: Vec<(Date, RateTable)> = Vec::new();
        let mut i: usize = 0;
        while i < n
            invariant
                self.wf(),
                amount.wf(),
                start.wf(),
                end.wf(),
                n == days@.len(),
                0 < n,
                day_has_data(self.repository.rows@, days@[0].0.index(), pivot_seq(), None),
                start.index() <= days@[0].0.index() <= end.index(),
                i <= n,
                forall|k: int|
                    0 <= k < days@.len() ==> range_entry_ok(
                        self.repository.rows@,
                        pivot_seq(),
                        None,
                        start.index(),
                        end.index(),
                        #[trigger] days@[k],
                    ),
                forall|k1: int, k2: int|
                    0 <= k1 < k2 < days@.len() ==> (#[trigger] days@[k1]).0.index() < (
                    #[trigger] days@[k2]).0.index(),
                out@.len() == i,
                forall|k: int| 0 <= k < i ==> (#[trigger] out@[k]).0 == days@[k].0,
                forall|k: int|
                    0 <= k < i ==> day_has_data(
                        self.repository.rows@,
                        (#[trigger] out@[k]).0.index(),
                        pivot_seq(),
                        None,
                    ) && query_fits(
                        with_pivot(
                            date_table(
                                self.repository.rows@,
                                out@[k].0.index(),
                                pivot_seq(),
                                None,
                            ),
                        ),
                        base@,
                        symbols,
                        amount,
                    ),
                forall|k: int|
                    0 <= k < i ==> response_table_ok(
                        with_pivot(
                            date_table(
                                self.repository.rows@,
                                (#[trigger] out@[k]).0.index(),
                                pivot_seq(),
                                None,
                            ),
                        ),
                        base@,
                        symbols,
                        amount,
                        out@[k].1,
                    ),
            decreases n - i,
        {
            let d = days[i].0;
            let day_table = days[i].1.duplicate();
            proof {
                assert(range_entry_ok(
                    self.repository.rows@,
                    pivot_seq(),
                    None,
                    start.index(),
                    end.index(),
                    days@[i as int],
                ));
                assert(day_table.as_map() == date_table(
                    self.repository.rows@,
                    d.index(),
                    pivot_seq(),
                    None,
                ));
                crate::store::lemma_date_table_pos(
                    self.repository.rows@,
                    d.index(),
                    pivot_seq(),
                    None,
                );
                assert forall|i2: int| 0 <= i2 < day_table.entries@.len() implies (
                #[trigger] day_table.entries@[i2]).1.pos() by {
                    let tbl = days@[i as int].1;
                    assert(day_table.entries@ =~= tbl.entries@);
                    assert(tbl.wf());
                    assert(day_table.as_map().contains_key(day_table.entries@[i2].0@)
                        && day_table.as_map()[day_table.entries@[i2].0@]
                        == day_table.entries@[i2].1) by {
                        crate::table::lemma_entries_map_at(day_table.entries@, i2);
                    }
                }
            }
            proof {
                assert(day_has_data(self.repository.rows@, d.index(), pivot_seq(), None)) by {
                    let tbl = days@[i as int].1;
                    tbl.lemma_view();
                    assert(tbl.as_map().contains_key(tbl.entries@[0].0@));
                    assert(date_table(
                        self.repository.rows@,
                        d.index(),
                        pivot_seq(),
                        None,
                    ).dom().contains(tbl.entries@[0].0@));
                }
            }
            let shaped = match Self::shape_table(day_table, base, symbols, amount) {
                Ok(tbl) => tbl,
                Err(e) => {
                    proof {
                        // This in-range day has data and its shaping does
                        // not fit, so success is not owed.
                        assert(!query_fits(
                            with_pivot(
                                date_table(self.repository.rows@, d.index(), pivot_seq(), None),
                            ),
                            base@,
                            symbols,
                            amount,
                        ));
                    }
                    return Err(e);
                },
            };
            out.push((d, shaped));
            i = i + 1;
        }
        proof {
            assert forall|idx: int|
                start.index() <= idx <= end.index() && #[trigger] day_has_data(
                    self.repository.rows@,
                    idx,
                    pivot_seq(),
                    None,
                ) implies day_listed(out@, idx) && query_fits(
                with_pivot(date_table(self.repository.rows@, idx, pivot_seq(), None)),
                base@,
                symbols,
                amount,
            ) by {
                assert(day_listed(days@, idx));
                let k = choose|k: int|
                    0 <= k < days@.len() && (#[trigger] days@[k]).0.index() == idx;
                assert(out@[k].0.index() == idx);
            }
            assert(exists|idx: int|
                start.index() <= idx <= end.index() && #[trigger] day_has_data(
                    self.repository.rows@,
                    idx,
                    pivot_seq(),
                    None,
                )) by {
                assert(day_has_data(
                    self.repository.rows@,
                    days@[0].0.index(),
                    pivot_seq(),
                    None,
                ));
            }
        }
        Ok(
            TimeSeriesResponse {
                amount,
                base: base.to_owned(),
                start_date: start,
                end_date: end,
                rates: out,
            },
        )
    }

    /// The available currencies with display names, from the stored rows
    /// and the catalog.
    pub fn get_currencies(&self) -> (r: Vec<(String, String)>)
        requires
            self.wf(),
        ensures
            forall|k1: int, k2: int|
                0 <= k1 < k2 < r@.len() ==> (#[trigger] r@[k1]).0@ != (#[trigger] r@[k2]).0@,
            forall|k: int|
                0 <= k < r@.len() ==> (#[trigger] r@[k]).1@ == crate::store::name_for(
                    self.repository.currencies@,
                    r@[k].0@,
                ),
            forall|k: int|
                0 <= k < r@.len() ==> crate::store::code_has_rate(
                    self.repository.rows@,
                    None,
                    (#[trigger] r@[k]).0@,
                ),
            forall|i: int|
                0 <= i < self.repository.rows@.len() ==> crate::store::listed(
                    r@,
                    (#[trigger] self.repository.rows@[i]).target_currency@,
                ),
    {
        self.repository.get_currencies(None)
    }

    /// One info record per registered provider, in registration order, with
    /// its last successful sync time and stored row count.
    pub fn get_providers_info(&self) -> (r: Vec<ProviderInfo>)
        requires
            self.wf(),
        ensures
            r@.len() == self.providers.providers@.len(),
            forall|k: int|
                0 <= k < r@.len() ==> {
                    let p = self.providers.providers@[k];
                    &&& (#[trigger] r@[k]).name@ == p.name@
                    &&& r@[k].enabled
                    &&& (r@[k].last_sync is Some <==> last_success(
                        self.repository.sync_log@,
                        p.name@,
                    ) is Some)
                    &&& (r@[k].last_sync matches Some(s) ==> last_success(
                        self.repository.sync_log@,
                        p.name@,
                    ) matches Some(v) && v == s@)
                    &&& r@[k].currencies_count as int == count_provider(
                        self.repository.rows@,
                        p.name@,
                    )
                },
    {
        let all = self.providers.all();
        let n = all.len();
        let mut out: Vec<ProviderInfo> = Vec::new();
        let mut i: usize = 0;
        while i < n
            invariant
                self.wf(),
                n == all@.len(),
                all@.len() == self.providers.providers@.len(),
                forall|k: int|
                    0 <= k < all@.len() ==> (#[trigger] all@[k]).name@
                        == self.providers.providers@[k].name@,
                i <= n,
                out@.len() == i,
                forall|k: int|
                    0 <= k < i ==> {
                        let p = self.providers.providers@[k];
                        &&& (#[trigger] out@[k]).name@ == p.name@
                        &&& out@[k].enabled
                        &&& (out@[k].last_sync is Some <==> last_success(
                            self.repository.sync_log@,
                            p.name@,
                        ) is Some)
                        &&& (out@[k].last_sync matches Some(s) ==> last_success(
                            self.repository.sync_log@,
                            p.name@,
                        ) matches Some(v) && v == s@)
                        &&& out@[k].currencies_count as int == count_provider(
                            self.repository.rows@,
                            p.name@,
                        )
                    },
            decreases n - i,
        {
            let name = all[i].name.clone();
            let last_sync = self.repository.get_last_sync(name.as_str());
            let count = self.repository.get_rates_count(name.as_str());
            out.push(ProviderInfo { name, enabled: true, last_sync, currencies_count: count });
            i = i + 1;
        }
        out
    }
}

/// Carries the per-key identities from the converted and filtered table to
/// the rounded response table: the rounded numerator depends only on the
/// exact value of the amount times the re-anchored quote.
proof fn lemma_response_ok(
    t1: Map<Seq<char>, Rate>,
    base: Seq<char>,
    symbols: Option<&Vec<String>>,
    amount: Rate,
    conv: Map<Seq<char>, Rate>,
    filtered: Map<Seq<char>, Rate>,
    out: RateTable,
)
    requires
        amount.wf(),
        forall|c: Seq<char>| #[trigger] t1.contains_key(c) ==> t1[c].pos(),
        forall|c: Seq<char>| #[trigger] conv.contains_key(c) ==> conv[c].pos(),
        (base == pivot_seq() && conv == t1) || (base != pivot_seq() && t1.contains_key(base)
            && converted(t1, conv, pivot_seq(), base)),
        forall|c: Seq<char>|
            #[trigger] filtered.contains_key(c) <==> conv.contains_key(c) && symbol_sel(symbols, c),
        forall|c: Seq<char>| #[trigger] filtered.contains_key(c) ==> filtered[c] == conv[c],
        out.wf(),
        forall|c: Seq<char>|
            #[trigger] out.as_map().contains_key(c) <==> filtered.contains_key(c),
        forall|c: Seq<char>|
            #[trigger] out.as_map().contains_key(c) ==> out.as_map()[c].den == 1000000
                && out.as_map()[c].num as int == round6_num(
                amount.num * filtered[c].num,
                amount.den * filtered[c].den,
            ),
    ensures
        response_table_ok(t1, base, symbols, amount, out),
{
    assert forall|c: Seq<char>|
        #[trigger] out.as_map().contains_key(c) <==> display_keys(t1, base).contains(c)
            && symbol_sel(symbols, c) by {
        if base != pivot_seq() {
            assert(conv.dom() =~= t1.dom().remove(base).insert(pivot_seq()));
            assert(conv.contains_key(c) <==> display_keys(t1, base).contains(c));
        }
    }
    assert forall|c: Seq<char>| #[trigger] out.as_map().contains_key(c) implies out.as_map()[c].den
        == 1000000 && out.as_map()[c].num as int == round6_num(
        display_frac(t1, base, amount, c).0,
        display_frac(t1, base, amount, c).1,
    ) by {
        let q = conv[c];
        let f0 = display_frac(t1, base, amount, c).0;
        let f1 = display_frac(t1, base, amount, c).1;
        let gn = amount.num * q.num;
        let gd = amount.den * q.den;
        assert(q.pos());
        if base == pivot_seq() {
            assert(gn == f0 && gd == f1);
        } else if c == pivot_seq() {
            let b = t1[base];
            assert(b.pos());
            assert(is_recip(q, b));
            assert(gn * f1 == f0 * gd) by (nonlinear_arith)
                requires
                    q.num * b.num == b.den * q.den,
                    gn == amount.num * q.num,
                    gd == amount.den * q.den,
                    f0 == amount.num * b.den,
                    f1 == amount.den * b.num,
            ;
            assert(f1 >= 1) by (nonlinear_arith)
                requires amount.den >= 1, b.num >= 1, f1 == amount.den * b.num;
            assert(gd >= 1) by (nonlinear_arith)
                requires amount.den >= 1, q.den >= 1, gd == amount.den * q.den;
            assert(gn >= 0 && f0 >= 0) by (nonlinear_arith)
                requires
                    gn == amount.num * q.num,
                    f0 == amount.num * b.den,
            ;
            lemma_round6_value(gn, gd, f0, f1);
        } else {
            let b = t1[base];
            let tc = t1[c];
            assert(b.pos());
            assert(tc.pos()) by {
                assert(t1.contains_key(c));
            }
            assert(is_quotient(q, tc, b));
            assert(gn * f1 == f0 * gd) by (nonlinear_arith)
                requires
                    q.num * (tc.den * b.num) == (tc.num * b.den) * q.den,
                    gn == amount.num * q.num,
                    gd == amount.den * q.den,
                    f0 == amount.num * (tc.num * b.den),
                    f1 == amount.den * (tc.den * b.num),
            ;
            assert(f1 >= 1) by (nonlinear_arith)
                requires
                    amount.den >= 1,
                    tc.den >= 1,
                    b.num >= 1,
                    f1 == amount.den * (tc.den * b.num),
            ;
            assert(gd >= 1) by (nonlinear_arith)
                requires amount.den >= 1, q.den >= 1, gd == amount.den * q.den;
            assert(gn >= 0 && f0 >= 0) by (nonlinear_arith)
                requires
                    gn == amount.num * q.num,
                    f0 == amount.num * (tc.num * b.den),
            ;
            lemma_round6_value(gn, gd, f0, f1);
        }
    }
}

} // verus!
