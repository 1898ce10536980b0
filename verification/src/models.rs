//! The data model: rate records, daily snapshots, currency metadata, and the
//! query-time response shapes.

use vstd::prelude::*;
use crate::date::Date;
use crate::rate::Rate;
use crate::table::RateTable;

verus! {

/// A single exchange rate record: 1 unit of the base currency buys `rate`
/// units of the target currency on `date`, as reported by `provider`.
#[derive(Clone, Debug)]
pub struct ExchangeRate {
    pub date: Date,
    pub base_currency: String,
    pub target_currency: String,
    pub rate: Rate,
    pub provider: String,
}

impl ExchangeRate {
    pub open spec fn wf(self) -> bool {
        self.date.wf() && self.rate.pos()
    }
}

/// One provider's full snapshot for a single calendar date, quoted against
/// `base_currency` (the internal pivot once an adapter has normalized it).
#[derive(Clone, Debug)]
pub struct DailyRates {
    pub date: Date,
    pub base_currency: String,
    pub rates: RateTable,
    pub provider: String,
}

impl DailyRates {
    pub open spec fn wf(self) -> bool {
        self.date.wf() && self.rates.wf() && forall|i: int|
            0 <= i < self.rates.entries@.len() ==> (#[trigger] self.rates.entries@[i]).1.pos()
    }
}

/// Two snapshots carry the same data.
pub open spec fn daily_eq(a: DailyRates, b: DailyRates) -> bool {
    a.date == b.date && a.base_currency@ == b.base_currency@
        && a.rates.entries@ == b.rates.entries@ && a.provider@ == b.provider@
}

/// Currency metadata: code and display name.
#[derive(Clone, Debug)]
pub struct Currency {
    pub code: String,
    pub name: String,
}

/// Response shape for single-date queries.
#[derive(Clone, Debug)]
pub struct RatesResponse {
    pub amount: Rate,
    pub base: String,
    pub date: Date,
    pub rates: RateTable,
}

/// Response shape for range queries: one converted table per stored date,
/// in ascending date order.
#[derive(Clone, Debug)]
pub struct TimeSeriesResponse {
    pub amount: Rate,
    pub base: String,
    pub start_date: Date,
    pub end_date: Date,
    pub rates: Vec<(Date, RateTable)>,
}

/// Currency information including the date range with data.
#[derive(Clone, Debug)]
pub struct CurrencyInfo {
    pub name: String,
    pub min_date: Option<Date>,
    pub max_date: Option<Date>,
}

/// Provider info for the health check.
#[derive(Clone, Debug)]
pub struct ProviderInfo {
    pub name: String,
    pub enabled: bool,
    pub last_sync: Option<String>,
    pub currencies_count: usize,
}

/// Health check response.
#[derive(Clone, Debug)]
pub struct HealthResponse {
    pub status: String,
    pub version: String,
    pub providers: Vec<ProviderInfo>,
}

} // verus!
