use currency_rates::config::Config;
use currency_rates::date::Date;
use currency_rates::error::AppError;
use currency_rates::models::DailyRates;
use currency_rates::providers::{ProviderEntry, ProviderRegistry};
use currency_rates::rate::Rate;
use currency_rates::service::{plan_sync, RatesService, SyncPlan};
use currency_rates::store::RatesRepository;
use currency_rates::table::RateTable;

fn rate(num: u64, den: u64) -> Rate {
    Rate::new(num, den).unwrap()
}

fn ymd(y: u32, m: u32, d: u32) -> Date {
    Date::from_ymd(y, m, d).unwrap()
}

fn snapshot(date: Date, provider: &str) -> DailyRates {
    let mut rates = RateTable::new();
    rates.upsert("EUR".to_string(), rate(9446, 10000));
    rates.upsert("JPY".to_string(), rate(14936, 100));
    DailyRates {
        date,
        base_currency: "USD".to_string(),
        rates,
        provider: provider.to_string(),
    }
}

fn registry() -> ProviderRegistry {
    let mut reg = ProviderRegistry::new();
    reg.register(ProviderEntry {
        name: "ecb".to_string(),
        description: "EUR-pivoted source".to_string(),
    });
    reg.register(ProviderEntry {
        name: "nbu".to_string(),
        description: "UAH-pivoted source".to_string(),
    });
    reg
}

fn service_with(days: Vec<DailyRates>) -> RatesService {
    let mut store = RatesRepository::new();
    store.store_daily_rates_batch(&days);
    RatesService::new(store, registry(), "USD".to_string())
}

#[test]
fn store_round_trip_reproduces_pairs() {
    // Storing a batch and reading the same date and provider back gives
    // every (currency, rate) pair except the pivot's own; the pivot is
    // re-derived as exactly one by the query path.
    let date = ymd(2024, 3, 1);
    let mut store = RatesRepository::new();
    let mut day = snapshot(date, "ecb");
    day.rates.upsert("USD".to_string(), Rate::one());
    store.store_daily_rates_batch(&vec![day]);

    let read = store.get_rates_for_date(date, "USD", Some(&"ecb".to_string()));
    assert_eq!(read.get("EUR"), Some(rate(9446, 10000)));
    assert_eq!(read.get("JPY"), Some(rate(14936, 100)));
    // The pivot-to-pivot pair was never persisted.
    assert_eq!(read.get("USD"), None);

    let service = RatesService::new(store, registry(), "USD".to_string());
    let resp = service
        .get_rates_for_date(date, "USD", None, Rate::one())
        .unwrap();
    // Re-derivable as exactly 1.0 after pivot insertion and rounding.
    assert_eq!(resp.rates.get("USD"), Some(rate(1000000, 1000000)));
}

#[test]
fn storing_twice_is_idempotent() {
    let date = ymd(2024, 3, 1);
    let mut store = RatesRepository::new();
    let batch = vec![snapshot(date, "ecb"), snapshot(ymd(2024, 3, 2), "ecb")];
    store.store_daily_rates_batch(&batch);
    let count_once = store.get_rates_count("ecb");
    store.store_daily_rates_batch(&batch);
    assert_eq!(store.get_rates_count("ecb"), count_once);

    // An overlapping re-run never duplicates rows either.
    let overlap = vec![snapshot(ymd(2024, 3, 2), "ecb"), snapshot(ymd(2024, 3, 3), "ecb")];
    store.store_daily_rates_batch(&overlap);
    store.store_daily_rates_batch(&overlap);
    assert_eq!(store.get_rates_count("ecb"), 6);
}

#[test]
fn unknown_symbols_are_dropped_without_error() {
    let date = ymd(2024, 3, 1);
    let service = service_with(vec![snapshot(date, "ecb")]);
    let symbols = vec!["EUR".to_string(), "ZZZ".to_string()];
    let resp = service
        .get_rates_for_date(date, "USD", Some(&symbols), Rate::one())
        .unwrap();
    assert!(resp.rates.get("EUR").is_some());
    assert!(resp.rates.get("ZZZ").is_none());
    assert_eq!(resp.rates.len(), 1);
}

#[test]
fn range_queries_overlap_behavior() {
    let service = service_with(vec![
        snapshot(ymd(2024, 3, 1), "ecb"),
        snapshot(ymd(2024, 3, 2), "ecb"),
    ]);
    // Entirely outside stored data: no data at all.
    let miss = service.get_time_series(ymd(2024, 4, 1), ymd(2024, 4, 5), "USD", None, Rate::one());
    assert!(matches!(miss, Err(AppError::NoDataAvailable)));
    // Partially overlapping: only the overlapping dates come back.
    let hit = service
        .get_time_series(ymd(2024, 3, 2), ymd(2024, 3, 9), "USD", None, Rate::one())
        .unwrap();
    assert_eq!(hit.rates.len(), 1);
    assert_eq!(hit.rates[0].0, ymd(2024, 3, 2));
}

#[test]
fn missing_date_is_no_data() {
    let service = service_with(vec![snapshot(ymd(2024, 3, 1), "ecb")]);
    let miss = service.get_rates_for_date(ymd(2024, 3, 7), "USD", None, Rate::one());
    assert!(matches!(miss, Err(AppError::NoDataAvailable)));
}

#[test]
fn missing_base_is_invalid_currency() {
    let service = service_with(vec![snapshot(ymd(2024, 3, 1), "ecb")]);
    let miss = service.get_rates_for_date(ymd(2024, 3, 1), "GBP", None, Rate::one());
    assert!(matches!(miss, Err(AppError::InvalidCurrency(c)) if c == "GBP"));
}

#[test]
fn conversion_at_query_time() {
    let date = ymd(2024, 3, 1);
    let service = service_with(vec![snapshot(date, "ecb")]);
    let resp = service
        .get_rates_for_date(date, "EUR", None, Rate::one())
        .unwrap();
    // 1 EUR = 1/0.9446 USD = 1.058649...
    let usd = resp.rates.get("USD").unwrap();
    assert_eq!(usd.den, 1000000);
    assert_eq!(usd.num, 1058649);
    // JPY re-anchored: 149.36 / 0.9446 = 158.119...
    let jpy = resp.rates.get("JPY").unwrap();
    assert_eq!(jpy.num, 158119839);
}

#[test]
fn amount_scales_and_rounds_last() {
    let date = ymd(2024, 3, 1);
    let service = service_with(vec![snapshot(date, "ecb")]);
    let resp = service
        .get_rates_for_date(date, "USD", None, rate(100, 1))
        .unwrap();
    let eur = resp.rates.get("EUR").unwrap();
    assert_eq!(eur.num, 94460000);
    assert_eq!(eur.den, 1000000);
}

#[test]
fn latest_resolves_maximum_stored_date() {
    let service = service_with(vec![
        snapshot(ymd(2024, 3, 1), "ecb"),
        snapshot(ymd(2024, 3, 4), "nbu"),
    ]);
    let resp = service.get_latest(None, None, None).unwrap();
    assert_eq!(resp.date, ymd(2024, 3, 4));
    assert_eq!(resp.base, "USD");

    let empty = RatesService::new(RatesRepository::new(), registry(), "USD".to_string());
    assert!(matches!(
        empty.get_latest(None, None, None),
        Err(AppError::NoDataAvailable)
    ));
}

#[test]
fn sync_plan_decision_procedure() {
    let today = ymd(2024, 3, 10);
    assert!(matches!(plan_sync(None, today), SyncPlan::FullHistory));
    assert!(matches!(
        plan_sync(Some(ymd(2024, 3, 10)), today),
        SyncPlan::UpToDate
    ));
    assert!(matches!(
        plan_sync(Some(ymd(2024, 3, 12)), today),
        SyncPlan::UpToDate
    ));
    match plan_sync(Some(ymd(2024, 3, 5)), today) {
        SyncPlan::Range(s, e) => {
            assert_eq!(s, ymd(2024, 3, 5));
            assert_eq!(e, today);
        }
        _ => panic!("expected an incremental range"),
    }
}

#[test]
fn unknown_provider_is_a_distinct_failure() {
    let service = service_with(vec![]);
    let err = service.sync_provider_plan("fed", ymd(2024, 3, 10)).unwrap_err();
    assert!(matches!(err, AppError::Provider(_)));
    let ok = service.sync_provider_plan("ecb", ymd(2024, 3, 10)).unwrap();
    assert!(matches!(ok, SyncPlan::FullHistory));
}

#[test]
fn applying_sync_result_stores_and_logs() {
    let mut service = service_with(vec![]);
    let batch = vec![snapshot(ymd(2024, 3, 1), "ecb")];
    let currencies = vec![("EUR".to_string(), "Euro".to_string())];
    let count = service.apply_sync_result("ecb", &batch, &currencies);
    assert_eq!(count, 2);
    service.log_sync_outcome("ecb", count, "success", "2024-03-01T16:00:00Z");

    let infos = service.get_providers_info();
    assert_eq!(infos.len(), 2);
    let ecb = infos.iter().find(|p| p.name == "ecb").unwrap();
    assert!(ecb.enabled);
    assert_eq!(ecb.currencies_count, 2);
    assert_eq!(ecb.last_sync.as_deref(), Some("2024-03-01T16:00:00Z"));
    let nbu = infos.iter().find(|p| p.name == "nbu").unwrap();
    assert_eq!(nbu.last_sync, None);
}

#[test]
fn catalog_names_resolve_with_code_fallback() {
    let mut service = service_with(vec![snapshot(ymd(2024, 3, 1), "ecb")]);
    let currencies = vec![("EUR".to_string(), "Euro".to_string())];
    service.apply_sync_result("ecb", &vec![], &currencies);
    let listed = service.get_currencies();
    let eur = listed.iter().find(|(c, _)| c == "EUR").unwrap();
    assert_eq!(eur.1, "Euro");
    let jpy = listed.iter().find(|(c, _)| c == "JPY").unwrap();
    assert_eq!(jpy.1, "JPY");
}

#[test]
fn registry_lookup_and_enumeration() {
    let reg = registry();
    assert!(reg.get("ecb").is_some());
    assert!(reg.get("fed").is_none());
    let names = reg.names();
    assert_eq!(names, vec!["ecb".to_string(), "nbu".to_string()]);
    assert_eq!(reg.all().len(), 2);
}

#[test]
fn config_defaults() {
    let c = Config::default();
    assert_eq!(c.default_api_base, "USD");
    assert_eq!(c.port, 8080);
    assert!(c.seed_on_startup);
    assert!(c.sync_on_startup);
    assert_eq!(c.sync_cron, "0 0 16 * * *");
}
