use currency_rates::convert::convert_base_currency;
use currency_rates::date::Date;
use currency_rates::error::AppError;
use currency_rates::nbu::{nbu_triangulate, parse_rate_records, snapshot_from_records};
use currency_rates::rate::Rate;
use currency_rates::table::RateTable;

fn rate(num: u64, den: u64) -> Rate {
    Rate::new(num, den).unwrap()
}

fn approx(r: Rate) -> f64 {
    r.num as f64 / r.den as f64
}

fn sample_table() -> RateTable {
    let mut t = RateTable::new();
    t.upsert("USD".to_string(), Rate::one());
    t.upsert("EUR".to_string(), rate(9446, 10000));
    t.upsert("JPY".to_string(), rate(14936, 100));
    t
}

#[test]
fn convert_identity_returns_table_unchanged() {
    let t = sample_table();
    let back = convert_base_currency(&t, "USD", "USD").unwrap();
    assert_eq!(back.get("USD"), Some(Rate::one()));
    assert_eq!(back.get("EUR"), Some(rate(9446, 10000)));
    assert_eq!(back.get("JPY"), Some(rate(14936, 100)));
    assert_eq!(back.len(), 3);
}

#[test]
fn convert_round_trip_restores_values() {
    let t = sample_table();
    let there = convert_base_currency(&t, "USD", "EUR").unwrap();
    let back = convert_base_currency(&there, "EUR", "USD").unwrap();
    // Every key present in both directions keeps its value exactly.
    for code in ["EUR", "JPY"] {
        let orig = t.get(code).unwrap();
        let rt = back.get(code).unwrap();
        assert_eq!(
            orig.num as u128 * rt.den as u128,
            rt.num as u128 * orig.den as u128
        );
    }
}

#[test]
fn convert_missing_base_is_invalid_currency() {
    let t = sample_table();
    let err = convert_base_currency(&t, "USD", "GBP").unwrap_err();
    assert!(matches!(err, AppError::InvalidCurrency(c) if c == "GBP"));
}

#[test]
fn eur_pivot_triangulation_values() {
    // The EUR-pivoted source reports USD=1.0586 and JPY=158.11 against its
    // native pivot; the internal-pivot table follows by division.
    let mut native = RateTable::new();
    native.upsert("EUR".to_string(), Rate::one());
    native.upsert("USD".to_string(), rate(10586, 10000));
    native.upsert("JPY".to_string(), rate(15811, 100));

    let mut conv = convert_base_currency(&native, "EUR", "USD").unwrap();
    conv.upsert("USD".to_string(), Rate::one());

    assert_eq!(conv.get("USD"), Some(Rate::one()));
    assert!((approx(conv.get("EUR").unwrap()) - 0.94464).abs() < 1e-4);
    assert!((approx(conv.get("JPY").unwrap()) - 149.36).abs() < 1e-2);
}

#[test]
fn uah_pivot_triangulation_values() {
    // The UAH-pivoted source reports pivot=42.30 and AZN=24.88, both as
    // "UAH per 1 unit"; the internal table divides the other way around.
    let mut native = RateTable::new();
    native.upsert("USD".to_string(), rate(4230, 100));
    native.upsert("AZN".to_string(), rate(2488, 100));

    let out = nbu_triangulate(&native).unwrap();

    assert_eq!(out.get("USD"), Some(Rate::one()));
    assert_eq!(out.get("UAH"), Some(rate(4230, 100)));
    assert!((approx(out.get("AZN").unwrap()) - 1.70).abs() < 0.01);
}

#[test]
fn uah_pivot_missing_cross_rate_is_provider_error() {
    let mut native = RateTable::new();
    native.upsert("AZN".to_string(), rate(2488, 100));
    assert!(matches!(
        nbu_triangulate(&native),
        Err(AppError::Provider(_))
    ));
}

#[test]
fn nbu_records_build_snapshot() {
    let json = r#"[{"r030":840,"rate":42.30,"cc":"USD","exchangedate":"27.11.2025"},
{"r030":944,"rate":24.88,"cc":"AZN","exchangedate":"27.11.2025"}]"#;
    let records = parse_rate_records(json.as_bytes()).unwrap();
    assert_eq!(records.len(), 2);
    let date = records[0].0;
    assert_eq!(date, Date::from_ymd(2025, 11, 27).unwrap());

    let snap = snapshot_from_records(&records, date).unwrap();
    assert_eq!(snap.provider, "nbu");
    assert_eq!(snap.base_currency, "USD");
    assert_eq!(snap.rates.get("UAH"), Some(rate(4230, 100)));
    assert!((approx(snap.rates.get("AZN").unwrap()) - 1.70).abs() < 0.01);
}

#[test]
fn nbu_record_codes_fold_to_upper_case() {
    // The batch endpoint is queried with lower-case codes and may echo
    // them back; the stored tables key on upper-case codes.
    let json = r#"[{"exchangedate":"27.11.2025","r030":840,"cc":"usd","rate_per_unit":42.30},
{"exchangedate":"27.11.2025","r030":944,"cc":"azn","rate_per_unit":24.88}]"#;
    let records = parse_rate_records(json.as_bytes()).unwrap();
    assert_eq!(records[0].1, "USD");
    assert_eq!(records[1].1, "AZN");
    let snap = snapshot_from_records(&records, records[0].0).unwrap();
    assert_eq!(snap.rates.get("UAH"), Some(rate(4230, 100)));
}

#[test]
fn nbu_batch_records_prefer_per_unit_rate() {
    let json = r#"[{"exchangedate":"27.11.2025","r030":704,"cc":"VND","rate":164.0,"units":100000,"rate_per_unit":0.00164}]"#;
    let records = parse_rate_records(json.as_bytes()).unwrap();
    assert_eq!(records.len(), 1);
    assert_eq!(records[0].1, "VND");
    assert_eq!(records[0].2, rate(164, 100000));
}

#[test]
fn checked_div_rejects_unrepresentable_quotient() {
    // Two large coprime factors cannot reduce; the quotient does not fit.
    let a = rate(18446744073709551557, 1);
    let b = rate(1, 18446744073709551533);
    assert!(a.checked_div(&b).is_none());
    // An ordinary quotient reduces fine.
    let c = rate(4230, 100).checked_div(&rate(2488, 100)).unwrap();
    assert_eq!(c, rate(2115, 1244));
}

#[test]
fn round6_rounds_ties_away_from_zero() {
    // 1/3 rounds to 0.333333; 1/2 scaled leaves an exact tie at the 6th
    // place only for halves of a micro, e.g. 0.0000005 -> 0.000001.
    let third = rate(1, 3).round6().unwrap();
    assert_eq!(third.num, 333333);
    assert_eq!(third.den, 1000000);
    let half_micro = rate(1, 2000000).round6().unwrap();
    assert_eq!(half_micro.num, 1);
    let two_thirds = rate(2, 3).round6().unwrap();
    assert_eq!(two_thirds.num, 666667);
}
