use currency_rates::date::Date;
use currency_rates::ecb::parse_xml;
use currency_rates::error::AppError;
use currency_rates::nbu::{format_date_for_nbu, parse_nbu_date};
use currency_rates::parse::{parse_date, parse_date_param, parse_decimal};
use currency_rates::rate::Rate;

fn ymd(y: u32, m: u32, d: u32) -> Date {
    Date::from_ymd(y, m, d).unwrap()
}

fn approx(r: Rate) -> f64 {
    r.num as f64 / r.den as f64
}

#[test]
fn test_parse_xml() {
    let xml = r#"<?xml version="1.0" encoding="UTF-8"?>
<gesmes:Envelope xmlns:gesmes="http://www.gesmes.org/xml/2002-08-01" xmlns="http://www.ecb.int/vocabulary/2002-08-01/eurofxref">
    <gesmes:subject>Reference rates</gesmes:subject>
    <gesmes:Sender>
        <gesmes:name>European Central Bank</gesmes:name>
    </gesmes:Sender>
    <Cube>
        <Cube time='2025-11-27'>
            <Cube currency='USD' rate='1.0586'/>
            <Cube currency='JPY' rate='158.11'/>
        </Cube>
    </Cube>
</gesmes:Envelope>"#;

    let rates = parse_xml(xml.as_bytes()).unwrap();

    assert_eq!(rates.len(), 1);
    assert_eq!(rates[0].date, ymd(2025, 11, 27));
    // Base currency should now be USD
    assert_eq!(rates[0].base_currency, "USD");
    // USD should be 1.0
    assert_eq!(rates[0].rates.get("USD"), Some(Rate::one()));
    // EUR should be 1/1.0586
    let eur_rate = rates[0].rates.get("EUR").unwrap();
    assert!((approx(eur_rate) - (1.0 / 1.0586)).abs() < 0.0001);
    // JPY should be 158.11/1.0586
    let jpy_rate = rates[0].rates.get("JPY").unwrap();
    assert!((approx(jpy_rate) - (158.11 / 1.0586)).abs() < 0.01);
}

#[test]
fn test_date_formatting() {
    let date = ymd(2025, 11, 27);
    assert_eq!(format_date_for_nbu(date), "20251127");
}

#[test]
fn test_parse_nbu_date() {
    let result = parse_nbu_date(b"27.11.2025").unwrap();
    assert_eq!(result, ymd(2025, 11, 27));
}

#[test]
fn parse_date_accepts_both_layouts() {
    assert_eq!(parse_date(b"2020-01-03"), Some(ymd(2020, 1, 3)));
    assert_eq!(parse_date(b"20200103"), Some(ymd(2020, 1, 3)));
    assert_eq!(parse_date(b"2020/01/03"), None);
    assert_eq!(parse_date(b"2020-02-30"), None);
}

#[test]
fn parse_date_spellings_agree() {
    // The two accepted layouts of one calendar date parse to one value.
    assert_eq!(parse_date(b"2020-01-03"), parse_date(b"20200103"));
    assert_eq!(parse_date(b"2024-02-29"), parse_date(b"20240229"));
}

#[test]
fn parse_date_param_rejects_with_invalid_date() {
    assert!(matches!(
        parse_date_param(b"not-a-date"),
        Err(AppError::InvalidDate(_))
    ));
    assert!(parse_date_param(b"2024-02-29").is_ok());
}

#[test]
fn parse_decimal_exact_fractions() {
    let r = parse_decimal(b"1.0586").unwrap();
    assert_eq!(r.num, 10586);
    assert_eq!(r.den, 10000);
    let whole = parse_decimal(b"42").unwrap();
    assert_eq!(whole.num, 42);
    assert_eq!(whole.den, 1);
    assert!(parse_decimal(b"").is_none());
    assert!(parse_decimal(b".5").is_none());
    assert!(parse_decimal(b"5.").is_none());
    assert!(parse_decimal(b"1.2.3").is_none());
    assert!(parse_decimal(b"12a").is_none());
}

#[test]
fn parse_xml_rejects_malformed_quote() {
    let xml = "<Cube time='2025-11-27'><Cube currency='USD' rate='x1'/></Cube>";
    assert!(matches!(
        parse_xml(xml.as_bytes()),
        Err(AppError::Parse(_))
    ));
}

#[test]
fn parse_xml_skips_day_without_pivot_quote() {
    // The first day lacks a USD quote and is skipped; the second survives.
    let xml = "<Cube time='2025-11-26'><Cube currency='JPY' rate='158.0'/></Cube>\
               <Cube time='2025-11-27'><Cube currency='USD' rate='1.0586'/></Cube>";
    let rates = parse_xml(xml.as_bytes()).unwrap();
    assert_eq!(rates.len(), 1);
    assert_eq!(rates[0].date, ymd(2025, 11, 27));
}

#[test]
fn date_arithmetic_crosses_boundaries() {
    assert_eq!(ymd(2020, 2, 28).next_day(), ymd(2020, 2, 29));
    assert_eq!(ymd(2021, 2, 28).next_day(), ymd(2021, 3, 1));
    assert_eq!(ymd(2020, 12, 31).next_day(), ymd(2021, 1, 1));
    assert_eq!(ymd(1900, 2, 28).next_day(), ymd(1900, 3, 1));
    assert_eq!(ymd(2000, 2, 28).next_day(), ymd(2000, 2, 29));
    assert!(Date::from_ymd(2021, 2, 29).is_none());
    assert!(Date::from_ymd(2020, 13, 1).is_none());
    assert!(Date::from_ymd(0, 1, 1).is_none());
}
