use currency_rates::date::Date;
use currency_rates::models::DailyRates;
use currency_rates::providers::fill_gaps;
use currency_rates::rate::Rate;
use currency_rates::table::RateTable;

fn rate(num: u64, den: u64) -> Rate {
    Rate::new(num, den).unwrap()
}

fn ymd(y: u32, m: u32, d: u32) -> Date {
    Date::from_ymd(y, m, d).unwrap()
}

/// A snapshot quoting EUR at `tenths / 10` and GBP at eight tenths of that.
fn make_daily_rates(date: Date, tenths: u64) -> DailyRates {
    let mut rates = RateTable::new();
    rates.upsert("EUR".to_string(), rate(tenths, 10));
    rates.upsert("GBP".to_string(), rate(tenths * 8, 100));
    DailyRates {
        date,
        base_currency: "USD".to_string(),
        rates,
        provider: "test".to_string(),
    }
}

#[test]
fn test_fill_gaps_empty_input() {
    let today = ymd(2020, 6, 1);
    let result = fill_gaps(vec![], "test", today);
    assert!(result.is_empty());
}

#[test]
fn test_fill_gaps_single_entry() {
    let date = ymd(2020, 1, 1);
    let rates = vec![make_daily_rates(date, 10)];
    let today = ymd(2020, 1, 5);

    let result = fill_gaps(rates, "test", today);

    // Should have original entry plus fill to the reference day
    assert!(!result.is_empty());
    assert_eq!(result[0].date, date);
    assert_eq!(result.len(), 5);
}

#[test]
fn test_fill_gaps_no_gaps() {
    // Three consecutive days - no gaps to fill
    let rates = vec![
        make_daily_rates(ymd(2020, 1, 1), 10),
        make_daily_rates(ymd(2020, 1, 2), 11),
        make_daily_rates(ymd(2020, 1, 3), 12),
    ];
    let today = ymd(2020, 1, 3);

    let result = fill_gaps(rates, "test", today);

    // First 3 entries should be the originals
    assert_eq!(result[0].date, ymd(2020, 1, 1));
    assert_eq!(result[1].date, ymd(2020, 1, 2));
    assert_eq!(result[2].date, ymd(2020, 1, 3));
    // Rates should be preserved
    assert_eq!(result[0].rates.get("EUR"), Some(rate(10, 10)));
    assert_eq!(result[1].rates.get("EUR"), Some(rate(11, 10)));
    assert_eq!(result[2].rates.get("EUR"), Some(rate(12, 10)));
}

#[test]
fn test_fill_gaps_weekend_gap() {
    // Friday and Monday - should fill Saturday and Sunday
    let friday = ymd(2020, 1, 3);
    let monday = ymd(2020, 1, 6);

    let rates = vec![make_daily_rates(friday, 10), make_daily_rates(monday, 11)];
    let today = ymd(2020, 1, 6);

    let result = fill_gaps(rates, "test", today);

    // Should have: Friday, Saturday, Sunday, Monday
    assert_eq!(result[0].date, friday);
    assert_eq!(result[1].date, ymd(2020, 1, 4)); // Saturday
    assert_eq!(result[2].date, ymd(2020, 1, 5)); // Sunday
    assert_eq!(result[3].date, monday);

    // Saturday and Sunday should have Friday's rates
    assert_eq!(result[1].rates.get("EUR"), Some(rate(10, 10)));
    assert_eq!(result[2].rates.get("EUR"), Some(rate(10, 10)));
    // Monday should have its own rate
    assert_eq!(result[3].rates.get("EUR"), Some(rate(11, 10)));
}

#[test]
fn test_fill_gaps_unsorted_input() {
    // Input is not sorted - the output is ordered all the same
    let day1 = ymd(2020, 1, 3);
    let day2 = ymd(2020, 1, 1);
    let day3 = ymd(2020, 1, 2);

    let rates = vec![
        make_daily_rates(day1, 12), // Jan 3
        make_daily_rates(day2, 10), // Jan 1
        make_daily_rates(day3, 11), // Jan 2
    ];
    let today = ymd(2020, 1, 3);

    let result = fill_gaps(rates, "test", today);

    // Should be sorted by date
    assert_eq!(result[0].date, ymd(2020, 1, 1));
    assert_eq!(result[1].date, ymd(2020, 1, 2));
    assert_eq!(result[2].date, ymd(2020, 1, 3));
    // With correct rates
    assert_eq!(result[0].rates.get("EUR"), Some(rate(10, 10)));
    assert_eq!(result[1].rates.get("EUR"), Some(rate(11, 10)));
    assert_eq!(result[2].rates.get("EUR"), Some(rate(12, 10)));
}

#[test]
fn test_fill_gaps_large_gap() {
    // 5 day gap
    let day1 = ymd(2020, 1, 1);
    let day2 = ymd(2020, 1, 7); // 6 days later

    let rates = vec![make_daily_rates(day1, 10), make_daily_rates(day2, 20)];
    let today = ymd(2020, 1, 7);

    let result = fill_gaps(rates, "test", today);

    // Should have 7 entries for days 1-7
    assert_eq!(result[0].date, day1);
    assert_eq!(result[1].date, ymd(2020, 1, 2));
    assert_eq!(result[2].date, ymd(2020, 1, 3));
    assert_eq!(result[3].date, ymd(2020, 1, 4));
    assert_eq!(result[4].date, ymd(2020, 1, 5));
    assert_eq!(result[5].date, ymd(2020, 1, 6));
    assert_eq!(result[6].date, day2);

    // Gap days should have day1's rates
    for item in result.iter().take(6).skip(1) {
        assert_eq!(item.rates.get("EUR"), Some(rate(10, 10)));
    }
    // Last original day should have its own rate
    assert_eq!(result[6].rates.get("EUR"), Some(rate(20, 10)));
}

#[test]
fn test_fill_gaps_sets_provider_name_on_filled_entries() {
    let rates = vec![
        make_daily_rates(ymd(2020, 1, 1), 10),
        make_daily_rates(ymd(2020, 1, 3), 11),
    ];
    let today = ymd(2020, 1, 3);

    let result = fill_gaps(rates, "custom_provider", today);

    // Original entries keep their provider
    assert_eq!(result[0].provider, "test");
    assert_eq!(result[2].provider, "test");
    // Gap-filled entry gets the new provider name
    assert_eq!(result[1].provider, "custom_provider");
}

#[test]
fn test_fill_gaps_preserves_base_currency() {
    let mut rates = RateTable::new();
    rates.upsert("EUR".to_string(), rate(9, 10));
    let mut rates2 = RateTable::new();
    rates2.upsert("EUR".to_string(), rate(9, 10));

    let input = vec![
        DailyRates {
            date: ymd(2020, 1, 1),
            base_currency: "GBP".to_string(),
            rates,
            provider: "test".to_string(),
        },
        DailyRates {
            date: ymd(2020, 1, 3),
            base_currency: "GBP".to_string(),
            rates: rates2,
            provider: "test".to_string(),
        },
    ];
    let today = ymd(2020, 1, 3);

    let result = fill_gaps(input, "test", today);

    // Gap-filled entry should have same base currency
    assert_eq!(result[1].base_currency, "GBP");
}

#[test]
fn gap_fill_reaches_reference_day() {
    // Friday through Monday with a weekend hole, filled up to the Monday:
    // four dense days, the weekend carrying Friday's table forward.
    let friday = ymd(2020, 1, 3);
    let monday = ymd(2020, 1, 6);
    let rates = vec![make_daily_rates(friday, 10), make_daily_rates(monday, 11)];

    let result = fill_gaps(rates, "test", monday);

    assert_eq!(result.len(), 4);
    assert_eq!(result[1].rates.get("GBP"), Some(rate(80, 100)));
    assert_eq!(result[2].rates.get("GBP"), Some(rate(80, 100)));
    // No duplicate and no out-of-order dates
    for w in result.windows(2) {
        assert!(w[0].date.day_index() < w[1].date.day_index());
    }
}
