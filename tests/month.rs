use backend_core::month::{MonthError, MonthScalar};

#[test]
fn month_scalar_parse_valid() {
    let m = MonthScalar::parse("2024-03").unwrap();
    assert_eq!(m.year, 2024);
    assert_eq!(m.month, 3);
    assert_eq!(m.as_str(), "2024-03");
}

#[test]
fn month_scalar_parse_invalid() {
    assert!(MonthScalar::parse("2024").is_err());
    assert!(MonthScalar::parse("2024-13").is_err());
    assert!(MonthScalar::parse("abcd-ef").is_err());
}

#[test]
fn month_text_round_trips_for_every_month() {
    for year in [0, 7, 99, 2024, 9999, 12345] {
        for month in 1u8..=12 {
            let m = MonthScalar { year, month };
            let text = m.as_str();
            assert_eq!(MonthScalar::parse(&text), Ok(m));
        }
    }
}

#[test]
fn month_text_is_zero_padded() {
    assert_eq!(MonthScalar { year: 7, month: 1 }.as_str(), "0007-01");
    assert_eq!(MonthScalar { year: 2024, month: 12 }.as_str(), "2024-12");
    assert_eq!(MonthScalar { year: 12345, month: 6 }.as_str(), "12345-06");
    assert_eq!(MonthScalar { year: -5, month: 3 }.as_str(), "-005-03");
}

#[test]
fn month_parse_rejects_month_zero_and_thirteen() {
    assert_eq!(MonthScalar::parse("2024-00"), Err(MonthError::OutOfRange));
    assert_eq!(MonthScalar::parse("2024-13"), Err(MonthError::OutOfRange));
}

#[test]
fn month_parse_rejects_missing_or_extra_separators() {
    assert_eq!(MonthScalar::parse("202403"), Err(MonthError::Format));
    assert_eq!(MonthScalar::parse(""), Err(MonthError::Format));
    assert_eq!(MonthScalar::parse("2024-03-01"), Err(MonthError::Format));
    assert_eq!(MonthScalar::parse("-2024-03"), Err(MonthError::Format));
}

#[test]
fn month_parse_rejects_non_numeric_parts() {
    assert_eq!(MonthScalar::parse("abcd-03"), Err(MonthError::InvalidYear));
    assert_eq!(MonthScalar::parse("-03"), Err(MonthError::InvalidYear));
    assert_eq!(MonthScalar::parse("+-03"), Err(MonthError::InvalidYear));
    assert_eq!(MonthScalar::parse("2024-ef"), Err(MonthError::InvalidMonth));
    assert_eq!(MonthScalar::parse("2024-"), Err(MonthError::InvalidMonth));
    assert_eq!(MonthScalar::parse("2024- 3"), Err(MonthError::InvalidMonth));
}

#[test]
fn month_parse_range_limits() {
    assert_eq!(MonthScalar::parse("2147483648-01"), Err(MonthError::InvalidYear));
    assert_eq!(
        MonthScalar::parse("2147483647-01"),
        Ok(MonthScalar { year: 2147483647, month: 1 })
    );
    assert_eq!(MonthScalar::parse("2024-256"), Err(MonthError::InvalidMonth));
    assert_eq!(MonthScalar::parse("2024-255"), Err(MonthError::OutOfRange));
}

#[test]
fn month_parse_accepts_plus_and_leading_zeros() {
    assert_eq!(MonthScalar::parse("+2024-+3"), Ok(MonthScalar { year: 2024, month: 3 }));
    assert_eq!(MonthScalar::parse("2024-003"), Ok(MonthScalar { year: 2024, month: 3 }));
    assert_eq!(MonthScalar::parse("24-3"), Ok(MonthScalar { year: 24, month: 3 }));
    assert_eq!(MonthScalar::parse("24-3").unwrap().as_str(), "0024-03");
}
