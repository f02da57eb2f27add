//! Decimal reading and the service budget setting.
use staged_adapter::service::budget_from_setting;
use staged_adapter::text::{decimal_text, parse_u64};

#[test]
fn decimal_reading_follows_the_unsigned_grammar() {
    assert_eq!(parse_u64("15"), Some(15));
    assert_eq!(parse_u64("+7"), Some(7));
    assert_eq!(parse_u64("0"), Some(0));
    assert_eq!(parse_u64("007"), Some(7));
    assert_eq!(parse_u64("18446744073709551615"), Some(u64::MAX));
    assert_eq!(parse_u64("18446744073709551616"), None);
    assert_eq!(parse_u64(""), None);
    assert_eq!(parse_u64("+"), None);
    assert_eq!(parse_u64("-1"), None);
    assert_eq!(parse_u64(" 1"), None);
    assert_eq!(parse_u64("1x"), None);
    assert_eq!(parse_u64("99999999999999999999x"), None);
    for text in ["15", "+7", "0", "18446744073709551615", "18446744073709551616", "", "+", "-1", "1x"] {
        assert_eq!(parse_u64(text), text.parse::<u64>().ok(), "{text:?}");
    }
}

#[test]
fn decimal_rendering_matches_the_standard_form() {
    for n in [0u128, 7, 10, 99, 100, 12345, u64::MAX as u128, u128::MAX] {
        assert_eq!(decimal_text(n), n.to_string());
    }
}

#[test]
fn an_absent_setting_leaves_the_policy_off() {
    let (budget, error) = budget_from_setting(None);
    assert!(!budget.enabled());
    assert_eq!(error, None);
}

#[test]
fn a_setting_in_milliseconds_enables_a_budget_in_microseconds() {
    let (budget, error) = budget_from_setting(Some("5"));
    assert!(budget.enabled());
    assert_eq!(budget.budget_us, Some(5000));
    assert_eq!(error, None);
}

#[test]
fn a_zero_negative_or_overflowing_setting_is_refused() {
    for bad in ["0", "-3", "abc", "", "18446744073709552"] {
        let (budget, error) = budget_from_setting(Some(bad));
        assert!(!budget.enabled(), "{bad}");
        assert_eq!(
            error.as_deref(),
            Some("P4_STAGED_PREFILL_SERVICE_MS must be a positive non-overflowing integer"),
            "{bad}"
        );
    }
}
