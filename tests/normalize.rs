use one_pager::normalize::clean_value;

#[test]
fn test_clean_value_integers() {
    assert_eq!(clean_value("10"), "10");
    assert_eq!(clean_value("10.0"), "10");
    assert_eq!(clean_value("42.000000"), "42");
}

#[test]
fn test_clean_value_floats() {
    assert_eq!(clean_value("10.5"), "10.5");
    assert_eq!(clean_value("0.001"), "0.001");
}

#[test]
fn test_clean_value_strings() {
    assert_eq!(clean_value("Hello"), "Hello");
    assert_eq!(clean_value("123 Street"), "123 Street");
}

#[test]
fn test_clean_value_nans() {
    assert_eq!(clean_value(""), "");
    assert_eq!(clean_value("nan"), "");
    assert_eq!(clean_value("NaN"), "");
    assert_eq!(clean_value("NAN"), "");
    assert_eq!(clean_value("#N/A"), "");
    assert_eq!(clean_value("NULL"), "");
    assert_eq!(clean_value("None"), "");
}

#[test]
fn test_clean_value_edge_cases() {
    assert_eq!(clean_value("  10.0  "), "10");
    assert_eq!(clean_value("  nan  "), "");
}

#[test]
fn clean_value_other_null_words() {
    assert_eq!(clean_value("n.a"), "");
    assert_eq!(clean_value("N.A"), "");
    assert_eq!(clean_value("Na"), "");
    assert_eq!(clean_value("nUlL"), "");
    assert_eq!(clean_value("\t#n/a\n"), "");
}

#[test]
fn clean_value_whole_numbers() {
    assert_eq!(clean_value("10.00000"), "10");
    assert_eq!(clean_value("-3.0"), "-3");
    assert_eq!(clean_value("+7"), "7");
    assert_eq!(clean_value("-0.0"), "0");
    assert_eq!(clean_value("007"), "7");
    assert_eq!(clean_value("5."), "5");
    assert_eq!(clean_value(".0"), "0");
}

#[test]
fn clean_value_keeps_other_text() {
    assert_eq!(clean_value("1.2.3"), "1.2.3");
    assert_eq!(clean_value("."), ".");
    assert_eq!(clean_value("-"), "-");
    assert_eq!(clean_value("  ACME & Sons "), "ACME & Sons");
    assert_eq!(clean_value("nana"), "nana");
}

#[test]
fn clean_value_is_idempotent_on_samples() {
    for s in ["  10.0 ", "n.a", "abc ", "-0.000", "0042.0", "x y", ""] {
        let once = clean_value(s);
        assert_eq!(clean_value(&once), once);
    }
}

#[test]
fn clean_value_padding_is_ignored() {
    for s in ["10.0", "nan", "Hello", "12.5"] {
        let padded = format!(" \t{}\u{3000} ", s);
        assert_eq!(clean_value(&padded), clean_value(s));
    }
}

#[test]
fn clean_value_exponent_forms() {
    assert_eq!(clean_value("1e3"), "1000");
    assert_eq!(clean_value("1.5E1"), "15");
    assert_eq!(clean_value("-1.2e+2"), "-120");
    assert_eq!(clean_value("1200e-2"), "12");
    assert_eq!(clean_value("2.50e1"), "25");
    assert_eq!(clean_value("0e99999999999999999999999"), "0");
    assert_eq!(clean_value("1e-3"), "1e-3");
    assert_eq!(clean_value("123e-2"), "123e-2");
    assert_eq!(clean_value("1e"), "1e");
    assert_eq!(clean_value("e5"), "e5");
    assert_eq!(clean_value("1e5x"), "1e5x");
}

#[test]
fn clean_value_keeps_numbers_past_float_reach() {
    let expected = format!("1{}", "0".repeat(307));
    assert_eq!(clean_value("1e307"), expected);
    assert_eq!(clean_value("1e309"), "1e309");
    assert_eq!(clean_value("1e99999999999999999999999"), "1e99999999999999999999999");
    assert_eq!(clean_value(&clean_value("1e307")), expected);
}
