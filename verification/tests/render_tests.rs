use days_left::{factor_line, factorize, int_string};

#[test]
fn decimal_rendering() {
    assert_eq!(int_string(0), "0");
    assert_eq!(int_string(7), "7");
    assert_eq!(int_string(13), "13");
    assert_eq!(int_string(86400), "86400");
    assert_eq!(int_string(-1), "-1");
    assert_eq!(int_string(-205), "-205");
    assert_eq!(int_string(i64::MAX), "9223372036854775807");
    assert_eq!(int_string(i64::MIN), "-9223372036854775808");
}

#[test]
fn single_number_line_has_no_separator() {
    assert_eq!(factor_line(&vec![5]), "5");
}

#[test]
fn numbers_are_joined_by_comma_and_space() {
    assert_eq!(factor_line(&vec![1, 13]), "1, 13");
    assert_eq!(factor_line(&vec![2, 2, 3]), "2, 2, 3");
}

#[test]
fn hundred_days_line() {
    assert_eq!(factor_line(&factorize(100)), "2, 2, 5, 5");
}

#[test]
fn thirteen_days_line() {
    assert_eq!(factor_line(&factorize(13)), "1, 13");
}

#[test]
fn zero_days_line() {
    assert_eq!(factor_line(&factorize(0)), "0");
}
