use sgp4::j2000_days;

#[test]
fn j2000_is_day_zero() {
    assert_eq!(j2000_days(2000, 1, 1), 0);
    assert_eq!(j2000_days(2008, 9, 20), 3185);
    assert_eq!(j2000_days(1999, 12, 31), -1);
}

#[test]
fn each_day_counts_one() {
    assert_eq!(j2000_days(2004, 3, 1) - j2000_days(2004, 2, 29), 1);
    assert_eq!(j2000_days(2004, 2, 29) - j2000_days(2004, 2, 28), 1);
    assert_eq!(j2000_days(2003, 3, 1) - j2000_days(2003, 2, 28), 1);
    assert_eq!(j2000_days(2001, 1, 1) - j2000_days(2000, 12, 31), 1);
    assert_eq!(j2000_days(2020, 5, 1) - j2000_days(2020, 4, 30), 1);
    assert_eq!(j2000_days(2021, 1, 1) - j2000_days(2020, 1, 1), 366);
    assert_eq!(j2000_days(2022, 1, 1) - j2000_days(2021, 1, 1), 365);
}

#[test]
fn the_expression_treats_2100_as_a_leap_year() {
    // 2100 is no leap year, but the expression counts a 29 February
    assert_eq!(j2000_days(2100, 3, 1) - j2000_days(2100, 2, 28), 2);
}

#[test]
fn years_before_zero_round_toward_zero() {
    assert_eq!(j2000_days(-1, 1, 1), 367 * -1 - (7 * -1) / 4 + 275 / 9 + 1 - 730531);
}
