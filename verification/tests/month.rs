use lila_openingexplorer::model::{InvalidMonth, Month};

#[test]
fn month_max_value_is_december_3000() {
    assert_eq!(Month::max_value().to_u16(), 3000 * 12 + 11);
    assert_eq!(Month::max_value().to_string(), "3000/12");
}

#[test]
fn month_default_is_january_of_year_zero() {
    assert_eq!(Month::default().to_u16(), 0);
    assert_eq!(Month::default().to_string(), "0000/01");
}

#[test]
fn month_parses_year_and_month() {
    assert_eq!(Month::from_str("2023/05").map(Month::to_u16), Ok(2023 * 12 + 4));
    assert_eq!(Month::from_str("2023").map(Month::to_u16), Ok(2023 * 12));
    assert_eq!(Month::from_str("+2023/5").map(Month::to_u16), Ok(2023 * 12 + 4));
    assert_eq!(Month::from_str("0/1").map(Month::to_u16), Ok(0));
    assert_eq!(Month::from_str("3000/12").map(Month::to_u16), Ok(36011));
}

#[test]
fn month_rejects_what_is_no_month() {
    assert_eq!(Month::from_str("2023/13"), Err(InvalidMonth));
    assert_eq!(Month::from_str("3001/01"), Err(InvalidMonth));
    assert_eq!(Month::from_str("2023/0"), Err(InvalidMonth));
    assert_eq!(Month::from_str(""), Err(InvalidMonth));
    assert_eq!(Month::from_str("2023/"), Err(InvalidMonth));
    assert_eq!(Month::from_str("/5"), Err(InvalidMonth));
    assert_eq!(Month::from_str("2023/5/1"), Err(InvalidMonth));
    assert_eq!(Month::from_str("70000"), Err(InvalidMonth));
    assert_eq!(Month::from_str("-2023/05"), Err(InvalidMonth));
    assert_eq!(Month::from_str(" 2023/05"), Err(InvalidMonth));
    assert_eq!(Month::from_str("20x3/05"), Err(InvalidMonth));
    assert_eq!(Month::from_str("+"), Err(InvalidMonth));
}

#[test]
fn month_round_trips_through_its_text() {
    let mut ordinal: u16 = 0;
    while ordinal <= 36011 {
        let month = Month::try_from_u16(ordinal).expect("valid month");
        assert_eq!(Month::from_str(&month.to_string()), Ok(month));
        ordinal += 1;
    }
}

#[test]
fn month_to_string_pads_with_zeros() {
    let month = Month::try_from_u16(7 * 12 + 2).expect("valid month");
    assert_eq!(month.to_string(), "0007/03");
    let month = Month::try_from_u16(2023 * 12 + 10).expect("valid month");
    assert_eq!(month.to_string(), "2023/11");
}

#[test]
fn month_try_from_checks_the_range() {
    assert_eq!(Month::try_from_u16(36011).map(Month::to_u16), Ok(36011));
    assert_eq!(Month::try_from_u16(36012), Err(InvalidMonth));
    assert_eq!(Month::try_from(36011u16).map(u16::from), Ok(36011));
    assert_eq!(Month::try_from(36012u16), Err(InvalidMonth));
    assert_eq!(Month::try_from(u16::MAX), Err(InvalidMonth));
}

#[test]
fn month_adds_months_saturating() {
    let month = Month::try_from_u16(100).expect("valid month");
    assert_eq!(month.add_months_saturating(5).to_u16(), 105);
    assert_eq!(month.add_months_saturating(0).to_u16(), 100);
    assert_eq!(month.add_months_saturating(u16::MAX), Month::max_value());
    assert_eq!(month.add_months_saturating(35911).to_u16(), 36011);
    assert_eq!(month.add_months_saturating(35912).to_u16(), 36011);
    assert_eq!(Month::max_value().add_months_saturating(1), Month::max_value());
}

#[test]
fn month_from_time_takes_year_and_month_from_chrono() {
    assert_eq!(
        Month::from_time_saturating(1_684_152_000_000).map(Month::to_u16),
        Some(2023 * 12 + 4)
    );
    assert_eq!(Month::from_time_saturating(0).map(Month::to_u16), Some(1970 * 12));
    assert_eq!(
        Month::from_time_saturating(32_535_215_999_000).map(Month::to_u16),
        Some(36011)
    );
}

#[test]
fn month_from_time_saturates_the_year() {
    // January 3001 counts as January 3000.
    assert_eq!(
        Month::from_time_saturating(32_535_216_000_000).map(Month::to_u16),
        Some(3000 * 12)
    );
    // June of the year before year 1 counts as June of year 0.
    assert_eq!(Month::from_time_saturating(-62_152_876_800_000).map(Month::to_u16), Some(5));
    // January of year 1.
    assert_eq!(Month::from_time_saturating(-62_135_596_800_000).map(Month::to_u16), Some(12));
}

#[test]
fn month_from_time_is_never_above_the_last_month() {
    let times: [i64; 8] = [
        i64::MIN,
        -62_152_876_800_000,
        -1,
        0,
        1_684_152_000_000,
        32_535_216_000_000,
        4_000_000_000_000_000,
        i64::MAX,
    ];
    for time in times {
        if let Some(month) = Month::from_time_saturating(time) {
            assert!(month <= Month::max_value());
            assert!(month.to_u16() <= 36011);
        }
    }
    assert_eq!(Month::from_time_saturating(i64::MAX), None);
    assert_eq!(Month::from_time_saturating(i64::MIN), None);
}

#[test]
fn month_from_year_ce_clamps() {
    assert_eq!(Month::from_year_ce(true, 2023, 4).to_u16(), 2023 * 12 + 4);
    assert_eq!(Month::from_year_ce(true, 3001, 11).to_u16(), 36011);
    assert_eq!(Month::from_year_ce(true, u32::MAX, 0).to_u16(), 36000);
    assert_eq!(Month::from_year_ce(false, 44, 2).to_u16(), 2);
}

#[test]
fn invalid_month_has_a_message() {
    assert_eq!(InvalidMonth.to_string(), "invalid month");
}

#[test]
fn month_parses_as_a_str_does() {
    assert_eq!("2023/05".parse::<Month>().map(Month::to_u16), Ok(2023 * 12 + 4));
    assert_eq!("2023/13".parse::<Month>(), Err(InvalidMonth));
}
