use chrono::Datelike;
use gtfs_structures::{
    parse_bool, parse_date, parse_option_date, parse_time, table_of_file, time_outcome,
    Availability, Date, DateErrorKind, GtfsTable, IntErrorKind, LocationType, PaymentMethod,
    PickupDropOffType, RouteType, TimeOutcome, Transfers, Weekday,
};

#[test]
fn parse_time_reads_hours_minutes_seconds() {
    assert_eq!(Ok(37230), parse_time("10:20:30"));
    assert_eq!(Ok(90000), parse_time("25:00:00"));
    assert_eq!(Ok(0), parse_time("00:00:00"));
    assert_eq!(Ok(3723), parse_time("+1:+2:+3"));
    assert_eq!(Ok(3723), parse_time("1:2:3:4"));
}

#[test]
fn parse_time_reports_bad_numbers() {
    assert_eq!(Err(IntErrorKind::InvalidDigit), parse_time("ab:00:00"));
    assert_eq!(Err(IntErrorKind::Empty), parse_time(""));
    assert_eq!(Err(IntErrorKind::InvalidDigit), parse_time("10:2x:00"));
    assert_eq!(Err(IntErrorKind::InvalidDigit), parse_time("10:20: 30"));
    assert_eq!(Err(IntErrorKind::InvalidDigit), parse_time("-1:00:00"));
    assert_eq!(Err(IntErrorKind::InvalidDigit), parse_time("+:00:00"));
    assert_eq!(Err(IntErrorKind::PosOverflow), parse_time("99999999999:00:00"));
    assert_eq!(Err(IntErrorKind::Empty), parse_time("10::00"));
}

#[test]
fn time_outcome_tells_panicking_texts() {
    assert_eq!(TimeOutcome::Panics, time_outcome("12:30"));
    assert_eq!(TimeOutcome::Panics, time_outcome("12"));
    assert_eq!(TimeOutcome::Panics, time_outcome("4294967295:00:00"));
    assert_eq!(TimeOutcome::Panics, time_outcome("1193046:28:16"));
    assert_eq!(TimeOutcome::Seconds(4294967295), time_outcome("1193046:28:15"));
    assert_eq!(TimeOutcome::Invalid(IntErrorKind::InvalidDigit), time_outcome("x"));
    assert_eq!(TimeOutcome::Invalid(IntErrorKind::InvalidDigit), time_outcome("12:y"));
}

#[test]
fn parse_bool_reads_zero_and_one() {
    assert_eq!(false, parse_bool("0").unwrap());
    assert_eq!(true, parse_bool("1").unwrap());
    assert_eq!("2", parse_bool("2").unwrap_err().value);
    assert_eq!("", parse_bool("").unwrap_err().value);
    assert_eq!("10", parse_bool("10").unwrap_err().value);
}

#[test]
fn parse_date_reads_compact_dates() {
    let d = parse_date("20170101").unwrap();
    assert_eq!(Date::from_ymd_opt(2017, 1, 1).unwrap(), d);
    assert_eq!(736330, d.days_from_ce());
    assert_eq!(Weekday::Sun, d.weekday());
    assert_eq!("2017-01-01", d.to_string());
    assert_eq!(Date::from_ymd_opt(2018, 7, 9), parse_option_date(Some("20180709")).unwrap());
    assert_eq!(None, parse_option_date(None).unwrap());
}

#[test]
fn parse_date_refuses_bad_dates() {
    assert!(parse_date("2017-01-01").is_err());
    assert!(parse_date("20170230").is_err());
    assert!(parse_date("").is_err());
    assert_eq!(Err(DateErrorKind::TooShort), parse_date(""));
    assert!(parse_option_date(Some("x")).is_err());
}

#[test]
fn date_range_matches_chrono() {
    assert_eq!(gtfs_structures::date::MIN_DAYS_FROM_CE, chrono::NaiveDate::MIN.num_days_from_ce());
    assert_eq!(gtfs_structures::date::MAX_DAYS_FROM_CE, chrono::NaiveDate::MAX.num_days_from_ce());
}

#[test]
fn weekdays_follow_chrono() {
    let names = [
        Weekday::Mon,
        Weekday::Tue,
        Weekday::Wed,
        Weekday::Thu,
        Weekday::Fri,
        Weekday::Sat,
        Weekday::Sun,
    ];
    for (y, m, d) in [(2017, 1, 1), (2017, 1, 2), (1, 1, 1), (0, 12, 31), (-400, 3, 1), (2024, 2, 29)] {
        let ours = Date::from_ymd_opt(y, m, d).unwrap();
        let theirs = chrono::NaiveDate::from_ymd_opt(y, m, d).unwrap();
        assert_eq!(names[theirs.weekday().num_days_from_monday() as usize], ours.weekday());
    }
    let d = Date::from_ymd_opt(2017, 1, 1).unwrap().plus_days(14);
    assert_eq!(Date::from_ymd_opt(2017, 1, 15).unwrap(), d);
    assert_eq!(None, Date::from_ymd_opt(2017, 2, 29));
}

#[test]
fn codes_of_enumerations() {
    assert_eq!(RouteType::Bus, RouteType::from_code(3));
    assert_eq!(RouteType::Tramway, RouteType::from_code(0));
    assert_eq!(RouteType::Funicular, RouteType::from_code(7));
    assert_eq!(RouteType::Other(42), RouteType::from_code(42));
    assert_eq!(Transfers::Unlimited, Transfers::from_code(None));
    assert_eq!(Transfers::NoTransfer, Transfers::from_code(Some(0)));
    assert_eq!(Transfers::TwoTransfers, Transfers::from_code(Some(2)));
    assert_eq!(Transfers::Other(7), Transfers::from_code(Some(7)));
    assert_eq!(Some(PickupDropOffType::Regular), PickupDropOffType::from_name("0"));
    assert_eq!(Some(PickupDropOffType::ArrangeByPhone), PickupDropOffType::from_name("2"));
    assert_eq!(None, PickupDropOffType::from_name("4"));
    assert_eq!(Some(Availability::NotAvailable), Availability::from_name("2"));
    assert_eq!(None, Availability::from_name(""));
    assert_eq!(Some(PaymentMethod::PreBoarding), PaymentMethod::from_name("1"));
    assert_eq!(None, PaymentMethod::from_name("01"));
    assert_eq!(LocationType::StopArea, LocationType::from_text("1"));
    assert_eq!(LocationType::StationEntrance, LocationType::from_text("2"));
    assert_eq!(LocationType::StopPoint, LocationType::from_text(""));
    assert_eq!(LocationType::StopPoint, LocationType::from_text("3"));
}

#[test]
fn defaults_of_enumerations() {
    assert_eq!(LocationType::StopPoint, LocationType::default());
    assert_eq!(RouteType::Bus, RouteType::default());
    assert_eq!(Transfers::Unlimited, Transfers::default());
    assert_eq!(PickupDropOffType::Regular, PickupDropOffType::default());
    assert_eq!(Availability::InformationNotAvailable, Availability::default());
}

#[test]
fn tables_are_recognised_by_file_name() {
    assert_eq!(Some(GtfsTable::Calendar), table_of_file("calendar.txt"));
    assert_eq!(Some(GtfsTable::CalendarDates), table_of_file("calendar_dates.txt"));
    assert_eq!(Some(GtfsTable::StopTimes), table_of_file("sub/stop_times.txt"));
    assert_eq!(Some(GtfsTable::Stops), table_of_file("gtfs/stops.txt"));
    assert_eq!(Some(GtfsTable::FeedInfo), table_of_file("feed_info.txt"));
    assert_eq!(None, table_of_file("readme.txt"));
    assert_eq!(None, table_of_file("stops.csv"));
    let all = [
        GtfsTable::Calendar,
        GtfsTable::Stops,
        GtfsTable::CalendarDates,
        GtfsTable::Routes,
        GtfsTable::Trips,
        GtfsTable::StopTimes,
        GtfsTable::Agency,
        GtfsTable::Shapes,
        GtfsTable::FareAttributes,
        GtfsTable::FeedInfo,
    ];
    for t in all {
        assert_eq!(Some(t), table_of_file(t.file_name()));
        assert_eq!(Some(t), table_of_file(&format!("dir/{}", t.file_name())));
    }
    assert!(GtfsTable::Trips.required());
    assert!(!GtfsTable::Shapes.required());
    assert!(!GtfsTable::FeedInfo.required());
}

#[test]
fn from_ymd_opt_follows_the_calendar() {
    for (y, m, d) in [
        (2017, 1, 1),
        (2000, 2, 29),
        (1970, 1, 1),
        (1, 1, 1),
        (0, 12, 31),
        (-1, 3, 1),
        (-400, 2, 29),
        (262142, 12, 31),
        (-262143, 1, 1),
    ] {
        let ours = Date::from_ymd_opt(y, m, d).unwrap();
        let theirs = chrono::NaiveDate::from_ymd_opt(y, m, d).unwrap();
        assert_eq!(theirs.num_days_from_ce(), ours.days_from_ce());
    }
    assert_eq!(1, Date::from_ymd_opt(1, 1, 1).unwrap().days_from_ce());
    assert_eq!(736330, Date::from_ymd_opt(2017, 1, 1).unwrap().days_from_ce());
    for (y, m, d) in [
        (1900, 2, 29),
        (2017, 0, 1),
        (2017, 13, 1),
        (2017, 4, 31),
        (2017, 1, 0),
        (2017, 1, 32),
        (262143, 1, 1),
        (-262144, 12, 31),
    ] {
        assert_eq!(None, Date::from_ymd_opt(y, m, d));
        assert_eq!(None, chrono::NaiveDate::from_ymd_opt(y, m, d));
    }
}
