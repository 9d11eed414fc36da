use chrono::{TimeZone, Utc};
use termetheus::decimal::Decimal;
use termetheus::time_utils::{
    format_to_prom_date_string, get_last_hour, get_now, get_one_hour_before_date, last_hour_of,
    parse_instant,
    timestamp_to_time_string, TimeError, UtcInstant, MAX_SECONDS, MIN_SECONDS,
};

fn decimal(value: f64) -> Decimal {
    Decimal::parse(&format!("{}", value)).unwrap()
}

#[test]
#[allow(deprecated)]
fn test_format_to_prom_date_string() {
    // get first of january 2021
    let date = Utc.ymd(2021, 1, 1).and_hms(0, 0, 0);
    let date = UtcInstant::new(date.timestamp(), date.timestamp_subsec_nanos()).unwrap();
    assert_eq!(
        format_to_prom_date_string(date),
        "2021-01-01T00:00:00Z".to_string()
    );
}

#[test]
fn test_get_one_hour_before_date() {
    // get first of january 2021
    assert_eq!(
        get_one_hour_before_date("2021-01-01T00:00:00Z").unwrap(),
        "2020-12-31T23:00:00Z".to_string()
    );
}

#[test]
fn test_timestamp_to_string() {
    let timestamp = 1662621690.781;
    let result = timestamp_to_time_string(decimal(timestamp)).unwrap();
    assert_eq!(result, "07:21");
}

#[test]
fn clock_of_whole_and_negative_timestamps() {
    assert_eq!(timestamp_to_time_string(decimal(0.0)).unwrap(), "00:00");
    assert_eq!(timestamp_to_time_string(decimal(59.999)).unwrap(), "00:00");
    assert_eq!(timestamp_to_time_string(decimal(60.0)).unwrap(), "00:01");
    assert_eq!(timestamp_to_time_string(decimal(86399.0)).unwrap(), "23:59");
    assert_eq!(timestamp_to_time_string(decimal(86400.0)).unwrap(), "00:00");
    assert_eq!(timestamp_to_time_string(decimal(-1.0)).unwrap(), "23:59");
    assert_eq!(timestamp_to_time_string(decimal(-0.5)).unwrap(), "23:59");
    assert_eq!(timestamp_to_time_string(decimal(-3600.0)).unwrap(), "23:00");
    assert_eq!(timestamp_to_time_string(decimal(1662621690.0)).unwrap(), "07:21");
    assert_eq!(timestamp_to_time_string(decimal(45296.0)).unwrap(), "12:34");
}

#[test]
fn clock_at_the_ends_of_the_calendar() {
    let at = |secs: i64| Decimal::from_units(secs as i128 * 1_000_000_000);
    assert_eq!(timestamp_to_time_string(at(MIN_SECONDS)).unwrap(), "00:00");
    assert_eq!(timestamp_to_time_string(at(MAX_SECONDS)).unwrap(), "23:59");
    assert_eq!(
        timestamp_to_time_string(Decimal::from_units(
            MAX_SECONDS as i128 * 1_000_000_000 + 999_999_999
        ))
        .unwrap(),
        "23:59"
    );
    assert_eq!(timestamp_to_time_string(at(MIN_SECONDS - 1)), None);
    assert_eq!(timestamp_to_time_string(at(MAX_SECONDS + 1)), None);
    assert_eq!(timestamp_to_time_string(Decimal::from_units(i128::MAX)), None);
    assert_eq!(timestamp_to_time_string(Decimal::from_units(i128::MIN)), None);
}

#[test]
fn the_calendar_is_the_one_of_chrono() {
    assert!(Utc.timestamp_opt(MIN_SECONDS, 0).single().is_some());
    assert!(Utc.timestamp_opt(MIN_SECONDS - 1, 0).single().is_none());
    assert!(Utc.timestamp_opt(MIN_SECONDS - 1, 999_999_999).single().is_none());
    assert!(Utc.timestamp_opt(MAX_SECONDS, 999_999_999).single().is_some());
    assert!(Utc.timestamp_opt(MAX_SECONDS, 1_999_999_999).single().is_some());
    assert!(Utc.timestamp_opt(MAX_SECONDS + 1, 0).single().is_none());
    assert!(Utc.timestamp_opt(0, 2_000_000_000).single().is_none());
    assert!(Utc.timestamp_opt(58, 1_000_000_000).single().is_none());
    assert!(Utc.timestamp_opt(59, 1_000_000_000).single().is_some());
    assert!(Utc.timestamp_opt(-1, 1_000_000_000).single().is_some());
    assert!(Utc.timestamp_opt(-2, 1_000_000_000).single().is_none());
    for (secs, nanos) in [
        (MIN_SECONDS, 0_u32),
        (MIN_SECONDS - 1, 0),
        (MAX_SECONDS, 999_999_999),
        (MAX_SECONDS, 1_999_999_999),
        (MAX_SECONDS + 1, 0),
        (0, 2_000_000_000),
        (0, 1_000_000_000),
        (58, 1_000_000_000),
        (59, 1_000_000_000),
        (-1, 1_000_000_000),
        (-2, 1_000_000_000),
        (-61, 1_500_000_000),
        (i64::MAX, 0),
        (i64::MIN, 0),
        (1_609_459_200, 5),
    ] {
        assert_eq!(
            UtcInstant::new(secs, nanos).is_some(),
            Utc.timestamp_opt(secs, nanos).single().is_some(),
            "{} {}",
            secs,
            nanos
        );
    }
}

#[test]
fn an_instant_holds_its_second_and_nanosecond() {
    let t = UtcInstant::new(1_609_459_200, 123).unwrap();
    assert_eq!(t.seconds(), 1_609_459_200);
    assert_eq!(t.nanoseconds(), 123);
}

#[test]
fn format_instants_with_fractions() {
    let text = |secs: i64, nanos: u32| format_to_prom_date_string(UtcInstant::new(secs, nanos).unwrap());
    assert_eq!(text(0, 0), "1970-01-01T00:00:00Z");
    assert_eq!(text(1_662_621_690, 781_000_000), "2022-09-08T07:21:30.781Z");
    assert_eq!(text(1_662_621_690, 781_234_000), "2022-09-08T07:21:30.781234Z");
    assert_eq!(text(1_662_621_690, 781_234_567), "2022-09-08T07:21:30.781234567Z");
    assert_eq!(text(-1, 0), "1969-12-31T23:59:59Z");
}

#[test]
fn format_the_ends_of_the_calendar() {
    assert_eq!(
        format_to_prom_date_string(UtcInstant::new(MIN_SECONDS, 0).unwrap()),
        "-262143-01-01T00:00:00Z"
    );
    assert_eq!(
        format_to_prom_date_string(UtcInstant::new(MAX_SECONDS, 999_999_999).unwrap()),
        "+262142-12-31T23:59:59.999999999Z"
    );
}

#[test]
fn now_reads_back_as_an_instant() {
    let now = get_now();
    let read = parse_instant(&now).unwrap();
    assert_eq!(format_to_prom_date_string(read), now);
    assert!(read.seconds() > 1_600_000_000);
    assert!(read.nanoseconds() < 1_000_000_000);
    let before = UtcInstant::now();
    let after = UtcInstant::now();
    assert!((before.seconds(), before.nanoseconds()) <= (after.seconds(), after.nanoseconds()));
}

#[test]
fn parse_instants() {
    let t = parse_instant("2021-01-01T00:00:00Z").unwrap();
    assert_eq!((t.seconds(), t.nanoseconds()), (1_609_459_200, 0));
    let t = parse_instant("2022-09-08T07:21:30.781Z").unwrap();
    assert_eq!((t.seconds(), t.nanoseconds()), (1_662_621_690, 781_000_000));
    let t = parse_instant("2021-01-01T01:00:00+01:00").unwrap();
    assert_eq!((t.seconds(), t.nanoseconds()), (1_609_459_200, 0));
    let t = parse_instant("2016-12-31T23:59:60Z").unwrap();
    assert_eq!((t.seconds(), t.nanoseconds()), (1_483_228_799, 1_000_000_000));
}

#[test]
fn parse_refuses_what_is_no_instant() {
    for text in ["", "yesterday", "2021-01-01", "2021-13-01T00:00:00Z", "2021-01-01T00:00:00", "12:00"] {
        assert_eq!(parse_instant(text).err(), Some(TimeError::Malformed), "{:?}", text);
        assert_eq!(get_one_hour_before_date(text), Err(TimeError::Malformed), "{:?}", text);
    }
}

#[test]
fn one_hour_before() {
    assert_eq!(
        get_one_hour_before_date("2022-09-08T07:21:30.781Z").unwrap(),
        "2022-09-08T06:21:30.781Z"
    );
    assert_eq!(
        get_one_hour_before_date("2020-03-01T00:30:00Z").unwrap(),
        "2020-02-29T23:30:00Z"
    );
    assert_eq!(
        get_one_hour_before_date("1970-01-01T00:00:00Z").unwrap(),
        "1969-12-31T23:00:00Z"
    );
    let t = UtcInstant::new(3_600, 7).unwrap().one_hour_before().unwrap();
    assert_eq!((t.seconds(), t.nanoseconds()), (0, 7));
}

#[test]
fn one_hour_before_agrees_with_chrono() {
    for text in [
        "2021-01-01T00:00:00Z",
        "2016-12-31T23:59:60Z",
        "2016-12-31T23:59:60.5Z",
        "2022-09-08T07:21:30.781234567Z",
        "0000-01-01T00:00:00Z",
    ] {
        let date = text.parse::<chrono::DateTime<Utc>>().unwrap();
        let expected = format!("{:?}", date - chrono::Duration::hours(1));
        assert_eq!(get_one_hour_before_date(text).unwrap(), expected, "{}", text);
    }
}

#[test]
fn one_hour_before_a_leap_second() {
    assert_eq!(
        get_one_hour_before_date("2016-12-31T23:59:60Z").unwrap(),
        "2016-12-31T23:00:00Z"
    );
    let t = UtcInstant::new(1_483_228_799, 1_500_000_000).unwrap().one_hour_before().unwrap();
    assert_eq!((t.seconds(), t.nanoseconds()), (1_483_225_200, 500_000_000));
}

#[test]
fn one_hour_before_the_start_of_the_calendar() {
    assert_eq!(UtcInstant::new(MIN_SECONDS + 3_599, 0).unwrap().one_hour_before(), None);
    let t = UtcInstant::new(MIN_SECONDS + 3_600, 0).unwrap().one_hour_before().unwrap();
    assert_eq!(t.seconds(), MIN_SECONDS);
    assert_eq!(
        get_one_hour_before_date("-262143-01-01T00:59:59Z"),
        Err(TimeError::OutOfRange)
    );
    assert_eq!(
        get_one_hour_before_date("-262143-01-01T01:00:00Z").unwrap(),
        "-262143-01-01T00:00:00Z"
    );
}

#[test]
fn the_hour_before_now() {
    let now = get_now();
    let before = get_one_hour_before_date(&now).unwrap();
    let now = parse_instant(&now).unwrap();
    let before = parse_instant(&before).unwrap();
    assert_eq!(before.seconds(), now.seconds() - 3_600);
    assert_eq!(before.nanoseconds(), now.nanoseconds());
}

#[test]
fn the_last_hour_ends_now_and_is_an_hour_long() {
    let earlier = UtcInstant::now();
    let (from, to) = get_last_hour();
    let later = UtcInstant::now();
    assert_eq!(get_one_hour_before_date(&to).unwrap(), from);
    let from = parse_instant(&from).unwrap();
    let to = parse_instant(&to).unwrap();
    assert_eq!(from.seconds(), to.seconds() - 3_600);
    assert_eq!(from.nanoseconds(), to.nanoseconds());
    assert!((earlier.seconds(), earlier.nanoseconds()) <= (to.seconds(), to.nanoseconds()));
    assert!((to.seconds(), to.nanoseconds()) <= (later.seconds(), later.nanoseconds()));
}

#[test]
fn the_clock_reads_after_the_epoch() {
    let now = UtcInstant::now();
    assert!(now.seconds() >= 0);
    assert!(now.nanoseconds() < 1_000_000_000);
}

#[test]
fn the_hour_that_ends_at_a_given_instant() {
    let ends = |secs: i64, nanos: u32| last_hour_of(UtcInstant::new(secs, nanos).unwrap());
    assert_eq!(
        ends(1_609_459_200, 0),
        Some(("2020-12-31T23:00:00Z".to_string(), "2021-01-01T00:00:00Z".to_string()))
    );
    assert_eq!(
        ends(0, 5_000_000),
        Some(("1969-12-31T23:00:00.005Z".to_string(), "1970-01-01T00:00:00.005Z".to_string()))
    );
    assert_eq!(
        ends(1_483_228_799, 1_500_000_000),
        Some(("2016-12-31T23:00:00.500Z".to_string(), "2016-12-31T23:59:60.500Z".to_string()))
    );
    assert_eq!(
        ends(MIN_SECONDS + 3_600, 0),
        Some(("-262143-01-01T00:00:00Z".to_string(), "-262143-01-01T01:00:00Z".to_string()))
    );
    assert_eq!(ends(MIN_SECONDS + 3_599, 999_999_999), None);
    assert_eq!(ends(MIN_SECONDS, 0), None);
}

#[test]
fn texts_of_instants_read_back() {
    let mut state: u64 = 0x2545_f491_4f6c_dd1d;
    let span = (MAX_SECONDS - MIN_SECONDS) as u64 + 1;
    for _ in 0..20_000 {
        state = state.wrapping_mul(6_364_136_223_846_793_005).wrapping_add(1_442_695_040_888_963_407);
        let secs = MIN_SECONDS + ((state >> 11) % span) as i64;
        state = state.wrapping_mul(6_364_136_223_846_793_005).wrapping_add(1_442_695_040_888_963_407);
        let nanos = ((state >> 33) % 1_000_000_000) as u32;
        let instant = UtcInstant::new(secs, nanos).unwrap();
        let text = format_to_prom_date_string(instant);
        assert_eq!(parse_instant(&text), Ok(instant), "{}", text);
    }
    for (secs, nanos) in [
        (MIN_SECONDS, 0_u32),
        (MAX_SECONDS, 999_999_999),
        (MAX_SECONDS, 1_999_999_999),
        (-1, 1_000_000_000),
        (59, 1_500_000_000),
        (-62_167_219_200, 0),
        (-62_167_219_201, 0),
        (253_402_300_799, 0),
        (253_402_300_800, 0),
    ] {
        let instant = UtcInstant::new(secs, nanos).unwrap();
        let text = format_to_prom_date_string(instant);
        assert_eq!(parse_instant(&text), Ok(instant), "{}", text);
    }
}
