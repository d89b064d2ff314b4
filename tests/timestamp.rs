use crabtrics::timestamp::TimestampError::{Malformed, MissingSeparator, TrailingData};
use crabtrics::timestamp::TimestampField::{Day, Hour, Minute, Month, OffsetHour, OffsetMinute, Second, Year};
use crabtrics::timestamp::{parse_log_date, Timestamp, TimestampError};

fn parse(s: &str) -> Result<Timestamp, TimestampError> {
    parse_log_date(s.as_bytes())
}

#[test]
fn parses_every_field() {
    assert_eq!(
        parse("08/May/2023:15:08:30 +0000"),
        Ok(Timestamp { year: 2023, month: 5, day: 8, hour: 15, minute: 8, second: 30, offset_minutes: 0 })
    );
    assert_eq!(
        parse("31/Dec/1999:23:59:59 -0530"),
        Ok(Timestamp { year: 1999, month: 12, day: 31, hour: 23, minute: 59, second: 59, offset_minutes: -330 })
    );
    assert_eq!(parse("01/Jan/2024:00:00:00 +0100").unwrap().offset_minutes, 60);
    assert_eq!(parse("01/Jan/2024:00:00:00 0245").unwrap().offset_minutes, 165);
    assert_eq!(parse("01/Jan/+2024:00:00:00 +0000").unwrap().year, 2024);
    assert_eq!(parse("01/Jan/-0044:00:00:00 +0000").unwrap().year, -44);
}

#[test]
fn leap_years_follow_the_gregorian_rule() {
    assert!(parse("29/Feb/2024:00:00:00 +0000").is_ok());
    assert!(parse("29/Feb/2000:00:00:00 +0000").is_ok());
    assert_eq!(parse("29/Feb/2023:00:00:00 +0000"), Err(TimestampError::NotADate));
    assert_eq!(parse("29/Feb/1900:00:00:00 +0000"), Err(TimestampError::NotADate));
    assert_eq!(parse("31/Jun/2023:00:00:00 +0000"), Err(TimestampError::NotADate));
    assert_eq!(parse("01/Jun/2023:00:00:60 +0000"), Err(TimestampError::NotADate));
}

#[test]
fn each_field_fails_on_its_own() {
    assert_eq!(parse("00/May/2023:15:08:30 +0000"), Err(Malformed(Day)));
    assert_eq!(parse("8/May/2023:15:08:30 +0000"), Err(Malformed(Day)));
    assert_eq!(parse("08-May/2023:15:08:30 +0000"), Err(MissingSeparator(Day)));
    assert_eq!(parse("08/may/2023:15:08:30 +0000"), Err(Malformed(Month)));
    assert_eq!(parse("08/May-2023:15:08:30 +0000"), Err(MissingSeparator(Month)));
    assert_eq!(parse("08/May/23:15:08:30 +0000"), Err(Malformed(Year)));
    assert_eq!(parse("08/May/2023 15:08:30 +0000"), Err(MissingSeparator(Year)));
    assert_eq!(parse("08/May/2023:24:08:30 +0000"), Err(Malformed(Hour)));
    assert_eq!(parse("08/May/2023:15-08:30 +0000"), Err(MissingSeparator(Hour)));
    assert_eq!(parse("08/May/2023:15:60:30 +0000"), Err(Malformed(Minute)));
    assert_eq!(parse("08/May/2023:15:08-30 +0000"), Err(MissingSeparator(Minute)));
    assert_eq!(parse("08/May/2023:15:08:61 +0000"), Err(Malformed(Second)));
    assert_eq!(parse("08/May/2023:15:08:30+0000"), Err(MissingSeparator(Second)));
    assert_eq!(parse("08/May/2023:15:08:30 +2600"), Err(Malformed(OffsetHour)));
    assert_eq!(parse("08/May/2023:15:08:30 +0060"), Err(Malformed(OffsetMinute)));
    assert_eq!(parse("08/May/2023:15:08:30 +00"), Err(Malformed(OffsetMinute)));
    assert_eq!(parse("08/May/2023:15:08:30 +0000 "), Err(TrailingData));
    assert_eq!(parse(""), Err(Malformed(Day)));
    assert_eq!(parse("08"), Err(MissingSeparator(Day)));
}
