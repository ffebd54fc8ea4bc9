use sky_clock::clock::{CivilTime, DateTime, DayOfWeek, TimestampError};

fn civil() -> CivilTime {
    CivilTime {
        year: 2024,
        month: 5,
        day: 17,
        weekday: 5,
        hour: 13,
        minute: 14,
        second: 15,
    }
}

fn number(day: DayOfWeek) -> i64 {
    match day {
        DayOfWeek::Sunday => 0,
        DayOfWeek::Monday => 1,
        DayOfWeek::Tuesday => 2,
        DayOfWeek::Wednesday => 3,
        DayOfWeek::Thursday => 4,
        DayOfWeek::Friday => 5,
        DayOfWeek::Saturday => 6,
    }
}

fn weekday_of(year: i64, month: i64, day: i64) -> i64 {
    let y = if month <= 2 { year - 1 } else { year };
    let months = (month + 9) % 12;
    let n = 365 * y + y.div_euclid(4) - y.div_euclid(100)
        + y.div_euclid(400)
        + (153 * months + 2) / 5
        + day
        + 2;
    n.rem_euclid(7)
}

#[test]
fn timestamp_of_the_time_service() {
    assert_eq!(
        DateTime::from_timestamp("2024-05-17T13:14:15.123456-05:00"),
        Ok(DateTime {
            year: 2024,
            month: 5,
            day: 17,
            day_of_week: DayOfWeek::Friday,
            hour: 13,
            minute: 14,
            second: 15,
        })
    );
}

#[test]
fn local_time_is_kept_whatever_the_offset() {
    for offset in ["Z", "z", "+00:00", "-05:00", "+23:59", "-23:59", "\u{2212}06:00"] {
        let text = format!("2023-12-31 23:59:58{}", offset);
        let t = DateTime::from_timestamp(&text).unwrap();
        assert_eq!((t.year, t.month, t.day), (2023, 12, 31));
        assert_eq!((t.hour, t.minute, t.second), (23, 59, 58));
        assert_eq!(t.day_of_week, DayOfWeek::Sunday);
    }
}

#[test]
fn leap_second_counts_as_the_one_before() {
    let t = DateTime::from_timestamp("2016-12-31T23:59:60Z").unwrap();
    assert_eq!((t.hour, t.minute, t.second), (23, 59, 59));
    let t = DateTime::from_timestamp("2016-12-31T17:59:60.5-06:00").unwrap();
    assert_eq!((t.hour, t.minute, t.second), (17, 59, 59));
}

#[test]
fn malformed_timestamps_are_refused() {
    for text in [
        "",
        "2024-05-17",
        "2024-05-17T13:14:15",
        "2024-05-17T13:14:15-05",
        "2024-05-17T13:14:15-0500",
        "2024-05-17T13:14:15+24:00",
        "2024-05-17T13:14:15Zx",
        "2024-13-17T13:14:15Z",
        "2023-02-29T13:14:15Z",
        "2024-05-17T24:00:00Z",
        "2024-05-17T13:60:15Z",
        "2024-05-17T13:14:61Z",
        "24-05-17T13:14:15Z",
        "Friday at noon, or a bit later",
    ] {
        assert_eq!(
            DateTime::from_timestamp(text),
            Err(TimestampError::Malformed),
            "{}",
            text
        );
    }
}

#[test]
fn weekdays_follow_the_calendar() {
    for year in [0i64, 1, 4, 100, 400, 1582, 1899, 1900, 1970, 1999, 2000, 2023, 2024, 2100, 9999] {
        for month in 1..=12i64 {
            for day in 1..=31i64 {
                let text = format!("{:04}-{:02}-{:02}T12:00:00-05:00", year, month, day);
                if let Ok(t) = DateTime::from_timestamp(&text) {
                    assert_eq!(
                        (t.year as i64, t.month as i64, t.day as i64),
                        (year, month, day)
                    );
                    assert_eq!(number(t.day_of_week), weekday_of(year, month, day));
                } else {
                    assert!(day > 28);
                }
            }
        }
    }
    assert_eq!(weekday_of(2000, 1, 1), 6);
    assert_eq!(weekday_of(2024, 2, 29), 4);
}

#[test]
fn civil_time_becomes_clock_time() {
    assert_eq!(
        DateTime::from_civil(&civil()),
        Some(DateTime {
            year: 2024,
            month: 5,
            day: 17,
            day_of_week: DayOfWeek::Friday,
            hour: 13,
            minute: 14,
            second: 15,
        })
    );
    for weekday in 0..=6u32 {
        let t = DateTime::from_civil(&CivilTime { weekday, ..civil() }).unwrap();
        assert_eq!(number(t.day_of_week), weekday as i64);
    }
}

#[test]
fn eighth_weekday_is_refused() {
    assert_eq!(DateTime::from_civil(&CivilTime { weekday: 7, ..civil() }), None);
    assert_eq!(DateTime::from_civil(&CivilTime { weekday: 255, ..civil() }), None);
    assert!(DateTime::from_civil(&CivilTime { weekday: 256, ..civil() }).is_some());
}

#[test]
fn fields_are_cut_to_the_clock() {
    let t = DateTime::from_civil(&CivilTime {
        year: -1,
        month: 257,
        hour: 300,
        ..civil()
    })
    .unwrap();
    assert_eq!((t.year, t.month, t.hour), (65535, 1, 44));
    let t = DateTime::from_civil(&CivilTime { year: 70000, ..civil() }).unwrap();
    assert_eq!(t.year, 4464);
    let t = DateTime::from_civil(&CivilTime { year: i32::MIN, ..civil() }).unwrap();
    assert_eq!(t.year, 0);
}

#[test]
fn numbers_of_days() {
    assert_eq!(DayOfWeek::from_number(0), Some(DayOfWeek::Sunday));
    assert_eq!(DayOfWeek::from_number(6), Some(DayOfWeek::Saturday));
    assert_eq!(DayOfWeek::from_number(7), None);
}
