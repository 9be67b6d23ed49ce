use chrono::{NaiveDate, NaiveDateTime, NaiveTime};
use time_sync::clock::{seconds_between, session_seconds, Instant};

const DAY_2024_01_01: i32 = 738_886;

fn at(days: i32, secs: u32, frac: u32) -> Instant {
    Instant { days, secs, frac }
}

#[test]
fn seconds_between_whole_days_and_seconds() {
    let a = at(DAY_2024_01_01, 0, 0);
    let b = at(DAY_2024_01_01 + 1, 3600, 0);
    assert_eq!(seconds_between(&b, &a), 86_400 + 3_600);
    assert_eq!(seconds_between(&a, &b), -(86_400 + 3_600));
    assert_eq!(seconds_between(&a, &a), 0);
}

#[test]
fn seconds_between_round_toward_zero() {
    let a = at(DAY_2024_01_01, 10, 0);
    let b = at(DAY_2024_01_01, 11, 500_000_000);
    assert_eq!(seconds_between(&b, &a), 1);
    assert_eq!(seconds_between(&a, &b), -1);
    let c = at(DAY_2024_01_01, 10, 600_000_000);
    assert_eq!(seconds_between(&a, &c), 0);
    assert_eq!(seconds_between(&c, &a), 0);
}

#[test]
fn seconds_between_count_a_leap_second() {
    // 23:59:60.5 on one day to 00:00:01 on the next
    let leap = at(DAY_2024_01_01, 86_399, 1_500_000_000);
    let after = at(DAY_2024_01_01 + 1, 1, 0);
    let from_chrono = {
        let l = NaiveDate::from_ymd_opt(2024, 1, 1).unwrap().and_hms_nano_opt(23, 59, 59, 1_500_000_000).unwrap();
        let a = NaiveDate::from_ymd_opt(2024, 1, 2).unwrap().and_hms_opt(0, 0, 1).unwrap();
        (a.signed_duration_since(l).num_seconds(), l.signed_duration_since(a).num_seconds())
    };
    assert_eq!(seconds_between(&after, &leap), from_chrono.0);
    assert_eq!(seconds_between(&leap, &after), from_chrono.1);
}

#[test]
fn session_seconds_never_negative() {
    let a = at(DAY_2024_01_01, 100, 0);
    let b = at(DAY_2024_01_01, 160, 0);
    assert_eq!(session_seconds(&b, &a), 60);
    assert_eq!(session_seconds(&a, &b), 0);
}

#[test]
fn seconds_between_agree_with_chrono() {
    let moments = [
        (738_886, 0, 0),
        (738_886, 59, 1_999_999_999),
        (738_886, 59, 1_000_000_000),
        (738_886, 60, 0),
        (738_886, 86_399, 999_999_999),
        (738_887, 30, 400_000_000),
        (738_885, 86_399, 1_200_000_000),
        (1, 0, 0),
        (719_163, 12_345, 678),
    ];
    let to_chrono = |(d, s, f): (i32, u32, u32)| {
        NaiveDateTime::new(
            NaiveDate::from_num_days_from_ce_opt(d).unwrap(),
            NaiveTime::from_num_seconds_from_midnight_opt(s, f).unwrap(),
        )
    };
    for &a in &moments {
        for &b in &moments {
            let expected = to_chrono(a).signed_duration_since(to_chrono(b)).num_seconds();
            assert_eq!(seconds_between(&at(a.0, a.1, a.2), &at(b.0, b.1, b.2)), expected, "{a:?} {b:?}");
        }
    }
}
