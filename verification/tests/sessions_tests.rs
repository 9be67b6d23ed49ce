use chrono::{Datelike, NaiveDate};
use time_sync::clock::{Instant, Moment};
use time_sync::sessions::{
    close_open_session, close_open_session_at, close_orphaned_sessions,
    close_orphaned_sessions_at, orphan_seconds_at, start_session, start_session_at,
    tracked_seconds, tracked_seconds_at, OpenSessionRow, TaskSession,
};

fn day(y: i32, m: u32, d: u32) -> i32 {
    NaiveDate::from_ymd_opt(y, m, d).unwrap().num_days_from_ce()
}

fn instant(y: i32, m: u32, d: u32, secs: u32) -> Instant {
    Instant { days: day(y, m, d), secs, frac: 0 }
}

fn session(id: Option<&str>, started: &str, ended: Option<&str>) -> TaskSession {
    TaskSession {
        id: id.map(|s| s.to_string()),
        duration: 0,
        task_id: "t1".to_string(),
        started: started.to_string(),
        ended: ended.map(|s| s.to_string()),
    }
}

fn spans(list: &[(&str, &str)]) -> Vec<(String, String)> {
    list.iter().map(|(a, b)| (a.to_string(), b.to_string())).collect()
}

#[test]
fn start_session_is_open_and_starts_now() {
    let s = start_session("task-9".to_string());
    assert_eq!(s.id, None);
    assert_eq!(s.duration, 0);
    assert_eq!(s.task_id, "task-9");
    assert_eq!(s.ended, None);
    let started = chrono::DateTime::parse_from_rfc3339(&s.started).unwrap();
    let age = chrono::Utc::now().signed_duration_since(started).num_seconds();
    assert!((0..60).contains(&age));
}

#[test]
fn closing_the_open_session_counts_its_seconds() {
    let sessions = vec![
        session(Some("s1"), "2024-01-01T08:00:00Z", Some("2024-01-01T09:00:00Z")),
        session(Some("s2"), "2024-01-01T10:00:00Z", None),
        session(Some("s3"), "2024-01-01T11:00:00Z", None),
    ];
    let ended = Moment { instant: instant(2024, 1, 1, 10 * 3600 + 90), text: "END".to_string() };
    let c = close_open_session_at(&sessions, &ended).unwrap().unwrap();
    assert_eq!(c.session_id, Some("s2".to_string()));
    assert_eq!(c.ended, "END");
    assert_eq!(c.duration, 90);
}

#[test]
fn closing_before_the_start_records_zero() {
    let sessions = vec![session(Some("s2"), "2024-01-01T10:00:00+02:00", None)];
    // 10:00 at +02:00 is 08:00 UTC; closing at 07:00 UTC is before it
    let ended = Moment { instant: instant(2024, 1, 1, 7 * 3600), text: "E".to_string() };
    let c = close_open_session_at(&sessions, &ended).unwrap().unwrap();
    assert_eq!(c.duration, 0);
    let later = Moment { instant: instant(2024, 1, 1, 8 * 3600 + 5), text: "E".to_string() };
    assert_eq!(close_open_session_at(&sessions, &later).unwrap().unwrap().duration, 5);
}

#[test]
fn nothing_to_close_when_every_session_ended() {
    let sessions = vec![session(Some("s1"), "2024-01-01T08:00:00Z", Some("2024-01-01T09:00:00Z"))];
    let ended = Moment { instant: instant(2024, 1, 1, 0), text: "E".to_string() };
    assert!(matches!(close_open_session_at(&sessions, &ended), Ok(None)));
    assert!(matches!(close_open_session(&Vec::new()), Ok(None)));
}

#[test]
fn unreadable_start_is_refused_with_the_parse_error() {
    let sessions = vec![session(Some("s1"), "yesterday", None)];
    let ended = Moment { instant: instant(2024, 1, 1, 0), text: "E".to_string() };
    let expected = chrono::DateTime::parse_from_rfc3339("yesterday").unwrap_err().to_string();
    match close_open_session_at(&sessions, &ended) {
        Err(e) => assert_eq!(e, expected),
        Ok(_) => panic!("an unreadable start must be refused"),
    }
}

#[test]
fn closing_now_lasts_zero_or_more() {
    let sessions = vec![session(Some("s1"), "2020-01-01T00:00:00Z", None)];
    let c = close_open_session(&sessions).unwrap().unwrap();
    assert!(c.duration > 100_000_000);
    assert_eq!(c.session_id, Some("s1".to_string()));
}

#[test]
fn orphan_seconds_are_zero_for_unreadable_or_future_start() {
    let exit = instant(2024, 1, 1, 3600);
    assert_eq!(orphan_seconds_at("2024-01-01T00:00:00Z", &exit), 3600);
    assert_eq!(orphan_seconds_at("not a time", &exit), 0);
    assert_eq!(orphan_seconds_at("2024-01-01T02:00:00Z", &exit), 0);
}

#[test]
fn orphaned_sessions_end_together() {
    let rows = vec![
        OpenSessionRow { id: "s1".to_string(), task_id: "t1".to_string(), started: "2024-01-01T00:00:00Z".to_string() },
        OpenSessionRow { id: "s2".to_string(), task_id: "t2".to_string(), started: "garbage".to_string() },
    ];
    let closings = close_orphaned_sessions(&rows);
    assert_eq!(closings.len(), 2);
    assert_eq!(closings[0].session_id, "s1");
    assert_eq!(closings[0].task_id, "t1");
    assert_eq!(closings[1].session_id, "s2");
    assert_eq!(closings[1].task_id, "t2");
    assert_eq!(closings[0].ended, closings[1].ended);
    assert!(closings[0].duration > 0);
    assert_eq!(closings[1].duration, 0);
    assert!(chrono::DateTime::parse_from_rfc3339(&closings[0].ended).is_ok());
}

#[test]
fn tracked_seconds_add_finished_sessions() {
    let s = spans(&[
        ("2024-01-01T00:00:00Z", "2024-01-01T01:00:00Z"),
        ("bad", "2024-01-01T01:00:00Z"),
        ("2024-01-01T02:00:00+01:00", "2024-01-01T01:30:00Z"),
        ("2024-01-01T05:00:00Z", "2024-01-01T04:00:00Z"),
    ]);
    let now = instant(2024, 1, 1, 12 * 3600);
    assert_eq!(tracked_seconds_at(&s, "Paused", &Some("2024-01-01T11:00:00Z".to_string()), &now), Some(5400));
    assert_eq!(tracked_seconds_at(&s, "Running", &None, &now), Some(5400));
    assert_eq!(tracked_seconds_at(&s, "Running", &Some("x".to_string()), &now), Some(5400));
    assert_eq!(
        tracked_seconds_at(&s, "Running", &Some("2024-01-01T11:00:00Z".to_string()), &now),
        Some(5400 + 3600)
    );
    assert_eq!(tracked_seconds_at(&Vec::new(), "Completed", &None, &now), Some(0));
}

#[test]
fn tracked_seconds_now_counts_a_running_session() {
    let s = spans(&[("2024-01-01T00:00:00Z", "2024-01-01T00:10:00Z")]);
    assert_eq!(tracked_seconds(&s, "Paused", &Some("2020-01-01T00:00:00Z".to_string())), Some(600));
    let running = tracked_seconds(&s, "Running", &Some("2020-01-01T00:00:00Z".to_string())).unwrap();
    assert!(running > 600 + 100_000_000);
}

#[test]
fn start_session_at_starts_at_the_given_moment() {
    let now = Moment { instant: instant(2024, 1, 1, 0), text: "2024-01-01T00:00:00+00:00".to_string() };
    let s = start_session_at("t".to_string(), &now);
    assert_eq!(s.started, "2024-01-01T00:00:00+00:00");
    assert_eq!(s.task_id, "t");
    assert_eq!(s.id, None);
    assert_eq!(s.ended, None);
    assert_eq!(s.duration, 0);
}

#[test]
fn orphaned_sessions_closed_at_given_readings() {
    let rows = vec![
        OpenSessionRow { id: "s1".to_string(), task_id: "t1".to_string(), started: "2024-01-01T00:00:00Z".to_string() },
        OpenSessionRow { id: "s2".to_string(), task_id: "t2".to_string(), started: "garbage".to_string() },
        OpenSessionRow { id: "s3".to_string(), task_id: "t3".to_string(), started: "2024-01-01T05:00:00Z".to_string() },
    ];
    let now = Moment { instant: instant(2024, 1, 1, 7200), text: "NOW".to_string() };
    let exits = vec![instant(2024, 1, 1, 3600), instant(2024, 1, 1, 7200), instant(2024, 1, 1, 3600)];
    let closings = close_orphaned_sessions_at(&rows, &now, &exits);
    let shape: Vec<(String, String, String, i64)> = closings
        .iter()
        .map(|c| (c.session_id.clone(), c.task_id.clone(), c.ended.clone(), c.duration))
        .collect();
    assert_eq!(
        shape,
        vec![
            ("s1".to_string(), "t1".to_string(), "NOW".to_string(), 3600),
            ("s2".to_string(), "t2".to_string(), "NOW".to_string(), 0),
            ("s3".to_string(), "t3".to_string(), "NOW".to_string(), 0),
        ]
    );
}
