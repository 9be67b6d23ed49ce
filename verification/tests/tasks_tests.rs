use time_sync::sessions::TaskSession;
use time_sync::tasks::{
    apply_status_change, group_by_day, group_labelled, insert_outcome, session_row,
    sort_days_descending, task_row, DayGroup, SessionStep, UserTask,
};
use time_sync::text::text_before;
use time_sync::tray::TrayState;

fn task(id: &str, created: &str) -> UserTask {
    UserTask {
        id: Some(id.to_string()),
        title: format!("title {id}"),
        status: "Not yet started".to_string(),
        created: created.to_string(),
    }
}

fn is_v4(id: &str) -> bool {
    let chars: Vec<char> = id.chars().collect();
    chars.len() == 36
        && chars.iter().enumerate().all(|(i, c)| {
            if [8, 13, 18, 23].contains(&i) {
                *c == '-'
            } else {
                c.is_ascii_digit() || ('a'..='f').contains(c)
            }
        })
        && chars[14] == '4'
}

#[test]
fn task_row_takes_a_fresh_id() {
    let t = task("old-id", "2024-01-01T00:00:00Z");
    let row = task_row(t);
    assert!(is_v4(&row.id));
    assert_ne!(row.id, "old-id");
    assert_eq!(row.title, "title old-id");
    assert_eq!(row.status, "Not yet started");
    assert_eq!(row.created, "2024-01-01T00:00:00Z");
    let other = task_row(task("old-id", "x"));
    assert_ne!(row.id, other.id);
}

#[test]
fn session_row_takes_a_fresh_id() {
    let s = TaskSession {
        id: None,
        duration: 7,
        task_id: "t".to_string(),
        started: "S".to_string(),
        ended: Some("E".to_string()),
    };
    let row = session_row(s);
    assert!(is_v4(&row.id));
    assert_eq!(row.duration, 7);
    assert_eq!(row.task_id, "t");
    assert_eq!(row.started, "S");
    assert_eq!(row.ended, Some("E".to_string()));
}

#[test]
fn insert_outcomes() {
    assert_eq!(insert_outcome(1), Ok(()));
    assert_eq!(insert_outcome(0), Err("Insert failed: 0 rows affected".to_string()));
}

fn running(tray: &TrayState) -> Vec<String> {
    tray.running_task_ids().clone()
}

#[test]
fn starting_a_task_opens_a_session() {
    let mut tray = TrayState::new();
    assert_eq!(apply_status_change(&mut tray, "t".to_string(), "Running", "Paused"), Ok(SessionStep::Open));
    assert_eq!(running(&tray), vec!["t".to_string()]);
    assert_eq!(apply_status_change(&mut tray, "t".to_string(), "Running", "Running"), Ok(SessionStep::Keep));
    assert_eq!(running(&tray), vec!["t".to_string()]);
}

#[test]
fn stopping_a_running_task_closes_its_session() {
    let mut tray = TrayState::new();
    assert_eq!(apply_status_change(&mut tray, "t".to_string(), "Running", ""), Ok(SessionStep::Open));
    assert_eq!(apply_status_change(&mut tray, "t".to_string(), "Paused", "Running"), Ok(SessionStep::CloseOpen));
    assert!(running(&tray).is_empty());
    assert_eq!(apply_status_change(&mut tray, "t".to_string(), "Completed", "Paused"), Ok(SessionStep::Keep));
    assert_eq!(apply_status_change(&mut tray, "u".to_string(), "Completed", "Running"), Ok(SessionStep::CloseOpen));
}

#[test]
fn other_statuses_change_nothing() {
    let mut tray = TrayState::new();
    assert_eq!(apply_status_change(&mut tray, "t".to_string(), "Running", "Paused"), Ok(SessionStep::Open));
    assert_eq!(apply_status_change(&mut tray, "t".to_string(), "Not yet started", "Running"), Ok(SessionStep::Keep));
    assert_eq!(running(&tray), vec!["t".to_string()]);
}

#[test]
fn starting_in_a_full_tray_is_refused() {
    let mut tray = TrayState::new();
    for id in ["a", "b", "c"] {
        assert_eq!(apply_status_change(&mut tray, id.to_string(), "Running", "Paused"), Ok(SessionStep::Open));
    }
    assert_eq!(
        apply_status_change(&mut tray, "d".to_string(), "Running", "Paused"),
        Err("Maximum number of concurrent running tasks (3) reached".to_string())
    );
    assert_eq!(running(&tray).len(), 3);
}

#[test]
fn tasks_grouped_by_creation_day() {
    let tasks = vec![
        (task("1", "2024-03-05T10:00:00.123Z"), 10),
        (task("2", "2024-03-06T09:00:00.5Z"), 20),
        (task("3", "not a date"), 30),
        (task("4", "2024-03-05T23:59:59.000Z"), 40),
    ];
    let groups = group_by_day(tasks);
    assert_eq!(groups.len(), 2);
    assert_eq!(groups[0].day, "2024-03-06");
    assert_eq!(groups[0].tasks.len(), 1);
    assert_eq!(groups[0].tasks[0].1, 20);
    assert_eq!(groups[1].day, "2024-03-05");
    let second: Vec<(Option<String>, i64)> = groups[1].tasks.iter().map(|(t, s)| (t.id.clone(), *s)).collect();
    assert_eq!(second, vec![(Some("1".to_string()), 10), (Some("4".to_string()), 40)]);
}

#[test]
fn labelled_entries_grouped_latest_day_first() {
    let entries = vec![
        (Some("2024-03-04".to_string()), (task("1", ""), 1)),
        (None, (task("2", ""), 2)),
        (Some("2024-03-05".to_string()), (task("3", ""), 3)),
        (Some("2024-03-04".to_string()), (task("4", ""), 4)),
        (Some("2023-12-31".to_string()), (task("5", ""), 5)),
    ];
    let groups = group_labelled(entries);
    let shape: Vec<(String, Vec<i64>)> =
        groups.iter().map(|g| (g.day.clone(), g.tasks.iter().map(|(_, s)| *s).collect())).collect();
    assert_eq!(
        shape,
        vec![
            ("2024-03-05".to_string(), vec![3]),
            ("2024-03-04".to_string(), vec![1, 4]),
            ("2023-12-31".to_string(), vec![5]),
        ]
    );
}

#[test]
fn days_sorted_as_strings_sort_descending() {
    let days = ["b", "", "ab", "a", "é", "z", "+10000-01-01", "2024-01-01", "0999-12-31"];
    let groups: Vec<DayGroup> = days.iter().map(|d| DayGroup { day: d.to_string(), tasks: Vec::new() }).collect();
    let sorted: Vec<String> = sort_days_descending(groups).into_iter().map(|g| g.day).collect();
    let mut expected: Vec<String> = days.iter().map(|d| d.to_string()).collect();
    expected.sort_by(|a, b| b.cmp(a));
    assert_eq!(sorted, expected);
}

#[test]
fn text_order_matches_string_order() {
    let words = ["", "a", "ab", "b", "é", "Z", "z", "2024-03-05", "2024-03-04", "\u{10000}"];
    for a in words {
        for b in words {
            assert_eq!(text_before(&a.to_string(), &b.to_string()), a.to_string() < b.to_string(), "{a:?} {b:?}");
        }
    }
}
