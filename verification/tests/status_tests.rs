use time_sync::status::TaskStatus;

#[test]
fn status_texts() {
    assert_eq!(TaskStatus::Running.as_text(), "Running");
    assert_eq!(TaskStatus::Completed.as_text(), "Completed");
    assert_eq!(TaskStatus::Paused.as_text(), "Paused");
    assert_eq!(TaskStatus::NotStarted.as_text(), "Not yet started");
}

#[test]
fn status_read_back_from_its_text() {
    for s in [TaskStatus::Running, TaskStatus::Completed, TaskStatus::Paused, TaskStatus::NotStarted] {
        assert_eq!(TaskStatus::from_text(s.as_text()), Ok(s));
    }
}

#[test]
fn unknown_status_text_is_refused() {
    assert_eq!(
        TaskStatus::from_text("running"),
        Err("Invalid TaskStatus string: running".to_string())
    );
    assert_eq!(TaskStatus::from_text(""), Err("Invalid TaskStatus string: ".to_string()));
}
