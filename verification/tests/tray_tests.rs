use time_sync::tray::{tray_title, TrayState, MAX_RUNNING_TASKS};

fn ids(tray: &TrayState) -> Vec<String> {
    tray.running_task_ids().clone()
}

#[test]
fn new_tray_has_no_running_task() {
    let tray = TrayState::new();
    assert_eq!(tray.get_running_task_count(), Ok(0));
    assert!(ids(&tray).is_empty());
}

#[test]
fn adding_tasks_counts_them_in_order() {
    let mut tray = TrayState::new();
    assert_eq!(tray.add_running_task("a".to_string()), Ok(()));
    assert_eq!(tray.add_running_task("b".to_string()), Ok(()));
    assert_eq!(tray.get_running_task_count(), Ok(2));
    assert_eq!(ids(&tray), vec!["a".to_string(), "b".to_string()]);
}

#[test]
fn adding_a_running_task_again_keeps_one_copy() {
    let mut tray = TrayState::new();
    assert_eq!(tray.add_running_task("a".to_string()), Ok(()));
    assert_eq!(tray.add_running_task("a".to_string()), Ok(()));
    assert_eq!(tray.get_running_task_count(), Ok(1));
}

#[test]
fn full_tray_refuses_a_new_task() {
    let mut tray = TrayState::new();
    for id in ["a", "b", "c"] {
        assert_eq!(tray.add_running_task(id.to_string()), Ok(()));
    }
    assert_eq!(MAX_RUNNING_TASKS, 3);
    assert_eq!(
        tray.add_running_task("d".to_string()),
        Err("Maximum number of concurrent running tasks (3) reached".to_string())
    );
    assert_eq!(tray.get_running_task_count(), Ok(3));
    assert_eq!(ids(&tray), vec!["a".to_string(), "b".to_string(), "c".to_string()]);
}

#[test]
fn full_tray_refuses_even_a_running_task() {
    let mut tray = TrayState::new();
    for id in ["a", "b", "c"] {
        assert_eq!(tray.add_running_task(id.to_string()), Ok(()));
    }
    assert!(tray.add_running_task("b".to_string()).is_err());
    assert_eq!(tray.get_running_task_count(), Ok(3));
}

#[test]
fn removing_keeps_the_others_in_order() {
    let mut tray = TrayState::new();
    for id in ["a", "b", "c"] {
        assert_eq!(tray.add_running_task(id.to_string()), Ok(()));
    }
    assert_eq!(tray.remove_running_task("b"), Ok(()));
    assert_eq!(ids(&tray), vec!["a".to_string(), "c".to_string()]);
    assert_eq!(tray.add_running_task("d".to_string()), Ok(()));
    assert_eq!(ids(&tray), vec!["a".to_string(), "c".to_string(), "d".to_string()]);
}

#[test]
fn removing_an_absent_task_changes_nothing() {
    let mut tray = TrayState::new();
    assert_eq!(tray.add_running_task("a".to_string()), Ok(()));
    assert_eq!(tray.remove_running_task("zzz"), Ok(()));
    assert_eq!(tray.remove_running_task("zzz"), Ok(()));
    assert_eq!(ids(&tray), vec!["a".to_string()]);
}

#[test]
fn add_then_remove_restores_the_tray() {
    let mut tray = TrayState::new();
    assert_eq!(tray.add_running_task("a".to_string()), Ok(()));
    let before = ids(&tray);
    assert_eq!(tray.add_running_task("b".to_string()), Ok(()));
    assert_eq!(tray.remove_running_task("b"), Ok(()));
    assert_eq!(ids(&tray), before);
}

#[test]
fn tray_titles() {
    assert_eq!(tray_title(0), "No tasks running");
    assert_eq!(tray_title(1), "1 task running");
    assert_eq!(tray_title(2), "2 tasks running");
    assert_eq!(tray_title(10), "10 tasks running");
    assert_eq!(tray_title(1203), "1203 tasks running");
}
