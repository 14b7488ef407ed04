use task_tracker::task::{
    can_save_task, card_tone, duration_label, maintenance_due, recurrence_rule, tab_button_class,
    toggled_status, CardTone, Tab, TaskInstance,
};

fn instance(id: i32, due: &str, status: &str) -> TaskInstance {
    TaskInstance { id, template_id: 1, due_date: due.to_string(), status: status.to_string() }
}

#[test]
fn finished_and_overdue() {
    let done = instance(1, "2024-01-01", "finished");
    let late = instance(2, "2024-01-01", "ongoing");
    let later = instance(3, "2024-02-01", "ongoing");
    assert!(done.is_finished());
    assert!(!late.is_finished());
    assert!(!done.is_overdue("2024-01-15"));
    assert!(late.is_overdue("2024-01-15"));
    assert!(!later.is_overdue("2024-01-15"));
    assert!(!late.is_overdue("2024-01-01"));
}

#[test]
fn card_tones() {
    assert_eq!(card_tone(&instance(1, "2024-01-01", "finished"), "2024-06-01"), CardTone::Finished);
    assert_eq!(card_tone(&instance(1, "2024-01-01", "ongoing"), "2024-06-01"), CardTone::Overdue);
    assert_eq!(card_tone(&instance(1, "2024-07-01", "ongoing"), "2024-06-01"), CardTone::Pending);
}

#[test]
fn toggle_flips_status() {
    assert_eq!(toggled_status("finished"), "ongoing");
    assert_eq!(toggled_status("ongoing"), "finished");
    assert_eq!(toggled_status(toggled_status("ongoing")), "ongoing");
    assert_eq!(toggled_status("anything"), "finished");
}

#[test]
fn form_rules() {
    assert_eq!(recurrence_rule("days", "3", "1", "Mon"), "days:3");
    assert_eq!(recurrence_rule("months", "2", "1", "Mon"), "months:2");
    assert_eq!(recurrence_rule("nth", "2", "4", "Fri"), "nth:4:Fri");
    assert_eq!(recurrence_rule("none", "2", "4", "Fri"), "none");
    assert_eq!(recurrence_rule("other", "2", "4", "Fri"), "none");
}

#[test]
fn form_rule_feeds_generator() {
    let rule = recurrence_rule("days", "365", "1", "Mon");
    assert_eq!(
        task_tracker::recurrence::generate_recurring_dates("2024-01-01", &rule),
        vec!["2024-01-01".to_string(), "2024-12-31".to_string()]
    );
}

#[test]
fn form_checks_and_labels() {
    assert!(can_save_task("Pay rent", "2024-01-01"));
    assert!(!can_save_task("", "2024-01-01"));
    assert!(!can_save_task("Pay rent", ""));
    assert_eq!(duration_label("days"), "Days");
    assert_eq!(duration_label("months"), "Months");
    assert_eq!(duration_label("nth"), "Months");
}

#[test]
fn maintenance_day() {
    assert!(maintenance_due(16));
    assert!(!maintenance_due(15));
    assert!(!maintenance_due(1));
}

#[test]
fn tab_classes() {
    assert_eq!(tab_button_class(Tab::List, Tab::List), "bg-blue-600 text-white");
    assert_eq!(tab_button_class(Tab::List, Tab::Calendar), "bg-slate-800");
    assert_eq!(tab_button_class(Tab::AddTask, Tab::Recurring), "bg-slate-800");
}
