use task_tracker::listing::visible_task_order;
use task_tracker::task::{TaskInstance, TaskTemplate};

fn row(id: i32, due: &str, title: &str) -> (TaskInstance, TaskTemplate) {
    (
        TaskInstance { id, template_id: id, due_date: due.to_string(), status: "ongoing".to_string() },
        TaskTemplate { id, title: title.to_string(), note: String::new(), recurrence: "none".to_string() },
    )
}

fn sample() -> Vec<(TaskInstance, TaskTemplate)> {
    vec![
        row(5, "2024-03-01", "Buy milk"),
        row(2, "2024-01-15", "Pay rent"),
        row(9, "2024-01-15", "buy BREAD"),
        row(1, "2024-02-01", "Call mom"),
    ]
}

#[test]
fn search_ignores_case() {
    assert_eq!(visible_task_order(&sample(), "BUY", "date"), vec![2, 0]);
    assert_eq!(visible_task_order(&sample(), "bread", "date"), vec![2]);
    assert_eq!(visible_task_order(&sample(), "zzz", "date"), Vec::<usize>::new());
}

#[test]
fn sort_by_date_keeps_ties_in_order() {
    assert_eq!(visible_task_order(&sample(), "", "date"), vec![1, 2, 3, 0]);
}

#[test]
fn sort_by_id() {
    assert_eq!(visible_task_order(&sample(), "", "id"), vec![3, 1, 0, 2]);
    assert_eq!(visible_task_order(&sample(), "a", "other"), vec![3, 1, 2]);
}

#[test]
fn equal_ids_keep_list_order() {
    let tasks = vec![row(4, "2024-05-01", "b"), row(4, "2024-01-01", "a"), row(3, "2024-09-01", "c")];
    assert_eq!(visible_task_order(&tasks, "", "id"), vec![2, 0, 1]);
}

#[test]
fn empty_list() {
    assert_eq!(visible_task_order(&Vec::new(), "x", "date"), Vec::<usize>::new());
}
