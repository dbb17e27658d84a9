use task_store::store::TaskList;
use task_store::task::TaskError;

fn rows(l: &TaskList) -> Vec<(usize, String, bool)> {
    l.list_tasks()
}

#[test]
fn scenario_full_session() {
    let mut l = TaskList::new();
    assert!(l.add_task(String::from("buy milk")).is_ok());
    assert!(l.add_task(String::from("write report")).is_ok());
    let r = rows(&l);
    assert_eq!(r.len(), 2);
    assert_eq!(r[0], (1, String::from("buy milk"), false));
    assert_eq!(r[1], (2, String::from("write report"), false));

    assert!(l.complete_task(1).is_ok());
    let r = rows(&l);
    assert_eq!(r[0], (1, String::from("buy milk"), true));
    assert_eq!(r[1], (2, String::from("write report"), false));

    assert!(l.remove_task(1).is_ok());
    let r = rows(&l);
    assert_eq!(r.len(), 1);
    assert_eq!(r[0], (1, String::from("write report"), false));

    assert!(l.edit_task(1, String::from("finish report")).is_ok());
    let r = rows(&l);
    assert_eq!(r[0], (1, String::from("finish report"), false));

    let before = l.to_json();
    assert_eq!(l.remove_task(5), Err(TaskError::InvalidIndex));
    assert_eq!(l.to_json(), before);
    let r = rows(&l);
    assert_eq!(r.len(), 1);
    assert_eq!(r[0], (1, String::from("finish report"), false));
}

#[test]
fn adds_list_in_order() {
    let mut l = TaskList::new();
    let names = ["first", "second", "third"];
    for n in names.iter() {
        assert!(l.add_task(String::from(*n)).is_ok());
    }
    let r = rows(&l);
    assert_eq!(r.len(), 3);
    for (k, n) in names.iter().enumerate() {
        assert_eq!(r[k].0, k + 1);
        assert_eq!(r[k].1, String::from(*n));
        assert_eq!(r[k].2, false);
    }
}

#[test]
fn remove_shifts_later_tasks_down() {
    let mut l = TaskList::new();
    assert!(l.add_task(String::from("a")).is_ok());
    assert!(l.add_task(String::from("b")).is_ok());
    assert!(l.add_task(String::from("c")).is_ok());
    assert!(l.complete_task(3).is_ok());
    assert!(l.remove_task(2).is_ok());
    let r = rows(&l);
    assert_eq!(r.len(), 2);
    assert_eq!(r[0], (1, String::from("a"), false));
    assert_eq!(r[1], (2, String::from("c"), true));
}

#[test]
fn edit_changes_only_the_target_description() {
    let mut l = TaskList::new();
    assert!(l.add_task(String::from("a")).is_ok());
    assert!(l.add_task(String::from("b")).is_ok());
    assert!(l.complete_task(2).is_ok());
    assert!(l.edit_task(2, String::from("b2")).is_ok());
    let r = rows(&l);
    assert_eq!(r[0], (1, String::from("a"), false));
    assert_eq!(r[1], (2, String::from("b2"), true));
}

#[test]
fn complete_twice_is_idempotent() {
    let mut l = TaskList::new();
    assert!(l.add_task(String::from("a")).is_ok());
    assert!(l.add_task(String::from("b")).is_ok());
    assert!(l.complete_task(1).is_ok());
    let once = l.to_json();
    assert!(l.complete_task(1).is_ok());
    assert_eq!(l.to_json(), once);
}

#[test]
fn out_of_range_indices_change_nothing() {
    let mut l = TaskList::new();
    assert!(l.add_task(String::from("only")).is_ok());
    let before = l.to_json();
    assert_eq!(l.edit_task(0, String::from("x")), Err(TaskError::InvalidIndex));
    assert_eq!(l.edit_task(2, String::from("x")), Err(TaskError::InvalidIndex));
    assert_eq!(l.remove_task(0), Err(TaskError::InvalidIndex));
    assert_eq!(l.remove_task(2), Err(TaskError::InvalidIndex));
    assert_eq!(l.complete_task(0), Err(TaskError::InvalidIndex));
    assert_eq!(l.complete_task(2), Err(TaskError::InvalidIndex));
    assert_eq!(l.to_json(), before);
    assert_eq!(rows(&l).len(), 1);
}

#[test]
fn fresh_store_lists_empty() {
    let l = TaskList::new();
    assert_eq!(l.len(), 0);
    assert!(rows(&l).is_empty());
}

#[test]
fn empty_descriptions_are_rejected() {
    let mut l = TaskList::new();
    assert_eq!(l.add_task(String::new()), Err(TaskError::InvalidInput));
    assert_eq!(l.len(), 0);
    assert!(l.add_task(String::from("a")).is_ok());
    assert_eq!(l.edit_task(1, String::new()), Err(TaskError::InvalidInput));
    assert_eq!(rows(&l)[0], (1, String::from("a"), false));
}
