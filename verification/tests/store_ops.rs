use taskstore::store::Tasks;
use taskstore::Status;
use taskstore::TaskError;

#[test]
fn add_task_returns_distinct_ids() {
    let mut tasks = Tasks::new();
    let mut ids = Vec::new();
    for i in 0..8 {
        let id = tasks.add_task(format!("task {i}"), String::new());
        ids.push(id);
    }
    for a in 0..ids.len() {
        for b in (a + 1)..ids.len() {
            assert_ne!(ids[a], ids[b]);
        }
    }
}

#[test]
fn add_task_sets_fresh_fields() {
    let mut tasks = Tasks::new();
    let id = tasks.add_task(String::from("write"), String::from("a draft"));
    let t = tasks.find(id).expect("the new task must resolve");
    assert_eq!(t.id, id);
    assert_eq!(t.name, "write");
    assert_eq!(t.description, "a draft");
    assert_eq!(t.status, Status::Todo);
    assert!(t.subtasks.is_empty());
}

#[test]
fn find_missing_id_is_absent() {
    let mut tasks = Tasks::new();
    let id = tasks.add_task(String::from("only"), String::new());
    assert!(tasks.find(id.wrapping_add(1)).is_none());
}

#[test]
fn link_subtask_appends_and_duplicates() {
    let mut tasks = Tasks::new();
    let parent = tasks.add_task(String::from("parent"), String::new());
    let child = tasks.add_task(String::from("child"), String::new());
    tasks.link_subtask(parent, child);
    tasks.link_subtask(parent, child);
    let p = tasks.find(parent).unwrap();
    assert_eq!(p.subtasks, vec![child, child]);
}

#[test]
fn link_subtask_missing_parent_is_noop() {
    let mut tasks = Tasks::new();
    let child = tasks.add_task(String::from("child"), String::new());
    tasks.link_subtask(child.wrapping_add(1), child);
    for t in tasks.list() {
        assert!(t.subtasks.is_empty());
    }
}

#[test]
fn add_subtask_links_under_parent() {
    let mut tasks = Tasks::new();
    let parent = tasks.add_task(String::from("parent"), String::new());
    let child = tasks.add_subtask(parent, String::from("child"), String::new());
    let p = tasks.find(parent).unwrap();
    assert_eq!(p.subtasks, vec![child]);
    let c = tasks.find(child).unwrap();
    assert_eq!(c.name, "child");
    assert_eq!(c.status, Status::Todo);
}

#[test]
fn add_subtask_missing_parent_still_creates_orphan() {
    let mut tasks = Tasks::new();
    let lone = tasks.add_task(String::from("lone"), String::new());
    let orphan = tasks.add_subtask(lone.wrapping_add(1), String::from("orphan"), String::new());
    assert!(tasks.find(orphan).is_some());
    for t in tasks.list() {
        assert!(t.subtasks.is_empty());
    }
}

#[test]
fn toggle_without_subtasks_flips_both_ways() {
    let mut tasks = Tasks::new();
    let id = tasks.add_task(String::from("solo"), String::new());
    assert_eq!(tasks.toggle_status(id), Ok(Status::Done));
    assert_eq!(tasks.find(id).unwrap().status, Status::Done);
    assert_eq!(tasks.toggle_status(id), Ok(Status::Todo));
    assert_eq!(tasks.find(id).unwrap().status, Status::Todo);
}

#[test]
fn toggle_blocked_by_todo_subtask() {
    let mut tasks = Tasks::new();
    let parent = tasks.add_task(String::from("parent"), String::new());
    let _child = tasks.add_subtask(parent, String::from("child"), String::new());
    assert_eq!(
        tasks.toggle_status(parent),
        Err(TaskError::BlockedByIncompleteSubtasks)
    );
    assert_eq!(tasks.find(parent).unwrap().status, Status::Todo);
}

#[test]
fn toggle_succeeds_once_subtasks_done() {
    let mut tasks = Tasks::new();
    let parent = tasks.add_task(String::from("parent"), String::new());
    let child = tasks.add_subtask(parent, String::from("child"), String::new());
    assert_eq!(tasks.toggle_status(child), Ok(Status::Done));
    assert_eq!(tasks.toggle_status(parent), Ok(Status::Done));
    assert_eq!(tasks.find(parent).unwrap().status, Status::Done);
}

#[test]
fn toggle_missing_id_reports_not_found() {
    let mut tasks = Tasks::new();
    let id = tasks.add_task(String::from("only"), String::new());
    assert_eq!(
        tasks.toggle_status(id.wrapping_add(1)),
        Err(TaskError::NotFound)
    );
}

#[test]
fn toggle_skips_dangling_subtask_reference() {
    let mut tasks = Tasks::new();
    let parent = tasks.add_task(String::from("parent"), String::new());
    tasks.link_subtask(parent, parent.wrapping_add(1));
    assert_eq!(tasks.toggle_status(parent), Ok(Status::Done));
}

#[test]
fn toggle_back_to_todo_is_also_gated() {
    // The completion gate runs on every toggle attempt, in both directions:
    // a Done parent with an open subtask cannot return to Todo either.
    let mut tasks = Tasks::new();
    let parent = tasks.add_task(String::from("parent"), String::new());
    let child = tasks.add_subtask(parent, String::from("child"), String::new());
    tasks.toggle_status(child).unwrap();
    tasks.toggle_status(parent).unwrap();
    tasks.toggle_status(child).unwrap();
    assert_eq!(tasks.find(parent).unwrap().status, Status::Done);
    assert_eq!(
        tasks.toggle_status(parent),
        Err(TaskError::BlockedByIncompleteSubtasks)
    );
    assert_eq!(tasks.find(parent).unwrap().status, Status::Done);
}

#[test]
fn delete_removes_task_and_every_reference() {
    let mut tasks = Tasks::new();
    let a = tasks.add_task(String::from("a"), String::new());
    let b = tasks.add_task(String::from("b"), String::new());
    let c = tasks.add_task(String::from("c"), String::new());
    tasks.link_subtask(a, c);
    tasks.link_subtask(b, c);
    tasks.link_subtask(b, a);
    assert_eq!(tasks.delete_task(c), Ok(()));
    assert!(tasks.find(c).is_none());
    for t in tasks.list() {
        assert!(!t.subtasks.contains(&c));
    }
    assert_eq!(tasks.find(b).unwrap().subtasks, vec![a]);
}

#[test]
fn link_then_delete_leaves_parent_list_without_child() {
    let mut tasks = Tasks::new();
    let p = tasks.add_task(String::from("p"), String::new());
    let c = tasks.add_task(String::from("c"), String::new());
    tasks.link_subtask(p, c);
    assert_eq!(tasks.delete_task(c), Ok(()));
    assert!(tasks.find(p).unwrap().subtasks.is_empty());
}

#[test]
fn delete_missing_id_reports_not_found() {
    let mut tasks = Tasks::new();
    let id = tasks.add_task(String::from("only"), String::new());
    assert_eq!(tasks.delete_task(id.wrapping_add(1)), Err(TaskError::NotFound));
    assert_eq!(tasks.list().len(), 1);
}

#[test]
fn list_keeps_insertion_order() {
    let mut tasks = Tasks::new();
    let a = tasks.add_task(String::from("first"), String::new());
    let b = tasks.add_task(String::from("second"), String::new());
    let c = tasks.add_task(String::from("third"), String::new());
    let order: Vec<u128> = tasks.list().iter().map(|t| t.id).collect();
    assert_eq!(order, vec![a, b, c]);
}

#[test]
fn full_scenario_spec_review_toggle_delete() {
    let mut tasks = Tasks::new();
    let a = tasks.add_task(String::from("Write spec"), String::from("draft v1"));
    let b = tasks.add_subtask(a, String::from("Review"), String::new());
    assert_eq!(
        tasks.toggle_status(a),
        Err(TaskError::BlockedByIncompleteSubtasks)
    );
    assert_eq!(tasks.toggle_status(b), Ok(Status::Done));
    assert_eq!(tasks.toggle_status(a), Ok(Status::Done));
    assert_eq!(tasks.delete_task(b), Ok(()));
    assert!(tasks.find(a).unwrap().subtasks.is_empty());
}
