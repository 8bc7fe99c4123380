use taskstore::codec::load;
use taskstore::codec::parse_store;
use taskstore::codec::save;
use taskstore::store::Tasks;
use taskstore::Status;
use taskstore::Task;
use taskstore::TaskError;

fn sample_task(id: u128, name: &str, description: &str, status: Status, subtasks: Vec<u128>) -> Task {
    Task {
        id,
        name: name.to_string(),
        description: description.to_string(),
        status,
        subtasks,
    }
}

#[test]
fn save_writes_exact_text() {
    let store = Tasks::from_list(vec![sample_task(5, "ab", "", Status::Todo, vec![7])]);
    assert_eq!(save(&store), "1\n5\n2:ab\n0:\nTodo\n1 7\n");
}

#[test]
fn save_empty_store_writes_count_only() {
    let store = Tasks::new();
    assert_eq!(save(&store), "0\n");
}

#[test]
fn round_trip_reproduces_store() {
    let t1 = sample_task(1, "Write spec", "draft v1", Status::Done, vec![2, 9]);
    let t2 = sample_task(2, "Review", "line 1\nline 2", Status::Todo, vec![]);
    let t3 = sample_task(9, "naïve: 你好", "12:34 colon", Status::Todo, vec![2, 2]);
    let store = Tasks::from_list(vec![t1, t2, t3]);
    let text = save(&store);
    let back = parse_store(&text).expect("a saved artifact must parse");
    let old_list = store.list();
    let new_list = back.list();
    assert_eq!(old_list.len(), new_list.len());
    for (a, b) in old_list.iter().zip(new_list.iter()) {
        assert_eq!(a.id, b.id);
        assert_eq!(a.name, b.name);
        assert_eq!(a.description, b.description);
        assert_eq!(a.status, b.status);
        assert_eq!(a.subtasks, b.subtasks);
    }
}

#[test]
fn round_trip_through_live_store() {
    let mut tasks = Tasks::new();
    let a = tasks.add_task("parent".to_string(), "p".to_string());
    let b = tasks.add_subtask(a, "child".to_string(), String::new());
    tasks.toggle_status(b).unwrap();
    let text = save(&tasks);
    let back = parse_store(&text).expect("a saved artifact must parse");
    let p = back.find(a).expect("the parent must survive the round trip");
    assert_eq!(p.subtasks, vec![b]);
    assert_eq!(back.find(b).unwrap().status, Status::Done);
}

#[test]
fn load_missing_artifact_gives_empty_store() {
    let store = load(None);
    assert!(store.list().is_empty());
    let empty_artifact = save(&store);
    let reread = parse_store(&empty_artifact).expect("the empty artifact must be readable");
    assert!(reread.list().is_empty());
}

#[test]
fn load_corrupted_artifact_gives_empty_store() {
    for bad in [
        "",
        "not a store",
        "1\n",
        "1\n5\n2:ab\n0:\nMaybe\n0\n",
        "1\n5\n9:ab\n0:\nTodo\n0\n",
        "1\n5\n2:ab\n0:\nTodo\n1 7\ntrailing",
        "999999999999999999999999999999999999999999\n",
        "2\n5\n0:\n0:\nTodo\n0\n5\n0:\n0:\nTodo\n0\n",
    ] {
        let store = load(Some(bad));
        assert!(store.list().is_empty(), "input {bad:?} must fall back to empty");
    }
}

#[test]
fn parse_rejects_duplicate_identifiers() {
    let text = "2\n5\n1:a\n0:\nTodo\n0\n5\n1:b\n0:\nTodo\n0\n";
    assert!(matches!(
        parse_store(text),
        Err(TaskError::MalformedPersistedState)
    ));
}

#[test]
fn load_parses_valid_artifact() {
    let store = load(Some("1\n5\n2:ab\n3:c d\nDone\n2 7 8\n"));
    let t = store.find(5).expect("task 5 must be loaded");
    assert_eq!(t.name, "ab");
    assert_eq!(t.description, "c d");
    assert_eq!(t.status, Status::Done);
    assert_eq!(t.subtasks, vec![7, 8]);
}
