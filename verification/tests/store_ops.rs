use todo_list::store::TodoItem;
use todo_list::store::TodoList;

fn item(title: &str, status: &str) -> TodoItem {
    TodoItem { title: title.to_string(), status: status.to_string() }
}

#[test]
fn new_store_is_empty() {
    let store = TodoList::new();
    assert_eq!(store.pending.len(), 0);
    assert_eq!(store.done.len(), 0);
}

#[test]
fn insert_then_list_shows_last_with_given_status() {
    let mut store = TodoList::new();
    store.insert(item("Wash up", "LATER"));
    store.insert(item("Call home", "WHENEVER"));
    let (pending, done) = store.list();
    assert_eq!(pending.len(), 2);
    let last = &pending[pending.len() - 1];
    assert_eq!(last.0, 1);
    assert_eq!(last.1.title, "Call home");
    assert_eq!(last.1.status, "WHENEVER");
    assert_eq!(done.len(), 0);
}

#[test]
fn complete_moves_task_and_stamps_done() {
    let mut store = TodoList::new();
    store.insert(item("A", "PENDING"));
    store.insert(item("B", "odd status"));
    let r = store.complete(1);
    assert!(r.is_ok());
    assert_eq!(store.pending.len(), 1);
    assert_eq!(store.pending[0].title, "A");
    assert_eq!(store.done.len(), 1);
    assert_eq!(store.done[0].title, "B");
    assert_eq!(store.done[0].status, "DONE");
}

#[test]
fn delete_shrinks_pending_and_keeps_done() {
    let mut store = TodoList::new();
    store.insert(item("A", "PENDING"));
    store.insert(item("B", "PENDING"));
    store.complete(0).unwrap();
    store.insert(item("C", "PENDING"));
    let r = store.delete(1);
    assert!(r.is_ok());
    assert_eq!(store.pending.len(), 1);
    assert_eq!(store.pending[0].title, "B");
    assert_eq!(store.done.len(), 1);
    assert_eq!(store.done[0].title, "A");
    assert_eq!(store.done[0].status, "DONE");
}

#[test]
fn out_of_range_index_fails_without_mutation() {
    let mut store = TodoList::new();
    assert_eq!(store.complete(0), Err("Invalid index".to_string()));
    assert_eq!(store.delete(0), Err("Invalid index".to_string()));
    store.insert(item("A", "PENDING"));
    store.insert(item("B", "PENDING"));
    assert_eq!(store.complete(2), Err("Invalid index".to_string()));
    assert_eq!(store.delete(7), Err("Invalid index".to_string()));
    assert_eq!(store.pending.len(), 2);
    assert_eq!(store.pending[0].title, "A");
    assert_eq!(store.pending[1].title, "B");
    assert_eq!(store.done.len(), 0);
}

#[test]
fn scenario_buy_milk() {
    let mut store = TodoList::new();
    store.insert(item("Buy milk", "PENDING"));
    let (pending, done) = store.list();
    assert_eq!(pending.len(), 1);
    assert_eq!(pending[0].0, 0);
    assert_eq!(pending[0].1.title, "Buy milk");
    assert_eq!(done.len(), 0);

    assert!(store.complete(0).is_ok());
    let (pending, done) = store.list();
    assert_eq!(pending.len(), 0);
    assert_eq!(done.len(), 1);
    assert_eq!(done[0].0, 0);
    assert_eq!(done[0].1.title, "Buy milk");
    assert_eq!(done[0].1.status, "DONE");

    assert_eq!(store.complete(0), Err("Invalid index".to_string()));
}

#[test]
fn scenario_delete_shifts_down() {
    let mut store = TodoList::new();
    store.insert(item("A", "PENDING"));
    store.insert(item("B", "PENDING"));
    assert!(store.delete(0).is_ok());
    let (pending, _done) = store.list();
    assert_eq!(pending.len(), 1);
    assert_eq!(pending[0].0, 0);
    assert_eq!(pending[0].1.title, "B");
}
