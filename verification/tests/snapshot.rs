use todo_list::codec::decode;
use todo_list::codec::encode;
use todo_list::store::TodoItem;
use todo_list::store::TodoList;

fn item(title: &str, status: &str) -> TodoItem {
    TodoItem { title: title.to_string(), status: status.to_string() }
}

#[test]
fn encode_empty_store_exactly() {
    let store = TodoList::new();
    assert_eq!(encode(&store), "{\"pending\":[],\"done\":[]}");
}

#[test]
fn encode_one_task_exactly() {
    let mut store = TodoList::new();
    store.insert(item("Buy milk", "PENDING"));
    assert_eq!(
        encode(&store),
        "{\"pending\":[{\"title\":\"Buy milk\",\"status\":\"PENDING\"}],\"done\":[]}"
    );
}

#[test]
fn encode_escapes_quotes_and_backslashes() {
    let mut store = TodoList::new();
    store.insert(item("say \"hi\"", "a\\b"));
    assert_eq!(
        encode(&store),
        "{\"pending\":[{\"title\":\"say \\\"hi\\\"\",\"status\":\"a\\\\b\"}],\"done\":[]}"
    );
}

#[test]
fn decode_reads_a_snapshot() {
    let text = "{\"pending\":[{\"title\":\"A\",\"status\":\"S\"}],\"done\":[{\"title\":\"B\",\"status\":\"DONE\"}]}";
    let store = decode(text).unwrap();
    assert_eq!(store.pending.len(), 1);
    assert_eq!(store.pending[0].title, "A");
    assert_eq!(store.pending[0].status, "S");
    assert_eq!(store.done.len(), 1);
    assert_eq!(store.done[0].title, "B");
    assert_eq!(store.done[0].status, "DONE");
}

#[test]
fn decode_rejects_malformed_text() {
    assert!(decode("").is_none());
    assert!(decode("{}").is_none());
    assert!(decode("{\"pending\":[]}").is_none());
    assert!(decode("{\"pending\":[],\"done\":[]} ").is_none());
    assert!(decode("{\"pending\":[],\"done\":[]").is_none());
    assert!(decode("{\"pending\":[{\"title\":\"A\"}],\"done\":[]}").is_none());
    assert!(decode("not a snapshot").is_none());
}

#[test]
fn round_trip_keeps_contents_and_order() {
    let mut store = TodoList::new();
    store.insert(item("plain", "PENDING"));
    store.insert(item("with \"quotes\"", "ODD"));
    store.insert(item("back\\slash, comma, {braces}", ""));
    store.insert(item("", "empty title above"));
    store.complete(1).unwrap();
    let text = encode(&store);
    let back = decode(&text).unwrap();
    assert_eq!(back.pending.len(), store.pending.len());
    assert_eq!(back.done.len(), store.done.len());
    for i in 0..store.pending.len() {
        assert_eq!(back.pending[i].title, store.pending[i].title);
        assert_eq!(back.pending[i].status, store.pending[i].status);
    }
    for i in 0..store.done.len() {
        assert_eq!(back.done[i].title, store.done[i].title);
        assert_eq!(back.done[i].status, store.done[i].status);
    }
}

#[test]
fn round_trip_empty_store() {
    let store = TodoList::new();
    let back = decode(&encode(&store)).unwrap();
    assert_eq!(back.pending.len(), 0);
    assert_eq!(back.done.len(), 0);
}
