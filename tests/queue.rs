use pinboard_relay::pin::Pin;
use pinboard_relay::pipeline::{
    begin_push, finish_push, ingest_order, run_pull, PushAction, PushError,
};
use pinboard_relay::store::{PinStore, StoreError, StoredPin};

fn pin(author: &str, url: &str, title: &str) -> Pin {
    Pin {
        u: url.to_string(),
        d: title.to_string(),
        n: None,
        a: author.to_string(),
        t: vec!["".to_string(), "t".to_string()],
    }
}

fn delivered_id(store: &PinStore) -> Option<u64> {
    match begin_push(store) {
        PushAction::Idle => None,
        PushAction::Deliver { id, .. } => Some(id),
    }
}

fn row(id: u64, author: &str, link: &str) -> StoredPin {
    StoredPin {
        id,
        title: "t".to_string(),
        author: author.to_string(),
        link: link.to_string(),
        description: None,
        tags: String::new(),
        sent: false,
    }
}

#[test]
fn same_pin_pulled_twice_is_stored_once() {
    let mut store = PinStore::new();
    assert_eq!(run_pull(&mut store, vec![pin("a", "http://u", "first")]), 1);
    assert_eq!(run_pull(&mut store, vec![pin("a", "http://u", "second")]), 0);
    assert_eq!(store.rows().len(), 1);
    assert_eq!(store.rows()[0].title, "first");
}

#[test]
fn same_link_other_author_is_another_row() {
    let mut store = PinStore::new();
    run_pull(&mut store, vec![pin("a", "http://u", "x"), pin("b", "http://u", "y")]);
    assert_eq!(store.rows().len(), 2);
}

#[test]
fn pushes_go_in_id_order() {
    let mut store = PinStore::new();
    // The feed lists the newest first.
    run_pull(
        &mut store,
        vec![pin("a", "http://3", "3"), pin("a", "http://2", "2"), pin("a", "http://1", "1")],
    );
    let mut sent = Vec::new();
    for _ in 0..3 {
        let id = delivered_id(&store).unwrap();
        assert_eq!(finish_push(&mut store, id, true), Ok(()));
        sent.push(id);
    }
    assert_eq!(sent, vec![1, 2, 3]);
    assert!(store.rows().iter().all(|r| r.sent));
    assert_eq!(delivered_id(&store), None);
}

#[test]
fn push_on_empty_queue_is_idle() {
    let store = PinStore::new();
    assert!(matches!(begin_push(&store), PushAction::Idle));
}

#[test]
fn failed_delivery_is_retried() {
    let mut store = PinStore::new();
    run_pull(&mut store, vec![pin("a", "http://1", "1")]);
    let id = delivered_id(&store).unwrap();
    assert_eq!(finish_push(&mut store, id, false), Err(PushError::Delivery));
    assert!(!store.rows()[0].sent);
    assert_eq!(delivered_id(&store), Some(id));
    assert_eq!(finish_push(&mut store, id, true), Ok(()));
    assert!(store.rows()[0].sent);
    assert_eq!(delivered_id(&store), None);
}

#[test]
fn oldest_of_the_feed_is_inserted_and_sent_first() {
    let mut store = PinStore::new();
    run_pull(
        &mut store,
        vec![pin("a", "http://new", "newest"), pin("a", "http://mid", "middle"), pin("a", "http://old", "oldest")],
    );
    let titles: Vec<&str> = store.rows().iter().map(|r| r.title.as_str()).collect();
    assert_eq!(titles, vec!["oldest", "middle", "newest"]);
    assert_eq!(store.rows()[0].id, 1);
    match begin_push(&store) {
        PushAction::Deliver { id, text } => {
            assert_eq!(id, 1);
            assert_eq!(text, "oldest\n\nhttp://old\n\n#t");
        }
        PushAction::Idle => panic!("expected a delivery"),
    }
}

#[test]
fn ingest_order_reverses() {
    let out = ingest_order(vec![pin("a", "1", "1"), pin("a", "2", "2"), pin("a", "3", "3")]);
    let urls: Vec<&str> = out.iter().map(|p| p.u.as_str()).collect();
    assert_eq!(urls, vec!["3", "2", "1"]);
}

#[test]
fn stored_row_holds_hashtags() {
    let mut store = PinStore::new();
    let mut p = pin("a", "http://u", "t");
    p.t = vec!["".to_string(), "rust".to_string(), "".to_string(), "go".to_string()];
    p.n = Some("note".to_string());
    run_pull(&mut store, vec![p]);
    assert_eq!(store.rows()[0].tags, "#rust, #go");
    assert_eq!(store.rows()[0].description.as_deref(), Some("note"));
    let (id, back) = store.next_unsent().unwrap();
    assert_eq!(id, 1);
    assert_eq!(back.t, vec!["#rust".to_string(), " #go".to_string()]);
}

#[test]
fn mark_sent_of_unknown_id_fails() {
    let mut store = PinStore::new();
    assert_eq!(store.mark_sent(7), Err(StoreError::NotFound));
    assert_eq!(finish_push(&mut store, 7, true), Err(PushError::NotFound));
}

#[test]
fn mark_sent_twice_is_harmless() {
    let mut store = PinStore::new();
    run_pull(&mut store, vec![pin("a", "http://u", "t")]);
    assert_eq!(store.mark_sent(1), Ok(()));
    assert_eq!(store.mark_sent(1), Ok(()));
    assert!(store.rows()[0].sent);
}

#[test]
fn new_rows_follow_the_last_id() {
    let mut store = PinStore::from_rows(vec![row(5, "a", "x"), row(9, "a", "y")]).unwrap();
    assert_eq!(store.next_row_id(), 10);
    run_pull(&mut store, vec![pin("b", "z", "z"), pin("a", "x", "dup")]);
    assert_eq!(store.rows().len(), 3);
    assert_eq!(store.rows()[2].id, 10);
    assert_eq!(delivered_id(&store), Some(5));
}

#[test]
fn from_rows_rejects_bad_tables() {
    assert!(PinStore::from_rows(vec![row(2, "a", "x"), row(2, "a", "y")]).is_none());
    assert!(PinStore::from_rows(vec![row(3, "a", "x"), row(1, "a", "y")]).is_none());
    assert!(PinStore::from_rows(vec![row(1, "a", "x"), row(2, "a", "x")]).is_none());
    assert!(PinStore::from_rows(Vec::new()).is_some());
}

#[test]
fn room_for_ids() {
    let store = PinStore::from_rows(vec![row(u64::MAX - 2, "a", "x")]).unwrap();
    assert!(store.has_room_for(1));
    assert!(!store.has_room_for(2));
    assert!(PinStore::new().has_room_for(5));
}

#[test]
fn contains_key_checks_author_and_link() {
    let store = PinStore::from_rows(vec![row(1, "a", "x")]).unwrap();
    assert!(store.contains_key(&"a".to_string(), &"x".to_string()));
    assert!(!store.contains_key(&"b".to_string(), &"x".to_string()));
}
