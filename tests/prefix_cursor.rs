use polodb_cursor::{stacked_key, BTreePageView, Cursor, CursorItem, DbErr, KeyValue, KvStore};

fn s(x: &str) -> KeyValue {
    KeyValue::String(x.to_string())
}

fn doc_key(coll: &str, id: i64) -> Vec<u8> {
    stacked_key(&[s(coll), KeyValue::Int64(id)]).unwrap()
}

fn store_with(entries: &[(&str, i64, &str)]) -> KvStore {
    let mut db = KvStore::new();
    for (coll, id, val) in entries {
        db.insert(doc_key(coll, *id), val.as_bytes().to_vec());
    }
    db
}

fn scenario_store() -> KvStore {
    store_with(&[("users", 2, "bob"), ("orders", 1, "o1"), ("users", 1, "ann")])
}

fn walk(c: &mut Cursor, db: &KvStore) -> Vec<Vec<u8>> {
    let mut seen = Vec::new();
    while c.has_next() {
        seen.push(c.peek_data(db).unwrap().unwrap());
        c.next().unwrap();
    }
    seen
}

#[test]
fn scan_yields_prefix_entries_in_order() {
    let db = scenario_store();
    let mut c = Cursor::new(s("users"), db.open_cursor()).unwrap();
    c.reset().unwrap();
    let seen = walk(&mut c, &db);
    assert_eq!(seen, vec![b"ann".to_vec(), b"bob".to_vec()]);
    assert!(!c.has_next());
    assert_eq!(c.peek_data(&db).unwrap(), None);
}

#[test]
fn scan_stops_before_next_collection() {
    let db = store_with(&[("a", 1, "a1"), ("b", 1, "b1"), ("b", 7, "b7"), ("c", 1, "c1")]);
    let mut c = Cursor::new(s("b"), db.open_cursor()).unwrap();
    c.reset().unwrap();
    assert_eq!(walk(&mut c, &db), vec![b"b1".to_vec(), b"b7".to_vec()]);
    // the cursor now stands on ("c", 1), outside the range
    assert_eq!(c.peek_data(&db).unwrap(), None);
}

#[test]
fn missing_pkey_lands_outside_range() {
    let db = scenario_store();
    let mut c = Cursor::new(s("users"), db.open_cursor()).unwrap();
    assert_eq!(c.reset_by_pkey(&KeyValue::Int64(5)), Ok(false));
    assert_eq!(c.peek_data(&db).unwrap(), None);
    assert!(!c.has_next());
}

#[test]
fn missing_pkey_lands_on_insertion_point() {
    let db = store_with(&[("users", 1, "ann"), ("users", 9, "zed")]);
    let mut c = Cursor::new(s("users"), db.open_cursor()).unwrap();
    assert_eq!(c.reset_by_pkey(&KeyValue::Int64(5)), Ok(false));
    assert!(c.has_next());
    assert_eq!(c.peek_data(&db).unwrap(), Some(b"zed".to_vec()));
}

#[test]
fn existing_pkey_is_found() {
    let db = scenario_store();
    let mut c = Cursor::new(s("users"), db.open_cursor()).unwrap();
    assert_eq!(c.reset_by_pkey(&KeyValue::Int64(2)), Ok(true));
    assert_eq!(c.peek_data(&db).unwrap(), Some(b"bob".to_vec()));
    assert_eq!(c.reset_by_pkey(&KeyValue::Int64(1)), Ok(true));
    assert_eq!(c.peek_data(&db).unwrap(), Some(b"ann".to_vec()));
    // the same id under another collection is not a match
    let mut o = Cursor::new(s("orders"), db.open_cursor()).unwrap();
    assert_eq!(o.reset_by_pkey(&KeyValue::Int64(2)), Ok(false));
}

#[test]
fn invalid_pkey_is_an_error_and_keeps_position() {
    let db = scenario_store();
    let mut c = Cursor::new(s("users"), db.open_cursor()).unwrap();
    c.reset().unwrap();
    assert_eq!(c.reset_by_pkey(&s("x\0")), Err(DbErr::NotAValidKeyType));
    assert_eq!(c.peek_data(&db).unwrap(), Some(b"ann".to_vec()));
}

#[test]
fn invalid_prefix_is_rejected() {
    let db = scenario_store();
    assert!(matches!(Cursor::new(s("bad\0"), db.open_cursor()), Err(DbErr::NotAValidKeyType)));
}

#[test]
fn reset_twice_gives_same_position() {
    let db = scenario_store();
    let mut c = Cursor::new(s("users"), db.open_cursor()).unwrap();
    c.reset().unwrap();
    let first = c.peek_data(&db).unwrap();
    c.next().unwrap();
    c.reset().unwrap();
    c.reset().unwrap();
    assert_eq!(c.peek_data(&db).unwrap(), first);
    assert_eq!(first, Some(b"ann".to_vec()));
}

#[test]
fn exhausted_cursor_stays_exhausted() {
    let db = store_with(&[("a", 1, "a1"), ("b", 1, "b1"), ("c", 1, "c1"), ("c", 2, "c2")]);
    let mut c = Cursor::new(s("b"), db.open_cursor()).unwrap();
    c.reset().unwrap();
    assert!(c.has_next());
    c.next().unwrap();
    for _ in 0..5 {
        assert!(!c.has_next());
        c.next().unwrap();
    }
    assert!(!c.has_next());
}

#[test]
fn empty_range_and_empty_store() {
    let empty = KvStore::new();
    let mut c = Cursor::new(s("users"), empty.open_cursor()).unwrap();
    c.reset().unwrap();
    assert!(!c.has_next());
    assert_eq!(c.peek_data(&empty).unwrap(), None);
    assert_eq!(c.reset_by_pkey(&KeyValue::Int64(1)), Ok(false));

    let db = store_with(&[("orders", 1, "o1")]);
    let mut u = Cursor::new(s("users"), db.open_cursor()).unwrap();
    u.reset().unwrap();
    assert!(!u.has_next());
}

#[test]
fn peek_before_positioning_is_none() {
    let db = scenario_store();
    let c = Cursor::new(s("users"), db.open_cursor()).unwrap();
    assert_eq!(c.peek_data(&db).unwrap(), None);
}

#[test]
fn peek_reads_value_from_given_store() {
    let db = scenario_store();
    let mut c = Cursor::new(s("users"), db.open_cursor()).unwrap();
    c.reset().unwrap();
    let other = store_with(&[("users", 2, "bob")]);
    assert_eq!(c.peek_data(&other).unwrap(), None);
    let mut newer = scenario_store();
    newer.insert(doc_key("users", 1), b"ann2".to_vec());
    assert_eq!(c.peek_data(&newer).unwrap(), Some(b"ann2".to_vec()));
}

#[test]
fn update_current_is_unsupported() {
    let db = scenario_store();
    let mut c = Cursor::new(s("users"), db.open_cursor()).unwrap();
    c.reset().unwrap();
    let doc = bson::Document::new();
    assert_eq!(c.update_current(&doc), Err(DbErr::Unsupported));
    assert_eq!(c.peek_data(&db).unwrap(), Some(b"ann".to_vec()));
}

#[test]
fn store_insert_replaces_and_gets() {
    let mut db = KvStore::new();
    assert_eq!(db.get(b"k"), None);
    db.insert(b"k".to_vec(), b"1".to_vec());
    db.insert(b"a".to_vec(), b"0".to_vec());
    db.insert(b"k".to_vec(), b"2".to_vec());
    assert_eq!(db.get(b"k"), Some(b"2".to_vec()));
    assert_eq!(db.get(b"a"), Some(b"0".to_vec()));
    assert_eq!(db.get(b"b"), None);
    let mut kc = db.open_cursor();
    assert_eq!(kc.key(), Some(b"a".to_vec()));
    kc.seek(b"b");
    assert_eq!(kc.key(), Some(b"k".to_vec()));
    assert_eq!(kc.value(&db), Some(b"2".to_vec()));
    kc.next();
    assert!(kc.done());
    assert_eq!(kc.key(), None);
    kc.next();
    assert!(kc.done());
}

#[test]
fn page_handle_reports_exhaustion_and_sibling() {
    let page = BTreePageView::new(vec![b"a".to_vec(), b"b".to_vec()], 42);
    assert_eq!(page.len(), 2);
    let at_one = CursorItem::new(page, 1);
    assert!(!at_one.done());
    assert_eq!(at_one.right_pid(), 42);
    let shared = at_one.clone();
    assert_eq!(shared.right_pid(), 42);
    let past = CursorItem::new(BTreePageView::new(vec![b"a".to_vec()], 7), 1);
    assert!(past.done());
    assert_eq!(past.right_pid(), 7);
    assert!(CursorItem::new(BTreePageView::new(Vec::new(), 0), 0).done());
}
