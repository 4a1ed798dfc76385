use conn_registry::{
    delete_connection, get_connections, save_connection, DbState, SavedConnection, StorageState,
    StoreError,
};

fn details(uri: &str) -> serde_json::Value {
    let mut m = serde_json::Map::new();
    m.insert("uri".to_string(), serde_json::Value::String(uri.to_string()));
    serde_json::Value::Object(m)
}

fn profile(id: &str, name: &str, uri: &str) -> SavedConnection {
    SavedConnection {
        id: id.to_string(),
        name: name.to_string(),
        db_type: "mongodb".to_string(),
        details: details(uri),
    }
}

fn empty() -> StorageState {
    StorageState::new("/data/app/connections.json".to_string(), None)
}

fn upsert(state: &mut StorageState, c: SavedConnection) -> Result<(), StoreError> {
    let next = state.with_connection(&c);
    assert!(next.iter().any(|x| *x == c));
    save_connection(state, c, Ok(()))
}

fn delete(state: &mut StorageState, id: &str) -> Result<(), StoreError> {
    match state.without_connection(&id.to_string()) {
        Ok(_) => delete_connection(state, id.to_string(), Ok(())),
        Err(e) => Err(e),
    }
}

#[test]
fn concrete_scenario_save_list_delete() {
    let mut st = empty();
    let p = profile("1", "Local", "mongodb://localhost:27017");
    assert_eq!(upsert(&mut st, p.clone()), Ok(()));
    let listed = get_connections(&st);
    assert_eq!(listed.len(), 1);
    assert_eq!(listed[0].id, "1");
    assert_eq!(listed[0], p);
    assert_eq!(delete(&mut st, "1"), Ok(()));
    assert!(get_connections(&st).is_empty());
    assert_eq!(delete(&mut st, "1"), Err(StoreError::NotFound));
}

#[test]
fn round_trip_holds_profile_once() {
    let mut st = empty();
    upsert(&mut st, profile("a", "A", "mongodb://a")).unwrap();
    let p = profile("b", "B", "mongodb://b");
    upsert(&mut st, p.clone()).unwrap();
    let listed = get_connections(&st);
    assert_eq!(listed.iter().filter(|x| **x == p).count(), 1);
    assert_eq!(listed[1], p);
}

#[test]
fn reopen_reproduces_saved_collection() {
    let mut st = empty();
    upsert(&mut st, profile("a", "A", "mongodb://a")).unwrap();
    upsert(&mut st, profile("b", "B", "mongodb://b")).unwrap();
    let before = get_connections(&st);
    let reopened = StorageState::new(st.file_path.clone(), Some(before.clone()));
    assert_eq!(get_connections(&reopened), before);
    assert_eq!(reopened.file_path, "/data/app/connections.json");
}

#[test]
fn upsert_twice_is_idempotent() {
    let mut once = empty();
    upsert(&mut once, profile("x", "X", "mongodb://x")).unwrap();
    upsert(&mut once, profile("p", "P", "mongodb://p")).unwrap();
    let mut twice = empty();
    upsert(&mut twice, profile("x", "X", "mongodb://x")).unwrap();
    upsert(&mut twice, profile("p", "P", "mongodb://p")).unwrap();
    upsert(&mut twice, profile("p", "P", "mongodb://p")).unwrap();
    assert_eq!(get_connections(&twice), get_connections(&once));
    assert_eq!(get_connections(&twice).len(), 2);
}

#[test]
fn upsert_same_id_updates_in_place() {
    let mut st = empty();
    upsert(&mut st, profile("a", "A", "mongodb://a")).unwrap();
    upsert(&mut st, profile("b", "B", "mongodb://b")).unwrap();
    upsert(&mut st, profile("c", "C", "mongodb://c")).unwrap();
    let second = profile("b", "Renamed", "mongodb://elsewhere");
    upsert(&mut st, second.clone()).unwrap();
    let listed = get_connections(&st);
    assert_eq!(listed.len(), 3);
    assert_eq!(listed[0].id, "a");
    assert_eq!(listed[1], second);
    assert_eq!(listed[2].id, "c");
}

#[test]
fn delete_missing_id_is_not_found() {
    let mut st = empty();
    assert_eq!(delete(&mut st, "nonexistent"), Err(StoreError::NotFound));
    upsert(&mut st, profile("a", "A", "mongodb://a")).unwrap();
    assert!(matches!(
        st.without_connection(&"nonexistent".to_string()),
        Err(StoreError::NotFound)
    ));
    assert_eq!(
        delete_connection(&mut st, "nonexistent".to_string(), Ok(())),
        Err(StoreError::NotFound)
    );
    assert_eq!(get_connections(&st), vec![profile("a", "A", "mongodb://a")]);
}

#[test]
fn unreadable_file_opens_empty() {
    let st = StorageState::new("/tmp/connections.json".to_string(), None);
    assert!(get_connections(&st).is_empty());
    assert_eq!(st.file_path, "/tmp/connections.json");
}

#[test]
fn duplicate_ids_in_file_keep_first() {
    let loaded = vec![
        profile("a", "First", "mongodb://1"),
        profile("b", "B", "mongodb://b"),
        profile("a", "Second", "mongodb://2"),
    ];
    let st = StorageState::new("/tmp/c.json".to_string(), Some(loaded));
    let listed = get_connections(&st);
    assert_eq!(listed.len(), 2);
    assert_eq!(listed[0].name, "First");
    assert_eq!(listed[1].id, "b");
}

#[test]
fn failed_write_leaves_registry_unchanged() {
    let mut st = empty();
    upsert(&mut st, profile("a", "A", "mongodb://a")).unwrap();
    let before = get_connections(&st);
    let r = save_connection(&mut st, profile("b", "B", "mongodb://b"), Err("disk full".to_string()));
    assert_eq!(r, Err(StoreError::Io("disk full".to_string())));
    assert_eq!(get_connections(&st), before);
    let r = delete_connection(&mut st, "a".to_string(), Err("read-only".to_string()));
    assert_eq!(r, Err(StoreError::Io("read-only".to_string())));
    assert_eq!(get_connections(&st), before);
}

#[test]
fn prepared_collections_match_commits() {
    let mut st = empty();
    upsert(&mut st, profile("a", "A", "mongodb://a")).unwrap();
    let next = st.with_connection(&profile("b", "B", "mongodb://b"));
    assert_eq!(next.len(), 2);
    assert_eq!(get_connections(&st).len(), 1);
    let without = st.without_connection(&"a".to_string()).unwrap();
    assert!(without.is_empty());
    assert_eq!(get_connections(&st).len(), 1);
}

#[test]
fn details_are_copied_unchanged() {
    let mut st = empty();
    let p = profile("d", "D", "mongodb://host:27017/db");
    upsert(&mut st, p).unwrap();
    let listed = get_connections(&st);
    assert_eq!(listed[0].details["uri"], "mongodb://host:27017/db");
}

#[test]
fn db_state_starts_empty_and_records_connection() {
    let mut db: DbState<u32> = DbState::default();
    assert!(db.client.is_none());
    assert!(db.db_name.is_none());
    db.connect(7, "admin".to_string());
    assert_eq!(db.client, Some(7));
    assert_eq!(db.db_name, Some("admin".to_string()));
}
