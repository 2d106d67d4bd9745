use schema_builder_library::initial_schema::{CursorItem, InitialSchemaQuery, QueryProgress};
use schema_builder_library::{Error, SchemaMap};

fn schema(collection: &str, value: u32) -> CursorItem<u32, String> {
    CursorItem::Schema { collection: collection.to_string(), schema: value }
}

/// Feeds the items to a fresh query and returns how it ended, if it did.
fn run(items: Vec<CursorItem<u32, String>>) -> Option<Result<SchemaMap<u32>, Error<String>>> {
    let mut query = InitialSchemaQuery::new("__sql_schemas");
    for item in items {
        match query.advance(item) {
            QueryProgress::Pending(q) => query = q,
            QueryProgress::Done(r) => return Some(r),
        }
    }
    None
}

#[test]
fn schema_map_insert_get_and_replace() {
    let mut m = SchemaMap::new();
    assert_eq!(m.len(), 0);
    m.insert("a".to_string(), 1u32);
    m.insert("b".to_string(), 2u32);
    assert_eq!(m.get(&"a".to_string()), Some(&1));
    assert_eq!(m.get(&"b".to_string()), Some(&2));
    assert_eq!(m.get(&"c".to_string()), None);
    m.insert("a".to_string(), 3u32);
    assert_eq!(m.get(&"a".to_string()), Some(&3));
    assert_eq!(m.len(), 2);
    let mut entries = m.into_entries();
    entries.sort();
    assert_eq!(entries, vec![("a".to_string(), 3), ("b".to_string(), 2)]);
}

#[test]
fn query_collects_every_schema() {
    let r = run(vec![schema("foo", 1), schema("bar", 2), CursorItem::Exhausted]);
    let m = match r {
        Some(Ok(m)) => m,
        _ => panic!("the query should succeed"),
    };
    assert_eq!(m.len(), 2);
    assert_eq!(m.get(&"foo".to_string()), Some(&1));
    assert_eq!(m.get(&"bar".to_string()), Some(&2));
}

#[test]
fn query_keeps_the_last_schema_of_a_collection() {
    let r = run(vec![schema("foo", 1), schema("foo", 5), CursorItem::Exhausted]);
    let m = match r {
        Some(Ok(m)) => m,
        _ => panic!("the query should succeed"),
    };
    assert_eq!(m.len(), 1);
    assert_eq!(m.get(&"foo".to_string()), Some(&5));
}

#[test]
fn query_over_an_empty_collection_gives_no_schemas() {
    match run(vec![CursorItem::Exhausted]) {
        Some(Ok(m)) => assert_eq!(m.len(), 0),
        _ => panic!("the query should succeed"),
    }
}

#[test]
fn malformed_document_fails_with_the_schema_collection_name() {
    match run(vec![schema("foo", 1), CursorItem::Malformed, schema("bar", 2), CursorItem::Exhausted]) {
        Some(Err(Error::InitialSchemaError(name))) => assert_eq!(name, "__sql_schemas"),
        _ => panic!("the query should fail on the malformed document"),
    }
}

#[test]
fn cursor_failure_fails_with_the_service_error() {
    match run(vec![schema("foo", 1), CursorItem::Failed("lost connection".to_string())]) {
        Some(Err(Error::DataServiceError(e))) => assert_eq!(e, "lost connection"),
        _ => panic!("the query should fail with the cursor's error"),
    }
}

#[test]
fn query_goes_on_until_the_cursor_ends() {
    assert!(run(vec![schema("foo", 1), schema("bar", 2)]).is_none());
}
