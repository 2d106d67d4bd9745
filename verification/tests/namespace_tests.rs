use schema_builder_library::{
    DatabaseCollections, Namespace, NamespaceInfo, NamespaceInfoWithSchema, NamespaceType,
};
use std::sync::Arc;

fn info(db: &str, coll: &str, namespace_type: NamespaceType) -> NamespaceInfo {
    NamespaceInfo {
        db_name: db.to_string(),
        coll_or_view_name: coll.to_string(),
        namespace_type,
    }
}

#[test]
fn namespace_type_display_names() {
    assert_eq!(NamespaceType::Collection.to_string(), "Collection");
    assert_eq!(NamespaceType::View.to_string(), "View");
}

#[test]
fn namespace_from_collection_info_keeps_names() {
    let ns = Namespace::from(info("sales", "orders", NamespaceType::Collection));
    assert_eq!(
        ns,
        Namespace { database: "sales".to_string(), collection: "orders".to_string() }
    );
}

#[test]
fn namespace_from_view_info_keeps_names() {
    let ns: Namespace = info("sales", "orders_by_day", NamespaceType::View).into();
    assert_eq!(ns.database, "sales");
    assert_eq!(ns.collection, "orders_by_day");
}

#[test]
fn namespace_info_with_schema_holds_its_parts() {
    let with_schema = NamespaceInfoWithSchema {
        namespace_info: info("db", "c", NamespaceType::Collection),
        namespace_schema: Arc::new(42u32),
    };
    let copy = with_schema.clone();
    assert_eq!(copy, with_schema);
    assert_eq!(*copy.namespace_schema, 42);
    assert_eq!(copy.namespace_info.namespace_type, NamespaceType::Collection);
}

#[test]
fn database_collections_default_is_empty() {
    let d: DatabaseCollections<u8> = DatabaseCollections::default();
    assert_eq!(d.db, "");
    assert!(d.views.is_empty());
    assert!(d.collections.is_empty());
    assert!(d.timeseries.is_empty());
}
