# schema_builder_library

A Verus-verified core for a MongoDB schema builder and its test catalogs.

- `src/namespace.rs`: namespace descriptions (`NamespaceType`, `NamespaceInfo`,
  `Namespace`, `NamespaceInfoWithSchema`).
- `src/collection.rs`: `DatabaseCollections`, and `separate_collection_types`, which
  filters a database's listed collections by glob patterns and sorts them by kind.
- `src/schema_map.rs`: `SchemaMap`, a map from collection names to schemas.
- `src/initial_schema.rs`: the query that reads initial schemas from a cursor,
  one item at a time, with its laws.
- `src/catalog.rs`: the plans that drop and load a test catalog, the run that
  hands the operations out, and its laws.
- `src/catalog_laws.rs`: the order in which a sorted catalog is loaded, and
  what loading and dropping leave on a server that performs every operation.
- `app/`: the I/O around it (cursors, tokio tasks, the MongoDB client).
