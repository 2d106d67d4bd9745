//! Verified core of a schema builder for MongoDB namespaces: namespace
//! descriptions, the bookkeeping of a database's collections, the collection
//! of initial schemas read from a schema collection, and the plans that load
//! and drop test catalogs.

pub mod catalog;
pub mod catalog_laws;
pub mod collection;
pub mod errors;
pub mod initial_schema;
pub mod namespace;
pub mod schema_map;

pub use collection::DatabaseCollections;
pub use errors::Error;
pub use namespace::{Namespace, NamespaceInfo, NamespaceInfoWithSchema, NamespaceType};
pub use schema_map::SchemaMap;
