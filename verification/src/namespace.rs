use std::sync::Arc;
use vstd::prelude::*;

verus! {

/// The two namespace types for which schema can be generated.
#[derive(Debug, PartialEq, Eq, Structural, Clone, Copy)]
pub enum NamespaceType {
    Collection,
    View,
}

impl NamespaceType {
    /// The name under which the namespace type is displayed.
    pub open spec fn display_name(self) -> Seq<char> {
        match self {
            NamespaceType::Collection => "Collection"@,
            NamespaceType::View => "View"@,
        }
    }

    /// Renders the namespace type: `Collection` or `View`.
    pub fn to_string(&self) -> (s: String)
        ensures
            s@ == self.display_name(),
            *self == NamespaceType::Collection ==> s@ == "Collection"@,
            *self == NamespaceType::View ==> s@ == "View"@,
    {
        match self {
            NamespaceType::Collection => "Collection".to_owned(),
            NamespaceType::View => "View".to_owned(),
        }
    }
}

/// Namespace information for a view or collection.
#[derive(Debug, PartialEq, Clone)]
pub struct NamespaceInfo {
    /// The name of the database.
    pub db_name: String,
    /// The name of the collection or view which this schema represents.
    pub coll_or_view_name: String,
    /// The type of namespace (collection or view).
    pub namespace_type: NamespaceType,
}

/// A database namespace: a database and a collection within it.
#[derive(Debug, PartialEq, Clone)]
pub struct Namespace {
    pub database: String,
    pub collection: String,
}

impl From<NamespaceInfo> for Namespace {
    /// Keeps the database and collection names and forgets the namespace type.
    fn from(value: NamespaceInfo) -> (ns: Namespace) {
        Namespace { database: value.db_name, collection: value.coll_or_view_name }
    }
}

impl vstd::std_specs::convert::FromSpecImpl<NamespaceInfo> for Namespace {
    open spec fn obeys_from_spec() -> bool {
        true
    }

    open spec fn from_spec(value: NamespaceInfo) -> Namespace {
        Namespace { database: value.db_name, collection: value.coll_or_view_name }
    }
}

/// Converting namespace information to a namespace keeps its database name
/// as the database and its collection or view name as the collection.
pub proof fn lemma_namespace_keeps_names(info: NamespaceInfo)
    ensures
        <Namespace as vstd::std_specs::convert::FromSpec<NamespaceInfo>>::from_spec(
            info,
        ).database == info.db_name,
        <Namespace as vstd::std_specs::convert::FromSpec<NamespaceInfo>>::from_spec(
            info,
        ).collection == info.coll_or_view_name,
{
}

/// Schema information for a specific namespace (a view or collection).
#[derive(Debug, PartialEq, Clone)]
pub struct NamespaceInfoWithSchema<S> {
    pub namespace_info: NamespaceInfo,
    /// The schema for the namespace.
    pub namespace_schema: Arc<S>,
}

} // verus!
