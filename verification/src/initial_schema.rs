//! Reading the initial schemas of a database from its schema collection.
//!
//! Every document of the schema collection names a collection and gives its
//! initial schema. The documents come from a cursor of the data service, one
//! at a time: the caller reads the cursor and hands each item to the query,
//! which decides whether to go on. All documents must read as initial
//! schemas: the first one that does not fails the whole query, as does a
//! failure of the cursor. When the cursor is exhausted the query gives the
//! map from each collection to its schema, the later document winning where
//! two name the same collection.
use crate::errors::Error;
use crate::schema_map::SchemaMap;
use vstd::prelude::*;

verus! {

/// One item read from the cursor over the schema collection.
#[derive(Debug)]
pub enum CursorItem<S, E> {
    /// A document that reads as the initial schema `schema` of `collection`.
    Schema { collection: String, schema: S },
    /// A document that does not read as an initial schema.
    Malformed,
    /// The cursor failed.
    Failed(E),
    /// The cursor has no more documents.
    Exhausted,
}

/// The mathematical value of a [`CursorItem`].
pub enum CursorItemView<S, E> {
    Schema(Seq<char>, S),
    Malformed,
    Failed(E),
    Exhausted,
}

impl<S, E> View for CursorItem<S, E> {
    type V = CursorItemView<S, E>;

    open spec fn view(&self) -> CursorItemView<S, E> {
        match self {
            CursorItem::Schema { collection, schema } => CursorItemView::Schema(
                collection@,
                *schema,
            ),
            CursorItem::Malformed => CursorItemView::Malformed,
            CursorItem::Failed(e) => CursorItemView::Failed(*e),
            CursorItem::Exhausted => CursorItemView::Exhausted,
        }
    }
}

/// The mathematical value of an [`Error`].
pub enum ErrorView<E> {
    DataServiceError(E),
    InitialSchemaError(Seq<char>),
}

impl<E> View for Error<E> {
    type V = ErrorView<E>;

    open spec fn view(&self) -> ErrorView<E> {
        match self {
            Error::DataServiceError(e) => ErrorView::DataServiceError(*e),
            Error::InitialSchemaError(name) => ErrorView::InitialSchemaError(name@),
        }
    }
}

/// The outcome of a query over the schema collection `schema_collection`
/// that has gathered `schemas` so far and then reads `items`: `None` while
/// the items do not finish it.
pub open spec fn query_outcome<S, E>(
    schema_collection: Seq<char>,
    schemas: Map<Seq<char>, S>,
    items: Seq<CursorItemView<S, E>>,
) -> Option<Result<Map<Seq<char>, S>, ErrorView<E>>>
    decreases items.len(),
{
    if items.len() == 0 {
        None
    } else {
        match items[0] {
            CursorItemView::Schema(collection, schema) => query_outcome(
                schema_collection,
                schemas.insert(collection, schema),
                items.drop_first(),
            ),
            CursorItemView::Malformed => Some(
                Err(ErrorView::InitialSchemaError(schema_collection)),
            ),
            CursorItemView::Failed(e) => Some(Err(ErrorView::DataServiceError(e))),
            CursorItemView::Exhausted => Some(Ok(schemas)),
        }
    }
}

/// The value of a finished query's result.
pub open spec fn result_view<S, E>(r: Result<SchemaMap<S>, Error<E>>) -> Result<
    Map<Seq<char>, S>,
    ErrorView<E>,
> {
    match r {
        Ok(m) => Ok(m@),
        Err(e) => Err(e@),
    }
}

/// A query over a schema collection, part way through its cursor.
pub struct InitialSchemaQuery<S> {
    /// The name of the schema collection.
    pub schema_collection: String,
    /// The schemas read so far.
    pub schemas: SchemaMap<S>,
}

/// A query that goes on, or the result of one that is over.
pub enum QueryProgress<S, E> {
    /// The query wants the next item of the cursor.
    Pending(InitialSchemaQuery<S>),
    /// The query is over.
    Done(Result<SchemaMap<S>, Error<E>>),
}

impl<S> InitialSchemaQuery<S> {
    /// A query over `schema_collection` that has read nothing yet.
    pub fn new(schema_collection: &str) -> (q: Self)
        ensures
            q.schema_collection@ == schema_collection@,
            q.schemas@ == Map::<Seq<char>, S>::empty(),
    {
        InitialSchemaQuery {
            schema_collection: schema_collection.to_owned(),
            schemas: SchemaMap::new(),
        }
    }

    /// Takes the next item of the cursor: a schema is added to the map, in
    /// place of any earlier one of the same collection; a document that is
    /// not an initial schema fails the query with an error that names the
    /// schema collection; a failure of the cursor fails the query with the
    /// cursor's error; the end of the cursor gives the map.
    pub fn advance<E>(self, item: CursorItem<S, E>) -> (p: QueryProgress<S, E>)
        ensures
            item is Schema ==> (p matches QueryProgress::Pending(q) && q.schema_collection@
                == self.schema_collection@ && q.schemas@ == self.schemas@.insert(
                item->collection@,
                item->schema,
            )),
            item is Malformed ==> (p matches QueryProgress::Done(Err(err)) && err@
                == ErrorView::<E>::InitialSchemaError(self.schema_collection@)),
            item is Failed ==> (p matches QueryProgress::Done(Err(err)) && err@
                == ErrorView::DataServiceError(item->Failed_0)),
            item is Exhausted ==> (p matches QueryProgress::Done(Ok(m)) && m@ == self.schemas@),
            p matches QueryProgress::Done(r) ==> query_outcome(
                self.schema_collection@,
                self.schemas@,
                seq![item@],
            ) == Some(result_view(r)),
            p matches QueryProgress::Pending(q) ==> forall|rest: Seq<CursorItemView<S, E>>|
                #[trigger] query_outcome(self.schema_collection@, self.schemas@, seq![item@] + rest)
                    == query_outcome(q.schema_collection@, q.schemas@, rest),
    {
        let ghost sc = self.schema_collection@;
        let ghost before = self.schemas@;
        let ghost iv = item@;
        proof {
            assert forall|rest: Seq<CursorItemView<S, E>>| #[trigger] (seq![iv] + rest).drop_first()
                == rest by {
                assert((seq![iv] + rest).drop_first() =~= rest);
            }
            assert(seq![iv].drop_first() =~= Seq::<CursorItemView<S, E>>::empty());
        }
        let InitialSchemaQuery { schema_collection, mut schemas } = self;
        match item {
            CursorItem::Schema { collection, schema } => {
                schemas.insert(collection, schema);
                QueryProgress::Pending(InitialSchemaQuery { schema_collection, schemas })
            },
            CursorItem::Malformed => QueryProgress::Done(
                Err(Error::InitialSchemaError(schema_collection)),
            ),
            CursorItem::Failed(e) => QueryProgress::Done(Err(Error::DataServiceError(e))),
            CursorItem::Exhausted => QueryProgress::Done(Ok(schemas)),
        }
    }
}

/// The map that inserting `entries` into `schemas` in order gives.
pub open spec fn insert_all<S>(schemas: Map<Seq<char>, S>, entries: Seq<(Seq<char>, S)>) -> Map<
    Seq<char>,
    S,
>
    decreases entries.len(),
{
    if entries.len() == 0 {
        schemas
    } else {
        insert_all(schemas.insert(entries[0].0, entries[0].1), entries.drop_first())
    }
}

/// The cursor items of documents that all read as initial schemas.
pub open spec fn schema_items<S, E>(entries: Seq<(Seq<char>, S)>) -> Seq<CursorItemView<S, E>> {
    entries.map_values(|e: (Seq<char>, S)| CursorItemView::Schema(e.0, e.1))
}

/// When every document reads as an initial schema and the cursor then ends,
/// the query succeeds with the map that inserting the documents in order
/// gives: each collection with the schema of the last document naming it.
pub proof fn lemma_all_documents_read<S, E>(
    schema_collection: Seq<char>,
    schemas: Map<Seq<char>, S>,
    entries: Seq<(Seq<char>, S)>,
)
    ensures
        query_outcome(
            schema_collection,
            schemas,
            schema_items::<S, E>(entries).push(CursorItemView::Exhausted),
        ) == Some(Ok::<Map<Seq<char>, S>, ErrorView<E>>(insert_all(schemas, entries))),
    decreases entries.len(),
{
    let items = schema_items::<S, E>(entries).push(CursorItemView::Exhausted);
    if entries.len() == 0 {
        assert(items[0] == CursorItemView::<S, E>::Exhausted);
    } else {
        lemma_all_documents_read::<S, E>(
            schema_collection,
            schemas.insert(entries[0].0, entries[0].1),
            entries.drop_first(),
        );
        assert(items[0] == CursorItemView::<S, E>::Schema(entries[0].0, entries[0].1));
        assert(items.drop_first() =~= schema_items::<S, E>(entries.drop_first()).push(
            CursorItemView::Exhausted,
        ));
    }
}

/// A document that does not read as an initial schema fails the whole query
/// with the error that names the schema collection, whatever follows it,
/// when the documents before it all read as initial schemas.
pub proof fn lemma_malformed_document_fails<S, E>(
    schema_collection: Seq<char>,
    schemas: Map<Seq<char>, S>,
    entries: Seq<(Seq<char>, S)>,
    rest: Seq<CursorItemView<S, E>>,
)
    ensures
        query_outcome(
            schema_collection,
            schemas,
            schema_items::<S, E>(entries).push(CursorItemView::Malformed) + rest,
        ) == Some(
            Err::<Map<Seq<char>, S>, ErrorView<E>>(
                ErrorView::InitialSchemaError(schema_collection),
            ),
        ),
    decreases entries.len(),
{
    let items = schema_items::<S, E>(entries).push(CursorItemView::Malformed) + rest;
    if entries.len() == 0 {
        assert(items[0] == CursorItemView::<S, E>::Malformed);
    } else {
        lemma_malformed_document_fails::<S, E>(
            schema_collection,
            schemas.insert(entries[0].0, entries[0].1),
            entries.drop_first(),
            rest,
        );
        assert(items[0] == CursorItemView::<S, E>::Schema(entries[0].0, entries[0].1));
        assert(items.drop_first() =~= schema_items::<S, E>(entries.drop_first()).push(
            CursorItemView::Malformed,
        ) + rest);
    }
}

} // verus!
