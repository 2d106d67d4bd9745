use vstd::prelude::*;

verus! {

/// Errors of the schema builder; `E` is the data service's own error.
#[derive(Debug)]
pub enum Error<E> {
    /// The data service failed.
    DataServiceError(E),
    /// A document of the named schema collection is not an initial schema.
    InitialSchemaError(String),
}

} // verus!
