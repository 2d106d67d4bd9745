//! Loading and dropping a test catalog.
//!
//! A catalog maps database names to collections, and each collection to the
//! documents that it holds. Loading a catalog first drops every database it
//! names, then inserts the documents of each collection, in the catalog's
//! order; the first operation that fails ends the work with an error that
//! names the database (and the collection) it was about. The operations
//! themselves go to a database server, so this module decides what to do and
//! in which order, and the caller performs each operation and reports back.
use vstd::prelude::*;

verus! {

/// Errors of loading or dropping a catalog; `E` is the database's own error.
#[derive(Debug)]
pub enum Error<E> {
    /// Dropping the named database failed.
    MongoDBDrop(String, E),
    /// Inserting documents into the named database and collection failed.
    MongoDBInsert(String, String, E),
}

/// The mathematical value of an [`Error`].
pub enum ErrorView<E> {
    MongoDBDrop(Seq<char>, E),
    MongoDBInsert(Seq<char>, Seq<char>, E),
}

impl<E> View for Error<E> {
    type V = ErrorView<E>;

    open spec fn view(&self) -> ErrorView<E> {
        match self {
            Error::MongoDBDrop(db, e) => ErrorView::MongoDBDrop(db@, *e),
            Error::MongoDBInsert(db, coll, e) => ErrorView::MongoDBInsert(db@, coll@, *e),
        }
    }
}

/// One operation on the database server.
#[derive(Debug)]
pub enum CatalogOp<D> {
    /// Drop the named database.
    DropDatabase { db: String },
    /// Insert the documents into the named collection of the named database.
    InsertMany { db: String, coll: String, documents: Vec<D> },
}

/// The mathematical value of a [`CatalogOp`].
pub enum CatalogOpView<D> {
    DropDatabase(Seq<char>),
    InsertMany(Seq<char>, Seq<char>, Seq<D>),
}

impl<D> View for CatalogOp<D> {
    type V = CatalogOpView<D>;

    open spec fn view(&self) -> CatalogOpView<D> {
        match self {
            CatalogOp::DropDatabase { db } => CatalogOpView::DropDatabase(db@),
            CatalogOp::InsertMany { db, coll, documents } => CatalogOpView::InsertMany(
                db@,
                coll@,
                documents@,
            ),
        }
    }
}

/// What an operation is about: its database, and its collection if it has one.
pub struct OpTarget {
    pub db: String,
    pub coll: Option<String>,
}

impl View for OpTarget {
    type V = (Seq<char>, Option<Seq<char>>);

    open spec fn view(&self) -> (Seq<char>, Option<Seq<char>>) {
        (
            self.db@,
            match self.coll {
                Some(c) => Some(c@),
                None => None,
            },
        )
    }
}

/// The database and collection that an operation is about.
pub open spec fn target_of<D>(op: CatalogOpView<D>) -> (Seq<char>, Option<Seq<char>>) {
    match op {
        CatalogOpView::DropDatabase(db) => (db, None),
        CatalogOpView::InsertMany(db, coll, _) => (db, Some(coll)),
    }
}

/// The error that reports the failure `e` of an operation on `target`.
pub open spec fn failure_of<E>(target: (Seq<char>, Option<Seq<char>>), e: E) -> ErrorView<E> {
    match target.1 {
        None => ErrorView::MongoDBDrop(target.0, e),
        Some(coll) => ErrorView::MongoDBInsert(target.0, coll, e),
    }
}

impl<D> CatalogOp<D> {
    /// The database and collection that this operation is about.
    pub fn target(&self) -> (t: OpTarget)
        ensures
            t@ == target_of(self@),
    {
        match self {
            CatalogOp::DropDatabase { db } => OpTarget { db: db.clone(), coll: None },
            CatalogOp::InsertMany { db, coll, .. } => OpTarget {
                db: db.clone(),
                coll: Some(coll.clone()),
            },
        }
    }
}

impl OpTarget {
    /// The error that reports that the operation on this target failed with `e`.
    pub fn failure<E>(self, e: E) -> (err: Error<E>)
        ensures
            err@ == failure_of(self@, e),
    {
        match self.coll {
            None => Error::MongoDBDrop(self.db, e),
            Some(coll) => Error::MongoDBInsert(self.db, coll, e),
        }
    }
}

/// The values of a sequence of operations.
pub open spec fn ops_view<D>(ops: Seq<CatalogOp<D>>) -> Seq<CatalogOpView<D>> {
    ops.map_values(|op: CatalogOp<D>| op@)
}

/// The values of a sequence of strings.
pub open spec fn strings_view(strings: Seq<String>) -> Seq<Seq<char>> {
    strings.map_values(|s: String| s@)
}

/// The values of a database's collections: each collection's name and documents.
pub open spec fn colls_view<D>(colls: Seq<(String, Vec<D>)>) -> Seq<(Seq<char>, Seq<D>)> {
    colls.map_values(|c: (String, Vec<D>)| (c.0@, c.1@))
}

/// A catalog as mathematical values: database names, each with its
/// collections' names and documents, in order.
pub type CatalogView<D> = Seq<(Seq<char>, Seq<(Seq<char>, Seq<D>)>)>;

/// The value of a catalog held in vectors.
pub open spec fn catalog_view<D>(catalog: Seq<(String, Vec<(String, Vec<D>)>)>) -> CatalogView<D> {
    catalog.map_values(
        |entry: (String, Vec<(String, Vec<D>)>)|
            (entry.0@, colls_view(entry.1@)),
    )
}

/// The names of the databases of a catalog, in order.
pub open spec fn catalog_dbs<D>(catalog: CatalogView<D>) -> Seq<Seq<char>> {
    catalog.map_values(|entry: (Seq<char>, Seq<(Seq<char>, Seq<D>)>)| entry.0)
}

/// Dropping databases: one drop per name, in order.
pub open spec fn drop_plan_spec<D>(dbs: Seq<Seq<char>>) -> Seq<CatalogOpView<D>> {
    dbs.map_values(|db: Seq<char>| CatalogOpView::DropDatabase(db))
}

/// The insertions into the collections of one database, in order.
pub open spec fn collection_inserts<D>(db: Seq<char>, colls: Seq<(Seq<char>, Seq<D>)>) -> Seq<
    CatalogOpView<D>,
> {
    colls.map_values(|c: (Seq<char>, Seq<D>)| CatalogOpView::InsertMany(db, c.0, c.1))
}

/// The insertions of a whole catalog: database by database, collection by
/// collection.
pub open spec fn insert_plan_spec<D>(catalog: CatalogView<D>) -> Seq<CatalogOpView<D>>
    decreases catalog.len(),
{
    if catalog.len() == 0 {
        Seq::empty()
    } else {
        insert_plan_spec(catalog.drop_last()) + collection_inserts(
            catalog.last().0,
            catalog.last().1,
        )
    }
}

/// Loading a catalog: drop each of its databases, then insert its documents.
pub open spec fn load_plan_spec<D>(catalog: CatalogView<D>) -> Seq<CatalogOpView<D>> {
    drop_plan_spec(catalog_dbs(catalog)) + insert_plan_spec(catalog)
}

/// The operations that drop each of the databases `dbs`, in order.
pub fn drop_plan<D>(dbs: &Vec<String>) -> (ops: Vec<CatalogOp<D>>)
    ensures
        ops_view(ops@) == drop_plan_spec::<D>(strings_view(dbs@)),
{
    let mut ops: Vec<CatalogOp<D>> = Vec::new();
    let n = dbs.len();
    for i in 0..n
        invariant
            n == dbs.len(),
            ops_view(ops@) == drop_plan_spec::<D>(
                strings_view(dbs@).take(i as int),
            ),
    {
        let ghost before = ops@;
        ops.push(CatalogOp::DropDatabase { db: dbs[i].clone() });
        assert(ops_view(ops@) =~= ops_view(before).push(CatalogOpView::DropDatabase(dbs@[i as int]@)));
        assert(strings_view(dbs@).take(i + 1) =~= strings_view(dbs@).take(
            i as int,
        ).push(dbs@[i as int]@));
        assert(drop_plan_spec::<D>(strings_view(dbs@).take(i + 1)) =~= drop_plan_spec::<
            D,
        >(strings_view(dbs@).take(i as int)).push(
            CatalogOpView::DropDatabase(dbs@[i as int]@),
        ));
    }
    assert(strings_view(dbs@).take(n as int) =~= strings_view(dbs@));
    ops
}

/// The names of the databases of a catalog, in order.
fn catalog_db_names<D>(catalog: &Vec<(String, Vec<(String, Vec<D>)>)>) -> (dbs: Vec<String>)
    ensures
        strings_view(dbs@) == catalog_dbs(catalog_view(catalog@)),
{
    let mut dbs: Vec<String> = Vec::new();
    let n = catalog.len();
    for i in 0..n
        invariant
            n == catalog.len(),
            dbs@.len() == i,
            strings_view(dbs@) == catalog_dbs(catalog_view(catalog@)).take(i as int),
    {
        let ghost prev = dbs@;
        dbs.push(catalog[i].0.clone());
        assert(catalog_view(catalog@)[i as int].0 == catalog@[i as int].0@);
        assert forall|k: int| 0 <= k <= i implies #[trigger] strings_view(dbs@)[k]
            == catalog_dbs(catalog_view(catalog@)).take(i + 1)[k] by {
            if k < i {
                assert(dbs@[k] == prev[k]);
                assert(strings_view(prev)[k] == catalog_dbs(
                    catalog_view(catalog@),
                ).take(i as int)[k]);
            }
        }
        assert(strings_view(dbs@) =~= catalog_dbs(catalog_view(catalog@)).take(
            i + 1,
        ));
    }
    assert(catalog_dbs(catalog_view(catalog@)).take(n as int) =~= catalog_dbs(
        catalog_view(catalog@),
    ));
    dbs
}

/// Appends to `ops` the insertions into the collections `colls` of database `db`.
fn push_collection_inserts<D>(ops: &mut Vec<CatalogOp<D>>, db: &String, colls: Vec<(String, Vec<D>)>)
    ensures
        ops_view(final(ops)@) == ops_view(old(ops)@) + collection_inserts(
            db@,
            colls_view(colls@),
        ),
{
    let ghost all = colls_view(colls@);
    let ghost start = ops_view(ops@);
    let mut rest = colls;
    let ghost mut done: int = 0;
    while rest.len() > 0
        invariant
            0 <= done <= all.len(),
            colls_view(rest@) == all.skip(done),
            rest@.len() == all.len() - done,
            ops_view(ops@) == start + collection_inserts(db@, all.take(done)),
        decreases rest.len(),
    {
        let ghost before = ops@;
        let ghost prev = rest@;
        let (coll, documents) = rest.remove(0);
        assert(all[done] == (coll@, documents@)) by {
            assert(all.skip(done)[0] == all[done]);
        }
        ops.push(CatalogOp::InsertMany { db: db.clone(), coll, documents });
        assert(ops_view(ops@) =~= ops_view(before).push(
            CatalogOpView::InsertMany(db@, all[done].0, all[done].1),
        ));
        assert(all.take(done + 1) =~= all.take(done).push(all[done]));
        assert(collection_inserts(db@, all.take(done + 1)) =~= collection_inserts(
            db@,
            all.take(done),
        ).push(CatalogOpView::InsertMany(db@, all[done].0, all[done].1)));
        assert forall|k: int| 0 <= k < rest@.len() implies colls_view(rest@)[k] == all.skip(done + 1)[k] by {
            assert(rest@[k] == prev[k + 1]);
            assert(colls_view(prev)[k + 1] == all.skip(done)[k
                + 1]);
        }
        assert(colls_view(rest@) =~= all.skip(done + 1));
        proof {
            done = done + 1;
        }
    }
    assert(all.take(done) =~= all);
}

/// The operations that load `catalog`: every database that the catalog names
/// is dropped first, then the documents of each collection are inserted,
/// database by database and collection by collection, in the catalog's order.
pub fn load_plan<D>(catalog: Vec<(String, Vec<(String, Vec<D>)>)>) -> (ops: Vec<CatalogOp<D>>)
    ensures
        ops_view(ops@) == load_plan_spec(catalog_view(catalog@)),
{
    let ghost all = catalog_view(catalog@);
    let dbs = catalog_db_names(&catalog);
    let mut ops: Vec<CatalogOp<D>> = drop_plan(&dbs);
    let ghost drops = ops_view(ops@);
    assert(drops == drop_plan_spec::<D>(catalog_dbs(all)));
    let mut rest = catalog;
    let ghost mut done: int = 0;
    while rest.len() > 0
        invariant
            0 <= done <= all.len(),
            catalog_view(rest@) == all.skip(done),
            rest@.len() == all.len() - done,
            ops_view(ops@) == drops + insert_plan_spec(all.take(done)),
        decreases rest.len(),
    {
        let ghost prev = rest@;
        let (db, colls) = rest.remove(0);
        assert(all[done] == (db@, colls_view(colls@))) by {
            assert(all.skip(done)[0] == all[done]);
        }
        push_collection_inserts(&mut ops, &db, colls);
        assert(all.take(done + 1).drop_last() =~= all.take(done));
        assert(all.take(done + 1).last() == all[done]);
        assert forall|k: int| 0 <= k < rest@.len() implies catalog_view(rest@)[k] == all.skip(
            done + 1,
        )[k] by {
            assert(rest@[k] == prev[k + 1]);
            assert(catalog_view(prev)[k + 1] == all.skip(done)[k + 1]);
        }
        assert(catalog_view(rest@) =~= all.skip(done + 1));
        proof {
            done = done + 1;
        }
    }
    assert(all.take(done) =~= all);
    ops
}

/// What a run of operations asks of its caller next.
#[derive(Debug)]
pub enum CatalogStep<D, E> {
    /// Perform this operation, then report its outcome.
    Perform(CatalogOp<D>),
    /// The run is over, with this result.
    Finished(Result<(), Error<E>>),
}

/// The mathematical value of a [`CatalogStep`].
pub enum CatalogStepView<D, E> {
    Perform(CatalogOpView<D>),
    Finished(Result<(), ErrorView<E>>),
}

impl<D, E> View for CatalogStep<D, E> {
    type V = CatalogStepView<D, E>;

    open spec fn view(&self) -> CatalogStepView<D, E> {
        match self {
            CatalogStep::Perform(op) => CatalogStepView::Perform(op@),
            CatalogStep::Finished(Ok(())) => CatalogStepView::Finished(Ok(())),
            CatalogStep::Finished(Err(e)) => CatalogStepView::Finished(Err(e@)),
        }
    }
}

/// The target of the operation in flight, if any, as a value.
pub open spec fn target_opt_view(t: Option<OpTarget>) -> Option<(Seq<char>, Option<Seq<char>>)> {
    match t {
        Some(t) => Some(t@),
        None => None,
    }
}

/// One step of a run, on values: given the operations still to perform, the
/// target of the operation in flight, and the outcome of that operation (or
/// `Ok` before the first one), the operations left, the new operation in
/// flight, and what the caller is asked to do.
///
/// A failure ends the run with the error that names the failed operation's
/// database and collection; a success hands out the next operation, or ends
/// the run successfully once none is left.
pub open spec fn step_spec<D, E>(
    pending: Seq<CatalogOpView<D>>,
    in_flight: Option<(Seq<char>, Option<Seq<char>>)>,
    outcome: Result<(), E>,
) -> (Seq<CatalogOpView<D>>, Option<(Seq<char>, Option<Seq<char>>)>, CatalogStepView<D, E>) {
    match outcome {
        Err(e) => (
            Seq::empty(),
            None,
            CatalogStepView::Finished(Err(failure_of(in_flight->0, e))),
        ),
        Ok(_) => if pending.len() == 0 {
            (Seq::empty(), None, CatalogStepView::Finished(Ok(())))
        } else {
            (pending.drop_first(), Some(target_of(pending[0])), CatalogStepView::Perform(pending[0]))
        },
    }
}

/// A run of catalog operations: the caller performs the operations that the
/// run hands out, one at a time, and reports the outcome of each.
pub struct CatalogRun<D> {
    /// The operations not handed out yet, in order.
    pub pending: Vec<CatalogOp<D>>,
    /// What the operation handed out last is about, while its outcome is awaited.
    pub in_flight: Option<OpTarget>,
}

impl<D> CatalogRun<D> {
    /// A run that will hand out `ops` in order.
    pub fn new(ops: Vec<CatalogOp<D>>) -> (run: Self)
        ensures
            run.pending@ == ops@,
            run.in_flight is None,
    {
        CatalogRun { pending: ops, in_flight: None }
    }

    /// Takes the outcome of the operation in flight (`Ok` before the first
    /// one) and says what to do next, as [`step_spec`] describes.
    pub fn step<E>(&mut self, outcome: Result<(), E>) -> (s: CatalogStep<D, E>)
        requires
            outcome is Err ==> old(self).in_flight is Some,
        ensures
            (ops_view(final(self).pending@), target_opt_view(final(self).in_flight), s@)
                == step_spec(
                ops_view(old(self).pending@),
                target_opt_view(old(self).in_flight),
                outcome,
            ),
            outcome is Err ==> final(self).pending@.len() == 0 && final(self).in_flight is None
                && s@ == CatalogStepView::<D, E>::Finished(
                Err(
                    match old(self).in_flight->0.coll {
                        None => ErrorView::MongoDBDrop(
                            old(self).in_flight->0.db@,
                            outcome->Err_0,
                        ),
                        Some(coll) => ErrorView::MongoDBInsert(
                            old(self).in_flight->0.db@,
                            coll@,
                            outcome->Err_0,
                        ),
                    },
                ),
            ),
    {
        match outcome {
            Err(e) => {
                let target = self.in_flight.take().unwrap();
                self.pending = Vec::new();
                assert(ops_view(self.pending@) =~= Seq::<CatalogOpView<D>>::empty());
                CatalogStep::Finished(Err(target.failure(e)))
            },
            Ok(()) => {
                if self.pending.len() == 0 {
                    self.in_flight = None;
                    assert(ops_view(self.pending@) =~= Seq::<CatalogOpView<D>>::empty());
                    CatalogStep::Finished(Ok(()))
                } else {
                    let ghost before = self.pending@;
                    let op = self.pending.remove(0);
                    assert(ops_view(self.pending@) =~= ops_view(before).drop_first());
                    self.in_flight = Some(op.target());
                    CatalogStep::Perform(op)
                }
            },
        }
    }
}

/// The steps of a run that starts from `pending` and `in_flight` when each of
/// `n` outcomes is a success.
pub open spec fn successful_steps<D, E>(
    pending: Seq<CatalogOpView<D>>,
    in_flight: Option<(Seq<char>, Option<Seq<char>>)>,
    n: nat,
) -> Seq<CatalogStepView<D, E>>
    decreases n,
{
    if n == 0 {
        Seq::empty()
    } else {
        let next = step_spec::<D, E>(pending, in_flight, Ok(()));
        seq![next.2] + successful_steps::<D, E>(next.0, next.1, (n - 1) as nat)
    }
}

/// When every operation succeeds, a run hands out exactly its operations, in
/// order, and then finishes successfully.
pub proof fn lemma_successful_run<D, E>(
    ops: Seq<CatalogOpView<D>>,
    in_flight: Option<(Seq<char>, Option<Seq<char>>)>,
)
    ensures
        successful_steps::<D, E>(ops, in_flight, ops.len() + 1) == ops.map_values(
            |op: CatalogOpView<D>| CatalogStepView::<D, E>::Perform(op),
        ).push(CatalogStepView::Finished(Ok(()))),
    decreases ops.len(),
{
    if ops.len() == 0 {
        assert(successful_steps::<D, E>(Seq::empty(), None, 0) =~= Seq::empty());
        assert(successful_steps::<D, E>(ops, in_flight, 1) =~= seq![
            CatalogStepView::<D, E>::Finished(Ok(())),
        ]);
        assert(ops.map_values(|op: CatalogOpView<D>| CatalogStepView::<D, E>::Perform(op))
            =~= Seq::empty());
    } else {
        lemma_successful_run::<D, E>(ops.drop_first(), Some(target_of(ops[0])));
        assert(ops.map_values(|op: CatalogOpView<D>| CatalogStepView::<D, E>::Perform(op))
            =~= seq![CatalogStepView::<D, E>::Perform(ops[0])] + ops.drop_first().map_values(
            |op: CatalogOpView<D>| CatalogStepView::<D, E>::Perform(op),
        ));
        assert(successful_steps::<D, E>(ops, in_flight, ops.len() + 1) =~= seq![
            CatalogStepView::<D, E>::Perform(ops[0]),
        ] + successful_steps::<D, E>(
            ops.drop_first(),
            Some(target_of(ops[0])),
            ops.drop_first().len() + 1,
        ));
    }
}

/// The steps of a run that starts from `pending` and `in_flight` and is given
/// `outcomes`, one per step, up to the step that finishes it.
pub open spec fn run_steps<D, E>(
    pending: Seq<CatalogOpView<D>>,
    in_flight: Option<(Seq<char>, Option<Seq<char>>)>,
    outcomes: Seq<Result<(), E>>,
) -> Seq<CatalogStepView<D, E>>
    decreases outcomes.len(),
{
    if outcomes.len() == 0 {
        Seq::empty()
    } else {
        let next = step_spec::<D, E>(pending, in_flight, outcomes[0]);
        if next.2 is Finished {
            seq![next.2]
        } else {
            seq![next.2] + run_steps::<D, E>(next.0, next.1, outcomes.drop_first())
        }
    }
}

/// `n` successes.
pub open spec fn successes<E>(n: nat) -> Seq<Result<(), E>> {
    Seq::new(n, |i: int| Ok::<(), E>(()))
}

proof fn lemma_failing_run_from<D, E>(
    pending: Seq<CatalogOpView<D>>,
    in_flight: Option<(Seq<char>, Option<Seq<char>>)>,
    k: nat,
    e: E,
)
    requires
        k < pending.len(),
    ensures
        run_steps::<D, E>(pending, in_flight, successes::<E>(k + 1).push(Err(e))) == pending.take((k + 1) as int).map_values(|op: CatalogOpView<D>| CatalogStepView::<D, E>::Perform(op)).push(
            CatalogStepView::Finished(
                Err(
                    match pending[k as int] {
                        CatalogOpView::DropDatabase(db) => ErrorView::MongoDBDrop(db, e),
                        CatalogOpView::InsertMany(db, coll, _) => ErrorView::MongoDBInsert(
                            db,
                            coll,
                            e,
                        ),
                    },
                ),
            ),
        ),
    decreases k,
{
    let outcomes = successes::<E>(k + 1).push(Err(e));
    let rest = pending.drop_first();
    let flight = Some(target_of(pending[0]));
    assert(outcomes[0] == Ok::<(), E>(()));
    assert(outcomes.drop_first() =~= successes::<E>(k).push(Err(e)));
    if k == 0 {
        let last = seq![Err::<(), E>(e)];
        assert(outcomes.drop_first() =~= last);
        assert(last.drop_first() =~= Seq::<Result<(), E>>::empty());
        assert(run_steps::<D, E>(rest, flight, last) =~= seq![
            CatalogStepView::<D, E>::Finished(Err(failure_of(target_of(pending[0]), e))),
        ]);
        assert(pending.take(1).map_values(|op: CatalogOpView<D>| CatalogStepView::<D, E>::Perform(op))
            =~= seq![CatalogStepView::<D, E>::Perform(pending[0])]);
    } else {
        lemma_failing_run_from::<D, E>(rest, flight, (k - 1) as nat, e);
        assert(rest[k - 1] == pending[k as int]);
        assert(pending.take((k + 1) as int).map_values(
            |op: CatalogOpView<D>| CatalogStepView::<D, E>::Perform(op),
        ) =~= seq![CatalogStepView::<D, E>::Perform(pending[0])] + rest.take(k as int).map_values(
            |op: CatalogOpView<D>| CatalogStepView::<D, E>::Perform(op),
        ));
    }
    assert(run_steps::<D, E>(pending, in_flight, outcomes) =~= seq![
        CatalogStepView::<D, E>::Perform(pending[0]),
    ] + run_steps::<D, E>(rest, flight, outcomes.drop_first()));
}

/// A failure ends a run at once, whatever is still pending: when the first
/// `k + 1` operations are reported to succeed up to the one in position `k`,
/// which fails with `e`, the run hands out exactly the operations `0..=k`,
/// in order, and then finishes with the error that names the failed
/// operation's database (and collection) and carries `e`.
pub proof fn lemma_failing_run<D, E>(ops: Seq<CatalogOpView<D>>, k: nat, e: E)
    requires
        k < ops.len(),
    ensures
        run_steps::<D, E>(ops, None, successes::<E>(k + 1).push(Err(e))) == ops.take((k + 1) as int).map_values(|op: CatalogOpView<D>| CatalogStepView::<D, E>::Perform(op)).push(
            CatalogStepView::Finished(
                Err(
                    match ops[k as int] {
                        CatalogOpView::DropDatabase(db) => ErrorView::MongoDBDrop(db, e),
                        CatalogOpView::InsertMany(db, coll, _) => ErrorView::MongoDBInsert(
                            db,
                            coll,
                            e,
                        ),
                    },
                ),
            ),
        ),
{
    lemma_failing_run_from::<D, E>(ops, None, k, e);
}

/// Dropping the databases `dbs`: when the drops of `dbs[0..k]` succeed and the
/// drop of `dbs[k]` fails with `e`, exactly those `k + 1` drops are handed out
/// and the run finishes with `MongoDBDrop(dbs[k], e)`; no later database is
/// dropped.
pub proof fn lemma_failing_drop_run<D, E>(dbs: Seq<Seq<char>>, k: nat, e: E)
    requires
        k < dbs.len(),
    ensures
        run_steps::<D, E>(drop_plan_spec::<D>(dbs), None, successes::<E>(k + 1).push(Err(e)))
            == dbs.take((k + 1) as int).map_values(
            |db: Seq<char>| CatalogStepView::<D, E>::Perform(CatalogOpView::DropDatabase(db)),
        ).push(CatalogStepView::Finished(Err(ErrorView::MongoDBDrop(dbs[k as int], e)))),
{
    let ops = drop_plan_spec::<D>(dbs);
    lemma_failing_run::<D, E>(ops, k, e);
    assert(ops[k as int] == CatalogOpView::<D>::DropDatabase(dbs[k as int]));
    assert(ops.take((k + 1) as int).map_values(|op: CatalogOpView<D>| CatalogStepView::<D, E>::Perform(op))
        =~= dbs.take((k + 1) as int).map_values(
        |db: Seq<char>| CatalogStepView::<D, E>::Perform(CatalogOpView::DropDatabase(db)),
    ));
}

/// Every operation of a catalog's insertions inserts documents.
proof fn lemma_insert_plan_only_inserts<D>(catalog: CatalogView<D>)
    ensures
        forall|i: int|
            0 <= i < insert_plan_spec(catalog).len() ==> #[trigger] insert_plan_spec(
                catalog,
            )[i] is InsertMany,
    decreases catalog.len(),
{
    if catalog.len() > 0 {
        lemma_insert_plan_only_inserts(catalog.drop_last());
        let front = insert_plan_spec(catalog.drop_last());
        let back = collection_inserts(catalog.last().0, catalog.last().1);
        assert forall|i: int| 0 <= i < insert_plan_spec(catalog).len() implies #[trigger] insert_plan_spec(
            catalog,
        )[i] is InsertMany by {
            if i >= front.len() {
                assert(insert_plan_spec(catalog)[i] == back[i - front.len()]);
            } else {
                assert(insert_plan_spec(catalog)[i] == front[i]);
            }
        }
    }
}

/// Loading a catalog drops every database it names, in order, before it
/// inserts any document: the first operations drop the catalog's databases
/// one by one, and every later operation inserts documents.
pub proof fn lemma_load_drops_before_inserts<D>(catalog: CatalogView<D>)
    ensures
        load_plan_spec(catalog).len() >= catalog.len(),
        forall|i: int|
            0 <= i < catalog.len() ==> #[trigger] load_plan_spec(catalog)[i]
                == CatalogOpView::<D>::DropDatabase(catalog[i].0),
        forall|i: int|
            catalog.len() <= i < load_plan_spec(catalog).len() ==> #[trigger] load_plan_spec(
                catalog,
            )[i] is InsertMany,
{
    lemma_insert_plan_only_inserts(catalog);
    let drops = drop_plan_spec::<D>(catalog_dbs(catalog));
    assert(drops.len() == catalog.len());
    assert forall|i: int| catalog.len() <= i < load_plan_spec(catalog).len() implies #[trigger] load_plan_spec(
        catalog,
    )[i] is InsertMany by {
        assert(load_plan_spec(catalog)[i] == insert_plan_spec(catalog)[i - catalog.len()]);
    }
}

} // verus!
