//! Laws of the catalog plans: the order in which a sorted catalog is loaded,
//! and what loading and dropping leave on a server that performs every
//! operation.
//!
//! The server is modelled as a map from database names to databases, each a
//! map from collection names to the documents it holds. Dropping a database
//! removes it (dropping one that is absent changes nothing). Inserting
//! documents appends them, as given, to the collection, creating the database
//! and the collection when they are absent; documents that carry their own
//! `_id` are stored as given. A server refuses to insert an empty list of
//! documents, so the laws about loading are stated for catalogs whose
//! collections all hold documents; a catalog with an empty collection fails
//! at that collection's insertion.
use crate::catalog::{
    catalog_dbs, collection_inserts, drop_plan_spec, insert_plan_spec, load_plan_spec,
    lemma_load_drops_before_inserts, target_of, CatalogOpView, CatalogView,
};
use vstd::prelude::*;

verus! {

/// Strict lexicographic order of names, character by character: the order of
/// `String` keys in a `BTreeMap`.
pub open spec fn name_less(a: Seq<char>, b: Seq<char>) -> bool
    decreases a.len(),
{
    if a.len() == 0 {
        b.len() > 0
    } else if b.len() == 0 {
        false
    } else if a[0] != b[0] {
        (a[0] as u32) < (b[0] as u32)
    } else {
        name_less(a.drop_first(), b.drop_first())
    }
}

/// The catalog is in the order of a map sorted by name: its databases in
/// increasing order of name, and the collections of each database too.
pub open spec fn catalog_sorted<D>(catalog: CatalogView<D>) -> bool {
    &&& forall|i: int, j: int|
        0 <= i < j < catalog.len() ==> name_less(#[trigger] catalog[i].0, #[trigger] catalog[j].0)
    &&& forall|i: int, a: int, b: int|
        0 <= i < catalog.len() && 0 <= a < b < catalog[i].1.len() ==> name_less(
            #[trigger] catalog[i].1[a].0,
            #[trigger] catalog[i].1[b].0,
        )
}

/// Insertion `x` comes before insertion `y` in the order of (database,
/// collection) names.
pub open spec fn insert_before<D>(x: CatalogOpView<D>, y: CatalogOpView<D>) -> bool {
    match (x, y) {
        (CatalogOpView::InsertMany(d1, c1, _), CatalogOpView::InsertMany(d2, c2, _)) => name_less(
            d1,
            d2,
        ) || (d1 == d2 && name_less(c1, c2)),
        _ => false,
    }
}

/// Every operation of a catalog's insertions inserts into one of its databases.
proof fn lemma_insert_ops_in_catalog<D>(catalog: CatalogView<D>)
    ensures
        forall|p: int|
            0 <= p < insert_plan_spec(catalog).len() ==> (#[trigger] insert_plan_spec(catalog)[p]
                is InsertMany) && exists|k: int|
                0 <= k < catalog.len() && insert_plan_spec(catalog)[p]->InsertMany_0
                    == catalog[k].0,
    decreases catalog.len(),
{
    if catalog.len() > 0 {
        let c0 = catalog.drop_last();
        lemma_insert_ops_in_catalog(c0);
        let front = insert_plan_spec(c0);
        let back = collection_inserts(catalog.last().0, catalog.last().1);
        assert forall|p: int| 0 <= p < insert_plan_spec(catalog).len() implies (
        #[trigger] insert_plan_spec(catalog)[p] is InsertMany) && exists|k: int|
            0 <= k < catalog.len() && insert_plan_spec(catalog)[p]->InsertMany_0
                == catalog[k].0 by {
            if p < front.len() {
                assert(insert_plan_spec(catalog)[p] == front[p]);
                let k = choose|k: int| 0 <= k < c0.len() && front[p]->InsertMany_0 == c0[k].0;
                assert(c0[k] == catalog[k]);
            } else {
                assert(insert_plan_spec(catalog)[p] == back[p - front.len()]);
                assert(catalog.last() == catalog[catalog.len() - 1]);
            }
        }
    }
}

/// The insertions of a sorted catalog come in the order of (database,
/// collection) names.
proof fn lemma_insert_plan_ordered<D>(catalog: CatalogView<D>)
    requires
        catalog_sorted(catalog),
    ensures
        forall|p: int, q: int|
            0 <= p < q < insert_plan_spec(catalog).len() ==> insert_before(
                #[trigger] insert_plan_spec(catalog)[p],
                #[trigger] insert_plan_spec(catalog)[q],
            ),
    decreases catalog.len(),
{
    if catalog.len() > 0 {
        let n = catalog.len() - 1;
        let c0 = catalog.drop_last();
        assert forall|i: int, j: int| 0 <= i < j < c0.len() implies name_less(
            #[trigger] c0[i].0,
            #[trigger] c0[j].0,
        ) by {
            assert(c0[i] == catalog[i] && c0[j] == catalog[j]);
        }
        assert forall|i: int, a: int, b: int|
            0 <= i < c0.len() && 0 <= a < b < c0[i].1.len() implies name_less(
            #[trigger] c0[i].1[a].0,
            #[trigger] c0[i].1[b].0,
        ) by {
            assert(c0[i] == catalog[i]);
        }
        lemma_insert_plan_ordered(c0);
        lemma_insert_ops_in_catalog(c0);
        let front = insert_plan_spec(c0);
        let back = collection_inserts(catalog.last().0, catalog.last().1);
        let plan = insert_plan_spec(catalog);
        assert(plan == front + back);
        assert(catalog.last() == catalog[n]);
        assert forall|p: int, q: int| 0 <= p < q < plan.len() implies insert_before(
            #[trigger] plan[p],
            #[trigger] plan[q],
        ) by {
            if q < front.len() {
                assert(plan[p] == front[p] && plan[q] == front[q]);
            } else if p < front.len() {
                assert(plan[p] == front[p]);
                assert(front[p] is InsertMany);
                let k = choose|k: int| 0 <= k < c0.len() && front[p]->InsertMany_0 == c0[k].0;
                assert(c0[k] == catalog[k]);
                assert(name_less(catalog[k].0, catalog[n].0));
                assert(plan[q] == back[q - front.len()]);
            } else {
                let a = p - front.len();
                let b = q - front.len();
                assert(plan[p] == back[a] && plan[q] == back[b]);
                assert(name_less(catalog[n].1[a].0, catalog[n].1[b].0));
            }
        }
    }
}

/// Loading a catalog that is sorted by name, as the entries of a `BTreeMap`
/// come: the databases are dropped in increasing order of name, then the
/// documents are inserted in increasing order of (database, collection).
pub proof fn lemma_load_plan_follows_catalog_order<D>(catalog: CatalogView<D>)
    requires
        catalog_sorted(catalog),
    ensures
        forall|i: int, j: int|
            0 <= i < j < catalog.len() ==> #[trigger] load_plan_spec(catalog)[i]
                == CatalogOpView::<D>::DropDatabase(catalog[i].0) && #[trigger] load_plan_spec(
                catalog,
            )[j] == CatalogOpView::<D>::DropDatabase(catalog[j].0) && name_less(
                catalog[i].0,
                catalog[j].0,
            ),
        forall|p: int, q: int|
            catalog.len() <= p < q < load_plan_spec(catalog).len() ==> insert_before(
                #[trigger] load_plan_spec(catalog)[p],
                #[trigger] load_plan_spec(catalog)[q],
            ),
{
    lemma_load_drops_before_inserts(catalog);
    lemma_insert_plan_ordered(catalog);
    let drops = drop_plan_spec::<D>(catalog_dbs(catalog));
    assert(drops.len() == catalog.len());
    assert forall|p: int, q: int|
        catalog.len() <= p < q < load_plan_spec(catalog).len() implies insert_before(
        #[trigger] load_plan_spec(catalog)[p],
        #[trigger] load_plan_spec(catalog)[q],
    ) by {
        assert(load_plan_spec(catalog)[p] == insert_plan_spec(catalog)[p - catalog.len()]);
        assert(load_plan_spec(catalog)[q] == insert_plan_spec(catalog)[q - catalog.len()]);
    }
}

/// A server's state: databases by name, collections by name, documents.
pub type ServerView<D> = Map<Seq<char>, Map<Seq<char>, Seq<D>>>;

/// The state of the server after it performs `op` from state `s`.
pub open spec fn apply_op<D>(s: ServerView<D>, op: CatalogOpView<D>) -> ServerView<D> {
    match op {
        CatalogOpView::DropDatabase(db) => s.remove(db),
        CatalogOpView::InsertMany(db, coll, documents) => {
            let colls = if s.contains_key(db) {
                s[db]
            } else {
                Map::empty()
            };
            let earlier = if colls.contains_key(coll) {
                colls[coll]
            } else {
                Seq::empty()
            };
            s.insert(db, colls.insert(coll, earlier + documents))
        },
    }
}

/// The state of the server after it performs `ops`, in order, from `s`.
pub open spec fn apply_ops<D>(s: ServerView<D>, ops: Seq<CatalogOpView<D>>) -> ServerView<D>
    decreases ops.len(),
{
    if ops.len() == 0 {
        s
    } else {
        apply_ops(apply_op(s, ops[0]), ops.drop_first())
    }
}

/// Every collection of the catalog holds at least one document.
pub open spec fn collections_have_documents<D>(catalog: CatalogView<D>) -> bool {
    forall|i: int, a: int|
        0 <= i < catalog.len() && 0 <= a < catalog[i].1.len() ==> #[trigger] catalog[i].1[a].1.len()
            > 0
}

/// The names of a database's collections, in order.
pub open spec fn coll_names<D>(colls: Seq<(Seq<char>, Seq<D>)>) -> Seq<Seq<char>> {
    colls.map_values(|c: (Seq<char>, Seq<D>)| c.0)
}

/// No two databases of the catalog share a name, nor do two collections of
/// one database: as in a map of maps.
pub open spec fn catalog_names_distinct<D>(catalog: CatalogView<D>) -> bool {
    &&& catalog_dbs(catalog).no_duplicates()
    &&& forall|i: int| 0 <= i < catalog.len() ==> #[trigger] coll_names(catalog[i].1).no_duplicates()
}

/// A database's collections as a map from name to documents.
pub open spec fn colls_map<D>(colls: Seq<(Seq<char>, Seq<D>)>) -> Map<Seq<char>, Seq<D>>
    decreases colls.len(),
{
    if colls.len() == 0 {
        Map::empty()
    } else {
        colls_map(colls.drop_last()).insert(colls.last().0, colls.last().1)
    }
}

/// The catalog as server state: each database that has collections, with
/// its collections and their documents.
pub open spec fn catalog_map<D>(catalog: CatalogView<D>) -> ServerView<D>
    decreases catalog.len(),
{
    if catalog.len() == 0 {
        Map::empty()
    } else {
        let earlier = catalog_map(catalog.drop_last());
        if catalog.last().1.len() > 0 {
            earlier.insert(catalog.last().0, colls_map(catalog.last().1))
        } else {
            earlier
        }
    }
}

proof fn lemma_apply_ops_concat<D>(
    s: ServerView<D>,
    a: Seq<CatalogOpView<D>>,
    b: Seq<CatalogOpView<D>>,
)
    ensures
        apply_ops(s, a + b) == apply_ops(apply_ops(s, a), b),
    decreases a.len(),
{
    if a.len() == 0 {
        assert(a + b =~= b);
    } else {
        lemma_apply_ops_concat(apply_op(s, a[0]), a.drop_first(), b);
        assert((a + b)[0] == a[0]);
        assert((a + b).drop_first() =~= a.drop_first() + b);
    }
}

proof fn lemma_apply_one<D>(s: ServerView<D>, op: CatalogOpView<D>)
    ensures
        apply_ops(s, seq![op]) == apply_op(s, op),
{
    let one = seq![op];
    assert(one.drop_first() =~= Seq::<CatalogOpView<D>>::empty());
    assert(one[0] == op);
    assert(apply_ops(apply_op(s, op), Seq::<CatalogOpView<D>>::empty()) == apply_op(s, op));
    assert(apply_ops(s, one) == apply_ops(apply_op(s, one[0]), one.drop_first()));
}

/// Dropping the databases `dbs` removes exactly them.
pub proof fn lemma_apply_drops<D>(s: ServerView<D>, dbs: Seq<Seq<char>>)
    ensures
        apply_ops(s, drop_plan_spec::<D>(dbs)) == s.remove_keys(dbs.to_set()),
    decreases dbs.len(),
{
    if dbs.len() == 0 {
        assert(dbs.to_set() =~= Set::empty());
        assert(s.remove_keys(dbs.to_set()) =~= s);
    } else {
        let rest = dbs.drop_first();
        lemma_apply_drops(s.remove(dbs[0]), rest);
        assert(drop_plan_spec::<D>(dbs)[0] == CatalogOpView::<D>::DropDatabase(dbs[0]));
        assert(drop_plan_spec::<D>(dbs).drop_first() =~= drop_plan_spec::<D>(rest));
        assert forall|x: Seq<char>| #[trigger] dbs.to_set().contains(x) <==> (x == dbs[0]
            || rest.to_set().contains(x)) by {
            if dbs.to_set().contains(x) && x != dbs[0] {
                let k = choose|k: int| 0 <= k < dbs.len() && dbs[k] == x;
                assert(rest[k - 1] == x);
            }
            if rest.to_set().contains(x) {
                let k = choose|k: int| 0 <= k < rest.len() && rest[k] == x;
                assert(dbs[k + 1] == x);
            }
            if x == dbs[0] {
                assert(dbs.contains(x));
            }
        }
        assert(s.remove(dbs[0]).remove_keys(rest.to_set()) =~= s.remove_keys(dbs.to_set()));
    }
}

/// Operations on databases of `keys` alone leave every other database as it is.
pub proof fn lemma_ops_stay_within<D>(
    s: ServerView<D>,
    ops: Seq<CatalogOpView<D>>,
    keys: Set<Seq<char>>,
)
    requires
        forall|p: int| 0 <= p < ops.len() ==> keys.contains(#[trigger] target_of(ops[p]).0),
    ensures
        apply_ops(s, ops).remove_keys(keys) == s.remove_keys(keys),
    decreases ops.len(),
{
    if ops.len() > 0 {
        let next = apply_op(s, ops[0]);
        assert(keys.contains(target_of(ops[0]).0));
        assert forall|p: int| 0 <= p < ops.drop_first().len() implies keys.contains(
            #[trigger] target_of(ops.drop_first()[p]).0,
        ) by {
            assert(ops.drop_first()[p] == ops[p + 1]);
        }
        lemma_ops_stay_within(next, ops.drop_first(), keys);
        assert(next.remove_keys(keys) =~= s.remove_keys(keys));
    }
}

/// Every operation of loading a catalog is about one of its databases.
proof fn lemma_load_ops_in_catalog<D>(catalog: CatalogView<D>)
    ensures
        forall|p: int|
            0 <= p < load_plan_spec(catalog).len() ==> catalog_dbs(catalog).to_set().contains(
                #[trigger] target_of(load_plan_spec(catalog)[p]).0,
            ),
{
    lemma_load_drops_before_inserts(catalog);
    lemma_insert_ops_in_catalog(catalog);
    let dbs = catalog_dbs(catalog);
    let plan = load_plan_spec(catalog);
    assert forall|p: int| 0 <= p < plan.len() implies dbs.to_set().contains(
        #[trigger] target_of(plan[p]).0,
    ) by {
        if p < catalog.len() {
            assert(plan[p] == CatalogOpView::<D>::DropDatabase(catalog[p].0));
            assert(dbs[p] == catalog[p].0);
        } else {
            let ins = insert_plan_spec(catalog);
            assert(plan[p] == ins[p - catalog.len()]);
            let k = choose|k: int|
                0 <= k < catalog.len() && ins[p - catalog.len()]->InsertMany_0 == catalog[k].0;
            assert(dbs[k] == catalog[k].0);
        }
        assert(dbs.contains(target_of(plan[p]).0));
    }
}

/// However much of the loading of a catalog the server has performed when the
/// run ends, successful or not, every database outside the catalog is as it
/// was before.
pub proof fn lemma_partial_load_stays_within_catalog<D>(
    catalog: CatalogView<D>,
    s: ServerView<D>,
    k: int,
)
    requires
        0 <= k <= load_plan_spec(catalog).len(),
    ensures
        apply_ops(s, load_plan_spec(catalog).take(k)).remove_keys(catalog_dbs(catalog).to_set())
            == s.remove_keys(catalog_dbs(catalog).to_set()),
{
    lemma_load_ops_in_catalog(catalog);
    let plan = load_plan_spec(catalog);
    assert forall|p: int| 0 <= p < plan.take(k).len() implies catalog_dbs(
        catalog,
    ).to_set().contains(#[trigger] target_of(plan.take(k)[p]).0) by {
        assert(plan.take(k)[p] == plan[p]);
    }
    lemma_ops_stay_within(s, plan.take(k), catalog_dbs(catalog).to_set());
}

/// However much of the dropping of databases the server has performed when
/// the run ends, successful or not, every database outside the list is as it
/// was before.
pub proof fn lemma_partial_drop_stays_within_list<D>(
    dbs: Seq<Seq<char>>,
    s: ServerView<D>,
    k: int,
)
    requires
        0 <= k <= dbs.len(),
    ensures
        apply_ops(s, drop_plan_spec::<D>(dbs).take(k)).remove_keys(dbs.to_set()) == s.remove_keys(
            dbs.to_set(),
        ),
{
    let plan = drop_plan_spec::<D>(dbs);
    assert forall|p: int| 0 <= p < plan.take(k).len() implies dbs.to_set().contains(
        #[trigger] target_of(plan.take(k)[p]).0,
    ) by {
        assert(plan.take(k)[p] == CatalogOpView::<D>::DropDatabase(dbs[p]));
        assert(dbs.contains(dbs[p]));
    }
    lemma_ops_stay_within(s, plan.take(k), dbs.to_set());
}

/// A name that `colls_map` maps comes from the collections.
proof fn lemma_colls_map_dom<D>(colls: Seq<(Seq<char>, Seq<D>)>)
    ensures
        forall|x: Seq<char>|
            #[trigger] colls_map(colls).contains_key(x) ==> exists|a: int|
                0 <= a < colls.len() && colls[a].0 == x,
    decreases colls.len(),
{
    if colls.len() > 0 {
        let c0 = colls.drop_last();
        lemma_colls_map_dom(c0);
        assert forall|x: Seq<char>| #[trigger] colls_map(colls).contains_key(x) implies exists|
            a: int,
        | 0 <= a < colls.len() && colls[a].0 == x by {
            assert(colls_map(colls) == colls_map(c0).insert(colls.last().0, colls.last().1));
            if x != colls.last().0 {
                assert(colls_map(c0).contains_key(x));
                let a = choose|a: int| 0 <= a < c0.len() && c0[a].0 == x;
                assert(colls[a] == c0[a]);
            } else {
                assert(colls[colls.len() - 1].0 == x);
            }
        }
    }
}

/// A name that `catalog_map` maps is one of the catalog's databases.
proof fn lemma_catalog_map_dom<D>(catalog: CatalogView<D>)
    ensures
        forall|x: Seq<char>|
            #[trigger] catalog_map(catalog).contains_key(x) ==> exists|i: int|
                0 <= i < catalog.len() && catalog[i].0 == x,
    decreases catalog.len(),
{
    if catalog.len() > 0 {
        let c0 = catalog.drop_last();
        lemma_catalog_map_dom(c0);
        assert forall|x: Seq<char>| #[trigger] catalog_map(catalog).contains_key(x) implies exists|
            i: int,
        | 0 <= i < catalog.len() && catalog[i].0 == x by {
            if catalog_map(c0).contains_key(x) {
                let i = choose|i: int| 0 <= i < c0.len() && c0[i].0 == x;
                assert(catalog[i] == c0[i]);
            } else {
                assert(catalog[catalog.len() - 1].0 == x);
            }
        }
    }
}

/// Inserting a database's collections, with distinct names, into a state
/// without that database gives it exactly those collections.
proof fn lemma_apply_collection_inserts<D>(
    u: ServerView<D>,
    db: Seq<char>,
    colls: Seq<(Seq<char>, Seq<D>)>,
)
    requires
        !u.contains_key(db),
        coll_names(colls).no_duplicates(),
    ensures
        apply_ops(u, collection_inserts(db, colls)) == (if colls.len() > 0 {
            u.insert(db, colls_map(colls))
        } else {
            u
        }),
    decreases colls.len(),
{
    if colls.len() > 0 {
        let c0 = colls.drop_last();
        let last = colls.last();
        assert(coll_names(c0) =~= coll_names(colls).drop_last());
        assert(coll_names(c0).no_duplicates()) by {
            assert forall|a: int, b: int|
                0 <= a < coll_names(c0).len() && 0 <= b < coll_names(c0).len() && a != b
                implies coll_names(c0)[a] != coll_names(c0)[b] by {
                assert(coll_names(c0)[a] == coll_names(colls)[a]);
                assert(coll_names(c0)[b] == coll_names(colls)[b]);
            }
        }
        lemma_apply_collection_inserts(u, db, c0);
        let x = CatalogOpView::<D>::InsertMany(db, last.0, last.1);
        assert(collection_inserts(db, colls) =~= collection_inserts(db, c0) + seq![x]);
        lemma_apply_ops_concat(u, collection_inserts(db, c0), seq![x]);
        let v = apply_ops(u, collection_inserts(db, c0));
        lemma_apply_one(v, x);
        lemma_colls_map_dom(c0);
        if colls_map(c0).contains_key(last.0) {
            let a = choose|a: int| 0 <= a < c0.len() && c0[a].0 == last.0;
            assert(coll_names(colls)[a] == coll_names(colls)[colls.len() - 1]);
        }
        assert(Seq::<D>::empty() + last.1 =~= last.1);
        if c0.len() > 0 {
            assert(v == u.insert(db, colls_map(c0)));
            assert(apply_op(v, x) =~= u.insert(db, colls_map(colls)));
        } else {
            assert(colls_map(c0) =~= Map::<Seq<char>, Seq<D>>::empty());
            assert(apply_op(v, x) =~= u.insert(db, colls_map(colls)));
        }
    } else {
        assert(collection_inserts(db, colls) =~= Seq::<CatalogOpView<D>>::empty());
    }
}

/// Inserting a catalog with distinct names into a state without its
/// databases adds exactly the catalog.
proof fn lemma_apply_insert_plan<D>(t: ServerView<D>, catalog: CatalogView<D>)
    requires
        forall|i: int| 0 <= i < catalog.len() ==> !t.contains_key(#[trigger] catalog[i].0),
        catalog_names_distinct(catalog),
    ensures
        apply_ops(t, insert_plan_spec(catalog)) == t.union_prefer_right(catalog_map(catalog)),
    decreases catalog.len(),
{
    if catalog.len() == 0 {
        assert(t.union_prefer_right(Map::empty()) =~= t);
    } else {
        let n = catalog.len() - 1;
        let c0 = catalog.drop_last();
        let last = catalog.last();
        assert(last == catalog[n]);
        assert(catalog_dbs(c0) =~= catalog_dbs(catalog).drop_last());
        assert(catalog_names_distinct(c0)) by {
            assert forall|a: int, b: int|
                0 <= a < catalog_dbs(c0).len() && 0 <= b < catalog_dbs(c0).len() && a != b
                implies catalog_dbs(c0)[a] != catalog_dbs(c0)[b] by {
                assert(catalog_dbs(c0)[a] == catalog_dbs(catalog)[a]);
                assert(catalog_dbs(c0)[b] == catalog_dbs(catalog)[b]);
            }
            assert forall|i: int| 0 <= i < c0.len() implies #[trigger] coll_names(
                c0[i].1,
            ).no_duplicates() by {
                assert(c0[i] == catalog[i]);
            }
        }
        assert forall|i: int| 0 <= i < c0.len() implies !t.contains_key(#[trigger] c0[i].0) by {
            assert(c0[i] == catalog[i]);
        }
        lemma_apply_insert_plan(t, c0);
        lemma_apply_ops_concat(t, insert_plan_spec(c0), collection_inserts(last.0, last.1));
        let m0 = catalog_map(c0);
        let u = t.union_prefer_right(m0);
        lemma_catalog_map_dom(c0);
        if m0.contains_key(last.0) {
            let i = choose|i: int| 0 <= i < c0.len() && c0[i].0 == last.0;
            assert(catalog_dbs(catalog)[i] == catalog_dbs(catalog)[n]);
        }
        assert(!t.contains_key(catalog[n].0));
        assert(!u.contains_key(last.0));
        assert(coll_names(catalog[n].1).no_duplicates());
        lemma_apply_collection_inserts(u, last.0, last.1);
        if last.1.len() > 0 {
            assert(u.insert(last.0, colls_map(last.1)) =~= t.union_prefer_right(
                m0.insert(last.0, colls_map(last.1)),
            ));
        }
    }
}

/// On a server that performs every operation, loading a catalog whose names
/// are distinct and whose collections hold documents leaves exactly: the
/// databases that the catalog does not name, as they were, and the catalog's
/// databases that have collections, holding exactly the catalog's documents.
pub proof fn lemma_load_result<D>(catalog: CatalogView<D>, s: ServerView<D>)
    requires
        catalog_names_distinct(catalog),
        collections_have_documents(catalog),
    ensures
        apply_ops(s, load_plan_spec(catalog)) == s.remove_keys(
            catalog_dbs(catalog).to_set(),
        ).union_prefer_right(catalog_map(catalog)),
{
    let dbs = catalog_dbs(catalog);
    let t = s.remove_keys(dbs.to_set());
    lemma_apply_ops_concat(s, drop_plan_spec::<D>(dbs), insert_plan_spec(catalog));
    lemma_apply_drops(s, dbs);
    assert forall|i: int| 0 <= i < catalog.len() implies !t.contains_key(#[trigger] catalog[i].0) by {
        assert(dbs[i] == catalog[i].0);
        assert(dbs.contains(catalog[i].0));
    }
    lemma_apply_insert_plan(t, catalog);
}

/// On a server that performs every operation, the state after loading a
/// catalog whose collections hold documents does not depend on what its
/// databases held before: two states that agree on every other database end
/// in the same state.
pub proof fn lemma_load_forgets_catalog_databases<D>(
    catalog: CatalogView<D>,
    s1: ServerView<D>,
    s2: ServerView<D>,
)
    requires
        collections_have_documents(catalog),
        s1.remove_keys(catalog_dbs(catalog).to_set()) == s2.remove_keys(
            catalog_dbs(catalog).to_set(),
        ),
    ensures
        apply_ops(s1, load_plan_spec(catalog)) == apply_ops(s2, load_plan_spec(catalog)),
{
    let dbs = catalog_dbs(catalog);
    let drops = drop_plan_spec::<D>(dbs);
    let inserts = insert_plan_spec(catalog);
    lemma_apply_ops_concat(s1, drops, inserts);
    lemma_apply_ops_concat(s2, drops, inserts);
    lemma_apply_drops(s1, dbs);
    lemma_apply_drops(s2, dbs);
}

/// On a server that performs every operation, loading the same catalog twice
/// leaves the state that loading it once leaves, when its collections hold
/// documents: no document is inserted twice.
pub proof fn lemma_load_twice_is_load_once<D>(catalog: CatalogView<D>, s: ServerView<D>)
    requires
        collections_have_documents(catalog),
    ensures
        apply_ops(apply_ops(s, load_plan_spec(catalog)), load_plan_spec(catalog)) == apply_ops(
            s,
            load_plan_spec(catalog),
        ),
{
    let keys = catalog_dbs(catalog).to_set();
    let plan = load_plan_spec(catalog);
    let once = apply_ops(s, plan);
    lemma_partial_load_stays_within_catalog(catalog, s, plan.len() as int);
    assert(plan.take(plan.len() as int) =~= plan);
    lemma_load_forgets_catalog_databases(catalog, once, s);
}

/// On a server that performs every drop, dropping the same databases twice
/// leaves the state that dropping them once leaves.
pub proof fn lemma_drop_twice_is_drop_once<D>(dbs: Seq<Seq<char>>, s: ServerView<D>)
    ensures
        apply_ops(apply_ops(s, drop_plan_spec::<D>(dbs)), drop_plan_spec::<D>(dbs)) == apply_ops(
            s,
            drop_plan_spec::<D>(dbs),
        ),
{
    lemma_apply_drops(s, dbs);
    lemma_apply_drops(s.remove_keys(dbs.to_set()), dbs);
    assert(s.remove_keys(dbs.to_set()).remove_keys(dbs.to_set()) =~= s.remove_keys(dbs.to_set()));
}

/// On a server that performs every drop, the state after dropping databases
/// depends only on which databases are named, not on their order or on
/// repetitions: in particular, two permutations of a list leave the same state.
pub proof fn lemma_drop_order_does_not_matter<D>(
    dbs1: Seq<Seq<char>>,
    dbs2: Seq<Seq<char>>,
    s: ServerView<D>,
)
    requires
        dbs1.to_set() == dbs2.to_set(),
    ensures
        apply_ops(s, drop_plan_spec::<D>(dbs1)) == apply_ops(s, drop_plan_spec::<D>(dbs2)),
{
    lemma_apply_drops(s, dbs1);
    lemma_apply_drops(s, dbs2);
}

} // verus!
