//! The collections and views of one database, sorted by kind.
//!
//! The collections that the data service lists for a database are checked
//! against include and exclude lists of glob patterns over namespaces
//! (`db.collection`): a namespace that an exclude pattern matches is left
//! out; when include patterns are given, only namespaces that one of them
//! matches are kept; when none is given, collections whose names start with
//! two underscores are left out. The kept ones are sorted into views,
//! ordinary collections and time-series collections, in the order listed.
use crate::catalog::strings_view;
use vstd::prelude::*;
use vstd::string::StringExecFns;

verus! {

/// The collections and views of one database, prepared for processing.
/// `C` describes one collection or view, as the data service reports it.
#[derive(Debug)]
pub struct DatabaseCollections<C> {
    /// The name of the database.
    pub db: String,
    /// Its views.
    pub views: Vec<C>,
    /// Its ordinary collections.
    pub collections: Vec<C>,
    /// Its time-series collections.
    pub timeseries: Vec<C>,
}

impl<C> Default for DatabaseCollections<C> {
    /// No database name, and no collections or views.
    fn default() -> (d: Self)
        ensures
            d.db@ == Seq::<char>::empty(),
            d.views@ == Seq::<C>::empty(),
            d.collections@ == Seq::<C>::empty(),
            d.timeseries@ == Seq::<C>::empty(),
    {
        DatabaseCollections {
            db: String::new(),
            views: Vec::new(),
            collections: Vec::new(),
            timeseries: Vec::new(),
        }
    }
}

/// The kind of a collection, as the data service reports it.
#[derive(Debug, PartialEq, Eq, Structural, Clone, Copy)]
pub enum CollectionKind {
    Collection,
    View,
    Timeseries,
}

/// Whether the glob pattern `pattern` matches `text`; `None` when `pattern`
/// is not a valid glob pattern.
pub uninterp spec fn glob_match(pattern: Seq<char>, text: Seq<char>) -> Option<bool>;

/// Compiles `pattern` with `glob::Pattern::new` and, when it is a valid
/// pattern, tells whether `glob::Pattern::matches` accepts `text`.
/// Claimed: the result depends on the pattern's and the text's characters
/// alone (it is named `glob_match`); nothing more is stated of glob syntax.
#[verifier::external_body]
pub fn pattern_matches(pattern: &str, text: &str) -> (r: Option<bool>)
    ensures
        r == glob_match(pattern@, text@),
{
    glob::Pattern::new(pattern).ok().map(|p| p.matches(text))
}

/// Some pattern of `patterns` matches `text`.
pub open spec fn any_match(patterns: Seq<Seq<char>>, text: Seq<char>) -> bool {
    exists|i: int| 0 <= i < patterns.len() && glob_match(patterns[i], text) == Some(true)
}

/// The namespace of collection `name` in database `db`: `db.name`.
pub open spec fn namespace_of(db: Seq<char>, name: Seq<char>) -> Seq<char> {
    db + seq!['.'] + name
}

/// Whether collection `name` of database `db` is kept: no exclude pattern
/// matches its namespace, and either some include pattern matches its
/// namespace or, when there are no include patterns, `__*` does not match
/// its name.
pub open spec fn kept(
    db: Seq<char>,
    name: Seq<char>,
    includes: Seq<Seq<char>>,
    excludes: Seq<Seq<char>>,
) -> bool {
    if any_match(excludes, namespace_of(db, name)) {
        false
    } else if includes.len() == 0 {
        glob_match("__*"@, name) != Some(true)
    } else {
        any_match(includes, namespace_of(db, name))
    }
}

/// The value of the listed collections: each one's name, kind and the
/// description that the data service gave of it.
pub open spec fn infos_view<C>(infos: Seq<(String, CollectionKind, C)>) -> Seq<
    (Seq<char>, CollectionKind, C),
> {
    infos.map_values(|i: (String, CollectionKind, C)| (i.0@, i.1, i.2))
}

/// The descriptions of the listed collections of kind `kind` that are kept,
/// in the order listed.
pub open spec fn kept_of_kind<C>(
    db: Seq<char>,
    includes: Seq<Seq<char>>,
    excludes: Seq<Seq<char>>,
    infos: Seq<(Seq<char>, CollectionKind, C)>,
    kind: CollectionKind,
) -> Seq<C>
    decreases infos.len(),
{
    if infos.len() == 0 {
        Seq::empty()
    } else {
        let earlier = kept_of_kind(db, includes, excludes, infos.drop_last(), kind);
        if infos.last().1 == kind && kept(db, infos.last().0, includes, excludes) {
            earlier.push(infos.last().2)
        } else {
            earlier
        }
    }
}

/// Under the include and exclude lists, whatever the kind of a listed
/// collection, its description is returned among those of its kind exactly
/// when: no exclude pattern matches its namespace `db.name`; and, when the
/// include list is empty, `__*` does not match its name, or, when it is not,
/// some include pattern matches its namespace. Every returned description is
/// that of such a listed collection, of the kind it is returned under.
pub proof fn lemma_kept_collections_obey_the_patterns<C>(
    db: Seq<char>,
    includes: Seq<Seq<char>>,
    excludes: Seq<Seq<char>>,
    infos: Seq<(Seq<char>, CollectionKind, C)>,
    kind: CollectionKind,
)
    ensures
        forall|j: int|
            #![trigger kept_of_kind(db, includes, excludes, infos, kind)[j]]
            0 <= j < kept_of_kind(db, includes, excludes, infos, kind).len() ==> exists|i: int|
                0 <= i < infos.len() && #[trigger] infos[i].2 == kept_of_kind(
                    db,
                    includes,
                    excludes,
                    infos,
                    kind,
                )[j] && infos[i].1 == kind && (forall|p: int|
                    0 <= p < excludes.len() ==> glob_match(
                        #[trigger] excludes[p],
                        db + seq!['.'] + infos[i].0,
                    ) != Some(true)) && (includes.len() == 0 ==> glob_match("__*"@, infos[i].0)
                    != Some(true)) && (includes.len() > 0 ==> exists|p: int|
                    0 <= p < includes.len() && glob_match(
                        #[trigger] includes[p],
                        db + seq!['.'] + infos[i].0,
                    ) == Some(true)),
        forall|i: int|
            0 <= i < infos.len() && #[trigger] infos[i].1 == kind && (forall|p: int|
                0 <= p < excludes.len() ==> glob_match(
                    #[trigger] excludes[p],
                    db + seq!['.'] + infos[i].0,
                ) != Some(true)) && (includes.len() == 0 ==> glob_match("__*"@, infos[i].0)
                != Some(true)) && (includes.len() > 0 ==> exists|p: int|
                0 <= p < includes.len() && glob_match(
                    #[trigger] includes[p],
                    db + seq!['.'] + infos[i].0,
                ) == Some(true)) ==> kept_of_kind(db, includes, excludes, infos, kind).contains(
                infos[i].2,
            ),
    decreases infos.len(),
{
    let out = kept_of_kind(db, includes, excludes, infos, kind);
    if infos.len() > 0 {
        let n = infos.len() - 1;
        let i0 = infos.drop_last();
        let out0 = kept_of_kind(db, includes, excludes, i0, kind);
        lemma_kept_collections_obey_the_patterns(db, includes, excludes, i0, kind);
        let last = infos.last();
        assert(last == infos[n]);
        assert forall|j: int| #![trigger out[j]] 0 <= j < out.len() implies exists|i: int|
            0 <= i < infos.len() && #[trigger] infos[i].2 == out[j] && infos[i].1 == kind && (forall|
                p: int,
            |
                0 <= p < excludes.len() ==> glob_match(
                    #[trigger] excludes[p],
                    db + seq!['.'] + infos[i].0,
                ) != Some(true)) && (includes.len() == 0 ==> glob_match("__*"@, infos[i].0)
                != Some(true)) && (includes.len() > 0 ==> exists|p: int|
                0 <= p < includes.len() && glob_match(
                    #[trigger] includes[p],
                    db + seq!['.'] + infos[i].0,
                ) == Some(true)) by {
            if j < out0.len() {
                assert(out[j] == out0[j]);
                let i = choose|i: int|
                    0 <= i < i0.len() && #[trigger] i0[i].2 == out0[j] && i0[i].1 == kind && (forall|
                        p: int,
                    |
                        0 <= p < excludes.len() ==> glob_match(
                            #[trigger] excludes[p],
                            db + seq!['.'] + i0[i].0,
                        ) != Some(true)) && (includes.len() == 0 ==> glob_match("__*"@, i0[i].0)
                        != Some(true)) && (includes.len() > 0 ==> exists|p: int|
                        0 <= p < includes.len() && glob_match(
                            #[trigger] includes[p],
                            db + seq!['.'] + i0[i].0,
                        ) == Some(true));
                assert(i0[i] == infos[i]);
            } else {
                assert(last.1 == kind && kept(db, last.0, includes, excludes));
                assert(out[j] == last.2);
                assert(namespace_of(db, last.0) == db + seq!['.'] + infos[n].0);
            }
        }
        assert forall|i: int|
            0 <= i < infos.len() && #[trigger] infos[i].1 == kind && (forall|p: int|
                0 <= p < excludes.len() ==> glob_match(
                    #[trigger] excludes[p],
                    db + seq!['.'] + infos[i].0,
                ) != Some(true)) && (includes.len() == 0 ==> glob_match("__*"@, infos[i].0)
                != Some(true)) && (includes.len() > 0 ==> exists|p: int|
                0 <= p < includes.len() && glob_match(
                    #[trigger] includes[p],
                    db + seq!['.'] + infos[i].0,
                ) == Some(true)) implies out.contains(infos[i].2) by {
            if i < n {
                assert(i0[i] == infos[i]);
                assert(out0.contains(infos[i].2));
                let j = choose|j: int| 0 <= j < out0.len() && out0[j] == infos[i].2;
                if out != out0 {
                    assert(out == out0.push(last.2));
                    assert(out[j] == out0[j]);
                }
            } else {
                assert(namespace_of(db, last.0) == db + seq!['.'] + infos[n].0);
                assert(kept(db, last.0, includes, excludes));
                assert(out == out0.push(last.2));
                assert(out[out0.len() as int] == last.2);
            }
        }
    }
}

/// Whether some pattern of `patterns` matches `text`.
fn matches_any(patterns: &Vec<String>, text: &str) -> (r: bool)
    ensures
        r == any_match(strings_view(patterns@), text@),
{
    let n = patterns.len();
    for i in 0..n
        invariant
            n == patterns.len(),
            forall|j: int| 0 <= j < i ==> glob_match(#[trigger] strings_view(patterns@)[j], text@)
                != Some(true),
    {
        if pattern_matches(patterns[i].as_str(), text) == Some(true) {
            assert(glob_match(strings_view(patterns@)[i as int], text@) == Some(true));
            return true;
        }
    }
    false
}

/// Whether collection `name` of database `db` is kept, as [`kept`] says.
fn is_kept(db: &String, name: &String, include_list: &Vec<String>, exclude_list: &Vec<String>) -> (r:
    bool)
    ensures
        r == kept(db@, name@, strings_view(include_list@), strings_view(exclude_list@)),
{
    let mut namespace = db.clone();
    namespace.append(".");
    namespace.append(name.as_str());
    proof {
        reveal_strlit(".");
        assert(namespace@ =~= namespace_of(db@, name@));
    }
    if matches_any(exclude_list, namespace.as_str()) {
        false
    } else if include_list.len() == 0 {
        proof {
            reveal_strlit("__*");
        }
        pattern_matches("__*", name.as_str()) != Some(true)
    } else {
        matches_any(include_list, namespace.as_str())
    }
}

/// Sorts the collections that the data service listed for database `db`
/// (each with its name, its kind and its description) into views, ordinary
/// collections and time-series collections, leaving out those that are not
/// [`kept`] under the include and exclude lists.
pub fn separate_collection_types<C>(
    db: String,
    include_list: &Vec<String>,
    exclude_list: &Vec<String>,
    infos: Vec<(String, CollectionKind, C)>,
) -> (r: DatabaseCollections<C>)
    ensures
        r.db@ == db@,
        r.views@ == kept_of_kind(
            db@,
            strings_view(include_list@),
            strings_view(exclude_list@),
            infos_view(infos@),
            CollectionKind::View,
        ),
        r.collections@ == kept_of_kind(
            db@,
            strings_view(include_list@),
            strings_view(exclude_list@),
            infos_view(infos@),
            CollectionKind::Collection,
        ),
        r.timeseries@ == kept_of_kind(
            db@,
            strings_view(include_list@),
            strings_view(exclude_list@),
            infos_view(infos@),
            CollectionKind::Timeseries,
        ),
{
    let ghost inc = strings_view(include_list@);
    let ghost exc = strings_view(exclude_list@);
    let ghost all = infos_view(infos@);
    let mut views: Vec<C> = Vec::new();
    let mut collections: Vec<C> = Vec::new();
    let mut timeseries: Vec<C> = Vec::new();
    let mut rest = infos;
    let ghost mut done: int = 0;
    while rest.len() > 0
        invariant
            0 <= done <= all.len(),
            rest@.len() == all.len() - done,
            infos_view(rest@) == all.skip(done),
            inc == strings_view(include_list@),
            exc == strings_view(exclude_list@),
            views@ == kept_of_kind(db@, inc, exc, all.take(done), CollectionKind::View),
            collections@ == kept_of_kind(db@, inc, exc, all.take(done), CollectionKind::Collection),
            timeseries@ == kept_of_kind(db@, inc, exc, all.take(done), CollectionKind::Timeseries),
        decreases rest.len(),
    {
        let ghost prev = rest@;
        let (name, kind, info) = rest.remove(0);
        assert(all[done] == (name@, kind, info)) by {
            assert(all.skip(done)[0] == all[done]);
        }
        assert(all.take(done + 1).drop_last() =~= all.take(done));
        assert(all.take(done + 1).last() == all[done]);
        if is_kept(&db, &name, include_list, exclude_list) {
            match kind {
                CollectionKind::View => views.push(info),
                CollectionKind::Collection => collections.push(info),
                CollectionKind::Timeseries => timeseries.push(info),
            }
        }
        assert forall|k: int| 0 <= k < rest@.len() implies infos_view(rest@)[k] == all.skip(
            done + 1,
        )[k] by {
            assert(rest@[k] == prev[k + 1]);
            assert(infos_view(prev)[k + 1] == all.skip(done)[k + 1]);
        }
        assert(infos_view(rest@) =~= all.skip(done + 1));
        proof {
            done = done + 1;
        }
    }
    assert(all.take(done) =~= all);
    DatabaseCollections { db, views, collections, timeseries }
}

} // verus!
