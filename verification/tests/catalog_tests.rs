use schema_builder_library::catalog::{
    drop_plan, load_plan, CatalogOp, CatalogRun, CatalogStep, Error,
};

type Catalog = Vec<(String, Vec<(String, Vec<u32>)>)>;

fn sample_catalog() -> Catalog {
    vec![
        (
            "db1".to_string(),
            vec![("a".to_string(), vec![1, 2]), ("b".to_string(), vec![3])],
        ),
        ("db2".to_string(), vec![("c".to_string(), vec![])]),
    ]
}

fn describe(op: &CatalogOp<u32>) -> String {
    match op {
        CatalogOp::DropDatabase { db } => format!("drop {}", db),
        CatalogOp::InsertMany { db, coll, documents } => {
            format!("insert {}.{} {:?}", db, coll, documents)
        }
    }
}

/// Runs the operations, failing the one at position `fail_at` if any, and
/// returns what was performed and how the run ended.
fn run(ops: Vec<CatalogOp<u32>>, fail_at: Option<usize>) -> (Vec<String>, Result<(), Error<String>>) {
    let mut run = CatalogRun::new(ops);
    let mut performed = Vec::new();
    let mut outcome: Result<(), String> = Ok(());
    loop {
        match run.step(outcome) {
            CatalogStep::Perform(op) => {
                performed.push(describe(&op));
                outcome = if Some(performed.len() - 1) == fail_at {
                    Err("boom".to_string())
                } else {
                    Ok(())
                };
            }
            CatalogStep::Finished(r) => return (performed, r),
        }
    }
}

#[test]
fn drop_plan_drops_each_database_in_order() {
    let ops: Vec<CatalogOp<u32>> = drop_plan(&vec!["x".to_string(), "y".to_string()]);
    let described: Vec<String> = ops.iter().map(describe).collect();
    assert_eq!(described, vec!["drop x", "drop y"]);
}

#[test]
fn load_plan_drops_every_database_before_inserting() {
    let ops = load_plan(sample_catalog());
    let described: Vec<String> = ops.iter().map(describe).collect();
    assert_eq!(
        described,
        vec![
            "drop db1",
            "drop db2",
            "insert db1.a [1, 2]",
            "insert db1.b [3]",
            "insert db2.c []",
        ]
    );
}

#[test]
fn load_plan_of_an_empty_catalog_does_nothing() {
    let ops: Vec<CatalogOp<u32>> = load_plan(Vec::new());
    assert!(ops.is_empty());
    let (performed, r) = run(ops, None);
    assert!(performed.is_empty());
    assert!(r.is_ok());
}

#[test]
fn successful_run_performs_the_whole_plan() {
    let (performed, r) = run(load_plan(sample_catalog()), None);
    assert_eq!(performed.len(), 5);
    assert_eq!(performed[0], "drop db1");
    assert_eq!(performed[4], "insert db2.c []");
    assert!(r.is_ok());
}

#[test]
fn failed_drop_ends_the_run_naming_the_database() {
    let (performed, r) = run(load_plan(sample_catalog()), Some(1));
    assert_eq!(performed, vec!["drop db1", "drop db2"]);
    match r {
        Err(Error::MongoDBDrop(db, e)) => {
            assert_eq!(db, "db2");
            assert_eq!(e, "boom");
        }
        _ => panic!("the run should fail on the drop"),
    }
}

#[test]
fn failed_insert_ends_the_run_naming_database_and_collection() {
    let (performed, r) = run(load_plan(sample_catalog()), Some(3));
    assert_eq!(performed.len(), 4);
    match r {
        Err(Error::MongoDBInsert(db, coll, e)) => {
            assert_eq!(db, "db1");
            assert_eq!(coll, "b");
            assert_eq!(e, "boom");
        }
        _ => panic!("the run should fail on the insert"),
    }
}

#[test]
fn operation_target_and_failure() {
    let op: CatalogOp<u32> = CatalogOp::InsertMany {
        db: "d".to_string(),
        coll: "c".to_string(),
        documents: vec![],
    };
    match op.target().failure(5u8) {
        Error::MongoDBInsert(db, coll, e) => {
            assert_eq!((db.as_str(), coll.as_str(), e), ("d", "c", 5));
        }
        _ => panic!("an insert's failure names its collection"),
    }
    let drop: CatalogOp<u32> = CatalogOp::DropDatabase { db: "d".to_string() };
    assert!(matches!(drop.target().failure(5u8), Error::MongoDBDrop(db, 5) if db == "d"));
}
