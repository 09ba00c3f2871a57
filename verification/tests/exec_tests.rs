use simple_db::db::{
    create_tb, delete_data, drop_tb, insert_data, select_data, show_all_tbs, show_tb_data,
    show_tb_info, update_data, Database,
};
use simple_db::errors::Errors;
use simple_db::query::{
    BinaryOpCus, ColumnAttr, Condition, CreateQuery, DeleteQuery, DropQuery, FromType, InsertQuery,
    SelectQuery, UpdateQuery,
};

fn s(x: &str) -> String {
    String::from(x)
}

fn col(name: &str, dt: &str, is_pk: bool) -> ColumnAttr {
    ColumnAttr {
        name: s(name),
        datatype: s(dt),
        is_pk,
        is_nullable: !is_pk,
        default: None,
    }
}

fn create(db: &mut Database, name: &str, cols: Vec<ColumnAttr>) {
    let cq = CreateQuery { tb_name: s(name), cols, foreign_key: vec![] };
    create_tb(&cq, db).unwrap();
}

fn insert(db: &mut Database, table: &str, cols: &[&str], rows: &[&[&str]]) {
    let iq = InsertQuery {
        tb_name: s(table),
        cols: cols.iter().map(|c| s(c)).collect(),
        rows: rows
            .iter()
            .map(|r| r.iter().map(|v| s(v)).collect())
            .collect(),
    };
    insert_data(&iq, db).unwrap();
}

fn demo_db() -> Database {
    let mut db = Database::new();
    db.set_dbname(s("demo"));
    create(&mut db, "a", vec![col("id", "int", true), col("x", "string", false)]);
    create(&mut db, "b", vec![col("id", "int", true), col("y", "string", false)]);
    insert(&mut db, "a", &["id", "x"], &[&["1", "a"], &["2", "b"]]);
    insert(&mut db, "b", &["id", "y"], &[&["1", "p"], &["3", "q"]]);
    db
}

#[test]
fn create_rejects_duplicate_names() {
    let mut db = Database::new();
    create(&mut db, "t", vec![col("id", "int", true)]);
    let cq = CreateQuery { tb_name: s("t"), cols: vec![col("id", "int", true)], foreign_key: vec![] };
    assert_eq!(create_tb(&cq, &mut db), Err(Errors::TableAlreadyExists));
}

#[test]
fn insert_into_missing_table_fails() {
    let mut db = Database::new();
    let iq = InsertQuery { tb_name: s("zz"), cols: vec![s("a")], rows: vec![vec![s("1")]] };
    assert_eq!(insert_data(&iq, &mut db), Err(Errors::TableNotFound));
}

#[test]
fn select_filters_and_projects() {
    let mut db = Database::new();
    create(&mut db, "ages", vec![col("pk", "int", true), col("age", "int", false)]);
    insert(
        &mut db,
        "ages",
        &["pk", "age"],
        &[&["0", "5"], &["1", "15"], &["2", "50"], &["3", "70"]],
    );
    let q = SelectQuery {
        from: FromType::Single { tb: s("ages") },
        projection: vec![s("age")],
        condition: Some(Condition::Logical {
            left: Box::new(Condition::Comparison {
                left: s("age"),
                op: BinaryOpCus::Gt,
                right: Some(s("10")),
            }),
            op: BinaryOpCus::And,
            right: Box::new(Condition::Comparison {
                left: s("age"),
                op: BinaryOpCus::Lt,
                right: Some(s("60")),
            }),
        }),
    };
    let pt = select_data(&q, &db).unwrap();
    assert_eq!(pt.header, vec![s("age")]);
    let got: Vec<Option<String>> = pt.rows.iter().map(|r| r.get(&s("age"))).collect();
    assert_eq!(got, vec![Some(s("15")), Some(s("50"))]);
}

#[test]
fn select_star_keeps_declared_order_under_any_condition() {
    let mut db = Database::new();
    create(
        &mut db,
        "t",
        vec![col("a", "int", true), col("b", "int", false), col("c", "int", false)],
    );
    insert(&mut db, "t", &["a", "b", "c"], &[&["1", "2", "3"]]);
    let q = SelectQuery {
        from: FromType::Single { tb: s("t") },
        projection: vec![s("*")],
        condition: None,
    };
    let pt = select_data(&q, &db).unwrap();
    assert_eq!(pt.header, vec![s("a"), s("b"), s("c")]);
    let q2 = SelectQuery {
        from: FromType::Single { tb: s("t") },
        projection: vec![s("*")],
        condition: Some(Condition::Comparison {
            left: s("b"),
            op: BinaryOpCus::Eq,
            right: Some(s("2")),
        }),
    };
    let pt2 = select_data(&q2, &db).unwrap();
    assert_eq!(pt2.header, vec![s("a"), s("b"), s("c")]);
    assert_eq!(pt2.rows.len(), 1);
}

#[test]
fn join_emits_exactly_the_matching_pairs() {
    let db = demo_db();
    let q = SelectQuery {
        from: FromType::Join {
            left_table: s("a"),
            right_table: s("b"),
            left_col: s("id"),
            right_col: s("id"),
        },
        projection: vec![s("*")],
        condition: None,
    };
    let pt = select_data(&q, &db).unwrap();
    // exactly one row: (1, "a", 1, "p"); the right id is prefixed since the
    // name collides
    assert_eq!(pt.header, vec![s("id"), s("x"), s("b.id"), s("y")]);
    assert_eq!(pt.rows.len(), 1);
    assert_eq!(pt.rows[0].get(&s("id")), Some(s("1")));
    assert_eq!(pt.rows[0].get(&s("x")), Some(s("a")));
    assert_eq!(pt.rows[0].get(&s("b.id")), Some(s("1")));
    assert_eq!(pt.rows[0].get(&s("y")), Some(s("p")));
}

#[test]
fn join_of_missing_column_fails() {
    let db = demo_db();
    let q = SelectQuery {
        from: FromType::Join {
            left_table: s("a"),
            right_table: s("b"),
            left_col: s("zz"),
            right_col: s("id"),
        },
        projection: vec![s("*")],
        condition: None,
    };
    assert_eq!(select_data(&q, &db).err(), Some(Errors::ColumnNotFound));
}

#[test]
fn update_then_select_sees_the_new_value_only_there() {
    let mut db = Database::new();
    create(&mut db, "t", vec![col("pk", "int", true), col("col", "int", false)]);
    insert(
        &mut db,
        "t",
        &["pk", "col"],
        &[&["1", "10"], &["3", "30"], &["5", "50"]],
    );
    let uq = UpdateQuery {
        tb_name: s("t"),
        assignments: vec![(s("col"), s("5"))],
        condition: Some(Condition::Comparison {
            left: s("pk"),
            op: BinaryOpCus::Eq,
            right: Some(s("3")),
        }),
    };
    update_data(&uq, &mut db).unwrap();
    let q = SelectQuery {
        from: FromType::Single { tb: s("t") },
        projection: vec![s("*")],
        condition: Some(Condition::Comparison {
            left: s("pk"),
            op: BinaryOpCus::Eq,
            right: Some(s("3")),
        }),
    };
    let pt = select_data(&q, &db).unwrap();
    assert_eq!(pt.rows.len(), 1);
    assert_eq!(pt.rows[0].get(&s("col")), Some(s("5")));
    // no other row's values changed
    let all = SelectQuery {
        from: FromType::Single { tb: s("t") },
        projection: vec![s("*")],
        condition: None,
    };
    let pta = select_data(&all, &db).unwrap();
    let got: Vec<Option<String>> = pta.rows.iter().map(|r| r.get(&s("col"))).collect();
    assert_eq!(got, vec![Some(s("10")), Some(s("5")), Some(s("50"))]);
}

#[test]
fn update_requires_exactly_one_primary_key() {
    let mut db = Database::new();
    create(&mut db, "nopk", vec![col("a", "int", false)]);
    create(&mut db, "twopk", vec![col("a", "int", true), col("b", "int", true)]);
    let uq = UpdateQuery { tb_name: s("nopk"), assignments: vec![(s("a"), s("1"))], condition: None };
    assert_eq!(update_data(&uq, &mut db), Err(Errors::NoPrimaryKey));
    let uq2 = UpdateQuery {
        tb_name: s("twopk"),
        assignments: vec![(s("a"), s("1"))],
        condition: None,
    };
    assert_eq!(update_data(&uq2, &mut db), Err(Errors::AmbiguousPrimaryKey));
}

#[test]
fn delete_removes_exactly_the_chosen_rows() {
    let mut db = Database::new();
    create(&mut db, "t", vec![col("pk", "int", true), col("w", "string", false)]);
    insert(
        &mut db,
        "t",
        &["pk", "w"],
        &[&["1", "x"], &["2", "y"], &["3", "z"]],
    );
    let dq = DeleteQuery {
        tb_name: s("t"),
        condition: Some(Condition::Comparison {
            left: s("pk"),
            op: BinaryOpCus::Gt,
            right: Some(s("1")),
        }),
    };
    delete_data(&dq, &mut db).unwrap();
    let all = SelectQuery {
        from: FromType::Single { tb: s("t") },
        projection: vec![s("*")],
        condition: None,
    };
    let pt = select_data(&all, &db).unwrap();
    assert_eq!(pt.rows.len(), 1);
    assert_eq!(pt.rows[0].get(&s("w")), Some(s("x")));
}

#[test]
fn drop_reports_misses_but_continues() {
    let mut db = demo_db();
    let dq = DropQuery { drop_tbs: vec![s("zz"), s("a")] };
    let errs = drop_tb(&dq, &mut db);
    assert_eq!(errs, vec![Errors::TableNotFound]);
    assert!(!db.check_table(&s("a")));
    assert!(db.check_table(&s("b")));
}

#[test]
fn show_functions_shape_the_result() {
    let db = demo_db();
    let pt = show_tb_data(&s("a"), &db).unwrap();
    assert_eq!(pt.header, vec![s("id"), s("x")]);
    assert_eq!(pt.rows.len(), 2);
    let info = show_tb_info(&s("a"), &db).unwrap();
    assert_eq!(
        info.header,
        vec![s("name"), s("datatype"), s("is_pk"), s("is_nullable"), s("default")]
    );
    assert_eq!(info.rows.len(), 2);
    assert_eq!(info.rows[0].get(&s("name")), Some(s("id")));
    assert_eq!(info.rows[0].get(&s("is_pk")), Some(s("true")));
    let listing = show_all_tbs(&db);
    assert_eq!(listing.name, s("demo"));
    assert_eq!(listing.header, vec![s("Table Name")]);
    let names: Vec<Option<String>> = listing
        .rows
        .iter()
        .map(|r| r.get(&s("Table Name")))
        .collect();
    assert_eq!(names, vec![Some(s("a")), Some(s("b"))]);
    assert_eq!(show_tb_data(&s("zz"), &db).err(), Some(Errors::TableNotFound));
}
