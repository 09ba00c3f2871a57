use simple_db::errors::Errors;
use simple_db::query::{BinaryOpCus, ColumnAttr, Condition, CreateQuery};
use simple_db::table::Table;

fn s(x: &str) -> String {
    String::from(x)
}

fn col(name: &str, dt: &str, is_pk: bool) -> ColumnAttr {
    ColumnAttr {
        name: s(name),
        datatype: s(dt),
        is_pk,
        is_nullable: !is_pk,
        default: None,
    }
}

fn ages_table() -> Table {
    let cq = CreateQuery {
        tb_name: s("Ages"),
        cols: vec![col("age", "int", false)],
        foreign_key: vec![],
    };
    let mut t = Table::new(&cq);
    let cols = vec![s("age")];
    let rows = vec![vec![s("5")], vec![s("15")], vec![s("50")], vec![s("70")]];
    t.insert_row(&cols, &rows).unwrap();
    t
}

#[test]
fn scan_aligns_inserted_rows() {
    let cq = CreateQuery {
        tb_name: s("people"),
        cols: vec![col("id", "int", true), col("name", "string", false)],
        foreign_key: vec![],
    };
    let mut t = Table::new(&cq);
    let cols = vec![s("id"), s("name")];
    let rows = vec![vec![s("1"), s("ada")], vec![s("2"), s("bob")]];
    t.insert_row(&cols, &rows).unwrap();
    let scanned = t.scan();
    assert_eq!(scanned.len(), 2);
    // index i across all columns belongs to one inserted row
    assert_eq!(scanned[0].get(&s("id")), Some(s("1")));
    assert_eq!(scanned[0].get(&s("name")), Some(s("ada")));
    assert_eq!(scanned[1].get(&s("id")), Some(s("2")));
    assert_eq!(scanned[1].get(&s("name")), Some(s("bob")));
}

#[test]
fn insert_uses_default_or_fails() {
    let cq = CreateQuery {
        tb_name: s("t"),
        cols: vec![
            col("id", "int", true),
            ColumnAttr {
                name: s("role"),
                datatype: s("string"),
                is_pk: false,
                is_nullable: true,
                default: Some(s("guest")),
            },
            col("age", "int", false),
        ],
        foreign_key: vec![],
    };
    let mut t = Table::new(&cq);
    // role is omitted but has a default; age omitted without one fails
    let r = t.insert_row(&vec![s("id")], &vec![vec![s("1")]]);
    assert_eq!(r, Err(Errors::MissingColumnValue));
    assert_eq!(t.scan().len(), 0);
    let r2 = t.insert_row(&vec![s("id"), s("age")], &vec![vec![s("1"), s("30")]]);
    assert!(r2.is_ok());
    let scanned = t.scan();
    assert_eq!(scanned.len(), 1);
    assert_eq!(scanned[0].get(&s("role")), Some(s("guest")));
}

#[test]
fn failing_row_mutates_nothing() {
    let cq = CreateQuery {
        tb_name: s("t"),
        cols: vec![col("a", "int", false), col("b", "int", false)],
        foreign_key: vec![],
    };
    let mut t = Table::new(&cq);
    // second column's value does not parse: the whole row must be refused
    // with no partial append
    let r = t.insert_row(&vec![s("a"), s("b")], &vec![vec![s("1"), s("oops")]]);
    assert_eq!(r, Err(Errors::TypeMismatch));
    assert_eq!(t.scan().len(), 0);
}

#[test]
fn filter_selects_exactly_the_matching_rows() {
    let t = ages_table();
    let rows = t.scan();
    // age > 10 and age < 60
    let cond = Condition::Logical {
        left: Box::new(Condition::Comparison {
            left: s("age"),
            op: BinaryOpCus::Gt,
            right: Some(s("10")),
        }),
        op: BinaryOpCus::And,
        right: Box::new(Condition::Comparison {
            left: s("age"),
            op: BinaryOpCus::Lt,
            right: Some(s("60")),
        }),
    };
    let kept = t.filter(&rows, &cond).unwrap();
    assert_eq!(kept.len(), 2);
    assert_eq!(kept[0].get(&s("age")), Some(s("15")));
    assert_eq!(kept[1].get(&s("age")), Some(s("50")));
}

#[test]
fn comparisons_follow_the_column_type() {
    let cq = CreateQuery {
        tb_name: s("t"),
        cols: vec![col("n", "int", false), col("w", "string", false)],
        foreign_key: vec![],
    };
    let mut t = Table::new(&cq);
    t.insert_row(&vec![s("n"), s("w")], &vec![vec![s("9"), s("apple")]])
        .unwrap();
    let rows = t.scan();
    // numeric comparison: 9 < 10
    let lt = Condition::Comparison { left: s("n"), op: BinaryOpCus::Lt, right: Some(s("10")) };
    assert_eq!(t.evaluate_condition(&rows[0], &lt), Ok(true));
    // lexicographic comparison on strings
    let st = Condition::Comparison { left: s("w"), op: BinaryOpCus::Lt, right: Some(s("beta")) };
    assert_eq!(t.evaluate_condition(&rows[0], &st), Ok(true));
    // unknown column
    let bad = Condition::Comparison { left: s("zz"), op: BinaryOpCus::Eq, right: Some(s("1")) };
    assert_eq!(t.evaluate_condition(&rows[0], &bad), Err(Errors::ColumnNotFound));
    // unparsable right literal in an int comparison
    let mis = Condition::Comparison { left: s("n"), op: BinaryOpCus::Eq, right: Some(s("ten")) };
    assert_eq!(t.evaluate_condition(&rows[0], &mis), Err(Errors::TypeMismatch));
}

#[test]
fn like_and_is_null_semantics() {
    let cq = CreateQuery {
        tb_name: s("t"),
        cols: vec![col("w", "string", false)],
        foreign_key: vec![],
    };
    let mut t = Table::new(&cq);
    t.insert_row(&vec![s("w")], &vec![vec![s("charlie")], vec![s("NULL")]])
        .unwrap();
    let rows = t.scan();
    let like = Condition::Comparison {
        left: s("w"),
        op: BinaryOpCus::Like,
        right: Some(s("ch%l__")),
    };
    assert_eq!(t.evaluate_condition(&rows[0], &like), Ok(true));
    assert_eq!(t.evaluate_condition(&rows[1], &like), Ok(false));
    let isnull = Condition::Comparison { left: s("w"), op: BinaryOpCus::IsNull, right: None };
    assert_eq!(t.evaluate_condition(&rows[0], &isnull), Ok(false));
    assert_eq!(t.evaluate_condition(&rows[1], &isnull), Ok(true));
    // an operator with no meaning in a leaf
    let odd = Condition::Comparison { left: s("w"), op: BinaryOpCus::And, right: Some(s("x")) };
    assert_eq!(t.evaluate_condition(&rows[0], &odd), Err(Errors::UnsupportedOperator));
}

#[test]
fn projection_star_keeps_declared_order() {
    let cq = CreateQuery {
        tb_name: s("t"),
        cols: vec![col("a", "int", false), col("b", "int", false), col("c", "int", false)],
        foreign_key: vec![],
    };
    let mut t = Table::new(&cq);
    t.insert_row(
        &vec![s("a"), s("b"), s("c")],
        &vec![vec![s("1"), s("2"), s("3")]],
    )
    .unwrap();
    let names = t.resolve_projection(&vec![s("*")]).unwrap();
    assert_eq!(names, vec![s("a"), s("b"), s("c")]);
    // explicit names keep first-occurrence order, de-duplicated
    let names2 = t.resolve_projection(&vec![s("c"), s("a"), s("c")]).unwrap();
    assert_eq!(names2, vec![s("c"), s("a")]);
    // an unknown name is refused
    assert_eq!(t.resolve_projection(&vec![s("zz")]), Err(Errors::ColumnNotFound));
    let rows = t.scan();
    let projected = t.project(&rows, &vec![s("c"), s("a")]).unwrap();
    assert_eq!(projected[0].entries, vec![(s("c"), s("3")), (s("a"), s("1"))]);
}

#[test]
fn update_at_touches_only_the_listed_rows() {
    let t0 = ages_table();
    let mut t = t0;
    assert!(t.update_at(&vec![1, 3], &s("age"), &s("99")).is_ok());
    let vals: Vec<Option<String>> = t.scan().iter().map(|r| r.get(&s("age"))).collect();
    assert_eq!(
        vals,
        vec![Some(s("5")), Some(s("99")), Some(s("50")), Some(s("99"))]
    );
    assert_eq!(t.update_at(&vec![0], &s("zz"), &s("1")), Err(Errors::ColumnNotFound));
    assert_eq!(t.update_at(&vec![0], &s("age"), &s("x")), Err(Errors::TypeMismatch));
}

#[test]
fn delete_at_keeps_the_other_rows_in_order() {
    let cq = CreateQuery {
        tb_name: s("t"),
        cols: vec![col("a", "int", false), col("w", "string", false)],
        foreign_key: vec![],
    };
    let mut t = Table::new(&cq);
    t.insert_row(
        &vec![s("a"), s("w")],
        &vec![
            vec![s("0"), s("x")],
            vec![s("1"), s("y")],
            vec![s("2"), s("z")],
        ],
    )
    .unwrap();
    // delete storage indices 2 and 0; exactly the original row at index 1
    // survives, now at index 0, in every column
    t.delete_at(&vec![2, 0]);
    let scanned = t.scan();
    assert_eq!(scanned.len(), 1);
    assert_eq!(scanned[0].get(&s("a")), Some(s("1")));
    assert_eq!(scanned[0].get(&s("w")), Some(s("y")));
}
