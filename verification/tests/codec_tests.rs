use simple_db::codec::{decode_database, encode_database};
use simple_db::db::{create_tb, delete_data, insert_data, update_data, Database};
use simple_db::errors::Errors;
use simple_db::query::{
    BinaryOpCus, ColumnAttr, Condition, CreateQuery, DeleteQuery, InsertQuery, UpdateQuery,
};

fn s(x: &str) -> String {
    String::from(x)
}

fn col(name: &str, dt: &str, is_pk: bool) -> ColumnAttr {
    ColumnAttr {
        name: s(name),
        datatype: s(dt),
        is_pk,
        is_nullable: !is_pk,
        default: Some(s("0")),
    }
}

fn dump(db: &Database) -> Vec<Vec<(String, String)>> {
    db.tables
        .iter()
        .flat_map(|t| t.scan())
        .map(|r| r.entries.clone())
        .collect()
}

#[test]
fn snapshot_round_trip_reproduces_the_registry() {
    // a sequence of create / insert / update / delete, then save and load
    let mut db = Database::new();
    db.set_dbname(s("mixed"));
    let cq = CreateQuery {
        tb_name: s("t"),
        cols: vec![
            col("pk", "int", true),
            col("price", "float", false),
            col("name", "string", false),
            col("ok", "bool", false),
        ],
        foreign_key: vec![],
    };
    create_tb(&cq, &mut db).unwrap();
    let iq = InsertQuery {
        tb_name: s("t"),
        cols: vec![s("pk"), s("price"), s("name"), s("ok")],
        rows: vec![
            vec![s("1"), s("2.50"), s("left;right"), s("true")],
            vec![s("2"), s("-3.75"), s(""), s("false")],
            vec![s("3"), s("0"), s("NULL"), s("true")],
        ],
    };
    insert_data(&iq, &mut db).unwrap();
    let uq = UpdateQuery {
        tb_name: s("t"),
        assignments: vec![(s("price"), s("9.99"))],
        condition: Some(Condition::Comparison {
            left: s("pk"),
            op: BinaryOpCus::Eq,
            right: Some(s("2")),
        }),
    };
    update_data(&uq, &mut db).unwrap();
    let dq = DeleteQuery {
        tb_name: s("t"),
        condition: Some(Condition::Comparison {
            left: s("pk"),
            op: BinaryOpCus::Eq,
            right: Some(s("3")),
        }),
    };
    delete_data(&dq, &mut db).unwrap();

    let encoded = encode_database(&db);
    let decoded = decode_database(&encoded).unwrap();
    // structurally equal: same name, schema order, column order, row order
    assert_eq!(decoded.db_name, db.db_name);
    assert_eq!(decoded.tables.len(), db.tables.len());
    assert_eq!(decoded.tables[0].name, db.tables[0].name);
    assert_eq!(
        decoded.tables[0].columns.len(),
        db.tables[0].columns.len()
    );
    for (a, b) in decoded.tables[0]
        .columns
        .iter()
        .zip(db.tables[0].columns.iter())
    {
        assert_eq!(a.attr(), b.attr());
    }
    assert_eq!(dump(&decoded), dump(&db));
    // and the re-encoding is byte-for-byte the same text
    assert_eq!(encode_database(&decoded), encoded);
}

#[test]
fn empty_registry_round_trips() {
    let db = Database::new();
    let encoded = encode_database(&db);
    let decoded = decode_database(&encoded).unwrap();
    assert_eq!(decoded.db_name, s(""));
    assert_eq!(decoded.tables.len(), 0);
}

#[test]
fn garbage_is_rejected_not_trusted() {
    let junk: Vec<char> = "hello world".chars().collect();
    assert_eq!(decode_database(&junk).err(), Some(Errors::PersistenceDecode));
    let empty: Vec<char> = Vec::new();
    assert_eq!(decode_database(&empty).err(), Some(Errors::PersistenceDecode));
    // a valid snapshot with trailing bytes is refused
    let mut enc = encode_database(&Database::new());
    enc.push('!');
    assert_eq!(decode_database(&enc).err(), Some(Errors::PersistenceDecode));
}
