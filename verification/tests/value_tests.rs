use simple_db::base::{bool_string, ColumnAttr, ColumnData, DataType};
use simple_db::errors::Errors;

fn s(x: &str) -> String {
    String::from(x)
}

#[test]
fn datatype_word_parsing_folds_case() {
    assert_eq!(DataType::new(s("float")), DataType::Float);
    assert_eq!(DataType::new(s("INT")), DataType::Int);
    assert_eq!(DataType::new(s("Bool")), DataType::Bool);
    assert_eq!(DataType::new(s("string")), DataType::String);
    assert_eq!(DataType::new(s("decimal")), DataType::Invalid);
}

#[test]
fn datatype_names_round() {
    assert_eq!(DataType::Float.data_type(), s("float"));
    assert_eq!(DataType::Int.data_type(), s("int"));
    assert_eq!(DataType::Bool.data_type(), s("bool"));
    assert_eq!(DataType::String.data_type(), s("string"));
    assert_eq!(DataType::Invalid.data_type(), s("null"));
}

#[test]
fn column_attr_display_fields() {
    let a = ColumnAttr::new(s("age"), s("Int"), true, false, Some(s("0")));
    let fields = a.attr();
    assert_eq!(fields.len(), 5);
    assert_eq!(fields[0], (s("name"), s("age")));
    assert_eq!(fields[1], (s("datatype"), s("int")));
    assert_eq!(fields[2], (s("is_pk"), s("true")));
    assert_eq!(fields[3], (s("is_nullable"), s("false")));
    assert_eq!(fields[4], (s("default"), s("0")));
    let b = ColumnAttr::new(s("note"), s("string"), false, true, None);
    assert_eq!(b.attr()[4], (s("default"), s("None")));
}

#[test]
fn int_store_append_and_render() {
    let mut st = ColumnData::empty_of(DataType::Int);
    assert!(st.append(&s("41")).is_ok());
    assert!(st.append(&s("-7")).is_ok());
    assert_eq!(st.append(&s("4.5")), Err(Errors::TypeMismatch));
    assert_eq!(st.append(&s("")), Err(Errors::TypeMismatch));
    assert_eq!(st.count(), 2);
    assert_eq!(st.get_all_data().unwrap(), vec![s("41"), s("-7")]);
    assert_eq!(st.get_data_by_ix(&vec![1, 0]).unwrap(), vec![s("-7"), s("41")]);
}

#[test]
fn float_store_keeps_canonical_text() {
    let mut st = ColumnData::empty_of(DataType::Float);
    assert!(st.append(&s("3.50")).is_ok());
    assert!(st.append(&s("-0.0")).is_ok());
    assert!(st.append(&s("12.25")).is_ok());
    assert_eq!(st.append(&s("abc")), Err(Errors::TypeMismatch));
    // trailing zeros and negative zero are normalized away
    assert_eq!(st.get_all_data().unwrap(), vec![s("3.5"), s("0"), s("12.25")]);
}

#[test]
fn bool_store_accepts_only_true_false() {
    let mut st = ColumnData::empty_of(DataType::Bool);
    assert!(st.append(&s("true")).is_ok());
    assert!(st.append(&s("false")).is_ok());
    assert_eq!(st.append(&s("True")), Err(Errors::TypeMismatch));
    assert_eq!(st.get_all_data().unwrap(), vec![s("true"), s("false")]);
}

#[test]
fn invalid_store_is_never_read() {
    let st = ColumnData::empty_of(DataType::Invalid);
    assert_eq!(st.count(), 0);
    assert_eq!(st.get_all_data(), Err(Errors::ColumnNotFound));
    let mut st2 = ColumnData::empty_of(DataType::Invalid);
    assert_eq!(st2.append(&s("1")), Err(Errors::ColumnNotFound));
}

#[test]
fn store_update_overwrites_in_place() {
    let mut st = ColumnData::empty_of(DataType::Int);
    st.append(&s("1")).unwrap();
    st.append(&s("2")).unwrap();
    assert!(st.update(0, &s("9")).is_ok());
    assert_eq!(st.update(1, &s("x")), Err(Errors::TypeMismatch));
    assert_eq!(st.get_all_data().unwrap(), vec![s("9"), s("2")]);
}

#[test]
fn store_remove_processes_descending() {
    let mut st = ColumnData::empty_of(DataType::String);
    for w in ["a", "b", "c", "d"] {
        st.append(&s(w)).unwrap();
    }
    // strictly descending indices, as the engine hands them in
    st.remove(&vec![3, 1]);
    assert_eq!(st.get_all_data().unwrap(), vec![s("a"), s("c")]);
}

#[test]
fn bool_text_is_canonical() {
    assert_eq!(bool_string(true), s("true"));
    assert_eq!(bool_string(false), s("false"));
}
