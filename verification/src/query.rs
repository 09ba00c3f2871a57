//! Normalized statements handed in by the parsing collaborator.  The engine
//! never touches SQL text; it consumes these structured values.

use vstd::prelude::*;

verus! {

/// Operators that can appear in a condition tree.
#[derive(Clone, Copy, Debug, PartialEq, Eq, Structural)]
pub enum BinaryOpCus {
    Lt,
    Gt,
    Eq,
    And,
    Or,
    IsNull,
    IsTrue,
    Like,
}

/// A recursive predicate tree: leaf comparisons against a literal, and
/// logical combinations of two subtrees.
pub enum Condition {
    Comparison { left: String, op: BinaryOpCus, right: Option<String> },
    Logical { left: Box<Condition>, op: BinaryOpCus, right: Box<Condition> },
}

/// What a select statement draws from: one table, or an equality join of
/// two tables.
pub enum FromType {
    Single { tb: String },
    Join { left_table: String, right_table: String, left_col: String, right_col: String },
}

/// A foreign-key declaration: a column of this table referring to a column
/// of another table.  Recorded only; not enforced.
pub struct ForeignKeyAttr {
    pub table: String,
    pub col_a: String,
    pub col_b: String,
}

/// A column as it appears in a create statement, the type still a word.
pub struct ColumnAttr {
    pub name: String,
    pub datatype: String,
    pub is_pk: bool,
    pub is_nullable: bool,
    pub default: Option<String>,
}

/// A normalized create-table statement.
pub struct CreateQuery {
    pub tb_name: String,
    pub cols: Vec<ColumnAttr>,
    pub foreign_key: Vec<ForeignKeyAttr>,
}

/// A normalized insert statement: the named columns and one or more rows of
/// values, each value still text.
pub struct InsertQuery {
    pub tb_name: String,
    pub cols: Vec<String>,
    pub rows: Vec<Vec<String>>,
}

/// A normalized select statement.
pub struct SelectQuery {
    pub from: FromType,
    pub projection: Vec<String>,
    pub condition: Option<Condition>,
}

/// A normalized update statement: column/value assignments and an optional
/// condition choosing the rows.
pub struct UpdateQuery {
    pub tb_name: String,
    pub assignments: Vec<(String, String)>,
    pub condition: Option<Condition>,
}

/// A normalized delete statement.
pub struct DeleteQuery {
    pub tb_name: String,
    pub condition: Option<Condition>,
}

/// A normalized drop statement: the tables to remove.
pub struct DropQuery {
    pub drop_tbs: Vec<String>,
}

} // verus!
