//! Tables: a schema of column descriptors and one typed store per column,
//! kept in lockstep, with the row-level operations of the engine.

use vstd::prelude::*;

use crate::base::{
    append_spec, cell_render, lemma_append_spec_wf, store_dt, store_len, store_wf,
    AttrV, ColumnAttr, ColumnData, DataType, StoreV,
};
use crate::errors::Errors;
use crate::query::{BinaryOpCus, Condition, CreateQuery, SelectQuery};
use crate::text::lower;

verus! {

/// An ephemeral materialized row: column names paired with rendered values,
/// in schema order.  A row is a view of storage, never storage itself.
pub struct Row {
    pub entries: Vec<(String, String)>,
}

impl View for Row {
    type V = Seq<(Seq<char>, Seq<char>)>;

    open spec fn view(&self) -> Seq<(Seq<char>, Seq<char>)> {
        self.entries@.map_values(|p: (String, String)| (p.0@, p.1@))
    }
}

/// The value a row holds for a column name; first match wins.
pub open spec fn row_lookup(r: Seq<(Seq<char>, Seq<char>)>, name: Seq<char>) -> Option<Seq<char>>
    decreases r.len(),
{
    if r.len() == 0 {
        None
    } else if r[0].0 == name {
        Some(r[0].1)
    } else {
        row_lookup(r.skip(1), name)
    }
}

proof fn lemma_row_lookup_skip(r: Seq<(Seq<char>, Seq<char>)>, name: Seq<char>, i: int)
    requires
        0 <= i <= r.len(),
        forall|j: int| 0 <= j < i ==> (#[trigger] r[j]).0 != name,
    ensures
        row_lookup(r, name) == row_lookup(r.skip(i), name),
    decreases i,
{
    if i == 0 {
        assert(r.skip(0) =~= r);
    } else {
        assert(r[0].0 != name);
        lemma_row_lookup_skip(r.skip(1), name, i - 1);
        assert(r.skip(1).skip(i - 1) =~= r.skip(i));
        assert(forall|j: int| 0 <= j < i - 1 ==> (#[trigger] r.skip(1)[j]).0 != name);
    }
}

impl Row {
    /// An empty row.
    pub fn new() -> (r: Row)
        ensures
            r@ == Seq::<(Seq<char>, Seq<char>)>::empty(),
    {
        let r = Row { entries: Vec::new() };
        proof {
            assert(r@ =~= Seq::<(Seq<char>, Seq<char>)>::empty());
        }
        r
    }

    /// Appends one named value.
    pub fn push(&mut self, name: String, value: String)
        ensures
            final(self)@ == old(self)@.push((name@, value@)),
    {
        proof {
            assert(old(self).entries@.push((name, value)).map_values(
                |p: (String, String)| (p.0@, p.1@),
            ) =~= old(self)@.push((name@, value@)));
        }
        self.entries.push((name, value));
    }

    /// The value stored under `name`, if any; first match wins.
    pub fn get(&self, name: &String) -> (r: Option<String>)
        ensures
            match r {
                Some(v) => row_lookup(self@, name@) == Some(v@),
                None => row_lookup(self@, name@) is None,
            },
    {
        let mut i: usize = 0;
        while i < self.entries.len()
            invariant
                i <= self.entries@.len(),
                forall|j: int| 0 <= j < i ==> (#[trigger] self@[j]).0 != name@,
            decreases self.entries@.len() - i,
        {
            let hit = {
                let p = &self.entries[i];
                p.0.eq(name)
            };
            if hit {
                proof {
                    lemma_row_lookup_skip(self@, name@, i as int);
                    assert(self@.skip(i as int)[0] == self@[i as int]);
                }
                let p = &self.entries[i];
                return Some(p.1.clone());
            }
            proof {
                assert(self@[i as int].0 == self.entries@[i as int].0@);
            }
            i = i + 1;
        }
        proof {
            lemma_row_lookup_skip(self@, name@, self@.len() as int);
            assert(self@.skip(self@.len() as int).len() == 0);
        }
        None
    }

    /// Copies the row.
    pub fn clone_row(&self) -> (r: Row)
        ensures
            r@ == self@,
    {
        let mut entries: Vec<(String, String)> = Vec::new();
        let mut i: usize = 0;
        while i < self.entries.len()
            invariant
                i <= self.entries@.len(),
                entries@.len() == i,
                forall|j: int| 0 <= j < i ==> #[trigger] entries@[j].0@ == self.entries@[j].0@
                    && entries@[j].1@ == self.entries@[j].1@,
            decreases self.entries@.len() - i,
        {
            let p = &self.entries[i];
            entries.push((p.0.clone(), p.1.clone()));
            i = i + 1;
        }
        let r = Row { entries };
        proof {
            assert(r@ =~= self@);
        }
        r
    }
}

/// A named table: ordered schema and one store per column.
pub struct Table {
    pub name: String,
    pub columns: Vec<ColumnAttr>,
    pub stores: Vec<ColumnData>,
}

/// The mathematical content of a [`Table`].
#[verifier::ext_equal]
pub ghost struct TableV {
    pub name: Seq<char>,
    pub columns: Seq<AttrV>,
    pub stores: Seq<StoreV>,
}

impl View for Table {
    type V = TableV;

    open spec fn view(&self) -> TableV {
        TableV {
            name: self.name@,
            columns: self.columns@.map_values(|c: ColumnAttr| c@),
            stores: self.stores@.map_values(|s: ColumnData| s@),
        }
    }
}

/// The table invariant: one store per column, each of the declared type,
/// canonical decimals, and every store of the same length — the row count.
pub open spec fn table_wf(t: TableV) -> bool {
    &&& t.columns.len() == t.stores.len()
    &&& forall|i: int| 0 <= i < t.stores.len() ==> store_dt(#[trigger] t.stores[i])
        == t.columns[i].datatype
    &&& forall|i: int| 0 <= i < t.stores.len() ==> store_wf(#[trigger] t.stores[i])
    &&& forall|i: int| 0 <= i < t.stores.len() ==> store_len(#[trigger] t.stores[i]) == row_count(t)
}

/// The number of rows; every store has this length in a well-formed table.
pub open spec fn row_count(t: TableV) -> nat {
    if t.stores.len() == 0 {
        0
    } else {
        store_len(t.stores[0])
    }
}

/// The index of the first schema column named `name`, or the column count
/// when there is none.
pub open spec fn col_idx(t: TableV, name: Seq<char>) -> int
    decreases t.columns.len(),
{
    if t.columns.len() == 0 {
        0
    } else if t.columns[0].name == name {
        0
    } else {
        1 + col_idx(
            TableV { name: t.name, columns: t.columns.skip(1), stores: t.stores },
            name,
        )
    }
}

pub proof fn lemma_col_idx_bounds(t: TableV, name: Seq<char>)
    ensures
        0 <= col_idx(t, name) <= t.columns.len(),
        col_idx(t, name) < t.columns.len() ==> t.columns[col_idx(t, name)].name == name,
        forall|j: int| 0 <= j < col_idx(t, name) ==> (#[trigger] t.columns[j]).name != name,
    decreases t.columns.len(),
{
    if t.columns.len() > 0 && t.columns[0].name != name {
        let t2 = TableV { name: t.name, columns: t.columns.skip(1), stores: t.stores };
        lemma_col_idx_bounds(t2, name);
        assert forall|j: int| 0 <= j < col_idx(t, name) implies (#[trigger] t.columns[j]).name
            != name by {
            if j > 0 {
                assert(t2.columns[j - 1].name != name);
            }
        }
    }
}

pub proof fn lemma_col_idx_unique(t: TableV, name: Seq<char>, k: int)
    requires
        0 <= k <= t.columns.len(),
        k < t.columns.len() ==> t.columns[k].name == name,
        forall|j: int| 0 <= j < k ==> (#[trigger] t.columns[j]).name != name,
    ensures
        col_idx(t, name) == k,
    decreases t.columns.len(),
{
    if t.columns.len() > 0 && t.columns[0].name != name {
        assert(k > 0);
        let t2 = TableV { name: t.name, columns: t.columns.skip(1), stores: t.stores };
        lemma_col_idx_unique(t2, name, k - 1);
    }
}

/// The materialized row at storage index `i`: every column's name paired
/// with its rendered value, in schema order.
pub open spec fn row_at(t: TableV, i: int) -> Seq<(Seq<char>, Seq<char>)> {
    Seq::new(t.columns.len(), |c: int| (t.columns[c].name, cell_render(t.stores[c], i)))
}

/// All rows of the table, in storage order.
pub open spec fn scan_spec(t: TableV) -> Seq<Seq<(Seq<char>, Seq<char>)>> {
    Seq::new(row_count(t), |i: int| row_at(t, i))
}

/// The views of a vector of rows.
pub open spec fn rows_view(rows: Seq<Row>) -> Seq<Seq<(Seq<char>, Seq<char>)>> {
    rows.map_values(|r: Row| r@)
}

/// The table a create statement describes: empty stores typed per schema.
pub open spec fn new_table_spec(cq: CreateQuery) -> TableV {
    TableV {
        name: cq.tb_name@,
        columns: Seq::new(
            cq.cols@.len(),
            |i: int| AttrV {
                name: cq.cols@[i].name@,
                datatype: crate::base::datatype_of(lower(cq.cols@[i].datatype@)),
                is_pk: cq.cols@[i].is_pk,
                is_nullable: cq.cols@[i].is_nullable,
                default: match cq.cols@[i].default {
                    Some(d) => Some(d@),
                    None => None,
                },
            },
        ),
        stores: Seq::new(
            cq.cols@.len(),
            |i: int| crate::base::empty_store_of(
                crate::base::datatype_of(lower(cq.cols@[i].datatype@)),
            ),
        ),
    }
}

impl Table {
    /// Allocates an empty table for a create statement: one empty store per
    /// declared column, typed as the schema says.
    pub fn new(cq: &CreateQuery) -> (r: Table)
        ensures
            r@ == new_table_spec(*cq),
            r@.name == cq.tb_name@,
            r@.columns.len() == cq.cols@.len(),
            r@.stores.len() == cq.cols@.len(),
            forall|i: int| 0 <= i < cq.cols@.len() ==> {
                let a = #[trigger] r@.columns[i];
                &&& a.name == cq.cols@[i].name@
                &&& a.datatype == crate::base::datatype_of(lower(cq.cols@[i].datatype@))
                &&& a.is_pk == cq.cols@[i].is_pk
                &&& a.is_nullable == cq.cols@[i].is_nullable
                &&& a.default == match cq.cols@[i].default {
                    Some(d) => Some(d@),
                    None => None::<Seq<char>>,
                }
            },
            table_wf(r@),
            row_count(r@) == 0,
    {
        let mut columns: Vec<ColumnAttr> = Vec::new();
        let mut stores: Vec<ColumnData> = Vec::new();
        let mut i: usize = 0;
        while i < cq.cols.len()
            invariant
                i <= cq.cols@.len(),
                columns@.len() == i,
                stores@.len() == i,
                forall|j: int| 0 <= j < i ==> {
                    let a = #[trigger] columns@[j]@;
                    &&& a.name == cq.cols@[j].name@
                    &&& a.datatype == crate::base::datatype_of(lower(cq.cols@[j].datatype@))
                    &&& a.is_pk == cq.cols@[j].is_pk
                    &&& a.is_nullable == cq.cols@[j].is_nullable
                    &&& a.default == match cq.cols@[j].default {
                        Some(d) => Some(d@),
                        None => None::<Seq<char>>,
                    }
                },
                forall|j: int| 0 <= j < i ==> store_dt(#[trigger] stores@[j]@) == columns@[j]@.datatype
                    && store_len(stores@[j]@) == 0 && store_wf(stores@[j]@),
            decreases cq.cols@.len() - i,
        {
            let col = &cq.cols[i];
            let name = col.name.clone();
            let dtword = col.datatype.clone();
            let default = match &col.default {
                Some(d) => Some(d.clone()),
                None => None,
            };
            let attr = ColumnAttr::new(name, dtword, col.is_pk, col.is_nullable, default);
            let store = ColumnData::empty_of(attr.datatype);
            columns.push(attr);
            stores.push(store);
            i = i + 1;
        }
        let r = Table { name: cq.tb_name.clone(), columns, stores };
        proof {
            assert(r@.columns.len() == cq.cols@.len());
            assert forall|j: int| 0 <= j < r@.stores.len() implies store_len(
                #[trigger] r@.stores[j],
            ) == 0 by {
                assert(r@.stores[j] == stores@[j]@);
            }
            let spec_t = new_table_spec(*cq);
            assert forall|j: int| 0 <= j < cq.cols@.len() implies #[trigger] r@.columns[j]
                == spec_t.columns[j] by {
                assert(r@.columns[j] == columns@[j]@);
                assert(r@.columns[j] =~= spec_t.columns[j]);
            }
            assert forall|j: int| 0 <= j < cq.cols@.len() implies #[trigger] r@.stores[j]
                == spec_t.stores[j] by {
                assert(r@.stores[j] == stores@[j]@);
                assert(store_dt(r@.stores[j]) == spec_t.columns[j].datatype);
                assert(store_len(r@.stores[j]) == 0);
                assert(r@.stores[j] =~= spec_t.stores[j]) by {
                    match stores@[j]@ {
                        StoreV::Ints(v) => {},
                        StoreV::Floats(v) => {},
                        StoreV::Strs(v) => {},
                        StoreV::Bools(v) => {},
                        StoreV::Missing => {},
                    }
                }
            }
            assert(r@.columns =~= spec_t.columns);
            assert(r@.stores =~= spec_t.stores);
            assert(r@ =~= spec_t);
        }
        r
    }

    /// Builds a table from already-made parts.
    pub fn create(name: String, columns: Vec<ColumnAttr>, stores: Vec<ColumnData>) -> (r: Table)
        ensures
            r@.name == name@,
            r@.columns == columns@.map_values(|c: ColumnAttr| c@),
            r@.stores == stores@.map_values(|s: ColumnData| s@),
    {
        Table { name, columns, stores }
    }

    /// The number of rows.
    pub fn count_rows(&self) -> (r: usize)
        requires
            table_wf(self@),
        ensures
            r == row_count(self@),
    {
        if self.stores.len() == 0 {
            0
        } else {
            self.stores[0].count()
        }
    }

    /// Materializes every row, index `i` of every store forming row `i`.
    pub fn scan(&self) -> (rows: Vec<Row>)
        requires
            table_wf(self@),
        ensures
            rows_view(rows@) == scan_spec(self@),
            rows@.len() == row_count(self@),
    {
        let n = self.count_rows();
        let mut rows: Vec<Row> = Vec::new();
        let mut i: usize = 0;
        while i < n
            invariant
                table_wf(self@),
                n == row_count(self@),
                i <= n,
                rows@.len() == i,
                forall|j: int| 0 <= j < i ==> (#[trigger] rows@[j])@ == row_at(self@, j),
            decreases n - i,
        {
            let mut row = Row::new();
            let mut c: usize = 0;
            while c < self.columns.len()
                invariant
                    table_wf(self@),
                    n == row_count(self@),
                    i < n,
                    c <= self.columns@.len(),
                    row@ =~= row_at(self@, i as int).take(c as int),
                decreases self.columns@.len() - c,
            {
                proof {
                    assert(self@.stores[c as int] == self.stores@[c as int]@);
                    assert(store_len(self@.stores[c as int]) == row_count(self@));
                }
                let val = self.stores[c].render_at(i);
                row.push(self.columns[c].name.clone(), val);
                proof {
                    assert(self@.columns[c as int] == self.columns@[c as int]@);
                    assert(row@ =~= row_at(self@, i as int).take(c + 1));
                }
                c = c + 1;
            }
            proof {
                assert(row_at(self@, i as int).take(self.columns@.len() as int) =~= row_at(
                    self@,
                    i as int,
                ));
            }
            rows.push(row);
            i = i + 1;
        }
        proof {
            assert(rows_view(rows@) =~= scan_spec(self@));
        }
        rows
    }
}

/// The views of a vector of names or values.
pub open spec fn strs_view(s: Seq<String>) -> Seq<Seq<char>> {
    s.map_values(|x: String| x@)
}

/// The views of a vector of value rows.
pub open spec fn rows2_view(rs: Seq<Vec<String>>) -> Seq<Seq<Seq<char>>> {
    rs.map_values(|v: Vec<String>| strs_view(v@))
}

/// The index of the first name in `cols` equal to `name`, or the length.
pub open spec fn name_pos(cols: Seq<Seq<char>>, name: Seq<char>) -> int
    decreases cols.len(),
{
    if cols.len() == 0 {
        0
    } else if cols[0] == name {
        0
    } else {
        1 + name_pos(cols.skip(1), name)
    }
}

pub proof fn lemma_name_pos_unique(cols: Seq<Seq<char>>, name: Seq<char>, k: int)
    requires
        0 <= k <= cols.len(),
        k < cols.len() ==> cols[k] == name,
        forall|j: int| 0 <= j < k ==> cols[j] != name,
    ensures
        name_pos(cols, name) == k,
    decreases cols.len(),
{
    if cols.len() > 0 && cols[0] != name {
        assert(k > 0);
        lemma_name_pos_unique(cols.skip(1), name, k - 1);
    }
}

/// The value an insert provides for one schema column: the supplied value
/// when the column is named, else the column's default, else a
/// `MissingColumnValue` failure.
pub open spec fn value_for(cols: Seq<Seq<char>>, row: Seq<Seq<char>>, attr: AttrV) -> Result<
    Seq<char>,
    Errors,
> {
    let p = name_pos(cols, attr.name);
    if p < cols.len() {
        if p < row.len() {
            Ok(row[p])
        } else {
            Err(Errors::MissingColumnValue)
        }
    } else {
        match attr.default {
            Some(d) => Ok(d),
            None => Err(Errors::MissingColumnValue),
        }
    }
}

/// The stores from column `c` onward after appending one row, or the first
/// failure in schema order.
pub open spec fn insert_cols_spec(
    t: TableV,
    cols: Seq<Seq<char>>,
    row: Seq<Seq<char>>,
    c: int,
) -> Result<Seq<StoreV>, Errors>
    decreases t.columns.len() - c,
{
    if c < 0 || c >= t.columns.len() {
        Ok(Seq::<StoreV>::empty())
    } else {
        match value_for(cols, row, t.columns[c]) {
            Ok(v) => match append_spec(t.stores[c], v) {
                Ok(s2) => match insert_cols_spec(t, cols, row, c + 1) {
                    Ok(rest) => Ok(seq![s2] + rest),
                    Err(e) => Err(e),
                },
                Err(e) => Err(e),
            },
            Err(e) => Err(e),
        }
    }
}

/// What inserting one row does to a table: every column validated in schema
/// order before any store changes.
pub open spec fn insert_one_spec(t: TableV, cols: Seq<Seq<char>>, row: Seq<Seq<char>>) -> Result<
    TableV,
    Errors,
> {
    match insert_cols_spec(t, cols, row, 0) {
        Ok(st) => Ok(TableV { name: t.name, columns: t.columns, stores: st }),
        Err(e) => Err(e),
    }
}

/// Applies the rows in order until the first failing row; earlier rows
/// stay applied, the failing row changes nothing.
pub open spec fn insert_rows_spec(
    t: TableV,
    cols: Seq<Seq<char>>,
    rows: Seq<Seq<Seq<char>>>,
) -> (TableV, Option<Errors>)
    decreases rows.len(),
{
    if rows.len() == 0 {
        (t, None)
    } else {
        match insert_one_spec(t, cols, rows[0]) {
            Ok(t2) => insert_rows_spec(t2, cols, rows.skip(1)),
            Err(e) => (t, Some(e)),
        }
    }
}

/// If the columns up to `c` validate and column `c` fails, the whole row
/// fails with that error.
proof fn lemma_insert_cols_err(
    t: TableV,
    cols: Seq<Seq<char>>,
    row: Seq<Seq<char>>,
    c: int,
    e: Errors,
    j: int,
)
    requires
        0 <= j <= c < t.columns.len(),
        forall|k: int| 0 <= k < c ==> (#[trigger] value_for(cols, row, t.columns[k])) is Ok
            && append_spec(t.stores[k], value_for(cols, row, t.columns[k])->Ok_0) is Ok,
        match value_for(cols, row, t.columns[c]) {
            Ok(v) => append_spec(t.stores[c], v) == Err::<StoreV, Errors>(e),
            Err(e2) => e2 == e,
        },
    ensures
        insert_cols_spec(t, cols, row, j) == Err::<Seq<StoreV>, Errors>(e),
    decreases c - j,
{
    if j == c {
    } else {
        lemma_insert_cols_err(t, cols, row, c, e, j + 1);
    }
}

/// If every column validates, the row's new stores are exactly the
/// appended ones.
proof fn lemma_insert_cols_ok(t: TableV, cols: Seq<Seq<char>>, row: Seq<Seq<char>>, j: int)
    requires
        0 <= j <= t.columns.len(),
        forall|k: int| 0 <= k < t.columns.len() ==> (#[trigger] value_for(cols, row, t.columns[k])) is Ok
            && append_spec(t.stores[k], value_for(cols, row, t.columns[k])->Ok_0) is Ok,
    ensures
        insert_cols_spec(t, cols, row, j) == Ok::<Seq<StoreV>, Errors>(
            Seq::new(
                (t.columns.len() - j) as nat,
                |k: int| append_spec(
                    t.stores[j + k],
                    value_for(cols, row, t.columns[j + k])->Ok_0,
                )->Ok_0,
            ),
        ),
    decreases t.columns.len() - j,
{
    if j == t.columns.len() {
        assert(Seq::new(0, |k: int| append_spec(
            t.stores[j + k],
            value_for(cols, row, t.columns[j + k])->Ok_0,
        )->Ok_0) =~= Seq::<StoreV>::empty());
    } else {
        lemma_insert_cols_ok(t, cols, row, j + 1);
        let s2 = append_spec(t.stores[j], value_for(cols, row, t.columns[j])->Ok_0)->Ok_0;
        let rest = Seq::new(
            (t.columns.len() - j - 1) as nat,
            |k: int| append_spec(
                t.stores[j + 1 + k],
                value_for(cols, row, t.columns[j + 1 + k])->Ok_0,
            )->Ok_0,
        );
        assert(seq![s2] + rest =~= Seq::new(
            (t.columns.len() - j) as nat,
            |k: int| append_spec(
                t.stores[j + k],
                value_for(cols, row, t.columns[j + k])->Ok_0,
            )->Ok_0,
        ));
    }
}

impl Table {
    /// Inserts the given rows.  For every schema column a row must supply a
    /// value or the column must carry a default; every value of a row is
    /// validated before any store changes, so a failing row mutates
    /// nothing.  Rows before the first failing row stay applied.
    #[verifier::loop_isolation(false)]
    pub fn insert_row(&mut self, cols: &Vec<String>, rows: &Vec<Vec<String>>) -> (r: Result<
        (),
        Errors,
    >)
        requires
            table_wf(old(self)@),
        ensures
            final(self)@ == insert_rows_spec(old(self)@, strs_view(cols@), rows2_view(rows@)).0,
            (match r {
                Ok(_) => insert_rows_spec(old(self)@, strs_view(cols@), rows2_view(rows@)).1
                    is None,
                Err(e) => insert_rows_spec(old(self)@, strs_view(cols@), rows2_view(rows@)).1
                    == Some(e),
            }),
            table_wf(final(self)@),
            final(self)@.columns == old(self)@.columns,
            final(self)@.name == old(self)@.name,
    {
        let ghost colsv = strs_view(cols@);
        let ghost rowsv = rows2_view(rows@);
        let mut k: usize = 0;
        proof {
            assert(rowsv.skip(0) =~= rowsv);
        }
        while k < rows.len()
            invariant
                k <= rows@.len(),
                table_wf(self@),
                self@.columns == old(self)@.columns,
                self@.name == old(self)@.name,
                insert_rows_spec(old(self)@, colsv, rowsv) == insert_rows_spec(
                    self@,
                    colsv,
                    rowsv.skip(k as int),
                ),
            decreases rows@.len() - k,
        {
            let ghost tcur = self@;
            let row = &rows[k];
            let ghost rowv = strs_view(row@);
            proof {
                assert(rowsv.skip(k as int)[0] == rowsv[k as int]);
                assert(rowsv[k as int] == rowv);
            }
            // validate every column first, collecting the value each store
            // will take
            let mut vals: Vec<String> = Vec::new();
            let mut c: usize = 0;
            while c < self.columns.len()
                invariant
                    c <= self.columns@.len(),
                    vals@.len() == c,
                    self@ == tcur,
                    forall|j: int| 0 <= j < c ==> (#[trigger] value_for(colsv, rowv, tcur.columns[j]))
                        == Ok::<Seq<char>, Errors>(vals@[j]@) && append_spec(
                        tcur.stores[j],
                        vals@[j]@,
                    ) is Ok,
                decreases self.columns@.len() - c,
            {
                // where does this column's value come from?
                let colname = &self.columns[c].name;
                let mut p: usize = 0;
                while p < cols.len() && !cols[p].eq(colname)
                    invariant
                        p <= cols@.len(),
                        forall|j: int| 0 <= j < p ==> colsv[j] != colname@,
                    decreases cols@.len() - p,
                {
                    proof {
                        assert(colsv[p as int] == cols@[p as int]@);
                    }
                    p = p + 1;
                }
                proof {
                    lemma_name_pos_unique(colsv, colname@, p as int);
                    assert(tcur.columns[c as int] == self.columns@[c as int]@);
                }
                let val: String = if p < cols.len() {
                    if p < row.len() {
                        row[p].clone()
                    } else {
                        proof {
                            insert_fail_proof(
                                old(self)@,
                                tcur,
                                colsv,
                                rowsv,
                                k as int,
                                c as int,
                                Errors::MissingColumnValue,
                            );
                        }
                        return Err(Errors::MissingColumnValue);
                    }
                } else {
                    match &self.columns[c].default {
                        Some(d) => d.clone(),
                        None => {
                            proof {
                                insert_fail_proof(
                                    old(self)@,
                                    tcur,
                                    colsv,
                                    rowsv,
                                    k as int,
                                    c as int,
                                    Errors::MissingColumnValue,
                                );
                            }
                            return Err(Errors::MissingColumnValue);
                        },
                    }
                };
                proof {
                    assert(value_for(colsv, rowv, tcur.columns[c as int]) == Ok::<Seq<char>, Errors>(
                        val@,
                    ));
                }
                match self.stores[c].check_append(&val) {
                    Ok(_) => {},
                    Err(e) => {
                        proof {
                            assert(tcur.stores[c as int] == self.stores@[c as int]@);
                            insert_fail_proof(
                                old(self)@,
                                tcur,
                                colsv,
                                rowsv,
                                k as int,
                                c as int,
                                e,
                            );
                        }
                        return Err(e);
                    },
                }
                proof {
                    assert(tcur.stores[c as int] == self.stores@[c as int]@);
                }
                vals.push(val);
                c = c + 1;
            }
            // every column validated: apply the row
            proof {
                lemma_insert_cols_ok(tcur, colsv, rowv, 0);
            }
            let mut c2: usize = 0;
            while c2 < vals.len()
                invariant
                    c2 <= vals@.len(),
                    vals@.len() == tcur.columns.len(),
                    self@.name == tcur.name,
                    self@.columns == tcur.columns,
                    self@.stores.len() == tcur.stores.len(),
                    forall|j: int| 0 <= j < c2 ==> #[trigger] self@.stores[j] == append_spec(
                        tcur.stores[j],
                        vals@[j]@,
                    )->Ok_0,
                    forall|j: int| c2 <= j < tcur.stores.len() ==> #[trigger] self@.stores[j]
                        == tcur.stores[j],
                    forall|j: int| 0 <= j < tcur.columns.len() ==> (#[trigger] value_for(
                        colsv,
                        rowv,
                        tcur.columns[j],
                    )) == Ok::<Seq<char>, Errors>(vals@[j]@) && append_spec(
                        tcur.stores[j],
                        vals@[j]@,
                    ) is Ok,
                decreases vals@.len() - c2,
            {
                proof {
                    assert(self@.stores[c2 as int] == self.stores@[c2 as int]@);
                    assert(self@.stores[c2 as int] == tcur.stores[c2 as int]);
                    assert(store_wf(tcur.stores[c2 as int])) by {
                        assert(table_wf(tcur));
                    }
                    assert(value_for(colsv, rowv, tcur.columns[c2 as int]) is Ok);
                }
                let ghost beforestores = self@.stores;
                let st = &mut self.stores[c2];
                let res = st.append(&vals[c2]);
                proof {
                    assert(res is Ok);
                    assert(self@.stores =~= beforestores.update(
                        c2 as int,
                        append_spec(tcur.stores[c2 as int], vals@[c2 as int]@)->Ok_0,
                    ));
                    assert(self@.columns =~= tcur.columns);
                }
                c2 = c2 + 1;
            }
            proof {
                let applied = insert_one_spec(tcur, colsv, rowv)->Ok_0;
                assert(self@.stores =~= applied.stores);
                assert(self@ =~= applied);
                // the new table is well-formed: every store grew by one
                assert forall|j: int| 0 <= j < self@.stores.len() implies store_wf(
                    #[trigger] self@.stores[j],
                ) && store_dt(self@.stores[j]) == self@.columns[j].datatype && store_len(
                    self@.stores[j],
                ) == row_count(tcur) + 1 by {
                    lemma_append_spec_wf(tcur.stores[j], vals@[j]@);
                    assert(store_len(tcur.stores[j]) == row_count(tcur));
                }
                if self@.stores.len() > 0 {
                    assert(row_count(self@) == row_count(tcur) + 1);
                }
                assert(table_wf(self@));
                assert(rowsv.skip(k as int).skip(1) =~= rowsv.skip(k + 1));
            }
            k = k + 1;
        }
        proof {
            assert(rowsv.skip(rowsv.len() as int) =~= Seq::<Seq<Seq<char>>>::empty());
        }
        Ok(())
    }
}

/// The native strict order of one value type, on rendered texts: numeric
/// for ints and floats, lexicographic for strings, `false < true` for
/// booleans.  A text that does not parse in the type is a `TypeMismatch`;
/// an `Invalid` column is never compared.
pub open spec fn typed_lt(dt: DataType, a: Seq<char>, b: Seq<char>) -> Result<bool, Errors> {
    match dt {
        DataType::Int => match (crate::num::parse_i32_spec(a), crate::num::parse_i32_spec(b)) {
            (Some(x), Some(y)) => Ok(x < y),
            _ => Err(Errors::TypeMismatch),
        },
        DataType::Float => match (
            crate::decimal::parse_dec_spec(a),
            crate::decimal::parse_dec_spec(b),
        ) {
            (Some(x), Some(y)) => Ok(crate::decimal::dec_lt(x, y)),
            _ => Err(Errors::TypeMismatch),
        },
        DataType::String => Ok(crate::text::lex_lt(a, b)),
        DataType::Bool => match (
            crate::base::parse_bool_spec(a),
            crate::base::parse_bool_spec(b),
        ) {
            (Some(x), Some(y)) => Ok(!x && y),
            _ => Err(Errors::TypeMismatch),
        },
        DataType::Invalid => Err(Errors::ColumnNotFound),
    }
}

/// Value equality of one value type, on rendered texts.
pub open spec fn typed_eq(dt: DataType, a: Seq<char>, b: Seq<char>) -> Result<bool, Errors> {
    match dt {
        DataType::Int => match (crate::num::parse_i32_spec(a), crate::num::parse_i32_spec(b)) {
            (Some(x), Some(y)) => Ok(x == y),
            _ => Err(Errors::TypeMismatch),
        },
        DataType::Float => match (
            crate::decimal::parse_dec_spec(a),
            crate::decimal::parse_dec_spec(b),
        ) {
            (Some(x), Some(y)) => Ok(x == y),
            _ => Err(Errors::TypeMismatch),
        },
        DataType::String => Ok(a == b),
        DataType::Bool => match (
            crate::base::parse_bool_spec(a),
            crate::base::parse_bool_spec(b),
        ) {
            (Some(x), Some(y)) => Ok(x == y),
            _ => Err(Errors::TypeMismatch),
        },
        DataType::Invalid => Err(Errors::ColumnNotFound),
    }
}

/// One comparison leaf evaluated against a materialized row.
pub open spec fn eval_comparison(
    t: TableV,
    row: Seq<(Seq<char>, Seq<char>)>,
    left: Seq<char>,
    op: BinaryOpCus,
    right: Option<Seq<char>>,
) -> Result<bool, Errors> {
    match row_lookup(row, left) {
        None => Err(Errors::ColumnNotFound),
        Some(lv) => match op {
            BinaryOpCus::Lt => match right {
                Some(rv) => if col_idx(t, left) < t.columns.len() {
                    typed_lt(t.columns[col_idx(t, left)].datatype, lv, rv)
                } else {
                    Err(Errors::ColumnNotFound)
                },
                None => Err(Errors::UnsupportedOperator),
            },
            BinaryOpCus::Gt => match right {
                Some(rv) => if col_idx(t, left) < t.columns.len() {
                    typed_lt(t.columns[col_idx(t, left)].datatype, rv, lv)
                } else {
                    Err(Errors::ColumnNotFound)
                },
                None => Err(Errors::UnsupportedOperator),
            },
            BinaryOpCus::Eq => match right {
                Some(rv) => if col_idx(t, left) < t.columns.len() {
                    typed_eq(t.columns[col_idx(t, left)].datatype, lv, rv)
                } else {
                    Err(Errors::ColumnNotFound)
                },
                None => Err(Errors::UnsupportedOperator),
            },
            BinaryOpCus::IsNull => match right {
                None => Ok(lv == "NULL"@),
                Some(_) => Err(Errors::UnsupportedOperator),
            },
            BinaryOpCus::Like => match right {
                Some(p) => Ok(crate::text::like_match(lv, p)),
                None => Err(Errors::UnsupportedOperator),
            },
            _ => Err(Errors::UnsupportedOperator),
        },
    }
}

/// A condition tree evaluated against a materialized row.  Both branches of
/// a logical node are evaluated (evaluation is effect-free); the left
/// branch's failure wins.
pub open spec fn eval_cond(t: TableV, row: Seq<(Seq<char>, Seq<char>)>, c: Condition) -> Result<
    bool,
    Errors,
>
    decreases c,
{
    match c {
        Condition::Comparison { left, op, right } => eval_comparison(
            t,
            row,
            left@,
            op,
            match right {
                Some(r) => Some(r@),
                None => None,
            },
        ),
        Condition::Logical { left, op, right } => match (
            eval_cond(t, row, *left),
            eval_cond(t, row, *right),
        ) {
            (Ok(a), Ok(b)) => match op {
                BinaryOpCus::And => Ok(a && b),
                BinaryOpCus::Or => Ok(a || b),
                _ => Err(Errors::UnsupportedOperator),
            },
            (Err(e), _) => Err(e),
            (_, Err(e)) => Err(e),
        },
    }
}

/// The rows satisfying the condition, in order; the first evaluation
/// failure, if any, fails the whole filter.
pub open spec fn filter_spec(
    t: TableV,
    rows: Seq<Seq<(Seq<char>, Seq<char>)>>,
    c: Condition,
) -> Result<Seq<Seq<(Seq<char>, Seq<char>)>>, Errors>
    decreases rows.len(),
{
    if rows.len() == 0 {
        Ok(Seq::<Seq<(Seq<char>, Seq<char>)>>::empty())
    } else {
        match eval_cond(t, rows[0], c) {
            Err(e) => Err(e),
            Ok(b) => match filter_spec(t, rows.skip(1), c) {
                Err(e) => Err(e),
                Ok(rest) => if b {
                    Ok(seq![rows[0]] + rest)
                } else {
                    Ok(rest)
                },
            },
        }
    }
}

impl Table {
    /// The index of the first schema column named `name`, or the column
    /// count when there is none.
    pub fn find_col(&self, name: &String) -> (r: usize)
        ensures
            r == col_idx(self@, name@),
            r <= self@.columns.len(),
            r < self@.columns.len() ==> self@.columns[r as int].name == name@,
    {
        let mut i: usize = 0;
        while i < self.columns.len()
            invariant
                i <= self.columns@.len(),
                forall|j: int| 0 <= j < i ==> (#[trigger] self@.columns[j]).name != name@,
            decreases self.columns@.len() - i,
        {
            if self.columns[i].name.eq(name) {
                proof {
                    assert(self@.columns[i as int] == self.columns@[i as int]@);
                    lemma_col_idx_unique(self@, name@, i as int);
                }
                return i;
            }
            proof {
                assert(self@.columns[i as int] == self.columns@[i as int]@);
            }
            i = i + 1;
        }
        proof {
            lemma_col_idx_unique(self@, name@, self.columns@.len() as int);
        }
        i
    }

    /// Evaluates a condition tree against one materialized row, as
    /// [`eval_cond`] says.
    pub fn evaluate_condition(&self, row: &Row, condition: &Condition) -> (r: Result<bool, Errors>)
        ensures
            r == eval_cond(self@, row@, *condition),
        decreases *condition,
    {
        match condition {
            Condition::Comparison { left, op, right } => {
                let lv = match row.get(left) {
                    Some(v) => v,
                    None => {
                        return Err(Errors::ColumnNotFound);
                    },
                };
                match op {
                    BinaryOpCus::Lt | BinaryOpCus::Gt | BinaryOpCus::Eq => {
                        let rv = match right {
                            Some(v) => v,
                            None => {
                                return Err(Errors::UnsupportedOperator);
                            },
                        };
                        let ci = self.find_col(left);
                        if ci >= self.columns.len() {
                            proof {
                                lemma_col_idx_bounds(self@, left@);
                            }
                            return Err(Errors::ColumnNotFound);
                        }
                        let dt = self.columns[ci].datatype;
                        proof {
                            assert(self@.columns[ci as int] == self.columns@[ci as int]@);
                        }
                        let flip = matches!(op, BinaryOpCus::Gt);
                        let iseq = matches!(op, BinaryOpCus::Eq);
                        let (a, b): (&String, &String) = if flip {
                            (rv, &lv)
                        } else {
                            (&lv, rv)
                        };
                        if iseq {
                            self.typed_eq_exec(dt, &lv, rv)
                        } else {
                            self.typed_lt_exec(dt, a, b)
                        }
                    },
                    BinaryOpCus::IsNull => {
                        match right {
                            Some(_) => Err(Errors::UnsupportedOperator),
                            None => {
                                let chars = crate::text::str_to_chars(lv.as_str());
                                Ok(crate::text::chars_eq_str(&chars, "NULL"))
                            },
                        }
                    },
                    BinaryOpCus::Like => {
                        match right {
                            Some(p) => {
                                let tchars = crate::text::str_to_chars(lv.as_str());
                                let pchars = crate::text::str_to_chars(p.as_str());
                                Ok(crate::text::like_matches(&tchars, &pchars))
                            },
                            None => Err(Errors::UnsupportedOperator),
                        }
                    },
                    _ => Err(Errors::UnsupportedOperator),
                }
            },
            Condition::Logical { left, op, right } => {
                let lr = self.evaluate_condition(row, left);
                let rr = self.evaluate_condition(row, right);
                match (lr, rr) {
                    (Ok(a), Ok(b)) => match op {
                        BinaryOpCus::And => Ok(a && b),
                        BinaryOpCus::Or => Ok(a || b),
                        _ => Err(Errors::UnsupportedOperator),
                    },
                    (Err(e), _) => Err(e),
                    (_, Err(e)) => Err(e),
                }
            },
        }
    }

    /// [`typed_lt`] on texts, executable.
    fn typed_lt_exec(&self, dt: DataType, a: &String, b: &String) -> (r: Result<bool, Errors>)
        ensures
            r == typed_lt(dt, a@, b@),
    {
        let ac = crate::text::str_to_chars(a.as_str());
        let bc = crate::text::str_to_chars(b.as_str());
        match dt {
            DataType::Int => {
                match (crate::num::parse_i32(&ac), crate::num::parse_i32(&bc)) {
                    (Some(x), Some(y)) => Ok(x < y),
                    _ => Err(Errors::TypeMismatch),
                }
            },
            DataType::Float => {
                match (crate::decimal::Decimal::parse(&ac), crate::decimal::Decimal::parse(&bc)) {
                    (Some(x), Some(y)) => Ok(x.lt_dec(&y)),
                    _ => Err(Errors::TypeMismatch),
                }
            },
            DataType::String => Ok(crate::text::chars_lt(&ac, &bc)),
            DataType::Bool => {
                let pa = self.parse_bool_exec(&ac);
                let pb = self.parse_bool_exec(&bc);
                match (pa, pb) {
                    (Some(x), Some(y)) => Ok(!x && y),
                    _ => Err(Errors::TypeMismatch),
                }
            },
            DataType::Invalid => Err(Errors::ColumnNotFound),
        }
    }

    /// [`typed_eq`] on texts, executable.
    fn typed_eq_exec(&self, dt: DataType, a: &String, b: &String) -> (r: Result<bool, Errors>)
        ensures
            r == typed_eq(dt, a@, b@),
    {
        let ac = crate::text::str_to_chars(a.as_str());
        let bc = crate::text::str_to_chars(b.as_str());
        match dt {
            DataType::Int => {
                match (crate::num::parse_i32(&ac), crate::num::parse_i32(&bc)) {
                    (Some(x), Some(y)) => Ok(x == y),
                    _ => Err(Errors::TypeMismatch),
                }
            },
            DataType::Float => {
                match (crate::decimal::Decimal::parse(&ac), crate::decimal::Decimal::parse(&bc)) {
                    (Some(x), Some(y)) => Ok(x.eq_dec(&y)),
                    _ => Err(Errors::TypeMismatch),
                }
            },
            DataType::String => {
                let r = a.eq(b);
                Ok(r)
            },
            DataType::Bool => {
                let pa = self.parse_bool_exec(&ac);
                let pb = self.parse_bool_exec(&bc);
                match (pa, pb) {
                    (Some(x), Some(y)) => Ok(x == y),
                    _ => Err(Errors::TypeMismatch),
                }
            },
            DataType::Invalid => Err(Errors::ColumnNotFound),
        }
    }

    /// [`crate::base::parse_bool_spec`], executable.
    fn parse_bool_exec(&self, chars: &Vec<char>) -> (r: Option<bool>)
        ensures
            r == crate::base::parse_bool_spec(chars@),
    {
        if crate::text::chars_eq_str(chars, "true") {
            Some(true)
        } else if crate::text::chars_eq_str(chars, "false") {
            Some(false)
        } else {
            None
        }
    }

    /// Keeps the rows the condition selects, order preserved, as
    /// [`filter_spec`] says.
    #[verifier::loop_isolation(false)]
    pub fn filter(&self, rows: &Vec<Row>, condition: &Condition) -> (r: Result<Vec<Row>, Errors>)
        ensures
            match r {
                Ok(out) => filter_spec(self@, rows_view(rows@), *condition) == Ok::<_, Errors>(
                    rows_view(out@),
                ),
                Err(e) => filter_spec(self@, rows_view(rows@), *condition) == Err::<
                    Seq<Seq<(Seq<char>, Seq<char>)>>,
                    Errors,
                >(e),
            },
    {
        let ghost rowsv = rows_view(rows@);
        let mut out: Vec<Row> = Vec::new();
        let mut i: usize = 0;
        proof {
            assert(rowsv.skip(0) =~= rowsv);
            assert(rows_view(out@) =~= Seq::<Seq<(Seq<char>, Seq<char>)>>::empty());
        }
        while i < rows.len()
            invariant
                i <= rows@.len(),
                filter_spec(self@, rowsv, *condition) == (match filter_spec(
                    self@,
                    rowsv.skip(i as int),
                    *condition,
                ) {
                    Ok(rest) => Ok::<_, Errors>(rows_view(out@) + rest),
                    Err(e) => Err(e),
                }),
            decreases rows@.len() - i,
        {
            proof {
                assert(rowsv.skip(i as int)[0] == rowsv[i as int]);
                assert(rowsv[i as int] == rows@[i as int]@);
                assert(rowsv.skip(i as int).skip(1) =~= rowsv.skip(i + 1));
            }
            match self.evaluate_condition(&rows[i], condition) {
                Err(e) => {
                    return Err(e);
                },
                Ok(b) => {
                    let ghost outv_old = rows_view(out@);
                    if b {
                        out.push(rows[i].clone_row());
                        proof {
                            assert(rows_view(out@) =~= outv_old.push(rowsv[i as int]));
                        }
                    }
                    proof {
                        let f_next = filter_spec(self@, rowsv.skip(i + 1), *condition);
                        if f_next is Ok {
                            let rest2 = f_next->Ok_0;
                            if b {
                                assert(outv_old + (seq![rowsv[i as int]] + rest2) =~= rows_view(
                                    out@,
                                ) + rest2);
                            }
                        }
                    }
                },
            }
            i = i + 1;
        }
        proof {
            assert(rowsv.skip(rows@.len() as int).len() == 0);
            assert(rows_view(out@) + Seq::<Seq<(Seq<char>, Seq<char>)>>::empty() =~= rows_view(
                out@,
            ));
        }
        Ok(out)
    }
}

/// The names of the schema columns, in declaration order.
pub open spec fn schema_names(t: TableV) -> Seq<Seq<char>> {
    t.columns.map_values(|a: AttrV| a.name)
}

/// Appends to `acc` every name of `names` not already present, in order.
pub open spec fn append_missing(acc: Seq<Seq<char>>, names: Seq<Seq<char>>) -> Seq<Seq<char>>
    decreases names.len(),
{
    if names.len() == 0 {
        acc
    } else {
        let acc2 = if acc.contains(names[0]) {
            acc
        } else {
            acc.push(names[0])
        };
        append_missing(acc2, names.skip(1))
    }
}

/// Resolves a projection list: `*` expands to the full schema in
/// declaration order, explicit names keep first-occurrence order and are
/// de-duplicated, and an unknown name fails.
pub open spec fn resolve_proj_rec(t: TableV, proj: Seq<Seq<char>>, acc: Seq<Seq<char>>) -> Result<
    Seq<Seq<char>>,
    Errors,
>
    decreases proj.len(),
{
    if proj.len() == 0 {
        Ok(acc)
    } else {
        let item = proj[0];
        if item == "*"@ {
            resolve_proj_rec(t, proj.skip(1), append_missing(acc, schema_names(t)))
        } else if col_idx(t, item) >= t.columns.len() {
            Err(Errors::ColumnNotFound)
        } else if acc.contains(item) {
            resolve_proj_rec(t, proj.skip(1), acc)
        } else {
            resolve_proj_rec(t, proj.skip(1), acc.push(item))
        }
    }
}

pub open spec fn resolve_proj_spec(t: TableV, proj: Seq<Seq<char>>) -> Result<
    Seq<Seq<char>>,
    Errors,
> {
    resolve_proj_rec(t, proj, Seq::<Seq<char>>::empty())
}

/// A row reduced to the named columns, in the given order.
pub open spec fn project_row(row: Seq<(Seq<char>, Seq<char>)>, names: Seq<Seq<char>>) -> Result<
    Seq<(Seq<char>, Seq<char>)>,
    Errors,
>
    decreases names.len(),
{
    if names.len() == 0 {
        Ok(Seq::<(Seq<char>, Seq<char>)>::empty())
    } else {
        match row_lookup(row, names[0]) {
            None => Err(Errors::ColumnNotFound),
            Some(v) => match project_row(row, names.skip(1)) {
                Ok(rest) => Ok(seq![(names[0], v)] + rest),
                Err(e) => Err(e),
            },
        }
    }
}

/// Every row reduced to the named columns.
pub open spec fn project_rows_spec(
    rows: Seq<Seq<(Seq<char>, Seq<char>)>>,
    names: Seq<Seq<char>>,
) -> Result<Seq<Seq<(Seq<char>, Seq<char>)>>, Errors>
    decreases rows.len(),
{
    if rows.len() == 0 {
        Ok(Seq::<Seq<(Seq<char>, Seq<char>)>>::empty())
    } else {
        match (project_row(rows[0], names), project_rows_spec(rows.skip(1), names)) {
            (Ok(r0), Ok(rest)) => Ok(seq![r0] + rest),
            (Err(e), _) => Err(e),
            _ => project_rows_spec(rows.skip(1), names),
        }
    }
}

/// What projecting does, resolution included.
pub open spec fn project_spec(
    t: TableV,
    rows: Seq<Seq<(Seq<char>, Seq<char>)>>,
    proj: Seq<Seq<char>>,
) -> Result<Seq<Seq<(Seq<char>, Seq<char>)>>, Errors> {
    match resolve_proj_spec(t, proj) {
        Err(e) => Err(e),
        Ok(names) => project_rows_spec(rows, names),
    }
}

/// Appending names none of which are in `acc` yet, all distinct, appends
/// them all in order.
proof fn lemma_append_missing_distinct(acc: Seq<Seq<char>>, names: Seq<Seq<char>>)
    requires
        forall|i: int| 0 <= i < names.len() ==> !acc.contains(#[trigger] names[i]),
        forall|i: int, j: int| 0 <= i < j < names.len() ==> names[i] != names[j],
    ensures
        append_missing(acc, names) == acc + names,
    decreases names.len(),
{
    if names.len() == 0 {
        assert(acc + names =~= acc);
    } else {
        assert(!acc.contains(names[0]));
        let acc2 = acc.push(names[0]);
        assert forall|i: int| 0 <= i < names.skip(1).len() implies !acc2.contains(
            #[trigger] names.skip(1)[i],
        ) by {
            assert(names.skip(1)[i] == names[i + 1]);
            assert(!acc.contains(names[i + 1]));
            if acc2.contains(names[i + 1]) {
                let w = choose|w: int| 0 <= w < acc2.len() && #[trigger] acc2[w] == names[i + 1];
                if w < acc.len() {
                    assert(acc[w] == names[i + 1]);
                } else {
                    assert(names[0] == names[i + 1]);
                }
            }
        }
        assert forall|i: int, j: int|
            0 <= i < j < names.skip(1).len() implies #[trigger] names.skip(1)[i]
            != #[trigger] names.skip(1)[j] by {
            assert(names.skip(1)[i] == names[i + 1]);
            assert(names.skip(1)[j] == names[j + 1]);
        }
        lemma_append_missing_distinct(acc2, names.skip(1));
        assert(acc2 + names.skip(1) =~= acc + names);
    }
}

/// The star-projection law: on a table whose column names are distinct, a
/// `*` projection resolves to exactly the schema's column names in
/// declaration order.  Resolution never reads a condition, so this holds
/// regardless of any condition a select carries.
pub proof fn lemma_star_projects_schema_order(t: TableV)
    requires
        forall|i: int, j: int|
            0 <= i < j < t.columns.len() ==> (#[trigger] t.columns[i]).name != (
            #[trigger] t.columns[j]).name,
    ensures
        resolve_proj_spec(t, seq!["*"@]) == Ok::<Seq<Seq<char>>, Errors>(schema_names(t)),
{
    let star = seq!["*"@];
    let names = schema_names(t);
    assert forall|i: int| 0 <= i < names.len() implies !Seq::<Seq<char>>::empty().contains(
        #[trigger] names[i],
    ) by {}
    assert forall|i: int, j: int|
        0 <= i < j < names.len() implies #[trigger] names[i] != #[trigger] names[j] by {
        assert(names[i] == t.columns[i].name);
        assert(names[j] == t.columns[j].name);
    }
    lemma_append_missing_distinct(Seq::<Seq<char>>::empty(), names);
    assert(Seq::<Seq<char>>::empty() + names =~= names);
    assert(star[0] == "*"@);
    assert(star.skip(1).len() == 0);
    let acc = append_missing(Seq::<Seq<char>>::empty(), names);
    assert(resolve_proj_rec(t, star.skip(1), acc) == Ok::<Seq<Seq<char>>, Errors>(acc));
    assert(resolve_proj_rec(t, star, Seq::<Seq<char>>::empty()) == resolve_proj_rec(
        t,
        star.skip(1),
        acc,
    ));
}

/// Whether a vector of strings holds one equal to `s`.
fn vec_contains_string(v: &Vec<String>, s: &String) -> (r: bool)
    ensures
        r == strs_view(v@).contains(s@),
{
    let mut i: usize = 0;
    while i < v.len()
        invariant
            i <= v@.len(),
            forall|j: int| 0 <= j < i ==> strs_view(v@)[j] != s@,
        decreases v@.len() - i,
    {
        if v[i].eq(s) {
            proof {
                assert(strs_view(v@)[i as int] == v@[i as int]@);
            }
            return true;
        }
        proof {
            assert(strs_view(v@)[i as int] == v@[i as int]@);
        }
        i = i + 1;
    }
    proof {
        assert(!strs_view(v@).contains(s@));
    }
    false
}

impl Table {
    /// Resolves a projection list as [`resolve_proj_spec`] says.
    #[verifier::loop_isolation(false)]
    pub fn resolve_projection(&self, projection: &Vec<String>) -> (r: Result<Vec<String>, Errors>)
        ensures
            match r {
                Ok(names) => resolve_proj_spec(self@, strs_view(projection@)) == Ok::<_, Errors>(
                    strs_view(names@),
                ),
                Err(e) => resolve_proj_spec(self@, strs_view(projection@)) == Err::<
                    Seq<Seq<char>>,
                    Errors,
                >(e),
            },
    {
        let ghost projv = strs_view(projection@);
        let mut acc: Vec<String> = Vec::new();
        let mut i: usize = 0;
        proof {
            assert(projv.skip(0) =~= projv);
            assert(strs_view(acc@) =~= Seq::<Seq<char>>::empty());
        }
        while i < projection.len()
            invariant
                i <= projection@.len(),
                resolve_proj_spec(self@, projv) == resolve_proj_rec(
                    self@,
                    projv.skip(i as int),
                    strs_view(acc@),
                ),
            decreases projection@.len() - i,
        {
            let item = &projection[i];
            proof {
                assert(projv.skip(i as int)[0] == projv[i as int]);
                assert(projv[i as int] == projection@[i as int]@);
                assert(projv.skip(i as int).skip(1) =~= projv.skip(i + 1));
            }
            let star = {
                let chars = crate::text::str_to_chars(item.as_str());
                crate::text::chars_eq_str(&chars, "*")
            };
            if star {
                let ghost accv0 = strs_view(acc@);
                let mut c: usize = 0;
                proof {
                    assert(schema_names(self@).skip(0) =~= schema_names(self@));
                }
                while c < self.columns.len()
                    invariant
                        c <= self.columns@.len(),
                        append_missing(accv0, schema_names(self@)) == append_missing(
                            strs_view(acc@),
                            schema_names(self@).skip(c as int),
                        ),
                    decreases self.columns@.len() - c,
                {
                    proof {
                        assert(schema_names(self@).skip(c as int)[0] == schema_names(
                            self@,
                        )[c as int]);
                        assert(schema_names(self@)[c as int] == self@.columns[c as int].name);
                        assert(self@.columns[c as int] == self.columns@[c as int]@);
                        assert(schema_names(self@).skip(c as int).skip(1) =~= schema_names(
                            self@,
                        ).skip(c + 1));
                    }
                    let cname = &self.columns[c].name;
                    let ghost accv_before = strs_view(acc@);
                    if !vec_contains_string(&acc, cname) {
                        acc.push(cname.clone());
                        proof {
                            assert(strs_view(acc@) =~= accv_before.push(cname@));
                        }
                    }
                    c = c + 1;
                }
                proof {
                    assert(schema_names(self@).skip(self.columns@.len() as int).len() == 0);
                }
            } else {
                let ci = self.find_col(item);
                if ci >= self.columns.len() {
                    proof {
                        lemma_col_idx_bounds(self@, item@);
                    }
                    return Err(Errors::ColumnNotFound);
                }
                let ghost accv_before = strs_view(acc@);
                if !vec_contains_string(&acc, item) {
                    acc.push(item.clone());
                    proof {
                        assert(strs_view(acc@) =~= accv_before.push(item@));
                    }
                }
            }
            i = i + 1;
        }
        proof {
            assert(projv.skip(projection@.len() as int).len() == 0);
        }
        Ok(acc)
    }

    /// Reduces rows to the resolved projection, as [`project_spec`] says.
    #[verifier::loop_isolation(false)]
    pub fn project(&self, rows: &Vec<Row>, projection: &Vec<String>) -> (r: Result<
        Vec<Row>,
        Errors,
    >)
        ensures
            match r {
                Ok(out) => project_spec(self@, rows_view(rows@), strs_view(projection@)) == Ok::<
                    _,
                    Errors,
                >(rows_view(out@)),
                Err(e) => project_spec(self@, rows_view(rows@), strs_view(projection@)) == Err::<
                    Seq<Seq<(Seq<char>, Seq<char>)>>,
                    Errors,
                >(e),
            },
    {
        let names = match self.resolve_projection(projection) {
            Ok(n) => n,
            Err(e) => {
                return Err(e);
            },
        };
        let ghost namesv = strs_view(names@);
        let ghost rowsv = rows_view(rows@);
        let mut out: Vec<Row> = Vec::new();
        let mut i: usize = 0;
        proof {
            assert(rowsv.skip(0) =~= rowsv);
            assert(rows_view(out@) =~= Seq::<Seq<(Seq<char>, Seq<char>)>>::empty());
        }
        while i < rows.len()
            invariant
                i <= rows@.len(),
                project_rows_spec(rowsv, namesv) == (match project_rows_spec(
                    rowsv.skip(i as int),
                    namesv,
                ) {
                    Ok(rest) => Ok::<_, Errors>(rows_view(out@) + rest),
                    Err(e) => Err(e),
                }),
            decreases rows@.len() - i,
        {
            proof {
                assert(rowsv.skip(i as int)[0] == rowsv[i as int]);
                assert(rowsv[i as int] == rows@[i as int]@);
                assert(rowsv.skip(i as int).skip(1) =~= rowsv.skip(i + 1));
            }
            let row = &rows[i];
            let mut proj_row = Row::new();
            let mut j: usize = 0;
            proof {
                assert(namesv.skip(0) =~= namesv);
            }
            while j < names.len()
                invariant
                    j <= names@.len(),
                    project_row(rowsv[i as int], namesv) == (match project_row(
                        rowsv[i as int],
                        namesv.skip(j as int),
                    ) {
                        Ok(rest) => Ok::<_, Errors>(proj_row@ + rest),
                        Err(e) => Err(e),
                    }),
                    i < rows@.len(),
                decreases names@.len() - j,
            {
                proof {
                    assert(namesv.skip(j as int)[0] == namesv[j as int]);
                    assert(namesv[j as int] == names@[j as int]@);
                    assert(namesv.skip(j as int).skip(1) =~= namesv.skip(j + 1));
                }
                match row.get(&names[j]) {
                    None => {
                        proof {
                            let f_all = project_rows_spec(rowsv.skip(i as int), namesv);
                            assert(project_row(rowsv[i as int], namesv) == Err::<
                                Seq<(Seq<char>, Seq<char>)>,
                                Errors,
                            >(Errors::ColumnNotFound));
                        }
                        return Err(Errors::ColumnNotFound);
                    },
                    Some(v) => {
                        let ghost prowv_old = proj_row@;
                        proj_row.push(names[j].clone(), v);
                        proof {
                            let p_next = project_row(rowsv[i as int], namesv.skip(j + 1));
                            if p_next is Ok {
                                let rest2 = p_next->Ok_0;
                                assert(prowv_old + (seq![
                                    (namesv[j as int], row_lookup(
                                        rowsv[i as int],
                                        namesv[j as int],
                                    )->Some_0),
                                ] + rest2) =~= proj_row@ + rest2);
                            }
                        }
                    },
                }
                j = j + 1;
            }
            proof {
                assert(namesv.skip(names@.len() as int).len() == 0);
                assert(proj_row@ + Seq::<(Seq<char>, Seq<char>)>::empty() =~= proj_row@);
            }
            let ghost outv_old = rows_view(out@);
            out.push(proj_row);
            proof {
                assert(rows_view(out@) =~= outv_old.push(out@.last()@));
                let p_next = project_rows_spec(rowsv.skip(i + 1), namesv);
                if p_next is Ok {
                    let rest2 = p_next->Ok_0;
                    assert(outv_old + (seq![project_row(rowsv[i as int], namesv)->Ok_0] + rest2)
                        =~= rows_view(out@) + rest2);
                }
            }
            i = i + 1;
        }
        proof {
            assert(rowsv.skip(rows@.len() as int).len() == 0);
            assert(rows_view(out@) + Seq::<Seq<(Seq<char>, Seq<char>)>>::empty() =~= rows_view(
                out@,
            ));
        }
        Ok(out)
    }
}

/// The number of primary-key columns.
pub open spec fn num_pks(cols: Seq<AttrV>) -> nat
    decreases cols.len(),
{
    if cols.len() == 0 {
        0
    } else {
        (if cols[0].is_pk {
            1nat
        } else {
            0nat
        }) + num_pks(cols.skip(1))
    }
}

/// The index of the first primary-key column, or the column count.
pub open spec fn pk_idx(cols: Seq<AttrV>) -> int
    decreases cols.len(),
{
    if cols.len() == 0 {
        0
    } else if cols[0].is_pk {
        0
    } else {
        1 + pk_idx(cols.skip(1))
    }
}

pub proof fn lemma_pk_idx_bounds(cols: Seq<AttrV>)
    ensures
        0 <= pk_idx(cols) <= cols.len(),
        pk_idx(cols) < cols.len() ==> cols[pk_idx(cols)].is_pk,
        num_pks(cols) > 0 <==> pk_idx(cols) < cols.len(),
        forall|j: int| 0 <= j < pk_idx(cols) ==> !(#[trigger] cols[j]).is_pk,
    decreases cols.len(),
{
    if cols.len() > 0 && !cols[0].is_pk {
        lemma_pk_idx_bounds(cols.skip(1));
        assert forall|j: int| 0 <= j < pk_idx(cols) implies !(#[trigger] cols[j]).is_pk by {
            if j > 0 {
                assert(!cols.skip(1)[j - 1].is_pk);
            }
        }
    }
}

/// Whether the materialized row at storage index `i` is one of the chosen
/// rows: matched through the first primary-key column's value when the
/// table has one, else by comparing every column's value.
pub open spec fn row_selected(
    t: TableV,
    rows: Seq<Seq<(Seq<char>, Seq<char>)>>,
    i: int,
) -> bool {
    if num_pks(t.columns) > 0 {
        let p = pk_idx(t.columns);
        exists|k: int|
            0 <= k < rows.len() && row_lookup(#[trigger] rows[k], t.columns[p].name) == Some(
                cell_render(t.stores[p], i),
            )
    } else {
        exists|k: int| 0 <= k < rows.len() && #[trigger] rows[k] == row_at(t, i)
    }
}

/// The storage indices of the chosen rows, ascending.
pub open spec fn resolve_upto(
    t: TableV,
    rows: Seq<Seq<(Seq<char>, Seq<char>)>>,
    n: int,
) -> Seq<usize>
    decreases n,
{
    if n <= 0 {
        Seq::<usize>::empty()
    } else {
        resolve_upto(t, rows, n - 1) + (if row_selected(t, rows, n - 1) {
            seq![(n - 1) as usize]
        } else {
            Seq::<usize>::empty()
        })
    }
}

pub open spec fn resolve_spec(t: TableV, rows: Seq<Seq<(Seq<char>, Seq<char>)>>) -> Seq<usize> {
    resolve_upto(t, rows, row_count(t) as int)
}

/// Resolved indices are strictly ascending and within the row count.
pub proof fn lemma_resolve_upto_sorted(t: TableV, rows: Seq<Seq<(Seq<char>, Seq<char>)>>, n: int)
    requires
        0 <= n <= usize::MAX,
    ensures
        forall|a: int| 0 <= a < resolve_upto(t, rows, n).len() ==> (#[trigger] resolve_upto(
            t,
            rows,
            n,
        )[a] as int) < n,
        forall|a: int, b: int|
            0 <= a < b < resolve_upto(t, rows, n).len() ==> #[trigger] resolve_upto(t, rows, n)[a]
                < #[trigger] resolve_upto(t, rows, n)[b],
    decreases n,
{
    if n > 0 {
        lemma_resolve_upto_sorted(t, rows, n - 1);
        let prev = resolve_upto(t, rows, n - 1);
        let cur = resolve_upto(t, rows, n);
        assert forall|a: int| 0 <= a < cur.len() implies (#[trigger] cur[a] as int) < n by {
            if a < prev.len() {
                assert(cur[a] == prev[a]);
            } else {
                assert(cur[a] == (n - 1) as usize);
            }
        }
        assert forall|a: int, b: int|
            0 <= a < b < cur.len() implies #[trigger] cur[a] < #[trigger] cur[b] by {
            if b < prev.len() {
                assert(cur[a] == prev[a]);
                assert(cur[b] == prev[b]);
            } else {
                assert(a < prev.len());
                assert(cur[a] == prev[a]);
                assert(cur[b] == (n - 1) as usize);
                assert((prev[a] as int) < n - 1);
            }
        }
    }
}

/// The store with the rows at `idxs` overwritten by the parsed value.
pub open spec fn store_set_indices(s: StoreV, idxs: Seq<usize>, val: Seq<char>) -> StoreV {
    match s {
        StoreV::Ints(v) => StoreV::Ints(
            Seq::new(
                v.len(),
                |i: int| if idxs.contains(i as usize) {
                    crate::num::parse_i32_spec(val)->Some_0
                } else {
                    v[i]
                },
            ),
        ),
        StoreV::Floats(v) => StoreV::Floats(
            Seq::new(
                v.len(),
                |i: int| if idxs.contains(i as usize) {
                    crate::decimal::parse_dec_spec(val)->Some_0
                } else {
                    v[i]
                },
            ),
        ),
        StoreV::Strs(v) => StoreV::Strs(
            Seq::new(
                v.len(),
                |i: int| if idxs.contains(i as usize) {
                    val
                } else {
                    v[i]
                },
            ),
        ),
        StoreV::Bools(v) => StoreV::Bools(
            Seq::new(
                v.len(),
                |i: int| if idxs.contains(i as usize) {
                    crate::base::parse_bool_spec(val)->Some_0
                } else {
                    v[i]
                },
            ),
        ),
        StoreV::Missing => StoreV::Missing,
    }
}

impl Table {
    /// The number of primary-key columns.
    #[verifier::loop_isolation(false)]
    pub fn count_pks(&self) -> (r: usize)
        ensures
            r == num_pks(self@.columns),
    {
        let mut cnt: usize = 0;
        let mut i: usize = 0;
        proof {
            assert(self@.columns.skip(0) =~= self@.columns);
        }
        while i < self.columns.len()
            invariant
                i <= self.columns@.len(),
                cnt <= i,
                num_pks(self@.columns) == cnt + num_pks(self@.columns.skip(i as int)),
            decreases self.columns@.len() - i,
        {
            proof {
                assert(self@.columns.skip(i as int)[0] == self@.columns[i as int]);
                assert(self@.columns[i as int] == self.columns@[i as int]@);
                assert(self@.columns.skip(i as int).skip(1) =~= self@.columns.skip(i + 1));
            }
            if self.columns[i].is_pk {
                cnt = cnt + 1;
            }
            i = i + 1;
        }
        proof {
            assert(self@.columns.skip(self.columns@.len() as int).len() == 0);
        }
        cnt
    }

    /// The index of the first primary-key column, or the column count.
    #[verifier::loop_isolation(false)]
    pub fn find_pk(&self) -> (r: usize)
        ensures
            r == pk_idx(self@.columns),
            r <= self@.columns.len(),
    {
        let mut i: usize = 0;
        proof {
            assert(self@.columns.skip(0) =~= self@.columns);
        }
        while i < self.columns.len()
            invariant
                i <= self.columns@.len(),
                pk_idx(self@.columns) == i + pk_idx(self@.columns.skip(i as int)),
                forall|j: int| 0 <= j < i ==> !(#[trigger] self@.columns[j]).is_pk,
            decreases self.columns@.len() - i,
        {
            proof {
                assert(self@.columns.skip(i as int)[0] == self@.columns[i as int]);
                assert(self@.columns[i as int] == self.columns@[i as int]@);
                assert(self@.columns.skip(i as int).skip(1) =~= self@.columns.skip(i + 1));
            }
            if self.columns[i].is_pk {
                return i;
            }
            i = i + 1;
        }
        proof {
            assert(self@.columns.skip(self.columns@.len() as int).len() == 0);
        }
        i
    }

    /// Materializes the row at storage index `i`.
    pub fn materialize_row(&self, i: usize) -> (r: Row)
        requires
            table_wf(self@),
            i < row_count(self@),
        ensures
            r@ == row_at(self@, i as int),
    {
        let mut row = Row::new();
        let mut c: usize = 0;
        while c < self.columns.len()
            invariant
                table_wf(self@),
                i < row_count(self@),
                c <= self.columns@.len(),
                row@ =~= row_at(self@, i as int).take(c as int),
            decreases self.columns@.len() - c,
        {
            proof {
                assert(self@.stores[c as int] == self.stores@[c as int]@);
                assert(store_len(self@.stores[c as int]) == row_count(self@));
            }
            let val = self.stores[c].render_at(i);
            row.push(self.columns[c].name.clone(), val);
            proof {
                assert(self@.columns[c as int] == self.columns@[c as int]@);
                assert(row@ =~= row_at(self@, i as int).take(c + 1));
            }
            c = c + 1;
        }
        proof {
            assert(row_at(self@, i as int).take(self.columns@.len() as int) =~= row_at(
                self@,
                i as int,
            ));
        }
        row
    }

    /// Whether two rows are equal, name for name and value for value.
    fn row_eq(a: &Row, b: &Row) -> (r: bool)
        ensures
            r == (a@ == b@),
    {
        if a.entries.len() != b.entries.len() {
            proof {
                assert(a@.len() != b@.len());
            }
            return false;
        }
        let mut i: usize = 0;
        while i < a.entries.len()
            invariant
                a.entries@.len() == b.entries@.len(),
                i <= a.entries@.len(),
                forall|j: int| 0 <= j < i ==> #[trigger] a@[j] == b@[j],
            decreases a.entries@.len() - i,
        {
            let pa = &a.entries[i];
            let pb = &b.entries[i];
            if !pa.0.eq(&pb.0) || !pa.1.eq(&pb.1) {
                proof {
                    assert(a@[i as int] == (a.entries@[i as int].0@, a.entries@[i as int].1@));
                    assert(b@[i as int] == (b.entries@[i as int].0@, b.entries@[i as int].1@));
                }
                return false;
            }
            proof {
                assert(a@[i as int] == (a.entries@[i as int].0@, a.entries@[i as int].1@));
                assert(b@[i as int] == (b.entries@[i as int].0@, b.entries@[i as int].1@));
            }
            i = i + 1;
        }
        proof {
            assert(a@ =~= b@);
        }
        true
    }

    /// Correlates chosen rows (value copies) back to storage indices, as
    /// [`resolve_spec`] says: through the primary-key column when the table
    /// has one, else by full positional matching on every column's value.
    #[verifier::loop_isolation(false)]
    pub fn resolve_indices(&self, rows: &Vec<Row>) -> (r: Vec<usize>)
        requires
            table_wf(self@),
        ensures
            r@ == resolve_spec(self@, rows_view(rows@)),
    {
        let ghost rowsv = rows_view(rows@);
        let n = self.count_rows();
        let haspk = self.count_pks() > 0;
        let mut out: Vec<usize> = Vec::new();
        let mut i: usize = 0;
        while i < n
            invariant
                i <= n,
                n == row_count(self@),
                out@ == resolve_upto(self@, rowsv, i as int),
            decreases n - i,
        {
            let sel: bool = if haspk {
                let p = self.find_pk();
                proof {
                    lemma_pk_idx_bounds(self@.columns);
                    assert(self@.stores[p as int] == self.stores@[p as int]@);
                    assert(store_len(self@.stores[p as int]) == row_count(self@));
                }
                let cell = self.stores[p].render_at(i);
                let pkname = &self.columns[p].name;
                proof {
                    assert(self@.columns[p as int] == self.columns@[p as int]@);
                }
                let mut found = false;
                let mut k: usize = 0;
                while k < rows.len() && !found
                    invariant
                        k <= rows@.len(),
                        cell@ == cell_render(self@.stores[pk_idx(self@.columns)], i as int),
                        pkname@ == self@.columns[pk_idx(self@.columns)].name,
                        found ==> row_selected(self@, rowsv, i as int),
                        !found ==> forall|j: int|
                            0 <= j < k ==> row_lookup(
                                #[trigger] rowsv[j],
                                self@.columns[pk_idx(self@.columns)].name,
                            ) != Some(cell_render(self@.stores[pk_idx(self@.columns)], i as int)),
                    decreases rows@.len() - k,
                {
                    proof {
                        assert(rowsv[k as int] == rows@[k as int]@);
                    }
                    match rows[k].get(pkname) {
                        Some(v) => {
                            if v.eq(&cell) {
                                found = true;
                            }
                        },
                        None => {},
                    }
                    k = k + 1;
                }
                proof {
                    if !found {
                        assert(!row_selected(self@, rowsv, i as int));
                    }
                }
                found
            } else {
                let my_row = self.materialize_row(i);
                let mut found = false;
                let mut k: usize = 0;
                while k < rows.len() && !found
                    invariant
                        k <= rows@.len(),
                        my_row@ == row_at(self@, i as int),
                        num_pks(self@.columns) == 0,
                        found ==> row_selected(self@, rowsv, i as int),
                        !found ==> forall|j: int| 0 <= j < k ==> #[trigger] rowsv[j] != row_at(
                            self@,
                            i as int,
                        ),
                    decreases rows@.len() - k,
                {
                    proof {
                        assert(rowsv[k as int] == rows@[k as int]@);
                    }
                    if Self::row_eq(&rows[k], &my_row) {
                        found = true;
                    }
                    k = k + 1;
                }
                proof {
                    if !found {
                        assert(!row_selected(self@, rowsv, i as int));
                    }
                }
                found
            };
            if sel {
                out.push(i);
                proof {
                    assert(out@ =~= resolve_upto(self@, rowsv, i + 1));
                }
            } else {
                proof {
                    assert(out@ =~= resolve_upto(self@, rowsv, i + 1));
                }
            }
            i = i + 1;
        }
        out
    }

    /// Overwrites the named column at each listed row with the value, as
    /// [`store_set_indices`] says; the value is parse-checked before any
    /// row changes.
    #[verifier::loop_isolation(false)]
    pub fn update_at(&mut self, indices: &Vec<usize>, column: &String, value: &String) -> (r:
        Result<(), Errors>)
        requires
            table_wf(old(self)@),
            row_count(old(self)@) <= usize::MAX,
            forall|k: int| 0 <= k < indices@.len() ==> (#[trigger] indices@[k] as nat) < row_count(
                old(self)@,
            ),
        ensures
            match r {
                Ok(_) => col_idx(old(self)@, column@) < old(self)@.columns.len() && final(self)@
                    .stores == old(self)@.stores.update(
                    col_idx(old(self)@, column@),
                    store_set_indices(
                        old(self)@.stores[col_idx(old(self)@, column@)],
                        indices@,
                        value@,
                    ),
                ) && append_spec(old(self)@.stores[col_idx(old(self)@, column@)], value@) is Ok,
                Err(e) => final(self)@ == old(self)@ && ((e == Errors::ColumnNotFound && col_idx(
                    old(self)@,
                    column@,
                ) >= old(self)@.columns.len()) || (col_idx(old(self)@, column@) < old(
                    self,
                )@.columns.len() && append_spec(
                    old(self)@.stores[col_idx(old(self)@, column@)],
                    value@,
                ) == Err::<StoreV, Errors>(e))),
            },
            final(self)@.columns == old(self)@.columns,
            final(self)@.name == old(self)@.name,
            table_wf(final(self)@),
            row_count(final(self)@) == row_count(old(self)@),
    {
        let c = self.find_col(column);
        if c >= self.columns.len() {
            proof {
                lemma_col_idx_bounds(self@, column@);
                assert(self@ =~= old(self)@);
            }
            return Err(Errors::ColumnNotFound);
        }
        proof {
            assert(self@.stores[c as int] == self.stores@[c as int]@);
        }
        match self.stores[c].check_append(value) {
            Ok(_) => {},
            Err(e) => {
                proof {
                    assert(self@ =~= old(self)@);
                }
                return Err(e);
            },
        }
        let ghost tcur = old(self)@;
        let ghost oldstore = old(self)@.stores[c as int];
        let mut k: usize = 0;
        proof {
            assert(store_set_indices(oldstore, indices@.take(0), value@) =~= oldstore) by {
                match oldstore {
                    StoreV::Ints(v) => {
                        assert(Seq::new(
                            v.len(),
                            |i: int| if indices@.take(0).contains(i as usize) {
                                crate::num::parse_i32_spec(value@)->Some_0
                            } else {
                                v[i]
                            },
                        ) =~= v);
                    },
                    StoreV::Floats(v) => {
                        assert(Seq::new(
                            v.len(),
                            |i: int| if indices@.take(0).contains(i as usize) {
                                crate::decimal::parse_dec_spec(value@)->Some_0
                            } else {
                                v[i]
                            },
                        ) =~= v);
                    },
                    StoreV::Strs(v) => {
                        assert(Seq::new(
                            v.len(),
                            |i: int| if indices@.take(0).contains(i as usize) {
                                value@
                            } else {
                                v[i]
                            },
                        ) =~= v);
                    },
                    StoreV::Bools(v) => {
                        assert(Seq::new(
                            v.len(),
                            |i: int| if indices@.take(0).contains(i as usize) {
                                crate::base::parse_bool_spec(value@)->Some_0
                            } else {
                                v[i]
                            },
                        ) =~= v);
                    },
                    StoreV::Missing => {},
                }
            }
            assert(tcur.stores.update(c as int, oldstore) =~= tcur.stores);
        }
        while k < indices.len()
            invariant
                k <= indices@.len(),
                c < self.columns@.len(),
                self@.name == tcur.name,
                self@.columns == tcur.columns,
                self@.stores == tcur.stores.update(
                    c as int,
                    store_set_indices(oldstore, indices@.take(k as int), value@),
                ),
                append_spec(oldstore, value@) is Ok,
                store_wf(self@.stores[c as int]),
                store_dt(self@.stores[c as int]) == store_dt(oldstore),
                store_len(self@.stores[c as int]) == store_len(oldstore),
            decreases indices@.len() - k,
        {
            let idx = indices[k];
            proof {
                assert(self@.stores[c as int] == self.stores@[c as int]@);
                assert(store_len(oldstore) == row_count(tcur));
                assert((indices@[k as int] as nat) < row_count(tcur));
            }
            let ghost prevstores = self@.stores;
            let st = &mut self.stores[c];
            let res = st.update(idx, value);
            proof {
                assert(res is Ok) by {
                    let cur = store_set_indices(oldstore, indices@.take(k as int), value@);
                    match oldstore {
                        StoreV::Ints(_) => {},
                        StoreV::Floats(_) => {},
                        StoreV::Strs(_) => {},
                        StoreV::Bools(_) => {},
                        StoreV::Missing => {},
                    }
                }
                let cur = store_set_indices(oldstore, indices@.take(k as int), value@);
                let next = store_set_indices(oldstore, indices@.take(k + 1), value@);
                assert(indices@.take(k + 1) =~= indices@.take(k as int).push(idx));
                assert forall|i: int|
                    #![trigger indices@.take(k + 1).contains(i as usize)]
                    0 <= i < store_len(oldstore) implies (indices@.take(k + 1).contains(i as usize)
                    <==> (indices@.take(k as int).contains(i as usize) || i == idx as int)) by {
                    let tk = indices@.take(k as int);
                    let tk1 = indices@.take(k + 1);
                    if tk.contains(i as usize) {
                        let w = choose|w: int| 0 <= w < tk.len() && #[trigger] tk[w] == i as usize;
                        assert(tk1[w] == i as usize);
                    }
                    if i == idx as int {
                        assert(tk1[k as int] == idx);
                    }
                    if tk1.contains(i as usize) {
                        let w = choose|w: int| 0 <= w < tk1.len() && #[trigger] tk1[w] == i as usize;
                        if w < k {
                            assert(tk[w] == i as usize);
                        }
                    }
                }
                assert(crate::base::update_spec(cur, idx as int, value@)->Ok_0 =~= next) by {
                    match oldstore {
                        StoreV::Ints(_) => {},
                        StoreV::Floats(_) => {},
                        StoreV::Strs(_) => {},
                        StoreV::Bools(_) => {},
                        StoreV::Missing => {},
                    }
                }
                let newelem = crate::base::update_spec(cur, idx as int, value@)->Ok_0;
                assert(self.stores@[c as int]@ == newelem);
                assert forall|j: int| 0 <= j < self@.stores.len() implies #[trigger] self@.stores[j]
                    == prevstores.update(c as int, newelem)[j] by {
                    assert(self@.stores[j] == self.stores@[j]@);
                }
                assert(self@.stores =~= prevstores.update(c as int, newelem));
                assert(prevstores.update(c as int, newelem) =~= tcur.stores.update(
                    c as int,
                    newelem,
                ));
                assert(self@.stores =~= tcur.stores.update(c as int, next));
            }
            k = k + 1;
        }
        proof {
            assert(indices@.take(indices@.len() as int) =~= indices@);
            assert forall|j: int| 0 <= j < self@.stores.len() implies store_len(
                #[trigger] self@.stores[j],
            ) == row_count(tcur) && store_wf(self@.stores[j]) && store_dt(self@.stores[j])
                == self@.columns[j].datatype by {
                if j != c as int {
                    assert(self@.stores[j] == tcur.stores[j]);
                }
            }
            if self@.stores.len() > 0 {
                assert(row_count(self@) == store_len(self@.stores[0]));
            }
        }
        Ok(())
    }

    /// Removes the listed storage rows (strictly descending) from every
    /// column, keeping all columns synchronized.
    #[verifier::loop_isolation(false)]
    pub fn delete_at(&mut self, indices: &Vec<usize>)
        requires
            table_wf(old(self)@),
            crate::base::valid_removal(indices@, row_count(old(self)@)),
        ensures
            final(self)@.name == old(self)@.name,
            final(self)@.columns == old(self)@.columns,
            final(self)@.stores.len() == old(self)@.stores.len(),
            forall|j: int| 0 <= j < old(self)@.stores.len() ==> #[trigger] final(self)@.stores[j]
                == crate::base::remove_spec(old(self)@.stores[j], indices@),
            table_wf(final(self)@),
            row_count(final(self)@) == row_count(old(self)@) - indices@.len(),
    {
        let ghost tcur = old(self)@;
        let mut c: usize = 0;
        while c < self.stores.len()
            invariant
                c <= self.stores@.len(),
                self@.name == tcur.name,
                self@.columns == tcur.columns,
                self@.stores.len() == tcur.stores.len(),
                forall|j: int| 0 <= j < c ==> #[trigger] self@.stores[j] == crate::base::remove_spec(
                    tcur.stores[j],
                    indices@,
                ),
                forall|j: int| c <= j < tcur.stores.len() ==> #[trigger] self@.stores[j]
                    == tcur.stores[j],
            decreases self.stores@.len() - c,
        {
            proof {
                assert(self@.stores[c as int] == self.stores@[c as int]@);
                assert(self@.stores[c as int] == tcur.stores[c as int]);
                assert(store_wf(tcur.stores[c as int]));
                assert(store_len(tcur.stores[c as int]) == row_count(tcur));
            }
            let ghost beforestores = self@.stores;
            let st = &mut self.stores[c];
            st.remove(indices);
            proof {
                assert(self@.stores =~= beforestores.update(
                    c as int,
                    crate::base::remove_spec(tcur.stores[c as int], indices@),
                ));
            }
            c = c + 1;
        }
        proof {
            assert forall|j: int| 0 <= j < self@.stores.len() implies store_len(
                #[trigger] self@.stores[j],
            ) == row_count(tcur) - indices@.len() && store_wf(self@.stores[j]) && store_dt(
                self@.stores[j],
            ) == self@.columns[j].datatype by {
                assert(store_wf(tcur.stores[j]));
                assert(store_len(tcur.stores[j]) == row_count(tcur));
                crate::base::lemma_remove_spec_props(tcur.stores[j], indices@);
            }
            if self@.stores.len() > 0 {
                assert(row_count(self@) == store_len(self@.stores[0]));
            }
        }
    }
}

/// Equality of two rendered cells under the left column's native
/// comparison; a value that does not parse matches nothing.
pub open spec fn join_cell_eq(dt: DataType, a: Seq<char>, b: Seq<char>) -> bool {
    match typed_eq(dt, a, b) {
        Ok(b2) => b2,
        Err(_) => false,
    }
}

/// Whether left row `i` pairs with right row `j`.
pub open spec fn join_matched(lt: TableV, rt: TableV, lci: int, rci: int, i: int, j: int) -> bool {
    join_cell_eq(
        lt.columns[lci].datatype,
        cell_render(lt.stores[lci], i),
        cell_render(rt.stores[rci], j),
    )
}

/// The matches of left row `i` against the first `m` right rows.
pub open spec fn join_pairs_row(
    lt: TableV,
    rt: TableV,
    lci: int,
    rci: int,
    i: int,
    m: int,
) -> Seq<(usize, usize)>
    decreases m,
{
    if m <= 0 {
        Seq::<(usize, usize)>::empty()
    } else {
        join_pairs_row(lt, rt, lci, rci, i, m - 1) + (if join_matched(lt, rt, lci, rci, i, m - 1) {
            seq![(i as usize, (m - 1) as usize)]
        } else {
            Seq::<(usize, usize)>::empty()
        })
    }
}

/// The matched pairs of the first `n` left rows against all right rows, in
/// nested-loop order.
pub open spec fn join_pairs_upto(lt: TableV, rt: TableV, lci: int, rci: int, n: int) -> Seq<
    (usize, usize),
>
    decreases n,
{
    if n <= 0 {
        Seq::<(usize, usize)>::empty()
    } else {
        join_pairs_upto(lt, rt, lci, rci, n - 1) + join_pairs_row(
            lt,
            rt,
            lci,
            rci,
            n - 1,
            row_count(rt) as int,
        )
    }
}

pub open spec fn join_pairs(lt: TableV, rt: TableV, lci: int, rci: int) -> Seq<(usize, usize)> {
    join_pairs_upto(lt, rt, lci, rci, row_count(lt) as int)
}

/// The left storage index of each pair.
pub open spec fn pair_firsts(ps: Seq<(usize, usize)>) -> Seq<usize> {
    ps.map_values(|p: (usize, usize)| p.0)
}

/// The right storage index of each pair.
pub open spec fn pair_seconds(ps: Seq<(usize, usize)>) -> Seq<usize> {
    ps.map_values(|p: (usize, usize)| p.1)
}

proof fn lemma_join_pairs_row_bounds(lt: TableV, rt: TableV, lci: int, rci: int, i: int, m: int)
    requires
        0 <= i <= usize::MAX,
        0 <= m <= usize::MAX,
    ensures
        forall|k: int| 0 <= k < join_pairs_row(lt, rt, lci, rci, i, m).len() ==> ((
        #[trigger] join_pairs_row(lt, rt, lci, rci, i, m)[k]).0 as int) == i && ((join_pairs_row(
            lt,
            rt,
            lci,
            rci,
            i,
            m,
        )[k]).1 as int) < m,
    decreases m,
{
    if m > 0 {
        lemma_join_pairs_row_bounds(lt, rt, lci, rci, i, m - 1);
        let prev = join_pairs_row(lt, rt, lci, rci, i, m - 1);
        let cur = join_pairs_row(lt, rt, lci, rci, i, m);
        assert forall|k: int| 0 <= k < cur.len() implies ((#[trigger] cur[k]).0 as int) == i && ((
        cur[k]).1 as int) < m by {
            if k < prev.len() {
                assert(cur[k] == prev[k]);
            } else {
                assert(cur[k] == (i as usize, (m - 1) as usize));
            }
        }
    }
}

proof fn lemma_join_pairs_upto_bounds(lt: TableV, rt: TableV, lci: int, rci: int, n: int)
    requires
        0 <= n <= usize::MAX,
        row_count(rt) <= usize::MAX,
    ensures
        forall|k: int| 0 <= k < join_pairs_upto(lt, rt, lci, rci, n).len() ==> ((
        #[trigger] join_pairs_upto(lt, rt, lci, rci, n)[k]).0 as int) < n && ((join_pairs_upto(
            lt,
            rt,
            lci,
            rci,
            n,
        )[k]).1 as nat) < row_count(rt),
    decreases n,
{
    if n > 0 {
        lemma_join_pairs_upto_bounds(lt, rt, lci, rci, n - 1);
        lemma_join_pairs_row_bounds(lt, rt, lci, rci, n - 1, row_count(rt) as int);
        let prev = join_pairs_upto(lt, rt, lci, rci, n - 1);
        let rowp = join_pairs_row(lt, rt, lci, rci, n - 1, row_count(rt) as int);
        let cur = join_pairs_upto(lt, rt, lci, rci, n);
        assert forall|k: int| 0 <= k < cur.len() implies ((#[trigger] cur[k]).0 as int) < n && ((
        cur[k]).1 as nat) < row_count(rt) by {
            if k < prev.len() {
                assert(cur[k] == prev[k]);
            } else {
                assert(cur[k] == rowp[k - prev.len()]);
            }
        }
    }
}

/// The table a join materializes, in full: left schema then right schema
/// with collisions prefixed, and the matched row pairs selected from both
/// sides.
pub open spec fn join_table_spec(
    lt: TableV,
    rt: TableV,
    lc: Seq<char>,
    rc: Seq<char>,
) -> TableV {
    let lci = col_idx(lt, lc);
    let rci = col_idx(rt, rc);
    let ps = join_pairs(lt, rt, lci, rci);
    let nl = lt.columns.len() as int;
    TableV {
        name: lt.name + "_"@ + rt.name,
        columns: Seq::new(
            (lt.columns.len() + rt.columns.len()) as nat,
            |c: int| if c < nl {
                lt.columns[c]
            } else {
                let a = rt.columns[c - nl];
                AttrV {
                    name: if col_idx(lt, a.name) < lt.columns.len() {
                        rt.name + "."@ + a.name
                    } else {
                        a.name
                    },
                    datatype: a.datatype,
                    is_pk: a.is_pk,
                    is_nullable: a.is_nullable,
                    default: a.default,
                }
            },
        ),
        stores: Seq::new(
            (lt.stores.len() + rt.stores.len()) as nat,
            |c: int| if c < lt.stores.len() {
                crate::base::store_select(lt.stores[c], pair_firsts(ps))
            } else {
                crate::base::store_select(rt.stores[c - lt.stores.len()], pair_seconds(ps))
            },
        ),
    }
}

impl Table {
    /// The matched pairs of the nested-loop join, in scan order.
    #[verifier::loop_isolation(false)]
    fn join_pairs_build(&self, other: &Table, lci: usize, rci: usize) -> (pairs: Vec<
        (usize, usize),
    >)
        requires
            table_wf(self@),
            table_wf(other@),
            lci < self@.columns.len(),
            rci < other@.columns.len(),
        ensures
            pairs@ == join_pairs(self@, other@, lci as int, rci as int),
    {
        let nl = self.count_rows();
        let nr = other.count_rows();
        let dt = self.columns[lci].datatype;
        proof {
            assert(self@.columns[lci as int] == self.columns@[lci as int]@);
        }
        let mut pairs: Vec<(usize, usize)> = Vec::new();
        let mut i: usize = 0;
        while i < nl
            invariant
                i <= nl,
                pairs@ == join_pairs_upto(self@, other@, lci as int, rci as int, i as int),
            decreases nl - i,
        {
            proof {
                assert(store_len(self@.stores[lci as int]) == row_count(self@));
                assert(self@.stores[lci as int] == self.stores@[lci as int]@);
            }
            let lcell = self.stores[lci].render_at(i);
            let mut j: usize = 0;
            while j < nr
                invariant
                    i < nl,
                    j <= nr,
                    lcell@ == cell_render(self@.stores[lci as int], i as int),
                    pairs@ == join_pairs_upto(self@, other@, lci as int, rci as int, i as int)
                        + join_pairs_row(self@, other@, lci as int, rci as int, i as int, j as int),
                decreases nr - j,
            {
                proof {
                    assert(store_len(other@.stores[rci as int]) == row_count(other@));
                    assert(other@.stores[rci as int] == other.stores@[rci as int]@);
                }
                let rcell = other.stores[rci].render_at(j);
                let m = match self.typed_eq_exec(dt, &lcell, &rcell) {
                    Ok(b) => b,
                    Err(_) => false,
                };
                proof {
                    assert(m == join_matched(
                        self@,
                        other@,
                        lci as int,
                        rci as int,
                        i as int,
                        j as int,
                    ));
                }
                if m {
                    pairs.push((i, j));
                }
                proof {
                    assert(pairs@ =~= join_pairs_upto(
                        self@,
                        other@,
                        lci as int,
                        rci as int,
                        i as int,
                    ) + join_pairs_row(self@, other@, lci as int, rci as int, i as int, j + 1));
                }
                j = j + 1;
            }
            proof {
                assert(pairs@ =~= join_pairs_upto(self@, other@, lci as int, rci as int, i + 1));
            }
            i = i + 1;
        }
        pairs
    }

    /// The joined schema: left columns, then right columns with name
    /// collisions prefixed by the right table's name and a dot.
    #[verifier::loop_isolation(false)]
    fn join_columns_build(&self, other: &Table) -> (columns: Vec<ColumnAttr>)
        ensures
            columns@.len() == self@.columns.len() + other@.columns.len(),
            forall|c: int| 0 <= c < self@.columns.len() ==> #[trigger] columns@[c]@
                == self@.columns[c],
            forall|c: int| self@.columns.len() <= c < columns@.len() ==> {
                let a = other@.columns[c - self@.columns.len()];
                let nm = if col_idx(self@, a.name) < self@.columns.len() {
                    other@.name + "."@ + a.name
                } else {
                    a.name
                };
                (#[trigger] columns@[c]@) == AttrV {
                    name: nm,
                    datatype: a.datatype,
                    is_pk: a.is_pk,
                    is_nullable: a.is_nullable,
                    default: a.default,
                }
            },
    {
        let mut columns: Vec<ColumnAttr> = Vec::new();
        let mut c: usize = 0;
        while c < self.columns.len()
            invariant
                c <= self.columns@.len(),
                columns@.len() == c,
                forall|m2: int| 0 <= m2 < c ==> #[trigger] columns@[m2]@ == self@.columns[m2],
            decreases self.columns@.len() - c,
        {
            columns.push(self.columns[c].clone_attr());
            proof {
                assert(self@.columns[c as int] == self.columns@[c as int]@);
            }
            c = c + 1;
        }
        let mut c2: usize = 0;
        while c2 < other.columns.len()
            invariant
                c2 <= other.columns@.len(),
                columns@.len() == self.columns@.len() + c2,
                forall|m2: int| 0 <= m2 < self.columns@.len() ==> #[trigger] columns@[m2]@
                    == self@.columns[m2],
                forall|m2: int| 0 <= m2 < c2 ==> {
                    let a = other@.columns[m2];
                    let nm = if col_idx(self@, a.name) < self@.columns.len() {
                        other@.name + "."@ + a.name
                    } else {
                        a.name
                    };
                    #[trigger] columns@[self.columns@.len() + m2]@ == AttrV {
                        name: nm,
                        datatype: a.datatype,
                        is_pk: a.is_pk,
                        is_nullable: a.is_nullable,
                        default: a.default,
                    }
                },
            decreases other.columns@.len() - c2,
        {
            let a = other.columns[c2].clone_attr();
            proof {
                assert(other@.columns[c2 as int] == other.columns@[c2 as int]@);
            }
            let ci = self.find_col(&a.name);
            let renamed: ColumnAttr = if ci < self.columns.len() {
                let nm = other.name.clone().concat(".").concat(a.name.as_str());
                ColumnAttr {
                    name: nm,
                    datatype: a.datatype,
                    is_pk: a.is_pk,
                    is_nullable: a.is_nullable,
                    default: a.default,
                }
            } else {
                a
            };
            columns.push(renamed);
            c2 = c2 + 1;
        }
        proof {
            assert forall|c: int|
                self@.columns.len() <= c < columns@.len() implies #[trigger] columns@[c]@
                == columns@[self.columns@.len() + (c - self.columns@.len())]@ by {}
        }
        columns
    }

    /// The joined stores: each left store reduced to the pairs' left rows,
    /// each right store to the pairs' right rows.
    #[verifier::loop_isolation(false)]
    fn join_stores_build(&self, other: &Table, firsts: &Vec<usize>, seconds: &Vec<usize>) -> (
    stores: Vec<ColumnData>)
        requires
            table_wf(self@),
            table_wf(other@),
            firsts@.len() == seconds@.len(),
            forall|k: int| 0 <= k < firsts@.len() ==> (#[trigger] firsts@[k] as nat) < row_count(
                self@,
            ),
            forall|k: int| 0 <= k < seconds@.len() ==> (#[trigger] seconds@[k] as nat) < row_count(
                other@,
            ),
        ensures
            stores@.len() == self@.stores.len() + other@.stores.len(),
            forall|c: int| 0 <= c < self@.stores.len() ==> #[trigger] stores@[c]@
                == crate::base::store_select(self@.stores[c], firsts@),
            forall|c: int| self@.stores.len() <= c < stores@.len() ==> #[trigger] stores@[c]@
                == crate::base::store_select(other@.stores[c - self@.stores.len()], seconds@),
            forall|c: int| 0 <= c < stores@.len() ==> store_wf(#[trigger] stores@[c]@) && store_len(
                stores@[c]@,
            ) == firsts@.len(),
            forall|c: int| 0 <= c < self@.stores.len() ==> store_dt(#[trigger] stores@[c]@)
                == store_dt(self@.stores[c]),
            forall|c: int| self@.stores.len() <= c < stores@.len() ==> store_dt(
                #[trigger] stores@[c]@,
            ) == store_dt(other@.stores[c - self@.stores.len()]),
    {
        let mut stores: Vec<ColumnData> = Vec::new();
        let mut s1: usize = 0;
        while s1 < self.stores.len()
            invariant
                s1 <= self.stores@.len(),
                stores@.len() == s1,
                forall|m2: int| 0 <= m2 < s1 ==> #[trigger] stores@[m2]@
                    == crate::base::store_select(self@.stores[m2], firsts@),
                forall|m2: int| 0 <= m2 < s1 ==> store_wf(#[trigger] stores@[m2]@) && store_dt(
                    stores@[m2]@,
                ) == store_dt(self@.stores[m2]) && store_len(stores@[m2]@) == firsts@.len(),
            decreases self.stores@.len() - s1,
        {
            proof {
                assert(self@.stores[s1 as int] == self.stores@[s1 as int]@);
                assert(store_len(self@.stores[s1 as int]) == row_count(self@));
                assert(store_wf(self@.stores[s1 as int]));
            }
            stores.push(self.stores[s1].select_rows(firsts));
            s1 = s1 + 1;
        }
        let mut s2: usize = 0;
        while s2 < other.stores.len()
            invariant
                s2 <= other.stores@.len(),
                stores@.len() == self.stores@.len() + s2,
                forall|m2: int| 0 <= m2 < self.stores@.len() ==> #[trigger] stores@[m2]@
                    == crate::base::store_select(self@.stores[m2], firsts@),
                forall|m2: int| 0 <= m2 < self.stores@.len() ==> store_wf(#[trigger] stores@[m2]@)
                    && store_dt(stores@[m2]@) == store_dt(self@.stores[m2]) && store_len(
                    stores@[m2]@,
                ) == firsts@.len(),
                forall|m2: int| 0 <= m2 < s2 ==> #[trigger] stores@[self.stores@.len() + m2]@
                    == crate::base::store_select(other@.stores[m2], seconds@),
                forall|m2: int| 0 <= m2 < s2 ==> store_wf(
                    #[trigger] stores@[self.stores@.len() + m2]@,
                ) && store_dt(stores@[self.stores@.len() + m2]@) == store_dt(other@.stores[m2])
                    && store_len(stores@[self.stores@.len() + m2]@) == firsts@.len(),
            decreases other.stores@.len() - s2,
        {
            proof {
                assert(other@.stores[s2 as int] == other.stores@[s2 as int]@);
                assert(store_len(other@.stores[s2 as int]) == row_count(other@));
                assert(store_wf(other@.stores[s2 as int]));
            }
            stores.push(other.stores[s2].select_rows(seconds));
            s2 = s2 + 1;
        }
        proof {
            assert forall|c: int|
                self@.stores.len() <= c < stores@.len() implies #[trigger] stores@[c]@ == stores@[
                self.stores@.len() + (c - self.stores@.len())]@ by {}
            assert forall|c: int|
                0 <= c < stores@.len() implies store_wf(#[trigger] stores@[c]@) && store_len(
                stores@[c]@,
            ) == firsts@.len() by {
                if c >= self.stores@.len() {
                    assert(stores@[c]@ == stores@[self.stores@.len() + (c - self.stores@.len())]@);
                }
            }
        }
        stores
    }

    /// Nested-loop equality join: every pair of a left and a right row
    /// whose join columns hold equal values, left schema then right schema,
    /// right-side name collisions prefixed with the right table's name.
    #[verifier::loop_isolation(false)]
    pub fn join(&self, other: &Table, left_col: &String, right_col: &String) -> (r: Result<
        Table,
        Errors,
    >)
        requires
            table_wf(self@),
            table_wf(other@),
        ensures
            match r {
                Ok(out) => {
                    let ps = join_pairs(
                        self@,
                        other@,
                        col_idx(self@, left_col@),
                        col_idx(other@, right_col@),
                    );
                    let nl = self@.columns.len() as int;
                    &&& col_idx(self@, left_col@) < self@.columns.len()
                    &&& col_idx(other@, right_col@) < other@.columns.len()
                    &&& out@.columns.len() == self@.columns.len() + other@.columns.len()
                    &&& out@.stores.len() == out@.columns.len()
                    &&& forall|c: int| 0 <= c < nl ==> #[trigger] out@.columns[c]
                        == self@.columns[c]
                    &&& forall|c: int| nl <= c < out@.columns.len() ==> {
                        let a = other@.columns[c - nl];
                        let nm = if col_idx(self@, a.name) < self@.columns.len() {
                            other@.name + "."@ + a.name
                        } else {
                            a.name
                        };
                        (#[trigger] out@.columns[c]) == AttrV {
                            name: nm,
                            datatype: a.datatype,
                            is_pk: a.is_pk,
                            is_nullable: a.is_nullable,
                            default: a.default,
                        }
                    }
                    &&& forall|c: int| 0 <= c < nl ==> #[trigger] out@.stores[c]
                        == crate::base::store_select(self@.stores[c], pair_firsts(ps))
                    &&& forall|c: int| nl <= c < out@.stores.len() ==> #[trigger] out@.stores[c]
                        == crate::base::store_select(other@.stores[c - nl], pair_seconds(ps))
                    &&& table_wf(out@)
                    &&& row_count(out@) == ps.len()
                    &&& out@ == join_table_spec(self@, other@, left_col@, right_col@)
                },
                Err(e) => e == Errors::ColumnNotFound && (col_idx(self@, left_col@)
                    >= self@.columns.len() || col_idx(other@, right_col@)
                    >= other@.columns.len()),
            },
    {
        let lci = self.find_col(left_col);
        if lci >= self.columns.len() {
            proof {
                lemma_col_idx_bounds(self@, left_col@);
            }
            return Err(Errors::ColumnNotFound);
        }
        let rci = other.find_col(right_col);
        if rci >= other.columns.len() {
            proof {
                lemma_col_idx_bounds(other@, right_col@);
            }
            return Err(Errors::ColumnNotFound);
        }
        let pairs = self.join_pairs_build(other, lci, rci);
        let ghost ps = join_pairs(self@, other@, lci as int, rci as int);
        let nl_rows = self.count_rows();
        let nr_rows = other.count_rows();
        proof {
            lemma_join_pairs_upto_bounds(self@, other@, lci as int, rci as int, row_count(
                self@,
            ) as int);
        }
        let mut firsts: Vec<usize> = Vec::new();
        let mut seconds: Vec<usize> = Vec::new();
        let mut k: usize = 0;
        while k < pairs.len()
            invariant
                k <= pairs@.len(),
                pairs@ == ps,
                firsts@ =~= pair_firsts(ps).take(k as int),
                seconds@ =~= pair_seconds(ps).take(k as int),
            decreases pairs@.len() - k,
        {
            let p = pairs[k];
            firsts.push(p.0);
            seconds.push(p.1);
            proof {
                assert(firsts@ =~= pair_firsts(ps).take(k + 1));
                assert(seconds@ =~= pair_seconds(ps).take(k + 1));
            }
            k = k + 1;
        }
        proof {
            assert(firsts@ =~= pair_firsts(ps));
            assert(seconds@ =~= pair_seconds(ps));
            assert forall|m2: int| 0 <= m2 < firsts@.len() implies (#[trigger] firsts@[m2] as nat)
                < row_count(self@) by {
                assert(firsts@[m2] == ps[m2].0);
            }
            assert forall|m2: int| 0 <= m2 < seconds@.len() implies (#[trigger] seconds@[m2] as nat)
                < row_count(other@) by {
                assert(seconds@[m2] == ps[m2].1);
            }
        }
        let columns = self.join_columns_build(other);
        let stores = self.join_stores_build(other, &firsts, &seconds);
        let name = self.name.clone().concat("_").concat(other.name.as_str());
        let out = Table { name, columns, stores };
        proof {
            assert(out@.columns.len() == self@.columns.len() + other@.columns.len());
            assert forall|m2: int| 0 <= m2 < out@.stores.len() implies store_dt(
                #[trigger] out@.stores[m2],
            ) == out@.columns[m2].datatype && store_wf(out@.stores[m2]) && store_len(
                out@.stores[m2],
            ) == ps.len() by {
                assert(out@.stores[m2] == stores@[m2]@);
                assert(out@.columns[m2] == columns@[m2]@);
                if m2 < self.stores@.len() {
                    assert(store_dt(self@.stores[m2]) == self@.columns[m2].datatype);
                } else {
                    assert(store_dt(other@.stores[m2 - self.stores@.len()]) == other@.columns[m2
                        - self.stores@.len()].datatype);
                }
            }
            if out@.stores.len() > 0 {
                assert(row_count(out@) == store_len(out@.stores[0]));
            }
            assert(table_wf(out@));
            let jt = join_table_spec(self@, other@, left_col@, right_col@);
            assert(out@.columns =~= jt.columns);
            assert(out@.stores =~= jt.stores);
            assert(out@ =~= jt);
        }
        Ok(out)
    }
}

/// A rectangular result ready for display: a caption, an ordered header,
/// and rows of pre-formatted values — either keyed rows or per-column value
/// lists.
pub struct PrettyTable {
    pub name: String,
    pub header: Vec<String>,
    pub values: Vec<(String, Vec<String>)>,
    pub rows: Vec<Row>,
}

impl PrettyTable {
    /// A result carried as per-column value lists.
    pub fn new(name: String, header: Vec<String>, values: Vec<(String, Vec<String>)>) -> (r:
        PrettyTable)
        ensures
            r.name@ == name@,
            strs_view(r.header@) == strs_view(header@),
            r.values@ == values@,
            r.rows@.len() == 0,
    {
        PrettyTable { name, header, values, rows: Vec::new() }
    }

    /// A result carried as keyed rows.
    pub fn create(name: String, header: Vec<String>, rows: Vec<Row>) -> (r: PrettyTable)
        ensures
            r.name@ == name@,
            strs_view(r.header@) == strs_view(header@),
            rows_view(r.rows@) == rows_view(rows@),
            r.values@.len() == 0,
    {
        PrettyTable { name, header, values: Vec::new(), rows }
    }
}

/// What a single-table select emits: the resolved header and the filtered,
/// projected rows; the first failure wins, filtering before projection.
pub open spec fn select_spec(t: TableV, proj: Seq<Seq<char>>, cond: Option<Condition>) -> Result<
    (Seq<Seq<char>>, Seq<Seq<(Seq<char>, Seq<char>)>>),
    Errors,
> {
    let rows = scan_spec(t);
    let frows = match cond {
        Some(c) => filter_spec(t, rows, c),
        None => Ok(rows),
    };
    match frows {
        Err(e) => Err(e),
        Ok(fr) => match resolve_proj_spec(t, proj) {
            Err(e) => Err(e),
            Ok(names) => match project_rows_spec(fr, names) {
                Err(e) => Err(e),
                Ok(pr) => Ok((names, pr)),
            },
        },
    }
}

/// The display row of one column descriptor.
pub open spec fn attr_row(a: AttrV) -> Seq<(Seq<char>, Seq<char>)> {
    seq![
        ("name"@, a.name),
        ("datatype"@, crate::base::datatype_name(a.datatype)),
        ("is_pk"@, crate::base::bool_str(a.is_pk)),
        ("is_nullable"@, crate::base::bool_str(a.is_nullable)),
        (
            "default"@,
            match a.default {
                Some(d) => d,
                None => "None"@,
            },
        ),
    ]
}

impl Table {
    /// The whole table shaped for display: schema-ordered header and every
    /// row.
    pub fn print_table_data(&self) -> (pt: PrettyTable)
        requires
            table_wf(self@),
        ensures
            pt.name@ == self@.name,
            strs_view(pt.header@) == schema_names(self@),
            rows_view(pt.rows@) == scan_spec(self@),
    {
        let rows = self.scan();
        let mut header: Vec<String> = Vec::new();
        let mut c: usize = 0;
        while c < self.columns.len()
            invariant
                c <= self.columns@.len(),
                header@.len() == c,
                forall|j: int| 0 <= j < c ==> #[trigger] header@[j]@ == self@.columns[j].name,
            decreases self.columns@.len() - c,
        {
            header.push(self.columns[c].name.clone());
            proof {
                assert(self@.columns[c as int] == self.columns@[c as int]@);
            }
            c = c + 1;
        }
        proof {
            assert(strs_view(header@) =~= schema_names(self@));
        }
        PrettyTable::create(self.name.clone(), header, rows)
    }

    /// The schema shaped for display: one row per column descriptor.
    pub fn show_info(&self) -> (pt: PrettyTable)
        ensures
            pt.name@ == self@.name,
            strs_view(pt.header@) == seq!["name"@, "datatype"@, "is_pk"@, "is_nullable"@, "default"@],
            rows_view(pt.rows@) == self@.columns.map_values(|a: AttrV| attr_row(a)),
    {
        let mut header: Vec<String> = Vec::new();
        header.push(String::from_str("name"));
        header.push(String::from_str("datatype"));
        header.push(String::from_str("is_pk"));
        header.push(String::from_str("is_nullable"));
        header.push(String::from_str("default"));
        proof {
            assert(strs_view(header@) =~= seq![
                "name"@,
                "datatype"@,
                "is_pk"@,
                "is_nullable"@,
                "default"@,
            ]);
        }
        let mut rows: Vec<Row> = Vec::new();
        let mut c: usize = 0;
        while c < self.columns.len()
            invariant
                c <= self.columns@.len(),
                rows@.len() == c,
                forall|j: int| 0 <= j < c ==> (#[trigger] rows@[j])@ == attr_row(self@.columns[j]),
            decreases self.columns@.len() - c,
        {
            let row = Row { entries: self.columns[c].attr() };
            proof {
                assert(self@.columns[c as int] == self.columns@[c as int]@);
                assert(row@ =~= attr_row(self@.columns[c as int]));
            }
            rows.push(row);
            c = c + 1;
        }
        proof {
            assert(rows_view(rows@) =~= self@.columns.map_values(|a: AttrV| attr_row(a)));
        }
        PrettyTable::create(self.name.clone(), header, rows)
    }

    /// Runs a single-table select: scan, filter by the condition if one is
    /// given, project, and shape the result for display.
    pub fn select_data(&self, query: &SelectQuery) -> (r: Result<PrettyTable, Errors>)
        requires
            table_wf(self@),
        ensures
            match r {
                Ok(pt) => select_spec(self@, strs_view(query.projection@), query.condition)
                    == Ok::<_, Errors>((strs_view(pt.header@), rows_view(pt.rows@))) && pt.name@
                    == self@.name,
                Err(e) => select_spec(self@, strs_view(query.projection@), query.condition)
                    == Err::<(Seq<Seq<char>>, Seq<Seq<(Seq<char>, Seq<char>)>>), Errors>(e),
            },
    {
        let rows = self.scan();
        let frows = match &query.condition {
            Some(c) => {
                match self.filter(&rows, c) {
                    Ok(fr) => fr,
                    Err(e) => {
                        return Err(e);
                    },
                }
            },
            None => rows,
        };
        let names = match self.resolve_projection(&query.projection) {
            Ok(n) => n,
            Err(e) => {
                return Err(e);
            },
        };
        let prows = match self.project(&frows, &query.projection) {
            Ok(p) => p,
            Err(e) => {
                return Err(e);
            },
        };
        Ok(PrettyTable::create(self.name.clone(), names, prows))
    }
}

/// From a successful row validation, what each column's new store is.
proof fn lemma_insert_cols_ok_inv(t: TableV, cols: Seq<Seq<char>>, row: Seq<Seq<char>>, j: int)
    requires
        0 <= j <= t.columns.len(),
        insert_cols_spec(t, cols, row, j) is Ok,
    ensures
        ({
            let st = insert_cols_spec(t, cols, row, j)->Ok_0;
            &&& st.len() == t.columns.len() - j
            &&& forall|k: int| j <= k < t.columns.len() ==> (#[trigger] value_for(
                cols,
                row,
                t.columns[k],
            )) is Ok && append_spec(t.stores[k], value_for(cols, row, t.columns[k])->Ok_0) is Ok
                && st[k - j] == append_spec(
                t.stores[k],
                value_for(cols, row, t.columns[k])->Ok_0,
            )->Ok_0
        }),
    decreases t.columns.len() - j,
{
    if j < t.columns.len() {
        lemma_insert_cols_ok_inv(t, cols, row, j + 1);
        let st = insert_cols_spec(t, cols, row, j)->Ok_0;
        let rest = insert_cols_spec(t, cols, row, j + 1)->Ok_0;
        assert forall|k: int| j <= k < t.columns.len() implies (#[trigger] value_for(
            cols,
            row,
            t.columns[k],
        )) is Ok && append_spec(t.stores[k], value_for(cols, row, t.columns[k])->Ok_0) is Ok
            && st[k - j] == append_spec(
            t.stores[k],
            value_for(cols, row, t.columns[k])->Ok_0,
        )->Ok_0 by {
            if k > j {
                assert(st[k - j] == rest[k - j - 1]);
            }
        }
    }
}

/// The insert/scan alignment law: a successfully inserted row lands whole.
/// Afterwards the table holds one more row; every earlier storage index
/// still materializes to the same row; and the new last row holds, column
/// by column in schema order, the canonical text of the value the insert
/// supplied for that column (or its default).  Applied once per row, this
/// covers any sequence of inserts: a scan yields exactly the inserted
/// rows, with index `i` across all columns belonging to one inserted row.
pub proof fn lemma_insert_scan_aligned(t: TableV, cols: Seq<Seq<char>>, row: Seq<Seq<char>>)
    requires
        table_wf(t),
        t.columns.len() > 0,
        insert_one_spec(t, cols, row) is Ok,
    ensures
        ({
            let t2 = insert_one_spec(t, cols, row)->Ok_0;
            &&& table_wf(t2)
            &&& row_count(t2) == row_count(t) + 1
            &&& scan_spec(t2) == scan_spec(t).push(row_at(t2, row_count(t) as int))
            &&& forall|i: int| 0 <= i < row_count(t) ==> row_at(t2, i) == row_at(t, i)
            &&& forall|c: int| 0 <= c < t.columns.len() ==> #[trigger] row_at(
                t2,
                row_count(t) as int,
            )[c] == (
                t.columns[c].name,
                crate::base::canonical_text(
                    t.columns[c].datatype,
                    value_for(cols, row, t.columns[c])->Ok_0,
                ),
            )
        }),
{
    lemma_insert_cols_ok_inv(t, cols, row, 0);
    let t2 = insert_one_spec(t, cols, row)->Ok_0;
    let rc = row_count(t) as int;
    assert forall|c: int| 0 <= c < t.columns.len() implies store_len(#[trigger] t2.stores[c])
        == row_count(t) + 1 && store_wf(t2.stores[c]) && store_dt(t2.stores[c])
        == t2.columns[c].datatype by {
        let v = value_for(cols, row, t.columns[c])->Ok_0;
        lemma_append_spec_wf(t.stores[c], v);
        assert(store_len(t.stores[c]) == row_count(t));
    }
    assert(row_count(t2) == row_count(t) + 1);
    assert(table_wf(t2));
    assert forall|i: int| 0 <= i < row_count(t) implies row_at(t2, i) == row_at(t, i) by {
        assert forall|c: int| 0 <= c < t.columns.len() implies cell_render(
            #[trigger] t2.stores[c],
            i,
        ) == cell_render(t.stores[c], i) by {
            let v = value_for(cols, row, t.columns[c])->Ok_0;
            crate::base::lemma_append_cells(t.stores[c], v);
            assert(store_len(t.stores[c]) == row_count(t));
        }
        assert(row_at(t2, i) =~= row_at(t, i));
    }
    assert forall|c: int| 0 <= c < t.columns.len() implies #[trigger] row_at(t2, rc)[c] == (
        t.columns[c].name,
        crate::base::canonical_text(
            t.columns[c].datatype,
            value_for(cols, row, t.columns[c])->Ok_0,
        ),
    ) by {
        let v = value_for(cols, row, t.columns[c])->Ok_0;
        crate::base::lemma_append_cells(t.stores[c], v);
        assert(store_len(t.stores[c]) == row_count(t));
        assert(store_dt(t.stores[c]) == t.columns[c].datatype);
    }
    assert(scan_spec(t2) =~= scan_spec(t).push(row_at(t2, rc)));
}

/// Justifies an early insert failure: turns the evidence that column `c` of
/// row `k` fails into the overall result of the statement.
proof fn insert_fail_proof(
    t0: TableV,
    tcur: TableV,
    colsv: Seq<Seq<char>>,
    rowsv: Seq<Seq<Seq<char>>>,
    k: int,
    c: int,
    e: Errors,
)
    requires
        0 <= k < rowsv.len(),
        0 <= c < tcur.columns.len(),
        insert_rows_spec(t0, colsv, rowsv) == insert_rows_spec(tcur, colsv, rowsv.skip(k)),
        forall|j: int| 0 <= j < c ==> (#[trigger] value_for(colsv, rowsv[k], tcur.columns[j])) is Ok
            && append_spec(tcur.stores[j], value_for(colsv, rowsv[k], tcur.columns[j])->Ok_0) is Ok,
        match value_for(colsv, rowsv[k], tcur.columns[c]) {
            Ok(v) => append_spec(tcur.stores[c], v) == Err::<StoreV, Errors>(e),
            Err(e2) => e2 == e,
        },
    ensures
        insert_rows_spec(t0, colsv, rowsv) == (tcur, Some(e)),
{
    lemma_insert_cols_err(tcur, colsv, rowsv[k], c, e, 0);
    assert(rowsv.skip(k)[0] == rowsv[k]);
}

} // verus!
