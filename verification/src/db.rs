//! The database registry — named tables and the statement executors that
//! drive selects, inserts, updates, deletes and drops against them.

use vstd::prelude::*;

use crate::base::{store_len, store_wf, StoreV};
use crate::errors::Errors;
use crate::query::{
    Condition, CreateQuery, DeleteQuery, DropQuery, FromType, InsertQuery, SelectQuery, UpdateQuery,
};
use crate::table::{
    col_idx, filter_spec, insert_rows_spec, lemma_col_idx_bounds, lemma_resolve_upto_sorted,
    new_table_spec, num_pks, resolve_spec, row_count, rows_view, scan_spec, schema_names,
    select_spec, strs_view, table_wf, PrettyTable, Row, Table, TableV,
};

verus! {

/// A named registry of tables.
pub struct Database {
    pub db_name: String,
    pub tables: Vec<Table>,
}

/// The mathematical content of a [`Database`].
#[verifier::ext_equal]
pub ghost struct DbV {
    pub name: Seq<char>,
    pub tables: Seq<TableV>,
}

impl View for Database {
    type V = DbV;

    open spec fn view(&self) -> DbV {
        DbV { name: self.db_name@, tables: self.tables@.map_values(|t: Table| t@) }
    }
}

/// Every table of the registry is well-formed.
pub open spec fn db_wf(d: DbV) -> bool {
    forall|i: int| 0 <= i < d.tables.len() ==> table_wf(#[trigger] d.tables[i])
}

/// The index of the first table named `name`, or the table count.
pub open spec fn tbl_idx(ts: Seq<TableV>, name: Seq<char>) -> int
    decreases ts.len(),
{
    if ts.len() == 0 {
        0
    } else if ts[0].name == name {
        0
    } else {
        1 + tbl_idx(ts.skip(1), name)
    }
}

pub proof fn lemma_tbl_idx_bounds(ts: Seq<TableV>, name: Seq<char>)
    ensures
        0 <= tbl_idx(ts, name) <= ts.len(),
        tbl_idx(ts, name) < ts.len() ==> ts[tbl_idx(ts, name)].name == name,
        forall|j: int| 0 <= j < tbl_idx(ts, name) ==> (#[trigger] ts[j]).name != name,
    decreases ts.len(),
{
    if ts.len() > 0 && ts[0].name != name {
        lemma_tbl_idx_bounds(ts.skip(1), name);
        assert forall|j: int| 0 <= j < tbl_idx(ts, name) implies (#[trigger] ts[j]).name != name by {
            if j > 0 {
                assert(ts.skip(1)[j - 1].name != name);
            }
        }
    }
}

pub proof fn lemma_tbl_idx_unique(ts: Seq<TableV>, name: Seq<char>, k: int)
    requires
        0 <= k <= ts.len(),
        k < ts.len() ==> ts[k].name == name,
        forall|j: int| 0 <= j < k ==> (#[trigger] ts[j]).name != name,
    ensures
        tbl_idx(ts, name) == k,
    decreases ts.len(),
{
    if ts.len() > 0 && ts[0].name != name {
        assert(k > 0);
        lemma_tbl_idx_unique(ts.skip(1), name, k - 1);
    }
}

/// What dropping a list of table names does: each name removes its first
/// match; a name with no match records a `TableNotFound` and processing
/// continues.
pub open spec fn drop_spec(ts: Seq<TableV>, names: Seq<Seq<char>>) -> (Seq<TableV>, Seq<Errors>)
    decreases names.len(),
{
    if names.len() == 0 {
        (ts, Seq::<Errors>::empty())
    } else {
        let i = tbl_idx(ts, names[0]);
        if i < ts.len() {
            drop_spec(ts.remove(i), names.skip(1))
        } else {
            let (rest, errs) = drop_spec(ts, names.skip(1));
            (rest, seq![Errors::TableNotFound] + errs)
        }
    }
}

impl Database {
    /// An empty, unnamed registry.
    pub fn new() -> (r: Database)
        ensures
            r@.name == Seq::<char>::empty(),
            r@.tables == Seq::<TableV>::empty(),
            db_wf(r@),
    {
        let r = Database { db_name: String::new(), tables: Vec::new() };
        proof {
            assert(r@.tables =~= Seq::<TableV>::empty());
        }
        r
    }

    /// Names the registry.
    pub fn set_dbname(&mut self, name: String)
        ensures
            final(self)@.name == name@,
            final(self)@.tables == old(self)@.tables,
    {
        self.db_name = name;
    }

    /// The index of the first table named `tb_name`, or the table count.
    pub fn find_table(&self, tb_name: &String) -> (r: usize)
        ensures
            r == tbl_idx(self@.tables, tb_name@),
            r <= self@.tables.len(),
            r < self@.tables.len() ==> self@.tables[r as int].name == tb_name@,
    {
        let mut i: usize = 0;
        while i < self.tables.len()
            invariant
                i <= self.tables@.len(),
                forall|j: int| 0 <= j < i ==> (#[trigger] self@.tables[j]).name != tb_name@,
            decreases self.tables@.len() - i,
        {
            if self.tables[i].name.eq(tb_name) {
                proof {
                    assert(self@.tables[i as int] == self.tables@[i as int]@);
                    lemma_tbl_idx_unique(self@.tables, tb_name@, i as int);
                }
                return i;
            }
            proof {
                assert(self@.tables[i as int] == self.tables@[i as int]@);
            }
            i = i + 1;
        }
        proof {
            lemma_tbl_idx_unique(self@.tables, tb_name@, self.tables@.len() as int);
        }
        i
    }

    /// Whether a table of that name exists.
    pub fn check_table(&self, tb_name: &String) -> (r: bool)
        ensures
            r == (tbl_idx(self@.tables, tb_name@) < self@.tables.len()),
    {
        let i = self.find_table(tb_name);
        i < self.tables.len()
    }

    /// The table of that name; `TableNotFound` exactly when none exists.
    pub fn get_table(&self, tb_name: &String) -> (r: Result<&Table, Errors>)
        ensures
            match r {
                Ok(t) => tbl_idx(self@.tables, tb_name@) < self@.tables.len() && t@ == self@.tables[
                    tbl_idx(self@.tables, tb_name@)],
                Err(e) => e == Errors::TableNotFound && tbl_idx(self@.tables, tb_name@)
                    >= self@.tables.len(),
            },
    {
        let i = self.find_table(tb_name);
        if i < self.tables.len() {
            proof {
                assert(self@.tables[i as int] == self.tables@[i as int]@);
            }
            Ok(&self.tables[i])
        } else {
            Err(Errors::TableNotFound)
        }
    }

    /// Registers a table; `TableAlreadyExists` on a name collision, and the
    /// registry is unchanged then.
    pub fn create_table(&mut self, tb: Table) -> (r: Result<(), Errors>)
        ensures
            match r {
                Ok(_) => tbl_idx(old(self)@.tables, tb@.name) >= old(self)@.tables.len()
                    && final(self)@.tables == old(self)@.tables.push(tb@),
                Err(e) => e == Errors::TableAlreadyExists && tbl_idx(old(self)@.tables, tb@.name)
                    < old(self)@.tables.len() && final(self)@ == old(self)@,
            },
            final(self)@.name == old(self)@.name,
    {
        if self.check_table(&tb.name) {
            return Err(Errors::TableAlreadyExists);
        }
        proof {
            assert(self.tables@.push(tb).map_values(|t: Table| t@) =~= self@.tables.push(tb@));
        }
        self.tables.push(tb);
        Ok(())
    }

    /// Inserts rows into the named table, as [`insert_rows_spec`] says.
    pub fn insert_row(&mut self, tb_name: &String, cols: &Vec<String>, rows: &Vec<Vec<String>>)
        -> (r: Result<(), Errors>)
        requires
            db_wf(old(self)@),
        ensures
            db_wf(final(self)@),
            final(self)@.name == old(self)@.name,
            ({
                let ti = tbl_idx(old(self)@.tables, tb_name@);
                if ti >= old(self)@.tables.len() {
                    r == Err::<(), Errors>(Errors::TableNotFound) && final(self)@ == old(self)@
                } else {
                    let (t2, err) = insert_rows_spec(
                        old(self)@.tables[ti],
                        strs_view(cols@),
                        crate::table::rows2_view(rows@),
                    );
                    final(self)@.tables == old(self)@.tables.update(ti, t2) && (match r {
                        Ok(_) => err is None,
                        Err(e) => err == Some(e),
                    })
                }
            }),
    {
        let i = self.find_table(tb_name);
        if i >= self.tables.len() {
            proof {
                assert(self@ =~= old(self)@);
            }
            return Err(Errors::TableNotFound);
        }
        proof {
            assert(self@.tables[i as int] == self.tables@[i as int]@);
            assert(table_wf(self@.tables[i as int]));
        }
        let ghost prevtables = self@.tables;
        let t = &mut self.tables[i];
        let r = t.insert_row(cols, rows);
        proof {
            assert forall|j: int| 0 <= j < self@.tables.len() implies #[trigger] self@.tables[j]
                == prevtables.update(i as int, self.tables@[i as int]@)[j] by {
                assert(self@.tables[j] == self.tables@[j]@);
            }
            assert(self@.tables =~= prevtables.update(i as int, self.tables@[i as int]@));
            assert forall|j: int| 0 <= j < self@.tables.len() implies table_wf(
                #[trigger] self@.tables[j],
            ) by {
                if j != i as int {
                    assert(self@.tables[j] == prevtables[j]);
                }
            }
        }
        r
    }

    /// Removes every named table; a name with no match records a
    /// `TableNotFound` and the rest are still processed.
    #[verifier::loop_isolation(false)]
    pub fn drop_tables(&mut self, names: &Vec<String>) -> (errs: Vec<Errors>)
        ensures
            final(self)@.name == old(self)@.name,
            (final(self)@.tables, errs@) == drop_spec(old(self)@.tables, strs_view(names@)),
            db_wf(old(self)@) ==> db_wf(final(self)@),
    {
        let ghost namesv = strs_view(names@);
        let mut errs: Vec<Errors> = Vec::new();
        let mut k: usize = 0;
        proof {
            assert(namesv.skip(0) =~= namesv);
        }
        while k < names.len()
            invariant
                k <= names@.len(),
                self@.name == old(self)@.name,
                drop_spec(old(self)@.tables, namesv) == {
                    let (rest, more) = drop_spec(self@.tables, namesv.skip(k as int));
                    (rest, errs@ + more)
                },
                db_wf(old(self)@) ==> db_wf(self@),
            decreases names@.len() - k,
        {
            proof {
                assert(namesv.skip(k as int)[0] == namesv[k as int]);
                assert(namesv[k as int] == names@[k as int]@);
                assert(namesv.skip(k as int).skip(1) =~= namesv.skip(k + 1));
            }
            let i = self.find_table(&names[k]);
            if i < self.tables.len() {
                let ghost prevtables = self@.tables;
                self.tables.remove(i);
                proof {
                    assert(self@.tables =~= prevtables.remove(i as int));
                    if db_wf(old(self)@) {
                        assert forall|j: int| 0 <= j < self@.tables.len() implies table_wf(
                            #[trigger] self@.tables[j],
                        ) by {
                            if j < i as int {
                                assert(self@.tables[j] == prevtables[j]);
                            } else {
                                assert(self@.tables[j] == prevtables[j + 1]);
                            }
                        }
                    }
                }
            } else {
                let ghost errs_old = errs@;
                errs.push(Errors::TableNotFound);
                proof {
                    let (rest, more) = drop_spec(self@.tables, namesv.skip(k + 1));
                    assert(errs_old + (seq![Errors::TableNotFound] + more) =~= errs@ + more);
                }
            }
            k = k + 1;
        }
        proof {
            assert(namesv.skip(names@.len() as int).len() == 0);
            let (rest, more) = drop_spec(self@.tables, namesv.skip(names@.len() as int));
            assert(errs@ + more =~= errs@);
        }
        errs
    }
}

/// Creates the table a create statement describes and registers it.
pub fn create_tb(query: &CreateQuery, db: &mut Database) -> (r: Result<(), Errors>)
    requires
        db_wf(old(db)@),
    ensures
        db_wf(final(db)@),
        final(db)@.name == old(db)@.name,
        match r {
            Ok(_) => tbl_idx(old(db)@.tables, query.tb_name@) >= old(db)@.tables.len()
                && final(db)@.tables == old(db)@.tables.push(new_table_spec(*query)),
            Err(e) => e == Errors::TableAlreadyExists && tbl_idx(old(db)@.tables, query.tb_name@)
                < old(db)@.tables.len() && final(db)@ == old(db)@,
        },
{
    let tb = Table::new(query);
    let r = db.create_table(tb);
    proof {
        if r is Ok {
            assert forall|j: int| 0 <= j < final(db)@.tables.len() implies table_wf(
                #[trigger] final(db)@.tables[j],
            ) by {
                if j < old(db)@.tables.len() {
                    assert(final(db)@.tables[j] == old(db)@.tables[j]);
                }
            }
        }
    }
    r
}

/// Inserts the statement's rows into its table.
pub fn insert_data(query: &InsertQuery, db: &mut Database) -> (r: Result<(), Errors>)
    requires
        db_wf(old(db)@),
    ensures
        db_wf(final(db)@),
        final(db)@.name == old(db)@.name,
        ({
            let ti = tbl_idx(old(db)@.tables, query.tb_name@);
            if ti >= old(db)@.tables.len() {
                r == Err::<(), Errors>(Errors::TableNotFound) && final(db)@ == old(db)@
            } else {
                let (t2, err) = insert_rows_spec(
                    old(db)@.tables[ti],
                    strs_view(query.cols@),
                    crate::table::rows2_view(query.rows@),
                );
                final(db)@.tables == old(db)@.tables.update(ti, t2) && (match r {
                    Ok(_) => err is None,
                    Err(e) => err == Some(e),
                })
            }
        }),
{
    db.insert_row(&query.tb_name, &query.cols, &query.rows)
}

/// Runs a select statement: a single table, or a two-table join
/// materialized first and then treated as a single table.
pub fn select_data(query: &SelectQuery, db: &Database) -> (r: Result<PrettyTable, Errors>)
    requires
        db_wf(db@),
    ensures
        match query.from {
            FromType::Single { ref tb } => {
                let ti = tbl_idx(db@.tables, tb@);
                if ti >= db@.tables.len() {
                    r == Err::<PrettyTable, Errors>(Errors::TableNotFound)
                } else {
                    match r {
                        Ok(pt) => select_spec(
                            db@.tables[ti],
                            strs_view(query.projection@),
                            query.condition,
                        ) == Ok::<_, Errors>((strs_view(pt.header@), rows_view(pt.rows@))),
                        Err(e) => select_spec(
                            db@.tables[ti],
                            strs_view(query.projection@),
                            query.condition,
                        ) == Err::<(Seq<Seq<char>>, Seq<Seq<(Seq<char>, Seq<char>)>>), Errors>(e),
                    }
                }
            },
            FromType::Join { ref left_table, ref right_table, ref left_col, ref right_col } => {
                let li = tbl_idx(db@.tables, left_table@);
                let ri = tbl_idx(db@.tables, right_table@);
                if li >= db@.tables.len() || ri >= db@.tables.len() {
                    r == Err::<PrettyTable, Errors>(Errors::TableNotFound)
                } else {
                    let lt = db@.tables[li];
                    let rt = db@.tables[ri];
                    if crate::table::col_idx(lt, left_col@) >= lt.columns.len()
                        || crate::table::col_idx(rt, right_col@) >= rt.columns.len() {
                        r == Err::<PrettyTable, Errors>(Errors::ColumnNotFound)
                    } else {
                        let jt = crate::table::join_table_spec(lt, rt, left_col@, right_col@);
                        match r {
                            Ok(pt) => select_spec(
                                jt,
                                strs_view(query.projection@),
                                query.condition,
                            ) == Ok::<_, Errors>((strs_view(pt.header@), rows_view(pt.rows@))),
                            Err(e) => select_spec(
                                jt,
                                strs_view(query.projection@),
                                query.condition,
                            ) == Err::<
                                (Seq<Seq<char>>, Seq<Seq<(Seq<char>, Seq<char>)>>),
                                Errors,
                            >(e),
                        }
                    }
                }
            },
        },
{
    match &query.from {
        FromType::Single { tb } => {
            let t = match db.get_table(tb) {
                Ok(t) => t,
                Err(e) => {
                    return Err(e);
                },
            };
            proof {
                lemma_tbl_idx_bounds(db@.tables, tb@);
                assert(tbl_idx(db@.tables, tb@) < db@.tables.len());
                assert(table_wf(db@.tables[tbl_idx(db@.tables, tb@)]));
            }
            t.select_data(query)
        },
        FromType::Join { left_table, right_table, left_col, right_col } => {
            let lt = match db.get_table(left_table) {
                Ok(t) => t,
                Err(e) => {
                    return Err(e);
                },
            };
            let rt = match db.get_table(right_table) {
                Ok(t) => t,
                Err(e) => {
                    return Err(e);
                },
            };
            proof {
                lemma_tbl_idx_bounds(db@.tables, left_table@);
                lemma_tbl_idx_bounds(db@.tables, right_table@);
                assert(table_wf(db@.tables[tbl_idx(db@.tables, left_table@)]));
                assert(table_wf(db@.tables[tbl_idx(db@.tables, right_table@)]));
            }
            let joined = match lt.join(rt, left_col, right_col) {
                Ok(t) => t,
                Err(e) => {
                    return Err(e);
                },
            };
            joined.select_data(query)
        },
    }
}

/// The views of an assignment list.
pub open spec fn asgs_view(asgs: Seq<(String, String)>) -> Seq<(Seq<char>, Seq<char>)> {
    asgs.map_values(|p: (String, String)| (p.0@, p.1@))
}

/// Applies column/value assignments in order to the rows at `idxs`; the
/// first failing assignment stops, earlier ones staying applied.
pub open spec fn apply_assignments(
    t: TableV,
    idxs: Seq<usize>,
    asgs: Seq<(Seq<char>, Seq<char>)>,
) -> (TableV, Option<Errors>)
    decreases asgs.len(),
{
    if asgs.len() == 0 {
        (t, None)
    } else {
        let c = col_idx(t, asgs[0].0);
        if c >= t.columns.len() {
            (t, Some(Errors::ColumnNotFound))
        } else {
            match crate::base::append_spec(t.stores[c], asgs[0].1) {
                Err(e) => (t, Some(e)),
                Ok(_) => apply_assignments(
                    TableV {
                        name: t.name,
                        columns: t.columns,
                        stores: t.stores.update(
                            c,
                            crate::table::store_set_indices(t.stores[c], idxs, asgs[0].1),
                        ),
                    },
                    idxs,
                    asgs.skip(1),
                ),
            }
        }
    }
}

/// The storage indices an update or delete acts on: scan, filter by the
/// condition if any, then correlate the kept rows back to storage.
pub open spec fn update_target(t: TableV, cond: Option<Condition>) -> Result<Seq<usize>, Errors> {
    let rows = scan_spec(t);
    match (match cond {
        Some(c) => filter_spec(t, rows, c),
        None => Ok(rows),
    }) {
        Err(e) => Err(e),
        Ok(fr) => Ok(resolve_spec(t, fr)),
    }
}

/// What an update statement does to the registry: exactly one primary key
/// is required, rows are chosen through it, and each assignment is applied
/// to every chosen row.
pub open spec fn update_data_spec(
    d: DbV,
    tb: Seq<char>,
    asgs: Seq<(Seq<char>, Seq<char>)>,
    cond: Option<Condition>,
) -> (DbV, Option<Errors>) {
    let ti = tbl_idx(d.tables, tb);
    if ti >= d.tables.len() {
        (d, Some(Errors::TableNotFound))
    } else {
        let t = d.tables[ti];
        if num_pks(t.columns) == 0 {
            (d, Some(Errors::NoPrimaryKey))
        } else if num_pks(t.columns) > 1 {
            (d, Some(Errors::AmbiguousPrimaryKey))
        } else {
            match update_target(t, cond) {
                Err(e) => (d, Some(e)),
                Ok(idxs) => {
                    let (t2, err) = apply_assignments(t, idxs, asgs);
                    (DbV { name: d.name, tables: d.tables.update(ti, t2) }, err)
                },
            }
        }
    }
}

/// What a delete statement does to the registry: the chosen storage rows
/// leave every column, processed in descending order.
pub open spec fn delete_data_spec(d: DbV, tb: Seq<char>, cond: Option<Condition>) -> (
    DbV,
    Option<Errors>,
) {
    let ti = tbl_idx(d.tables, tb);
    if ti >= d.tables.len() {
        (d, Some(Errors::TableNotFound))
    } else {
        let t = d.tables[ti];
        match update_target(t, cond) {
            Err(e) => (d, Some(e)),
            Ok(idxs) => {
                let desc = idxs.reverse();
                let t2 = TableV {
                    name: t.name,
                    columns: t.columns,
                    stores: Seq::new(
                        t.stores.len(),
                        |c: int| crate::base::remove_spec(t.stores[c], desc),
                    ),
                };
                (DbV { name: d.name, tables: d.tables.update(ti, t2) }, None)
            },
        }
    }
}

/// Copies the indices in reverse order.
fn reverse_indices(v: &Vec<usize>) -> (out: Vec<usize>)
    ensures
        out@ == v@.reverse(),
{
    let mut out: Vec<usize> = Vec::new();
    let total = v.len();
    let mut i: usize = 0;
    while i < total
        invariant
            total == v@.len(),
            i <= total,
            out@ =~= v@.reverse().take(i as int),
        decreases total - i,
    {
        out.push(v[total - 1 - i]);
        proof {
            assert(v@.reverse()[i as int] == v@[total - 1 - i]);
            assert(out@ =~= v@.reverse().take(i + 1));
        }
        i = i + 1;
    }
    proof {
        assert(out@ =~= v@.reverse());
    }
    out
}

/// Runs an update statement, as [`update_data_spec`] says.
#[verifier::loop_isolation(false)]
pub fn update_data(query: &UpdateQuery, db: &mut Database) -> (r: Result<(), Errors>)
    requires
        db_wf(old(db)@),
    ensures
        db_wf(final(db)@),
        ({
            let (d2, err) = update_data_spec(
                old(db)@,
                query.tb_name@,
                asgs_view(query.assignments@),
                query.condition,
            );
            &&& final(db)@ == d2
            &&& match r {
                Ok(_) => err is None,
                Err(e) => err == Some(e),
            }
        }),
{
    let ghost d0 = db@;
    let i = db.find_table(&query.tb_name);
    if i >= db.tables.len() {
        proof {
            assert(db@ =~= d0);
        }
        return Err(Errors::TableNotFound);
    }
    proof {
        assert(db@.tables[i as int] == db.tables@[i as int]@);
        assert(table_wf(db@.tables[i as int]));
    }
    let ghost t0 = db@.tables[i as int];
    let npks = db.tables[i].count_pks();
    if npks == 0 {
        proof {
            assert(db@ =~= d0);
        }
        return Err(Errors::NoPrimaryKey);
    }
    if npks > 1 {
        proof {
            assert(db@ =~= d0);
        }
        return Err(Errors::AmbiguousPrimaryKey);
    }
    let rows = db.tables[i].scan();
    let frows = match &query.condition {
        Some(c) => {
            match db.tables[i].filter(&rows, c) {
                Ok(f) => f,
                Err(e) => {
                    proof {
                        assert(db@ =~= d0);
                    }
                    return Err(e);
                },
            }
        },
        None => rows,
    };
    let idxs = db.tables[i].resolve_indices(&frows);
    let nrows = db.tables[i].count_rows();
    proof {
        lemma_resolve_upto_sorted(t0, rows_view(frows@), row_count(t0) as int);
        assert(update_target(t0, query.condition) == Ok::<Seq<usize>, Errors>(idxs@));
    }
    let ghost asgsv = asgs_view(query.assignments@);
    let mut k: usize = 0;
    proof {
        assert(asgsv.skip(0) =~= asgsv);
        assert(db@.tables =~= d0.tables.update(i as int, t0));
    }
    while k < query.assignments.len()
        invariant
            k <= query.assignments@.len(),
            i < db.tables@.len(),
            db@.name == d0.name,
            db@.tables.len() == d0.tables.len(),
            db@.tables == d0.tables.update(i as int, db@.tables[i as int]),
            table_wf(db@.tables[i as int]),
            row_count(db@.tables[i as int]) == row_count(t0),
            db_wf(db@),
            apply_assignments(t0, idxs@, asgsv) == apply_assignments(
                db@.tables[i as int],
                idxs@,
                asgsv.skip(k as int),
            ),
        decreases query.assignments@.len() - k,
    {
        proof {
            assert(asgsv.skip(k as int)[0] == asgsv[k as int]);
            assert(asgsv[k as int] == (query.assignments@[k as int].0@, query.assignments@[
                k as int].1@));
            assert(asgsv.skip(k as int).skip(1) =~= asgsv.skip(k + 1));
            assert(db@.tables[i as int] == db.tables@[i as int]@);
        }
        let ghost tcur = db@.tables[i as int];
        let ghost prevtables = db@.tables;
        let colname = &query.assignments[k].0;
        let value = &query.assignments[k].1;
        let t = &mut db.tables[i];
        let res = t.update_at(&idxs, colname, value);
        proof {
            assert forall|j: int| 0 <= j < db@.tables.len() implies #[trigger] db@.tables[j]
                == prevtables.update(i as int, db.tables@[i as int]@)[j] by {
                assert(db@.tables[j] == db.tables@[j]@);
            }
            assert(db@.tables =~= prevtables.update(i as int, db.tables@[i as int]@));
            assert forall|j: int| 0 <= j < db@.tables.len() implies table_wf(
                #[trigger] db@.tables[j],
            ) by {
                if j != i as int {
                    assert(db@.tables[j] == prevtables[j]);
                }
            }
        }
        match res {
            Ok(_) => {
                proof {
                    let c = col_idx(tcur, asgsv[k as int].0);
                    let stepped = TableV {
                        name: tcur.name,
                        columns: tcur.columns,
                        stores: tcur.stores.update(
                            c,
                            crate::table::store_set_indices(
                                tcur.stores[c],
                                idxs@,
                                asgsv[k as int].1,
                            ),
                        ),
                    };
                    assert(db@.tables[i as int] =~= stepped);
                    assert(db@.tables =~= d0.tables.update(i as int, db@.tables[i as int]));
                }
            },
            Err(e) => {
                proof {
                    assert(db@.tables[i as int] =~= tcur);
                    assert(apply_assignments(tcur, idxs@, asgsv.skip(k as int)).1 == Some(e));
                    assert(db@.tables =~= d0.tables.update(i as int, db@.tables[i as int]));
                    assert(final(db)@ =~= update_data_spec(
                        d0,
                        query.tb_name@,
                        asgsv,
                        query.condition,
                    ).0);
                }
                return Err(e);
            },
        }
        k = k + 1;
    }
    proof {
        assert(asgsv.skip(query.assignments@.len() as int).len() == 0);
        assert(final(db)@ =~= update_data_spec(d0, query.tb_name@, asgsv, query.condition).0);
    }
    Ok(())
}

/// Runs a delete statement, as [`delete_data_spec`] says.
pub fn delete_data(query: &DeleteQuery, db: &mut Database) -> (r: Result<(), Errors>)
    requires
        db_wf(old(db)@),
    ensures
        db_wf(final(db)@),
        ({
            let (d2, err) = delete_data_spec(old(db)@, query.tb_name@, query.condition);
            &&& final(db)@ == d2
            &&& match r {
                Ok(_) => err is None,
                Err(e) => err == Some(e),
            }
        }),
{
    let ghost d0 = db@;
    let i = db.find_table(&query.tb_name);
    if i >= db.tables.len() {
        proof {
            assert(db@ =~= d0);
        }
        return Err(Errors::TableNotFound);
    }
    proof {
        assert(db@.tables[i as int] == db.tables@[i as int]@);
        assert(table_wf(db@.tables[i as int]));
    }
    let ghost t0 = db@.tables[i as int];
    let rows = db.tables[i].scan();
    let frows = match &query.condition {
        Some(c) => {
            match db.tables[i].filter(&rows, c) {
                Ok(f) => f,
                Err(e) => {
                    proof {
                        assert(db@ =~= d0);
                    }
                    return Err(e);
                },
            }
        },
        None => rows,
    };
    let idxs = db.tables[i].resolve_indices(&frows);
    let nrows = db.tables[i].count_rows();
    let desc = reverse_indices(&idxs);
    proof {
        lemma_resolve_upto_sorted(t0, rows_view(frows@), row_count(t0) as int);
        assert(update_target(t0, query.condition) == Ok::<Seq<usize>, Errors>(idxs@));
        assert forall|a: int| 0 <= a < desc@.len() implies (#[trigger] desc@[a] as nat) < row_count(
            t0,
        ) by {
            assert(desc@[a] == idxs@[idxs@.len() - 1 - a]);
        }
        assert forall|a: int, b: int| 0 <= a < b < desc@.len() implies desc@[a] > desc@[b] by {
            assert(desc@[a] == idxs@[idxs@.len() - 1 - a]);
            assert(desc@[b] == idxs@[idxs@.len() - 1 - b]);
            assert(idxs@[idxs@.len() - 1 - b] < idxs@[idxs@.len() - 1 - a]);
        }
        assert(crate::base::valid_removal(desc@, row_count(t0)));
    }
    let ghost prevtables = db@.tables;
    let t = &mut db.tables[i];
    t.delete_at(&desc);
    proof {
        assert forall|j: int| 0 <= j < db@.tables.len() implies #[trigger] db@.tables[j]
            == prevtables.update(i as int, db.tables@[i as int]@)[j] by {
            assert(db@.tables[j] == db.tables@[j]@);
        }
        assert(db@.tables =~= prevtables.update(i as int, db.tables@[i as int]@));
        assert forall|j: int| 0 <= j < db@.tables.len() implies table_wf(
            #[trigger] db@.tables[j],
        ) by {
            if j != i as int {
                assert(db@.tables[j] == prevtables[j]);
            }
        }
        let t2 = TableV {
            name: t0.name,
            columns: t0.columns,
            stores: Seq::new(
                t0.stores.len(),
                |c: int| crate::base::remove_spec(t0.stores[c], idxs@.reverse()),
            ),
        };
        assert(db@.tables[i as int].stores =~= t2.stores);
        assert(db@.tables[i as int] =~= t2);
        assert(db@ =~= delete_data_spec(d0, query.tb_name@, query.condition).0);
    }
    Ok(())
}

/// Runs a drop statement; every named table is attempted, and each miss is
/// reported.
pub fn drop_tb(query: &DropQuery, db: &mut Database) -> (errs: Vec<Errors>)
    requires
        db_wf(old(db)@),
    ensures
        db_wf(final(db)@),
        final(db)@.name == old(db)@.name,
        (final(db)@.tables, errs@) == drop_spec(old(db)@.tables, strs_view(query.drop_tbs@)),
{
    db.drop_tables(&query.drop_tbs)
}

/// Dumps the named table whole: schema-ordered header and every row.
pub fn show_tb_data(tb_name: &String, db: &Database) -> (r: Result<PrettyTable, Errors>)
    requires
        db_wf(db@),
    ensures
        ({
            let ti = tbl_idx(db@.tables, tb_name@);
            match r {
                Ok(pt) => ti < db@.tables.len() && pt.name@ == db@.tables[ti].name && strs_view(
                    pt.header@,
                ) == schema_names(db@.tables[ti]) && rows_view(pt.rows@) == scan_spec(
                    db@.tables[ti],
                ),
                Err(e) => e == Errors::TableNotFound && ti >= db@.tables.len(),
            }
        }),
{
    let t = match db.get_table(tb_name) {
        Ok(t) => t,
        Err(e) => {
            return Err(e);
        },
    };
    proof {
        lemma_tbl_idx_bounds(db@.tables, tb_name@);
        assert(table_wf(db@.tables[tbl_idx(db@.tables, tb_name@)]));
    }
    Ok(t.print_table_data())
}

/// Describes the named table: one display row per column descriptor.
pub fn show_tb_info(tb_name: &String, db: &Database) -> (r: Result<PrettyTable, Errors>)
    requires
        db_wf(db@),
    ensures
        ({
            let ti = tbl_idx(db@.tables, tb_name@);
            match r {
                Ok(pt) => ti < db@.tables.len() && pt.name@ == db@.tables[ti].name && strs_view(
                    pt.header@,
                ) == seq!["name"@, "datatype"@, "is_pk"@, "is_nullable"@, "default"@]
                    && rows_view(pt.rows@) == db@.tables[ti].columns.map_values(
                    |a: crate::base::AttrV| crate::table::attr_row(a),
                ),
                Err(e) => e == Errors::TableNotFound && ti >= db@.tables.len(),
            }
        }),
{
    let t = match db.get_table(tb_name) {
        Ok(t) => t,
        Err(e) => {
            return Err(e);
        },
    };
    Ok(t.show_info())
}

/// Lists every table of the registry by name.
pub fn show_all_tbs(db: &Database) -> (pt: PrettyTable)
    ensures
        pt.name@ == db@.name,
        strs_view(pt.header@) == seq!["Table Name"@],
        pt.rows@.len() == db@.tables.len(),
        forall|i: int| 0 <= i < db@.tables.len() ==> (#[trigger] pt.rows@[i])@ == seq![
            ("Table Name"@, db@.tables[i].name),
        ],
{
    let mut header: Vec<String> = Vec::new();
    header.push(String::from_str("Table Name"));
    proof {
        assert(strs_view(header@) =~= seq!["Table Name"@]);
    }
    let mut rows: Vec<Row> = Vec::new();
    let mut i: usize = 0;
    while i < db.tables.len()
        invariant
            i <= db.tables@.len(),
            rows@.len() == i,
            forall|j: int| 0 <= j < i ==> (#[trigger] rows@[j])@ == seq![
                ("Table Name"@, db@.tables[j].name),
            ],
        decreases db.tables@.len() - i,
    {
        let mut row = Row::new();
        row.push(String::from_str("Table Name"), db.tables[i].name.clone());
        proof {
            assert(db@.tables[i as int] == db.tables@[i as int]@);
            assert(row@ =~= seq![("Table Name"@, db@.tables[i as int].name)]);
        }
        rows.push(row);
        i = i + 1;
    }
    let pt = PrettyTable::create(db.db_name.clone(), header, rows);
    proof {
        assert(rows_view(pt.rows@).len() == pt.rows@.len());
        assert(rows_view(rows@).len() == rows@.len());
        assert forall|j: int| 0 <= j < db@.tables.len() implies (#[trigger] pt.rows@[j])@ == seq![
            ("Table Name"@, db@.tables[j].name),
        ] by {
            assert(rows_view(pt.rows@)[j] == pt.rows@[j]@);
            assert(rows_view(rows@)[j] == rows@[j]@);
        }
    }
    pt
}

} // verus!
