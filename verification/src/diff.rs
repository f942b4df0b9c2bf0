//! The diff engine: computes the minimal, referentially-safe sequence of row
//! mutations transforming one snapshot's data into another's.
//!
//! Diffing validates structure first (table sets, then per-table columns,
//! primary key and foreign keys, then primary-key uniqueness) and fails fast
//! with a [`DiffError`] carrying the offending table. Keyed tables are
//! compared row-by-row through their primary-key values; key-less tables as
//! multisets of full rows. The resulting fixture lists deletes (dependents
//! before parents), then updates, then inserts (parents before dependents).

use vstd::prelude::*;
use crate::model::{
    DiffError, Fixture, FixtureError, FixtureOp, FixtureSnapshot, FkModel, ForeignKey, OpModel, StructurePart, Table,
    TableModel, distinct_seq, fks_model, names_of, opt_model, ops_model, pairs_model, row_model, rows_model,
    wf_table,
};
use crate::order::{find_table, is_table_order, ord_model, parents_first};

verus! {

// ---------------------------------------------------------------------------
// Row-level specification functions
// ---------------------------------------------------------------------------

/// Some row of `rows` has `key` in column `k`.
pub open spec fn has_key(rows: Seq<Seq<Seq<char>>>, k: int, key: Seq<char>) -> bool {
    exists|i: int| 0 <= i < rows.len() && (#[trigger] rows[i])[k] == key
}

/// `key` occurs in column `k` of one of the first `limit` rows.
pub open spec fn key_in_prefix(
    rows: Seq<Seq<Seq<char>>>,
    k: int,
    key: Seq<char>,
    limit: int,
) -> bool {
    exists|i: int| 0 <= i < limit && i < rows.len() && (#[trigger] rows[i])[k] == key
}

/// The row of `rows` carrying `key` in column `k`; well defined whenever the
/// key values in column `k` are unique.
pub open spec fn key_row(rows: Seq<Seq<Seq<char>>>, k: int, key: Seq<char>) -> Seq<Seq<char>> {
    rows[choose|i: int| 0 <= i < rows.len() && (#[trigger] rows[i])[k] == key]
}

/// No primary-key value repeats in column `k`.
pub open spec fn unique_keys(rows: Seq<Seq<Seq<char>>>, k: int) -> bool {
    forall|i: int, j: int|
        0 <= i < j < rows.len() ==> (#[trigger] rows[i])[k] != (#[trigger] rows[j])[k]
}

/// The position of `name` among the columns; well defined whenever the
/// column names are unique and `name` is one of them.
pub open spec fn col_index(cols: Seq<Seq<char>>, name: Seq<char>) -> int {
    choose|k: int| 0 <= k < cols.len() && cols[k] == name
}

/// The column/value pairs, in column order over the first `upto` columns, at
/// which the old row `o` and the new row `nw` disagree, each paired with the
/// new value.
pub open spec fn changed_pairs(
    cols: Seq<Seq<char>>,
    o: Seq<Seq<char>>,
    nw: Seq<Seq<char>>,
    upto: int,
) -> Seq<(Seq<char>, Seq<char>)>
    decreases upto,
{
    if upto <= 0 {
        Seq::empty()
    } else {
        changed_pairs(cols, o, nw, upto - 1) + if o[upto - 1] != nw[upto - 1] {
            seq![(cols[upto - 1], nw[upto - 1])]
        } else {
            Seq::empty()
        }
    }
}

/// How many of the first `upto` rows equal `r`.
pub open spec fn count_upto(rows: Seq<Seq<Seq<char>>>, r: Seq<Seq<char>>, upto: int) -> int
    decreases upto,
{
    if upto <= 0 {
        0
    } else {
        count_upto(rows, r, upto - 1) + if rows[upto - 1] == r {
            1int
        } else {
            0int
        }
    }
}

/// All columns paired with the row's values, in column order, over the first
/// `upto` columns.
pub open spec fn pair_all(
    cols: Seq<Seq<char>>,
    r: Seq<Seq<char>>,
    upto: int,
) -> Seq<(Seq<char>, Seq<char>)>
    decreases upto,
{
    if upto <= 0 {
        Seq::empty()
    } else {
        pair_all(cols, r, upto - 1) + seq![(cols[upto - 1], r[upto - 1])]
    }
}

// ---------------------------------------------------------------------------
// Per-table operations
// ---------------------------------------------------------------------------

/// Deletes for a keyed table: one per row of `p` (in row order, over the
/// first `upto` rows) whose key does not occur in `c`, conditioned on the
/// primary key alone.
pub open spec fn keyed_del_ops(
    tn: Seq<char>,
    pk: Seq<char>,
    k: int,
    p: Seq<Seq<Seq<char>>>,
    c: Seq<Seq<Seq<char>>>,
    upto: int,
) -> Seq<OpModel>
    decreases upto,
{
    if upto <= 0 {
        Seq::empty()
    } else {
        keyed_del_ops(tn, pk, k, p, c, upto - 1) + if !has_key(c, k, p[upto - 1][k]) {
            seq![OpModel::Delete { table: tn, cond: seq![(pk, p[upto - 1][k])] }]
        } else {
            Seq::empty()
        }
    }
}

/// Updates for a keyed table: one per row of `c` (in row order, over the
/// first `upto` rows) whose key also occurs in `p` but whose cells changed,
/// setting exactly the changed columns, conditioned on the primary key.
pub open spec fn keyed_upd_ops(
    tn: Seq<char>,
    pk: Seq<char>,
    cols: Seq<Seq<char>>,
    k: int,
    p: Seq<Seq<Seq<char>>>,
    c: Seq<Seq<Seq<char>>>,
    upto: int,
) -> Seq<OpModel>
    decreases upto,
{
    if upto <= 0 {
        Seq::empty()
    } else {
        keyed_upd_ops(tn, pk, cols, k, p, c, upto - 1) + if has_key(p, k, c[upto - 1][k])
            && key_row(p, k, c[upto - 1][k]) != c[upto - 1] {
            seq![
                OpModel::Update {
                    table: tn,
                    set: changed_pairs(cols, key_row(p, k, c[upto - 1][k]), c[upto - 1], cols.len() as int),
                    cond: seq![(pk, c[upto - 1][k])],
                },
            ]
        } else {
            Seq::empty()
        }
    }
}

/// Rows of `c` (in row order, over the first `upto` rows) whose key does not
/// occur in `p`: the rows a keyed table must insert.
pub open spec fn keyed_ins_rows(
    k: int,
    p: Seq<Seq<Seq<char>>>,
    c: Seq<Seq<Seq<char>>>,
    upto: int,
) -> Seq<Seq<Seq<char>>>
    decreases upto,
{
    if upto <= 0 {
        Seq::empty()
    } else {
        keyed_ins_rows(k, p, c, upto - 1) + if !has_key(p, k, c[upto - 1][k]) {
            seq![c[upto - 1]]
        } else {
            Seq::empty()
        }
    }
}

/// Deletes for a key-less table: rows are compared as a multiset of full
/// value tuples, and each of the first `upto` rows of `p` whose occurrence
/// number exceeds its total count in `c` yields one delete conditioned on
/// every column.
pub open spec fn keyless_del_ops(
    tn: Seq<char>,
    cols: Seq<Seq<char>>,
    p: Seq<Seq<Seq<char>>>,
    c: Seq<Seq<Seq<char>>>,
    upto: int,
) -> Seq<OpModel>
    decreases upto,
{
    if upto <= 0 {
        Seq::empty()
    } else {
        keyless_del_ops(tn, cols, p, c, upto - 1) + if count_upto(p, p[upto - 1], upto)
            > count_upto(c, p[upto - 1], c.len() as int) {
            seq![OpModel::Delete { table: tn, cond: pair_all(cols, p[upto - 1], cols.len() as int) }]
        } else {
            Seq::empty()
        }
    }
}

/// Rows of `c` (over the first `upto`) whose occurrence number exceeds their
/// total count in `p`: the rows a key-less table must insert.
pub open spec fn keyless_ins_rows(
    p: Seq<Seq<Seq<char>>>,
    c: Seq<Seq<Seq<char>>>,
    upto: int,
) -> Seq<Seq<Seq<char>>>
    decreases upto,
{
    if upto <= 0 {
        Seq::empty()
    } else {
        keyless_ins_rows(p, c, upto - 1) + if count_upto(c, c[upto - 1], upto)
            > count_upto(p, c[upto - 1], p.len() as int) {
            seq![c[upto - 1]]
        } else {
            Seq::empty()
        }
    }
}

/// All deletes one table pair contributes.
pub open spec fn table_del_ops(pt: TableModel, ct: TableModel) -> Seq<OpModel> {
    match pt.primary_key {
        Some(pk) => keyed_del_ops(
            pt.name,
            pk,
            col_index(pt.columns, pk),
            pt.rows,
            ct.rows,
            pt.rows.len() as int,
        ),
        None => keyless_del_ops(pt.name, pt.columns, pt.rows, ct.rows, pt.rows.len() as int),
    }
}

/// All updates one table pair contributes; key-less tables never update.
pub open spec fn table_upd_ops(pt: TableModel, ct: TableModel) -> Seq<OpModel> {
    match pt.primary_key {
        Some(pk) => keyed_upd_ops(
            pt.name,
            pk,
            pt.columns,
            col_index(pt.columns, pk),
            pt.rows,
            ct.rows,
            ct.rows.len() as int,
        ),
        None => Seq::empty(),
    }
}

/// The rows one table pair must insert.
pub open spec fn table_ins_rows(pt: TableModel, ct: TableModel) -> Seq<Seq<Seq<char>>> {
    match pt.primary_key {
        Some(pk) => keyed_ins_rows(
            col_index(pt.columns, pk),
            pt.rows,
            ct.rows,
            ct.rows.len() as int,
        ),
        None => keyless_ins_rows(pt.rows, ct.rows, ct.rows.len() as int),
    }
}

/// The inserts one table pair contributes: all new rows batched into one
/// insert, or nothing when no row is new.
pub open spec fn table_ins_ops(pt: TableModel, ct: TableModel) -> Seq<OpModel> {
    if table_ins_rows(pt, ct).len() == 0 {
        Seq::empty()
    } else {
        seq![
            OpModel::Insert { table: pt.name, columns: pt.columns, rows: table_ins_rows(pt, ct) },
        ]
    }
}

// ---------------------------------------------------------------------------
// Snapshot-level matching and validation
// ---------------------------------------------------------------------------

/// Some table of the snapshot is named `name`.
pub open spec fn name_in(s: Seq<TableModel>, name: Seq<char>) -> bool {
    exists|j: int| 0 <= j < s.len() && (#[trigger] s[j]).name == name
}

/// The index of the table named `name`; well defined whenever table names
/// are unique and `name` occurs.
pub open spec fn name_idx(s: Seq<TableModel>, name: Seq<char>) -> int {
    choose|j: int| 0 <= j < s.len() && (#[trigger] s[j]).name == name
}

/// The table of `s` named `name`.
pub open spec fn tbl_named(s: Seq<TableModel>, name: Seq<char>) -> TableModel {
    s[name_idx(s, name)]
}

/// The two snapshots cover the same set of table names.
pub open spec fn same_name_sets(p: Seq<TableModel>, c: Seq<TableModel>) -> bool {
    &&& forall|i: int| 0 <= i < p.len() ==> name_in(c, (#[trigger] p[i]).name)
    &&& forall|j: int| 0 <= j < c.len() ==> name_in(p, (#[trigger] c[j]).name)
}

/// Names of the first `upto` tables of `p` that do not occur in `c`, in
/// declared order.
pub open spec fn absent_names(p: Seq<TableModel>, c: Seq<TableModel>, upto: int) -> Seq<Seq<char>>
    decreases upto,
{
    if upto <= 0 {
        Seq::empty()
    } else {
        absent_names(p, c, upto - 1) + if !name_in(c, p[upto - 1].name) {
            seq![p[upto - 1].name]
        } else {
            Seq::empty()
        }
    }
}

/// The foreign key `f` is among `fks`.
pub open spec fn fk_in(fks: Seq<FkModel>, f: FkModel) -> bool {
    exists|i: int| 0 <= i < fks.len() && fks[i] == f
}

/// The two foreign-key lists declare the same mapping from column to
/// referenced table and column.
pub open spec fn fks_eq(a: Seq<FkModel>, b: Seq<FkModel>) -> bool {
    &&& forall|i: int| 0 <= i < a.len() ==> fk_in(b, #[trigger] a[i])
    &&& forall|j: int| 0 <= j < b.len() ==> fk_in(a, #[trigger] b[j])
}

/// Two tables agree structurally: identical column sequence, primary key,
/// and foreign keys.
pub open spec fn structure_eq(a: TableModel, b: TableModel) -> bool {
    &&& a.columns == b.columns
    &&& a.primary_key == b.primary_key
    &&& fks_eq(a.foreign_keys, b.foreign_keys)
}

/// Which structural check fails first for a disagreeing pair, in the order
/// the checks run: columns, then primary key, then foreign keys.
pub open spec fn mismatch_part(a: TableModel, b: TableModel) -> StructurePart {
    if a.columns != b.columns {
        StructurePart::Columns
    } else if a.primary_key != b.primary_key {
        StructurePart::PrimaryKey
    } else {
        StructurePart::ForeignKeys
    }
}

/// The first repeated primary-key value among the first `upto` rows, if any.
pub open spec fn first_dup(rows: Seq<Seq<Seq<char>>>, k: int, upto: int) -> Option<Seq<char>>
    decreases upto,
{
    if upto <= 0 {
        None
    } else {
        match first_dup(rows, k, upto - 1) {
            Some(v) => Some(v),
            None => if key_in_prefix(rows, k, rows[upto - 1][k], upto - 1) {
                Some(rows[upto - 1][k])
            } else {
                None
            },
        }
    }
}

/// The first repeated primary-key value of a table, if it has a primary key
/// and repeats one.
pub open spec fn table_dup(t: TableModel) -> Option<Seq<char>> {
    match t.primary_key {
        Some(pk) => first_dup(t.rows, col_index(t.columns, pk), t.rows.len() as int),
        None => None,
    }
}

/// The first repeated primary-key value across a table pair, previous
/// snapshot first.
pub open spec fn pair_dup(pt: TableModel, ct: TableModel) -> Option<Seq<char>> {
    match table_dup(pt) {
        Some(v) => Some(v),
        None => table_dup(ct),
    }
}

/// Everything diffing demands of two snapshots: equal table-name sets, equal
/// per-table structure, and unique primary keys on both sides.
pub open spec fn diffable(p: Seq<TableModel>, c: Seq<TableModel>) -> bool {
    &&& same_name_sets(p, c)
    &&& forall|i: int|
        0 <= i < p.len() ==> structure_eq(#[trigger] p[i], tbl_named(c, p[i].name))
    &&& forall|i: int|
        0 <= i < p.len() ==> pair_dup(#[trigger] p[i], tbl_named(c, p[i].name)) is None
}

// ---------------------------------------------------------------------------
// Assembly
// ---------------------------------------------------------------------------

/// Deletes of every table pair, concatenated over the first `upto` entries
/// of the delete-side ordering `rord`.
pub open spec fn dels_upto(
    p: Seq<TableModel>,
    c: Seq<TableModel>,
    rord: Seq<int>,
    upto: int,
) -> Seq<OpModel>
    decreases upto,
{
    if upto <= 0 {
        Seq::empty()
    } else {
        dels_upto(p, c, rord, upto - 1) + table_del_ops(
            p[rord[upto - 1]],
            tbl_named(c, p[rord[upto - 1]].name),
        )
    }
}

/// Updates of every table pair, concatenated in declared snapshot order over
/// the first `upto` tables.
pub open spec fn upds_upto(p: Seq<TableModel>, c: Seq<TableModel>, upto: int) -> Seq<OpModel>
    decreases upto,
{
    if upto <= 0 {
        Seq::empty()
    } else {
        upds_upto(p, c, upto - 1) + table_upd_ops(p[upto - 1], tbl_named(c, p[upto - 1].name))
    }
}

/// Inserts of every table pair, concatenated over the first `upto` entries
/// of the insert-side ordering `ord`.
pub open spec fn inss_upto(
    p: Seq<TableModel>,
    c: Seq<TableModel>,
    ord: Seq<int>,
    upto: int,
) -> Seq<OpModel>
    decreases upto,
{
    if upto <= 0 {
        Seq::empty()
    } else {
        inss_upto(p, c, ord, upto - 1) + table_ins_ops(
            p[ord[upto - 1]],
            tbl_named(c, p[ord[upto - 1]].name),
        )
    }
}

/// The full fixture for a table ordering `ord` (parents first): all deletes
/// in the reverse of `ord`, then all updates, then all inserts in `ord`.
pub open spec fn assembled(p: Seq<TableModel>, c: Seq<TableModel>, ord: Seq<int>) -> Seq<OpModel> {
    dels_upto(p, c, ord.reverse(), ord.len() as int) + upds_upto(p, c, p.len() as int)
        + inss_upto(p, c, ord, ord.len() as int)
}

// ---------------------------------------------------------------------------
// Executable helpers
// ---------------------------------------------------------------------------

/// Whether two string lists hold the same strings in the same order.
fn str_list_eq(a: &Vec<String>, b: &Vec<String>) -> (r: bool)
    ensures
        r == (row_model(*a) == row_model(*b)),
{
    if a.len() != b.len() {
        proof {
            assert(row_model(*a).len() == a@.len());
            assert(row_model(*b).len() == b@.len());
        }
        return false;
    }
    let n = a.len();
    let mut i: usize = 0;
    while i < n
        invariant
            n == a@.len(),
            a@.len() == b@.len(),
            i <= n,
            forall|x: int| 0 <= x < i ==> row_model(*a)[x] == row_model(*b)[x],
        decreases n - i,
    {
        if !(a[i] == b[i]) {
            proof {
                assert(row_model(*a)[i as int] == a@[i as int]@);
                assert(row_model(*b)[i as int] == b@[i as int]@);
            }
            return false;
        }
        proof {
            assert(row_model(*a)[i as int] == a@[i as int]@);
            assert(row_model(*b)[i as int] == b@[i as int]@);
        }
        i += 1;
    }
    proof {
        assert(row_model(*a) =~= row_model(*b));
    }
    true
}

/// Whether two optional column names agree.
fn opt_str_eq(a: &Option<String>, b: &Option<String>) -> (r: bool)
    ensures
        r == (opt_model(*a) == opt_model(*b)),
{
    let r: bool = if a.is_some() && b.is_some() {
        let x: &String = a.as_ref().unwrap();
        let y: &String = b.as_ref().unwrap();
        *x == *y
    } else {
        a.is_none() && b.is_none()
    };
    proof {
        if *a is Some && *b is Some {
            if (*a)->0@ == (*b)->0@ {
                assert(opt_model(*a) == opt_model(*b));
            } else {
                assert(opt_model(*a) != opt_model(*b));
            }
        } else if *a is None && *b is None {
            assert(opt_model(*a) == opt_model(*b));
        } else {
            assert(opt_model(*a) != opt_model(*b));
        }
    }
    r
}

/// A copy of a row (or of any string list), equal to what it copies.
fn clone_strs(r: &Vec<String>) -> (res: Vec<String>)
    ensures
        res@ == r@,
{
    let n = r.len();
    let mut out: Vec<String> = Vec::new();
    let mut i: usize = 0;
    while i < n
        invariant
            n == r@.len(),
            i <= n,
            out@.len() == i,
            forall|x: int| 0 <= x < i ==> out@[x] == r@[x],
        decreases n - i,
    {
        out.push(r[i].clone());
        i += 1;
    }
    proof {
        assert(out@ =~= r@);
    }
    out
}

/// The position of `name` in a column list, scanning in order.
fn find_col(cols: &Vec<String>, name: &String) -> (r: Option<usize>)
    ensures
        match r {
            Some(k) => k < cols@.len() && row_model(*cols)[k as int] == name@,
            None => forall|x: int| 0 <= x < cols@.len() ==> row_model(*cols)[x] != name@,
        },
{
    let n = cols.len();
    let mut i: usize = 0;
    while i < n
        invariant
            n == cols@.len(),
            i <= n,
            forall|x: int| 0 <= x < i ==> row_model(*cols)[x] != name@,
        decreases n - i,
    {
        if cols[i] == *name {
            proof {
                assert(row_model(*cols)[i as int] == cols@[i as int]@);
            }
            return Some(i);
        }
        proof {
            assert(row_model(*cols)[i as int] == cols@[i as int]@);
        }
        i += 1;
    }
    None
}

/// Whether `key` occurs in column `k` of any of the first `limit` rows.
fn key_in_rows_upto(rows: &Vec<Vec<String>>, k: usize, key: &String, limit: usize) -> (r: bool)
    requires
        limit <= rows@.len(),
        forall|i: int| 0 <= i < rows@.len() ==> k < (#[trigger] rows_model(*rows)[i]).len(),
    ensures
        r == key_in_prefix(rows_model(*rows), k as int, key@, limit as int),
{
    let mut i: usize = 0;
    while i < limit
        invariant
            limit <= rows@.len(),
            forall|x: int| 0 <= x < rows@.len() ==> k < (#[trigger] rows_model(*rows)[x]).len(),
            i <= limit,
            !key_in_prefix(rows_model(*rows), k as int, key@, i as int),
        decreases limit - i,
    {
        proof {
            assert(rows_model(*rows)[i as int] == row_model(rows@[i as int]));
            assert(row_model(rows@[i as int])[k as int] == rows@[i as int]@[k as int]@);
        }
        if rows[i][k] == *key {
            proof {
                assert(rows_model(*rows)[i as int][k as int] == key@);
            }
            return true;
        }
        proof {
            assert forall|x: int|
                0 <= x < i + 1 && x < rows@.len() implies (#[trigger] rows_model(
                *rows,
            )[x])[k as int] != key@ by {}
        }
        i += 1;
    }
    false
}

/// Whether `key` occurs in column `k` of any row.
fn key_in_rows(rows: &Vec<Vec<String>>, k: usize, key: &String) -> (r: bool)
    requires
        forall|i: int| 0 <= i < rows@.len() ==> k < (#[trigger] rows_model(*rows)[i]).len(),
    ensures
        r == has_key(rows_model(*rows), k as int, key@),
{
    let r = key_in_rows_upto(rows, k, key, rows.len());
    proof {
        let m = rows_model(*rows);
        assert(key_in_prefix(m, k as int, key@, m.len() as int) == has_key(m, k as int, key@));
    }
    r
}

/// The index of the row carrying `key` in column `k`, scanning in order.
fn find_row_by_key(rows: &Vec<Vec<String>>, k: usize, key: &String) -> (r: Option<usize>)
    requires
        forall|i: int| 0 <= i < rows@.len() ==> k < (#[trigger] rows_model(*rows)[i]).len(),
    ensures
        match r {
            Some(i) => i < rows@.len() && rows_model(*rows)[i as int][k as int] == key@,
            None => !has_key(rows_model(*rows), k as int, key@),
        },
{
    let n = rows.len();
    let mut i: usize = 0;
    while i < n
        invariant
            n == rows@.len(),
            forall|x: int| 0 <= x < rows@.len() ==> k < (#[trigger] rows_model(*rows)[x]).len(),
            i <= n,
            forall|x: int| 0 <= x < i ==> (#[trigger] rows_model(*rows)[x])[k as int] != key@,
        decreases n - i,
    {
        proof {
            assert(rows_model(*rows)[i as int] == row_model(rows@[i as int]));
            assert(row_model(rows@[i as int])[k as int] == rows@[i as int]@[k as int]@);
        }
        if rows[i][k] == *key {
            return Some(i);
        }
        i += 1;
    }
    None
}

/// A single-pair condition on the primary key.
fn pk_cond(pk: &String, val: &String) -> (res: Vec<(String, String)>)
    ensures
        pairs_model(res) == seq![(pk@, val@)],
{
    let mut res: Vec<(String, String)> = Vec::new();
    res.push((pk.clone(), val.clone()));
    proof {
        assert(pairs_model(res) =~= seq![(pk@, val@)]);
    }
    res
}

/// The column/value pairs at which the old and new row disagree, paired with
/// the new value, in column order.
fn changed_set(cols: &Vec<String>, orow: &Vec<String>, nrow: &Vec<String>) -> (res: Vec<
    (String, String),
>)
    requires
        orow@.len() == cols@.len(),
        nrow@.len() == cols@.len(),
    ensures
        pairs_model(res) == changed_pairs(
            row_model(*cols),
            row_model(*orow),
            row_model(*nrow),
            cols@.len() as int,
        ),
{
    let n = cols.len();
    let mut res: Vec<(String, String)> = Vec::new();
    let mut c: usize = 0;
    while c < n
        invariant
            n == cols@.len(),
            orow@.len() == n,
            nrow@.len() == n,
            c <= n,
            pairs_model(res) == changed_pairs(
                row_model(*cols),
                row_model(*orow),
                row_model(*nrow),
                c as int,
            ),
        decreases n - c,
    {
        proof {
            assert(row_model(*cols)[c as int] == cols@[c as int]@);
            assert(row_model(*orow)[c as int] == orow@[c as int]@);
            assert(row_model(*nrow)[c as int] == nrow@[c as int]@);
        }
        let ghost before = pairs_model(res);
        if !(orow[c] == nrow[c]) {
            res.push((cols[c].clone(), nrow[c].clone()));
            proof {
                assert(pairs_model(res) =~= before + seq![
                    (row_model(*cols)[c as int], row_model(*nrow)[c as int]),
                ]);
            }
        } else {
            proof {
                assert(pairs_model(res) =~= before + Seq::<(Seq<char>, Seq<char>)>::empty());
            }
        }
        c += 1;
    }
    res
}

/// Every column paired with the row's value, in column order.
fn full_cond(cols: &Vec<String>, row: &Vec<String>) -> (res: Vec<(String, String)>)
    requires
        row@.len() == cols@.len(),
    ensures
        pairs_model(res) == pair_all(row_model(*cols), row_model(*row), cols@.len() as int),
{
    let n = cols.len();
    let mut res: Vec<(String, String)> = Vec::new();
    let mut c: usize = 0;
    while c < n
        invariant
            n == cols@.len(),
            row@.len() == n,
            c <= n,
            pairs_model(res) == pair_all(row_model(*cols), row_model(*row), c as int),
        decreases n - c,
    {
        proof {
            assert(row_model(*cols)[c as int] == cols@[c as int]@);
            assert(row_model(*row)[c as int] == row@[c as int]@);
        }
        let ghost before = pairs_model(res);
        res.push((cols[c].clone(), row[c].clone()));
        proof {
            assert(pairs_model(res) =~= before + seq![
                (row_model(*cols)[c as int], row_model(*row)[c as int]),
            ]);
        }
        c += 1;
    }
    res
}

/// How many of the first `limit` rows equal `target`.
fn count_rows(rows: &Vec<Vec<String>>, target: &Vec<String>, limit: usize) -> (r: usize)
    requires
        limit <= rows@.len(),
    ensures
        r as int == count_upto(rows_model(*rows), row_model(*target), limit as int),
        r <= limit,
{
    let mut count: usize = 0;
    let mut i: usize = 0;
    while i < limit
        invariant
            limit <= rows@.len(),
            i <= limit,
            count <= i,
            count as int == count_upto(rows_model(*rows), row_model(*target), i as int),
        decreases limit - i,
    {
        proof {
            assert(rows_model(*rows)[i as int] == row_model(rows@[i as int]));
        }
        if str_list_eq(&rows[i], target) {
            count += 1;
        }
        i += 1;
    }
    count
}


// ---------------------------------------------------------------------------
// Per-table generation
// ---------------------------------------------------------------------------

/// No primary-key value repeats in the table, when it has a primary key.
pub open spec fn keys_ok(t: TableModel) -> bool {
    match t.primary_key {
        Some(pk) => unique_keys(t.rows, col_index(t.columns, pk)),
        None => true,
    }
}

/// The two tables agree on columns and primary key (what row generation
/// relies on after structural validation).
pub open spec fn aligned(pt: TableModel, ct: TableModel) -> bool {
    &&& wf_table(pt)
    &&& wf_table(ct)
    &&& pt.columns == ct.columns
    &&& pt.primary_key == ct.primary_key
}

/// The position of the declared primary key among the columns.
fn pk_col(t: &Table, pk: &String) -> (k: usize)
    requires
        wf_table(t@),
        t@.primary_key == Some(pk@),
    ensures
        k as int == col_index(t@.columns, pk@),
        k < t@.columns.len(),
        t@.columns[k as int] == pk@,
{
    match find_col(&t.columns, pk) {
        Some(k) => {
            proof {
                let ki = col_index(t@.columns, pk@);
                assert(t@.columns[k as int] == pk@);
                assert(0 <= ki < t@.columns.len() && t@.columns[ki] == pk@);
                if ki != k as int {
                    assert(false);  // column names are unique
                }
            }
            k
        },
        None => {
            proof {
                let w = choose|i: int| 0 <= i < t@.columns.len() && t@.columns[i] == pk@;
                assert(row_model(t.columns)[w] == pk@);
                assert(false);
            }
            0
        },
    }
}

/// Appends the deletes one table pair contributes: for a keyed table one per
/// vanished key, for a key-less table one per lost duplicate occurrence.
fn gen_table_dels(pt: &Table, ct: &Table, ops: &mut Vec<FixtureOp>)
    requires
        aligned(pt@, ct@),
    ensures
        ops_model(*final(ops)) == ops_model(*old(ops)) + table_del_ops(pt@, ct@),
{
    let ghost base = ops_model(*old(ops));
    let n = pt.rows.len();
    match &pt.primary_key {
        Some(pk) => {
            let k = pk_col(pt, pk);
            proof {
                assert forall|i: int| 0 <= i < ct@.rows.len() implies k
                    < (#[trigger] rows_model(ct.rows)[i]).len() by {
                    assert(ct@.rows[i].len() == ct@.columns.len());
                }
            }
            let mut i: usize = 0;
            while i < n
                invariant
                    aligned(pt@, ct@),
                    pt@.primary_key == Some(pk@),
                    k as int == col_index(pt@.columns, pk@),
                    k < pt@.columns.len(),
                    n == pt@.rows.len(),
                    i <= n,
                    forall|x: int| 0 <= x < ct@.rows.len() ==> k
                        < (#[trigger] rows_model(ct.rows)[x]).len(),
                    ops_model(*ops) == base + keyed_del_ops(
                        pt@.name,
                        pk@,
                        k as int,
                        pt@.rows,
                        ct@.rows,
                        i as int,
                    ),
                decreases n - i,
            {
                let ghost before = ops_model(*ops);
                proof {
                    assert(pt@.rows[i as int] == row_model(pt.rows@[i as int]));
                    assert(pt@.rows[i as int][k as int] == pt.rows@[i as int]@[k as int]@);
                    assert(pt@.rows[i as int].len() == pt@.columns.len());
                }
                if !key_in_rows(&ct.rows, k, &pt.rows[i][k]) {
                    let cond = pk_cond(pk, &pt.rows[i][k]);
                    let op = FixtureOp::Delete { table: pt.name.clone(), cond };
                    proof {
                        assert(op@ == OpModel::Delete {
                            table: pt@.name,
                            cond: seq![(pk@, pt@.rows[i as int][k as int])],
                        });
                    }
                    ops.push(op);
                    proof {
                        assert(ops_model(*ops) =~= before + seq![op@]);
                        assert(ops_model(*ops) =~= base + keyed_del_ops(
                            pt@.name,
                            pk@,
                            k as int,
                            pt@.rows,
                            ct@.rows,
                            i + 1,
                        ));
                    }
                } else {
                    proof {
                        assert(ops_model(*ops) =~= base + keyed_del_ops(
                            pt@.name,
                            pk@,
                            k as int,
                            pt@.rows,
                            ct@.rows,
                            i + 1,
                        ));
                    }
                }
                i += 1;
            }
        },
        None => {
            let mut i: usize = 0;
            while i < n
                invariant
                    aligned(pt@, ct@),
                    pt@.primary_key is None,
                    n == pt@.rows.len(),
                    i <= n,
                    ops_model(*ops) == base + keyless_del_ops(
                        pt@.name,
                        pt@.columns,
                        pt@.rows,
                        ct@.rows,
                        i as int,
                    ),
                decreases n - i,
            {
                let ghost before = ops_model(*ops);
                proof {
                    assert(pt@.rows[i as int] == row_model(pt.rows@[i as int]));
                    assert(pt@.rows[i as int].len() == pt@.columns.len());
                }
                let cp = count_rows(&pt.rows, &pt.rows[i], i + 1);
                let cc = count_rows(&ct.rows, &pt.rows[i], ct.rows.len());
                if cp > cc {
                    let cond = full_cond(&pt.columns, &pt.rows[i]);
                    let op = FixtureOp::Delete { table: pt.name.clone(), cond };
                    proof {
                        assert(op@ == OpModel::Delete {
                            table: pt@.name,
                            cond: pair_all(
                                pt@.columns,
                                pt@.rows[i as int],
                                pt@.columns.len() as int,
                            ),
                        });
                    }
                    ops.push(op);
                    proof {
                        assert(ops_model(*ops) =~= before + seq![op@]);
                        assert(ops_model(*ops) =~= base + keyless_del_ops(
                            pt@.name,
                            pt@.columns,
                            pt@.rows,
                            ct@.rows,
                            i + 1,
                        ));
                    }
                } else {
                    proof {
                        assert(ops_model(*ops) =~= base + keyless_del_ops(
                            pt@.name,
                            pt@.columns,
                            pt@.rows,
                            ct@.rows,
                            i + 1,
                        ));
                    }
                }
                i += 1;
            }
        },
    }
}


/// Appends the updates one table pair contributes: for a keyed table one per
/// surviving key whose row changed; a key-less table never updates.
fn gen_table_upds(pt: &Table, ct: &Table, ops: &mut Vec<FixtureOp>)
    requires
        aligned(pt@, ct@),
        keys_ok(pt@),
    ensures
        ops_model(*final(ops)) == ops_model(*old(ops)) + table_upd_ops(pt@, ct@),
{
    let ghost base = ops_model(*old(ops));
    match &pt.primary_key {
        Some(pk) => {
            let k = pk_col(pt, pk);
            proof {
                assert forall|i: int| 0 <= i < pt@.rows.len() implies k
                    < (#[trigger] rows_model(pt.rows)[i]).len() by {
                    assert(pt@.rows[i].len() == pt@.columns.len());
                }
            }
            let n = ct.rows.len();
            let mut j: usize = 0;
            while j < n
                invariant
                    aligned(pt@, ct@),
                    keys_ok(pt@),
                    pt@.primary_key == Some(pk@),
                    k as int == col_index(pt@.columns, pk@),
                    k < pt@.columns.len(),
                    n == ct@.rows.len(),
                    j <= n,
                    forall|x: int| 0 <= x < pt@.rows.len() ==> k
                        < (#[trigger] rows_model(pt.rows)[x]).len(),
                    ops_model(*ops) == base + keyed_upd_ops(
                        pt@.name,
                        pk@,
                        pt@.columns,
                        k as int,
                        pt@.rows,
                        ct@.rows,
                        j as int,
                    ),
                decreases n - j,
            {
                let ghost before = ops_model(*ops);
                proof {
                    assert(ct@.rows[j as int] == row_model(ct.rows@[j as int]));
                    assert(ct@.rows[j as int][k as int] == ct.rows@[j as int]@[k as int]@);
                    assert(ct@.rows[j as int].len() == ct@.columns.len());
                }
                let ghost ckey = ct@.rows[j as int][k as int];
                let mut pushed = false;
                match find_row_by_key(&pt.rows, k, &ct.rows[j][k]) {
                    Some(pi) => {
                        proof {
                            assert(has_key(pt@.rows, k as int, ckey));
                            let ci = choose|i: int|
                                0 <= i < pt@.rows.len() && (#[trigger] pt@.rows[i])[k as int]
                                    == ckey;
                            if ci != pi as int {
                                assert(false);  // keys are unique
                            }
                            assert(key_row(pt@.rows, k as int, ckey) == pt@.rows[pi as int]);
                            assert(pt@.rows[pi as int] == row_model(pt.rows@[pi as int]));
                            assert(pt@.rows[pi as int].len() == pt@.columns.len());
                        }
                        if !str_list_eq(&pt.rows[pi], &ct.rows[j]) {
                            let set = changed_set(&pt.columns, &pt.rows[pi], &ct.rows[j]);
                            let cond = pk_cond(pk, &ct.rows[j][k]);
                            let op = FixtureOp::Update { table: pt.name.clone(), set, cond };
                            proof {
                                assert(op@ == OpModel::Update {
                                    table: pt@.name,
                                    set: changed_pairs(
                                        pt@.columns,
                                        key_row(pt@.rows, k as int, ckey),
                                        ct@.rows[j as int],
                                        pt@.columns.len() as int,
                                    ),
                                    cond: seq![(pk@, ckey)],
                                });
                            }
                            ops.push(op);
                            pushed = true;
                            proof {
                                assert(ops_model(*ops) =~= before + seq![op@]);
                            }
                        }
                    },
                    None => {},
                }
                proof {
                    let spec_j1 = keyed_upd_ops(
                        pt@.name,
                        pk@,
                        pt@.columns,
                        k as int,
                        pt@.rows,
                        ct@.rows,
                        j + 1,
                    );
                    if pushed {
                        assert(ops_model(*ops) =~= base + spec_j1);
                    } else {
                        assert(ops_model(*ops) =~= base + spec_j1);
                    }
                }
                j += 1;
            }
        },
        None => {
            proof {
                assert(ops_model(*ops) =~= base + Seq::<OpModel>::empty());
            }
        },
    }
}

/// Appends the insert one table pair contributes: all new rows of the
/// current side batched into a single insert, or nothing when no row is new.
fn gen_table_inss(pt: &Table, ct: &Table, ops: &mut Vec<FixtureOp>)
    requires
        aligned(pt@, ct@),
    ensures
        ops_model(*final(ops)) == ops_model(*old(ops)) + table_ins_ops(pt@, ct@),
{
    let ghost base = ops_model(*old(ops));
    let n = ct.rows.len();
    let mut newrows: Vec<Vec<String>> = Vec::new();
    match &pt.primary_key {
        Some(pk) => {
            let k = pk_col(pt, pk);
            proof {
                assert forall|i: int| 0 <= i < pt@.rows.len() implies k
                    < (#[trigger] rows_model(pt.rows)[i]).len() by {
                    assert(pt@.rows[i].len() == pt@.columns.len());
                }
                assert(rows_model(newrows) =~= keyed_ins_rows(
                    k as int,
                    pt@.rows,
                    ct@.rows,
                    0,
                ));
            }
            let mut j: usize = 0;
            while j < n
                invariant
                    aligned(pt@, ct@),
                    pt@.primary_key == Some(pk@),
                    k as int == col_index(pt@.columns, pk@),
                    k < pt@.columns.len(),
                    n == ct@.rows.len(),
                    j <= n,
                    forall|x: int| 0 <= x < pt@.rows.len() ==> k
                        < (#[trigger] rows_model(pt.rows)[x]).len(),
                    rows_model(newrows) == keyed_ins_rows(
                        k as int,
                        pt@.rows,
                        ct@.rows,
                        j as int,
                    ),
                decreases n - j,
            {
                let ghost before = rows_model(newrows);
                proof {
                    assert(ct@.rows[j as int] == row_model(ct.rows@[j as int]));
                    assert(ct@.rows[j as int][k as int] == ct.rows@[j as int]@[k as int]@);
                    assert(ct@.rows[j as int].len() == ct@.columns.len());
                }
                if !key_in_rows(&pt.rows, k, &ct.rows[j][k]) {
                    let r = clone_strs(&ct.rows[j]);
                    proof {
                        assert(row_model(r) == ct@.rows[j as int]);
                    }
                    newrows.push(r);
                    proof {
                        assert(rows_model(newrows) =~= before + seq![ct@.rows[j as int]]);
                    }
                } else {
                    proof {
                        assert(rows_model(newrows) =~= before
                            + Seq::<Seq<Seq<char>>>::empty());
                    }
                }
                proof {
                    assert(rows_model(newrows) =~= keyed_ins_rows(
                        k as int,
                        pt@.rows,
                        ct@.rows,
                        j + 1,
                    ));
                }
                j += 1;
            }
        },
        None => {
            proof {
                assert(rows_model(newrows) =~= keyless_ins_rows(pt@.rows, ct@.rows, 0));
            }
            let mut j: usize = 0;
            while j < n
                invariant
                    aligned(pt@, ct@),
                    pt@.primary_key is None,
                    n == ct@.rows.len(),
                    j <= n,
                    rows_model(newrows) == keyless_ins_rows(pt@.rows, ct@.rows, j as int),
                decreases n - j,
            {
                let ghost before = rows_model(newrows);
                proof {
                    assert(ct@.rows[j as int] == row_model(ct.rows@[j as int]));
                }
                let cc = count_rows(&ct.rows, &ct.rows[j], j + 1);
                let cp = count_rows(&pt.rows, &ct.rows[j], pt.rows.len());
                if cc > cp {
                    let r = clone_strs(&ct.rows[j]);
                    proof {
                        assert(row_model(r) == ct@.rows[j as int]);
                    }
                    newrows.push(r);
                    proof {
                        assert(rows_model(newrows) =~= before + seq![ct@.rows[j as int]]);
                    }
                } else {
                    proof {
                        assert(rows_model(newrows) =~= before
                            + Seq::<Seq<Seq<char>>>::empty());
                    }
                }
                proof {
                    assert(rows_model(newrows) =~= keyless_ins_rows(
                        pt@.rows,
                        ct@.rows,
                        j + 1,
                    ));
                }
                j += 1;
            }
        },
    }
    proof {
        assert(rows_model(newrows) == table_ins_rows(pt@, ct@));
        assert(rows_model(newrows).len() == newrows@.len());
    }
    if newrows.len() > 0 {
        let ghost before = ops_model(*ops);
        let op = FixtureOp::Insert {
            table: pt.name.clone(),
            columns: clone_strs(&pt.columns),
            rows: newrows,
        };
        proof {
            assert(op@ == OpModel::Insert {
                table: pt@.name,
                columns: pt@.columns,
                rows: table_ins_rows(pt@, ct@),
            });
        }
        ops.push(op);
        proof {
            assert(ops_model(*ops) =~= before + seq![op@]);
            assert(ops_model(*ops) =~= base + table_ins_ops(pt@, ct@));
        }
    } else {
        proof {
            assert(ops_model(*ops) =~= base + table_ins_ops(pt@, ct@));
        }
    }
}


// ---------------------------------------------------------------------------
// Structural validation
// ---------------------------------------------------------------------------

/// Names of `p`'s tables that are absent from `c`, in declared order.
fn absent_from(p: &FixtureSnapshot, c: &FixtureSnapshot) -> (res: Vec<String>)
    ensures
        row_model(res) == absent_names(p@, c@, p@.len() as int),
{
    let n = p.tables.len();
    let mut res: Vec<String> = Vec::new();
    let mut i: usize = 0;
    while i < n
        invariant
            n == p@.len(),
            i <= n,
            row_model(res) == absent_names(p@, c@, i as int),
        decreases n - i,
    {
        let ghost before = row_model(res);
        proof {
            assert(p@[i as int] == p.tables@[i as int]@);
        }
        match find_table(c, &p.tables[i].name) {
            Some(_) => {
                proof {
                    assert(name_in(c@, p@[i as int].name));
                    assert(row_model(res) =~= before + Seq::<Seq<char>>::empty());
                }
            },
            None => {
                res.push(p.tables[i].name.clone());
                proof {
                    assert(!name_in(c@, p@[i as int].name));
                    assert(row_model(res) =~= before + seq![p@[i as int].name]);
                }
            },
        }
        i += 1;
    }
    res
}

proof fn lemma_absent_empty(p: Seq<TableModel>, c: Seq<TableModel>, upto: int)
    requires
        0 <= upto <= p.len(),
    ensures
        (absent_names(p, c, upto).len() == 0) <==> (forall|i: int|
            0 <= i < upto ==> name_in(c, (#[trigger] p[i]).name)),
    decreases upto,
{
    if upto > 0 {
        lemma_absent_empty(p, c, upto - 1);
    }
}

/// Whether the foreign key occurs, whole, in the list.
fn fk_present(b: &Vec<ForeignKey>, f: &ForeignKey) -> (r: bool)
    ensures
        r == fk_in(fks_model(*b), f@),
{
    let n = b.len();
    let mut j: usize = 0;
    while j < n
        invariant
            n == b@.len(),
            j <= n,
            forall|x: int| 0 <= x < j ==> fks_model(*b)[x] != f@,
        decreases n - j,
    {
        proof {
            assert(fks_model(*b)[j as int] == b@[j as int]@);
        }
        if b[j].column == f.column && b[j].ref_table == f.ref_table
            && b[j].ref_column == f.ref_column {
            proof {
                assert(fks_model(*b)[j as int] == f@);
            }
            return true;
        }
        j += 1;
    }
    false
}

/// Whether every foreign key of `a` occurs in `b`.
fn fks_sub(a: &Vec<ForeignKey>, b: &Vec<ForeignKey>) -> (r: bool)
    ensures
        r == (forall|i: int|
            0 <= i < fks_model(*a).len() ==> fk_in(fks_model(*b), #[trigger] fks_model(*a)[i])),
{
    let n = a.len();
    let mut i: usize = 0;
    while i < n
        invariant
            n == a@.len(),
            i <= n,
            forall|x: int| 0 <= x < i ==> fk_in(fks_model(*b), #[trigger] fks_model(*a)[x]),
        decreases n - i,
    {
        if !fk_present(b, &a[i]) {
            proof {
                assert(fks_model(*a)[i as int] == a@[i as int]@);
            }
            return false;
        }
        proof {
            assert(fks_model(*a)[i as int] == a@[i as int]@);
        }
        i += 1;
    }
    true
}

/// Validates that every shared table agrees in columns, primary key and
/// foreign keys, reporting the first disagreeing table in declared order.
fn check_structures(p: &FixtureSnapshot, c: &FixtureSnapshot) -> (res: Result<(), DiffError>)
    requires
        same_name_sets(p@, c@),
        distinct_seq(names_of(c@)),
    ensures
        match res {
            Ok(()) => forall|i: int|
                0 <= i < p@.len() ==> structure_eq(#[trigger] p@[i], tbl_named(c@, p@[i].name)),
            Err(e) => e matches DiffError::StructureMismatch { table, part } && (exists|i: int|
                {
                    &&& 0 <= i < p@.len()
                    &&& table@ == (#[trigger] p@[i]).name
                    &&& !structure_eq(p@[i], tbl_named(c@, p@[i].name))
                    &&& part == mismatch_part(p@[i], tbl_named(c@, p@[i].name))
                    &&& forall|x: int|
                        0 <= x < i ==> structure_eq(
                            #[trigger] p@[x],
                            tbl_named(c@, p@[x].name),
                        )
                }),
        },
{
    let n = p.tables.len();
    let mut i: usize = 0;
    while i < n
        invariant
            same_name_sets(p@, c@),
            distinct_seq(names_of(c@)),
            n == p@.len(),
            i <= n,
            forall|x: int|
                0 <= x < i ==> structure_eq(#[trigger] p@[x], tbl_named(c@, p@[x].name)),
        decreases n - i,
    {
        proof {
            assert(p@[i as int] == p.tables@[i as int]@);
        }
        let j = match find_table(c, &p.tables[i].name) {
            Some(j) => j,
            None => {
                proof {
                    assert(name_in(c@, p@[i as int].name));
                    assert(false);
                }
                0
            },
        };
        proof {
            let ji = name_idx(c@, p@[i as int].name);
            assert(c@[j as int].name == p@[i as int].name);
            assert(name_in(c@, p@[i as int].name));
            assert(0 <= ji < c@.len() && c@[ji].name == p@[i as int].name);
            if ji != j as int {
                assert(names_of(c@)[ji] == c@[ji].name);
                assert(names_of(c@)[j as int] == c@[j as int].name);
                assert(false);
            }
            assert(tbl_named(c@, p@[i as int].name) == c@[j as int]);
            assert(c@[j as int] == c.tables@[j as int]@);
        }
        let pt = &p.tables[i];
        let ct = &c.tables[j];
        if !str_list_eq(&pt.columns, &ct.columns) {
            return Err(DiffError::StructureMismatch {
                table: pt.name.clone(),
                part: StructurePart::Columns,
            });
        }
        if !opt_str_eq(&pt.primary_key, &ct.primary_key) {
            return Err(DiffError::StructureMismatch {
                table: pt.name.clone(),
                part: StructurePart::PrimaryKey,
            });
        }
        if !(fks_sub(&pt.foreign_keys, &ct.foreign_keys) && fks_sub(
            &ct.foreign_keys,
            &pt.foreign_keys,
        )) {
            return Err(DiffError::StructureMismatch {
                table: pt.name.clone(),
                part: StructurePart::ForeignKeys,
            });
        }
        proof {
            assert(structure_eq(p@[i as int], tbl_named(c@, p@[i as int].name)));
        }
        i += 1;
    }
    Ok(())
}

proof fn lemma_first_dup_extend(rows: Seq<Seq<Seq<char>>>, k: int, a: int, b: int)
    requires
        0 <= a <= b,
        first_dup(rows, k, a) is Some,
    ensures
        first_dup(rows, k, b) == first_dup(rows, k, a),
    decreases b - a,
{
    if b > a {
        lemma_first_dup_extend(rows, k, a, b - 1);
    }
}

proof fn lemma_no_dup_unique(rows: Seq<Seq<Seq<char>>>, k: int, upto: int)
    requires
        0 <= upto <= rows.len(),
        first_dup(rows, k, upto) is None,
    ensures
        forall|i: int, j: int|
            0 <= i < j < upto ==> (#[trigger] rows[i])[k] != (#[trigger] rows[j])[k],
    decreases upto,
{
    if upto > 0 {
        lemma_no_dup_unique(rows, k, upto - 1);
        assert forall|i: int, j: int|
            0 <= i < j < upto implies (#[trigger] rows[i])[k] != (#[trigger] rows[j])[k] by {
            if j == upto - 1 {
                assert(!key_in_prefix(rows, k, rows[j][k], j));
            }
        }
    }
}

/// Unique primary keys follow from the absence of a repeated key value.
pub proof fn lemma_unique_from_no_dup(rows: Seq<Seq<Seq<char>>>, k: int)
    requires
        first_dup(rows, k, rows.len() as int) is None,
    ensures
        unique_keys(rows, k),
{
    lemma_no_dup_unique(rows, k, rows.len() as int);
}

/// The first repeated primary-key value of the table, scanning rows in
/// order; nothing when the table is key-less or repeats none.
fn table_first_dup(t: &Table) -> (res: Option<String>)
    requires
        wf_table(t@),
    ensures
        match res {
            Some(v) => table_dup(t@) == Some(v@),
            None => table_dup(t@) is None,
        },
{
    match &t.primary_key {
        None => None,
        Some(pk) => {
            let k = pk_col(t, pk);
            proof {
                assert forall|i: int| 0 <= i < t@.rows.len() implies k
                    < (#[trigger] rows_model(t.rows)[i]).len() by {
                    assert(t@.rows[i].len() == t@.columns.len());
                }
            }
            let n = t.rows.len();
            let mut j: usize = 0;
            while j < n
                invariant
                    wf_table(t@),
                    t@.primary_key == Some(pk@),
                    k as int == col_index(t@.columns, pk@),
                    k < t@.columns.len(),
                    n == t@.rows.len(),
                    j <= n,
                    forall|x: int| 0 <= x < t@.rows.len() ==> k
                        < (#[trigger] rows_model(t.rows)[x]).len(),
                    first_dup(t@.rows, k as int, j as int) is None,
                decreases n - j,
            {
                proof {
                    assert(t@.rows[j as int] == row_model(t.rows@[j as int]));
                    assert(t@.rows[j as int][k as int] == t.rows@[j as int]@[k as int]@);
                }
                if key_in_rows_upto(&t.rows, k, &t.rows[j][k], j) {
                    let v = t.rows[j][k].clone();
                    proof {
                        assert(first_dup(t@.rows, k as int, j + 1) == Some(
                            t@.rows[j as int][k as int],
                        ));
                        lemma_first_dup_extend(t@.rows, k as int, j + 1, n as int);
                    }
                    return Some(v);
                }
                j += 1;
            }
            None
        },
    }
}


// ---------------------------------------------------------------------------
// The diff engine
// ---------------------------------------------------------------------------

/// The fixture is exactly the assembly of per-table operations over some
/// permutation of the snapshot's tables, parents placed first whenever the
/// cycle flag is clear.
pub open spec fn diff_ok(
    p: Seq<TableModel>,
    c: Seq<TableModel>,
    f: Seq<OpModel>,
    cyc: bool,
) -> bool {
    exists|ord: Seq<int>|
        {
            &&& #[trigger] is_table_order(p, ord)
            &&& f == assembled(p, c, ord)
            &&& !cyc ==> parents_first(p, ord)
        }
}

/// Exactly when and with what payload each diff error is returned:
/// `TableSetMismatch` lists the names each side lacks; `StructureMismatch`
/// names the first disagreeing shared table in declared order and the first
/// failing check within it; `DuplicatePrimaryKey` names the first table (in
/// declared order, previous snapshot before current) repeating a key, with
/// the first repeated value.
pub open spec fn diff_err_spec(p: Seq<TableModel>, c: Seq<TableModel>, e: DiffError) -> bool {
    match e {
        DiffError::TableSetMismatch { missing, extra } => {
            &&& !same_name_sets(p, c)
            &&& row_model(missing) == absent_names(p, c, p.len() as int)
            &&& row_model(extra) == absent_names(c, p, c.len() as int)
        },
        DiffError::StructureMismatch { table, part } => {
            &&& same_name_sets(p, c)
            &&& exists|i: int|
                {
                    &&& 0 <= i < p.len()
                    &&& table@ == (#[trigger] p[i]).name
                    &&& !structure_eq(p[i], tbl_named(c, p[i].name))
                    &&& part == mismatch_part(p[i], tbl_named(c, p[i].name))
                    &&& forall|x: int|
                        0 <= x < i ==> structure_eq(#[trigger] p[x], tbl_named(c, p[x].name))
                }
        },
        DiffError::DuplicatePrimaryKey { table, value } => {
            &&& same_name_sets(p, c)
            &&& forall|x: int|
                0 <= x < p.len() ==> structure_eq(#[trigger] p[x], tbl_named(c, p[x].name))
            &&& exists|i: int|
                {
                    &&& 0 <= i < p.len()
                    &&& table@ == (#[trigger] p[i]).name
                    &&& pair_dup(p[i], tbl_named(c, p[i].name)) == Some(value@)
                    &&& forall|x: int|
                        0 <= x < i ==> pair_dup(
                            #[trigger] p[x],
                            tbl_named(c, p[x].name),
                        ) is None
                }
        },
    }
}

/// The index of the table of `c` named `name`, when names are unique and the
/// name occurs.
fn matched_index(c: &FixtureSnapshot, name: &String) -> (j: usize)
    requires
        distinct_seq(names_of(c@)),
        name_in(c@, name@),
    ensures
        j < c@.len(),
        c@[j as int].name == name@,
        tbl_named(c@, name@) == c@[j as int],
{
    match find_table(c, name) {
        Some(j) => {
            proof {
                let ji = name_idx(c@, name@);
                assert(0 <= ji < c@.len() && c@[ji].name == name@);
                if ji != j as int {
                    assert(names_of(c@)[ji] == c@[ji].name);
                    assert(names_of(c@)[j as int] == c@[j as int].name);
                    assert(false);
                }
            }
            j
        },
        None => {
            proof {
                let w = choose|x: int| 0 <= x < c@.len() && (#[trigger] c@[x]).name == name@;
                assert(false);
            }
            0
        },
    }
}

proof fn lemma_keys_ok(t: TableModel)
    requires
        wf_table(t),
        table_dup(t) is None,
    ensures
        keys_ok(t),
{
    match t.primary_key {
        Some(pk) => {
            lemma_no_dup_unique(t.rows, col_index(t.columns, pk), t.rows.len() as int);
        },
        None => {},
    }
}

/// Computes the ordered fixture transforming `previous`'s data into
/// `current`'s, or fails fast on the first structural disagreement: unequal
/// table-name sets, then per-table structure in declared order, then
/// repeated primary keys (previous side first per table). On success the
/// fixture holds all deletes (dependents before parents), then all updates,
/// then all inserts (parents before dependents), and no partial result ever
/// escapes.
pub fn diff(previous: &FixtureSnapshot, current: &FixtureSnapshot) -> (res: Result<
    Fixture,
    DiffError,
>)
    requires
        previous.wf(),
        current.wf(),
    ensures
        match res {
            Ok(f) => diffable(previous@, current@) && diff_ok(
                previous@,
                current@,
                f@,
                f.cyclic,
            ),
            Err(e) => diff_err_spec(previous@, current@, e),
        },
{
    let ghost p = previous@;
    let ghost c = current@;
    let n = previous.tables.len();

    // table-name sets must coincide
    let missing = absent_from(previous, current);
    let extra = absent_from(current, previous);
    if missing.len() > 0 || extra.len() > 0 {
        proof {
            lemma_absent_empty(p, c, p.len() as int);
            lemma_absent_empty(c, p, c.len() as int);
            assert(row_model(missing).len() == missing@.len());
            assert(row_model(extra).len() == extra@.len());
        }
        return Err(DiffError::TableSetMismatch { missing, extra });
    }
    proof {
        lemma_absent_empty(p, c, p.len() as int);
        lemma_absent_empty(c, p, c.len() as int);
        assert(row_model(missing).len() == missing@.len());
        assert(row_model(extra).len() == extra@.len());
        assert(same_name_sets(p, c));
    }

    // every shared table must agree in structure
    match check_structures(previous, current) {
        Ok(()) => {},
        Err(e) => {
            return Err(e);
        },
    }

    // primary keys must be unique on both sides
    let mut i: usize = 0;
    while i < n
        invariant
            previous.wf(),
            current.wf(),
            same_name_sets(p, c),
            p == previous@,
            c == current@,
            n == p.len(),
            i <= n,
            forall|x: int|
                0 <= x < p.len() ==> structure_eq(#[trigger] p[x], tbl_named(c, p[x].name)),
            forall|x: int|
                0 <= x < i ==> pair_dup(#[trigger] p[x], tbl_named(c, p[x].name)) is None,
        decreases n - i,
    {
        proof {
            assert(p[i as int] == previous.tables@[i as int]@);
            assert(name_in(c, p[i as int].name));
        }
        let j = matched_index(current, &previous.tables[i].name);
        proof {
            assert(c[j as int] == current.tables@[j as int]@);
        }
        match table_first_dup(&previous.tables[i]) {
            Some(v) => {
                return Err(DiffError::DuplicatePrimaryKey {
                    table: previous.tables[i].name.clone(),
                    value: v,
                });
            },
            None => {},
        }
        match table_first_dup(&current.tables[j]) {
            Some(v) => {
                proof {
                    assert(pair_dup(p[i as int], tbl_named(c, p[i as int].name)) == Some(v@));
                }
                return Err(DiffError::DuplicatePrimaryKey {
                    table: previous.tables[i].name.clone(),
                    value: v,
                });
            },
            None => {},
        }
        proof {
            assert(pair_dup(p[i as int], tbl_named(c, p[i as int].name)) is None);
        }
        i += 1;
    }

    // order the tables: parents before dependents
    let (iord, cyclic) = crate::order::insert_order(previous);
    let ghost iom = ord_model(iord);
    let mut rord: Vec<usize> = Vec::new();
    let mut t: usize = 0;
    while t < n
        invariant
            n == iord@.len(),
            t <= n,
            rord@.len() == t,
            forall|x: int| 0 <= x < t ==> rord@[x] == iord@[n - 1 - x],
        decreases n - t,
    {
        rord.push(iord[n - 1 - t]);
        t += 1;
    }
    let ghost rom = ord_model(rord);
    proof {
        assert(iom.len() == n);
        assert forall|x: int| 0 <= x < n implies rom[x] == iom.reverse()[x] by {
            assert(rom[x] == iord@[n - 1 - x] as int);
        }
        assert(rom =~= iom.reverse());
        assert forall|x: int| 0 <= x < n implies 0 <= #[trigger] rom[x] < n by {
            assert(rom[x] == iom.reverse()[x]);
        }
    }

    let mut ops: Vec<FixtureOp> = Vec::new();

    // deletes, dependents before parents
    let mut t: usize = 0;
    while t < n
        invariant
            previous.wf(),
            current.wf(),
            same_name_sets(p, c),
            p == previous@,
            c == current@,
            n == p.len(),
            t <= n,
            rord@.len() == n,
            rom == ord_model(rord),
            forall|x: int| 0 <= x < n ==> 0 <= #[trigger] rom[x] < n,
            forall|x: int|
                0 <= x < p.len() ==> structure_eq(#[trigger] p[x], tbl_named(c, p[x].name)),
            ops_model(ops) == dels_upto(p, c, rom, t as int),
        decreases n - t,
    {
        let idx = rord[t];
        proof {
            assert(rom[t as int] == idx as int);
            assert(p[idx as int] == previous.tables@[idx as int]@);
            assert(name_in(c, p[idx as int].name));
        }
        let j = matched_index(current, &previous.tables[idx].name);
        let ghost before = ops_model(ops);
        proof {
            assert(c[j as int] == current.tables@[j as int]@);
            assert(structure_eq(p[idx as int], c[j as int]));
            assert(aligned(previous.tables@[idx as int]@, current.tables@[j as int]@));
        }
        gen_table_dels(&previous.tables[idx], &current.tables[j], &mut ops);
        proof {
            assert(ops_model(ops) == before + table_del_ops(p[idx as int], c[j as int]));
            assert(ops_model(ops) == dels_upto(p, c, rom, t + 1));
        }
        t += 1;
    }
    let ghost dels_full = ops_model(ops);
    proof {
        assert(dels_full == dels_upto(p, c, rom, n as int));
    }

    // updates, in declared order
    let mut t: usize = 0;
    while t < n
        invariant
            previous.wf(),
            current.wf(),
            same_name_sets(p, c),
            p == previous@,
            c == current@,
            n == p.len(),
            t <= n,
            forall|x: int|
                0 <= x < p.len() ==> structure_eq(#[trigger] p[x], tbl_named(c, p[x].name)),
            forall|x: int|
                0 <= x < p.len() ==> pair_dup(#[trigger] p[x], tbl_named(c, p[x].name)) is None,
            ops_model(ops) == dels_full + upds_upto(p, c, t as int),
        decreases n - t,
    {
        proof {
            assert(p[t as int] == previous.tables@[t as int]@);
            assert(name_in(c, p[t as int].name));
        }
        let j = matched_index(current, &previous.tables[t].name);
        let ghost before = ops_model(ops);
        proof {
            assert(c[j as int] == current.tables@[j as int]@);
            assert(structure_eq(p[t as int], c[j as int]));
            assert(aligned(previous.tables@[t as int]@, current.tables@[j as int]@));
            assert(pair_dup(p[t as int], tbl_named(c, p[t as int].name)) is None);
            assert(table_dup(p[t as int]) is None);
            lemma_keys_ok(p[t as int]);
        }
        gen_table_upds(&previous.tables[t], &current.tables[j], &mut ops);
        proof {
            assert(ops_model(ops) == before + table_upd_ops(p[t as int], c[j as int]));
            assert(ops_model(ops) == dels_full + upds_upto(p, c, t + 1));
        }
        t += 1;
    }
    let ghost upds_full = ops_model(ops);

    // inserts, parents before dependents
    let mut t: usize = 0;
    while t < n
        invariant
            previous.wf(),
            current.wf(),
            same_name_sets(p, c),
            p == previous@,
            c == current@,
            n == p.len(),
            t <= n,
            iord@.len() == n,
            iom == ord_model(iord),
            is_table_order(p, iom),
            forall|x: int|
                0 <= x < p.len() ==> structure_eq(#[trigger] p[x], tbl_named(c, p[x].name)),
            ops_model(ops) == upds_full + inss_upto(p, c, iom, t as int),
        decreases n - t,
    {
        let idx = iord[t];
        proof {
            assert(iom[t as int] == idx as int);
            assert(0 <= iom[t as int] < n);
            assert(p[idx as int] == previous.tables@[idx as int]@);
            assert(name_in(c, p[idx as int].name));
        }
        let j = matched_index(current, &previous.tables[idx].name);
        let ghost before = ops_model(ops);
        proof {
            assert(c[j as int] == current.tables@[j as int]@);
            assert(structure_eq(p[idx as int], c[j as int]));
            assert(aligned(previous.tables@[idx as int]@, current.tables@[j as int]@));
        }
        gen_table_inss(&previous.tables[idx], &current.tables[j], &mut ops);
        proof {
            assert(ops_model(ops) == before + table_ins_ops(p[idx as int], c[j as int]));
            assert(ops_model(ops) == upds_full + inss_upto(p, c, iom, t + 1));
        }
        t += 1;
    }

    let f = Fixture { ops, cyclic };
    proof {
        assert(f@ == upds_full + inss_upto(p, c, iom, n as int));
        assert(upds_full == dels_upto(p, c, iom.reverse(), n as int) + upds_upto(
            p,
            c,
            n as int,
        ));
        assert(f@ =~= assembled(p, c, iom));
        assert(is_table_order(p, iom));
        assert(diff_ok(p, c, f@, f.cyclic));
        assert(diffable(p, c));
    }
    Ok(f)
}


impl FixtureSnapshot {
    /// Computes the fixture that transforms `previous`'s data into this
    /// snapshot's, wrapping any structural failure in a [`FixtureError`].
    pub fn fixture(&self, previous: &FixtureSnapshot) -> (res: Result<Fixture, FixtureError>)
        requires
            self.wf(),
            previous.wf(),
        ensures
            match res {
                Ok(f) => diffable(previous@, self@) && diff_ok(previous@, self@, f@, f.cyclic),
                Err(fe) => diff_err_spec(previous@, self@, fe.0),
            },
    {
        match diff(previous, self) {
            Ok(f) => Ok(f),
            Err(e) => Err(FixtureError(e)),
        }
    }
}

} // verus!
