//! Value types for captured database state and for the fixtures produced by
//! diffing two captures.
//!
//! Every cell is held in its canonical textual representation; equality of
//! values is exact string equality. The mathematical model of each type is a
//! nest of sequences of characters, reached through `View`.

use vstd::prelude::*;

verus! {

/// One declared foreign key: `column` of the owning table references
/// `ref_column` of table `ref_table`.
#[derive(Debug)]
pub struct ForeignKey {
    pub column: String,
    pub ref_table: String,
    pub ref_column: String,
}

/// Mathematical model of a [`ForeignKey`].
pub struct FkModel {
    pub column: Seq<char>,
    pub ref_table: Seq<char>,
    pub ref_column: Seq<char>,
}

impl View for ForeignKey {
    type V = FkModel;

    open spec fn view(&self) -> FkModel {
        FkModel {
            column: self.column@,
            ref_table: self.ref_table@,
            ref_column: self.ref_column@,
        }
    }
}

/// One captured table: ordered column names, rows positionally aligned to the
/// columns, an optional single-column primary key, and foreign keys.
#[derive(Debug)]
pub struct Table {
    pub name: String,
    pub columns: Vec<String>,
    pub rows: Vec<Vec<String>>,
    pub primary_key: Option<String>,
    pub foreign_keys: Vec<ForeignKey>,
}

/// Mathematical model of a [`Table`].
pub struct TableModel {
    pub name: Seq<char>,
    pub columns: Seq<Seq<char>>,
    pub rows: Seq<Seq<Seq<char>>>,
    pub primary_key: Option<Seq<char>>,
    pub foreign_keys: Seq<FkModel>,
}

/// Model of one row, or of any list of names: the strings as sequences of
/// characters, in order.
pub open spec fn row_model(r: Vec<String>) -> Seq<Seq<char>> {
    r@.map_values(|s: String| s@)
}

/// Model of a list of rows.
pub open spec fn rows_model(rs: Vec<Vec<String>>) -> Seq<Seq<Seq<char>>> {
    rs@.map_values(|r: Vec<String>| row_model(r))
}

/// Model of an optional column name.
pub open spec fn opt_model(o: Option<String>) -> Option<Seq<char>> {
    match o {
        Some(s) => Some(s@),
        None => None,
    }
}

/// Model of a foreign-key list.
pub open spec fn fks_model(fs: Vec<ForeignKey>) -> Seq<FkModel> {
    fs@.map_values(|f: ForeignKey| f@)
}

impl View for Table {
    type V = TableModel;

    open spec fn view(&self) -> TableModel {
        TableModel {
            name: self.name@,
            columns: row_model(self.columns),
            rows: rows_model(self.rows),
            primary_key: opt_model(self.primary_key),
            foreign_keys: fks_model(self.foreign_keys),
        }
    }
}

/// Immutable captured state of a set of tables at one instant, listed in the
/// deterministic order the capture produced (for example lexicographic).
#[derive(Debug)]
pub struct FixtureSnapshot {
    pub tables: Vec<Table>,
}

impl View for FixtureSnapshot {
    type V = Seq<TableModel>;

    open spec fn view(&self) -> Seq<TableModel> {
        self.tables@.map_values(|t: Table| t@)
    }
}

/// One replayable row mutation. `Update` and `Delete` carry column/value
/// pairs as association lists, in column order, since the order of an
/// insertion-ordered mapping is significant here.
#[derive(Debug)]
pub enum FixtureOp {
    Truncate { table: String },
    Insert { table: String, columns: Vec<String>, rows: Vec<Vec<String>> },
    Update { table: String, set: Vec<(String, String)>, cond: Vec<(String, String)> },
    Delete { table: String, cond: Vec<(String, String)> },
}

/// Mathematical model of a [`FixtureOp`].
pub enum OpModel {
    Truncate { table: Seq<char> },
    Insert { table: Seq<char>, columns: Seq<Seq<char>>, rows: Seq<Seq<Seq<char>>> },
    Update {
        table: Seq<char>,
        set: Seq<(Seq<char>, Seq<char>)>,
        cond: Seq<(Seq<char>, Seq<char>)>,
    },
    Delete { table: Seq<char>, cond: Seq<(Seq<char>, Seq<char>)> },
}

/// Model of an association list of column/value pairs.
pub open spec fn pairs_model(ps: Vec<(String, String)>) -> Seq<(Seq<char>, Seq<char>)> {
    ps@.map_values(|p: (String, String)| (p.0@, p.1@))
}

impl View for FixtureOp {
    type V = OpModel;

    open spec fn view(&self) -> OpModel {
        match self {
            FixtureOp::Truncate { table } => OpModel::Truncate { table: table@ },
            FixtureOp::Insert { table, columns, rows } => OpModel::Insert {
                table: table@,
                columns: columns@.map_values(|s: String| s@),
                rows: rows@.map_values(|r: Vec<String>| row_model(r)),
            },
            FixtureOp::Update { table, set, cond } => OpModel::Update {
                table: table@,
                set: pairs_model(*set),
                cond: pairs_model(*cond),
            },
            FixtureOp::Delete { table, cond } => OpModel::Delete {
                table: table@,
                cond: pairs_model(*cond),
            },
        }
    }
}

/// Ordered, replayable sequence of row mutations. The order is semantically
/// significant and must be preserved through any encoding.
///
/// `cyclic` is a non-fatal diagnostic: it is set when the foreign-key graph
/// contained a cycle, so the table ordering fell back to declared snapshot
/// order for the cyclic part and replay needs deferred-constraint handling.
#[derive(Debug)]
pub struct Fixture {
    pub ops: Vec<FixtureOp>,
    pub cyclic: bool,
}

/// Model of an operation list.
pub open spec fn ops_model(ops: Vec<FixtureOp>) -> Seq<OpModel> {
    ops@.map_values(|op: FixtureOp| op@)
}

impl View for Fixture {
    type V = Seq<OpModel>;

    open spec fn view(&self) -> Seq<OpModel> {
        ops_model(self.ops)
    }
}

/// Which part of a table's structure disagreed between two snapshots.
#[derive(Debug)]
pub enum StructurePart {
    Columns,
    PrimaryKey,
    ForeignKeys,
}

/// Why two snapshots could not be diffed. Every variant carries the offending
/// table/column/value so a caller can render a diagnostic directly.
#[derive(Debug)]
pub enum DiffError {
    /// The two snapshots do not cover the same set of table names.
    /// `missing` lists names present only in the previous snapshot,
    /// `extra` names present only in the current one.
    TableSetMismatch { missing: Vec<String>, extra: Vec<String> },
    /// A shared table differs in columns, primary key, or foreign keys.
    StructureMismatch { table: String, part: StructurePart },
    /// A snapshot repeats a primary-key value within one table.
    DuplicatePrimaryKey { table: String, value: String },
}

/// Failure to construct a fixture from two snapshots.
#[derive(Debug)]
pub struct FixtureError(pub DiffError);

// ---------------------------------------------------------------------------
// Well-formedness
// ---------------------------------------------------------------------------

/// No two elements of the sequence are equal.
pub open spec fn distinct_seq<A>(s: Seq<A>) -> bool {
    forall|i: int, j: int| 0 <= i < j < s.len() ==> s[i] != s[j]
}

/// A table is well formed: unique column names, every row as long as the
/// column list, the primary key (if any) one of the columns, and each foreign
/// key on a distinct declared column.
pub open spec fn wf_table(t: TableModel) -> bool {
    &&& distinct_seq(t.columns)
    &&& forall|i: int| 0 <= i < t.rows.len() ==> (#[trigger] t.rows[i]).len() == t.columns.len()
    &&& match t.primary_key {
        Some(pk) => t.columns.contains(pk),
        None => true,
    }
    &&& forall|i: int|
        0 <= i < t.foreign_keys.len() ==> t.columns.contains(
            (#[trigger] t.foreign_keys[i]).column,
        )
    &&& distinct_seq(t.foreign_keys.map_values(|f: FkModel| f.column))
}

/// The table names of a snapshot, in declared order.
pub open spec fn names_of(s: Seq<TableModel>) -> Seq<Seq<char>> {
    s.map_values(|t: TableModel| t.name)
}

/// A snapshot is well formed: unique table names and each table well formed.
pub open spec fn wf_snapshot(s: Seq<TableModel>) -> bool {
    &&& distinct_seq(names_of(s))
    &&& forall|i: int| 0 <= i < s.len() ==> wf_table(#[trigger] s[i])
}

impl FixtureSnapshot {
    /// Well-formedness of the captured value.
    pub open spec fn wf(&self) -> bool {
        wf_snapshot(self@)
    }
}

} // verus!
