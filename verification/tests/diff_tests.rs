use fixture_diff::model::{DiffError, FixtureOp, FixtureSnapshot, ForeignKey, StructurePart, Table};
use fixture_diff::diff::diff;

fn s(v: &str) -> String {
    v.to_string()
}

fn strs(vs: &[&str]) -> Vec<String> {
    vs.iter().map(|v| v.to_string()).collect()
}

fn rows(rs: &[&[&str]]) -> Vec<Vec<String>> {
    rs.iter().map(|r| strs(r)).collect()
}

fn keyed_table(name: &str, columns: &[&str], pk: &str, data: &[&[&str]]) -> Table {
    Table {
        name: s(name),
        columns: strs(columns),
        rows: rows(data),
        primary_key: Some(s(pk)),
        foreign_keys: Vec::new(),
    }
}

fn keyless_table(name: &str, columns: &[&str], data: &[&[&str]]) -> Table {
    Table {
        name: s(name),
        columns: strs(columns),
        rows: rows(data),
        primary_key: None,
        foreign_keys: Vec::new(),
    }
}

fn fk(column: &str, ref_table: &str, ref_column: &str) -> ForeignKey {
    ForeignKey { column: s(column), ref_table: s(ref_table), ref_column: s(ref_column) }
}

fn snapshot(tables: Vec<Table>) -> FixtureSnapshot {
    FixtureSnapshot { tables }
}

fn pairs(ps: &[(&str, &str)]) -> Vec<(String, String)> {
    ps.iter().map(|(a, b)| (s(a), s(b))).collect()
}

#[test]
fn keyed_delete_update_insert() {
    let prev = snapshot(vec![keyed_table(
        "users",
        &["id", "name"],
        "id",
        &[&["1", "Alice"], &["2", "Bob"]],
    )]);
    let curr = snapshot(vec![keyed_table(
        "users",
        &["id", "name"],
        "id",
        &[&["1", "Alicia"], &["3", "Carol"]],
    )]);
    let f = diff(&prev, &curr).unwrap();
    assert_eq!(f.ops.len(), 3);
    match &f.ops[0] {
        FixtureOp::Delete { table, cond } => {
            assert_eq!(table, "users");
            assert_eq!(*cond, pairs(&[("id", "2")]));
        }
        _ => panic!("expected a delete first"),
    }
    match &f.ops[1] {
        FixtureOp::Update { table, set, cond } => {
            assert_eq!(table, "users");
            assert_eq!(*set, pairs(&[("name", "Alicia")]));
            assert_eq!(*cond, pairs(&[("id", "1")]));
        }
        _ => panic!("expected an update second"),
    }
    match &f.ops[2] {
        FixtureOp::Insert { table, columns, rows } => {
            assert_eq!(table, "users");
            assert_eq!(*columns, strs(&["id", "name"]));
            assert_eq!(*rows, vec![strs(&["3", "Carol"])]);
        }
        _ => panic!("expected an insert last"),
    }
    assert!(!f.cyclic);
}

#[test]
fn fk_parent_inserted_before_child() {
    let accounts_prev = keyed_table("accounts", &["id", "name"], "id", &[]);
    let mut orders_prev = keyed_table("orders", &["id", "account_id", "total"], "id", &[]);
    orders_prev.foreign_keys = vec![fk("account_id", "accounts", "id")];
    let accounts_curr = keyed_table("accounts", &["id", "name"], "id", &[&["1", "Acme"]]);
    let mut orders_curr =
        keyed_table("orders", &["id", "account_id", "total"], "id", &[&["10", "1", "5.00"]]);
    orders_curr.foreign_keys = vec![fk("account_id", "accounts", "id")];
    // list the child first so the ordering is the grapher's doing
    let prev = snapshot(vec![orders_prev, accounts_prev]);
    let curr = snapshot(vec![orders_curr, accounts_curr]);
    let f = diff(&prev, &curr).unwrap();
    assert!(!f.cyclic);
    let tables: Vec<String> = f
        .ops
        .iter()
        .map(|op| match op {
            FixtureOp::Insert { table, .. } => table.clone(),
            _ => panic!("expected only inserts"),
        })
        .collect();
    assert_eq!(tables, strs(&["accounts", "orders"]));
}

#[test]
fn fk_child_deleted_before_parent() {
    let accounts_prev = keyed_table("accounts", &["id", "name"], "id", &[&["1", "Acme"]]);
    let mut orders_prev =
        keyed_table("orders", &["id", "account_id", "total"], "id", &[&["10", "1", "5.00"]]);
    orders_prev.foreign_keys = vec![fk("account_id", "accounts", "id")];
    let accounts_curr = keyed_table("accounts", &["id", "name"], "id", &[]);
    let mut orders_curr = keyed_table("orders", &["id", "account_id", "total"], "id", &[]);
    orders_curr.foreign_keys = vec![fk("account_id", "accounts", "id")];
    let prev = snapshot(vec![accounts_prev, orders_prev]);
    let curr = snapshot(vec![accounts_curr, orders_curr]);
    let f = diff(&prev, &curr).unwrap();
    let tables: Vec<String> = f
        .ops
        .iter()
        .map(|op| match op {
            FixtureOp::Delete { table, .. } => table.clone(),
            _ => panic!("expected only deletes"),
        })
        .collect();
    assert_eq!(tables, strs(&["orders", "accounts"]));
}

#[test]
fn added_column_is_structure_mismatch() {
    let prev = snapshot(vec![keyless_table("t", &["a", "b"], &[])]);
    let curr = snapshot(vec![keyless_table("t", &["a", "b", "c"], &[])]);
    match diff(&prev, &curr) {
        Err(DiffError::StructureMismatch { table, part }) => {
            assert_eq!(table, "t");
            assert!(matches!(part, StructurePart::Columns));
        }
        _ => panic!("expected a structure mismatch"),
    }
}

#[test]
fn keyless_multiset_diff() {
    let prev = snapshot(vec![keyless_table("tags", &["tag"], &[&["x"], &["x"], &["y"]])]);
    let curr = snapshot(vec![keyless_table("tags", &["tag"], &[&["x"], &["y"], &["y"]])]);
    let f = diff(&prev, &curr).unwrap();
    assert_eq!(f.ops.len(), 2);
    match &f.ops[0] {
        FixtureOp::Delete { table, cond } => {
            assert_eq!(table, "tags");
            assert_eq!(*cond, pairs(&[("tag", "x")]));
        }
        _ => panic!("expected one delete for the lost duplicate"),
    }
    match &f.ops[1] {
        FixtureOp::Insert { table, columns, rows } => {
            assert_eq!(table, "tags");
            assert_eq!(*columns, strs(&["tag"]));
            assert_eq!(*rows, vec![strs(&["y"])]);
        }
        _ => panic!("expected one insert for the gained duplicate"),
    }
}

#[test]
fn missing_table_is_table_set_mismatch() {
    let prev = snapshot(vec![
        keyless_table("extra", &["a"], &[]),
        keyless_table("t", &["a"], &[]),
    ]);
    let curr = snapshot(vec![keyless_table("t", &["a"], &[])]);
    match diff(&prev, &curr) {
        Err(DiffError::TableSetMismatch { missing, extra }) => {
            assert_eq!(missing, strs(&["extra"]));
            assert_eq!(extra, Vec::<String>::new());
        }
        _ => panic!("expected a table-set mismatch"),
    }
}

#[test]
fn diff_of_snapshot_with_itself_is_empty() {
    let make = || {
        snapshot(vec![
            keyed_table("users", &["id", "name"], "id", &[&["1", "Alice"], &["2", "Bob"]]),
            keyless_table("tags", &["tag"], &[&["x"], &["x"]]),
        ])
    };
    let f = diff(&make(), &make()).unwrap();
    assert_eq!(f.ops.len(), 0);
}

#[test]
fn unchanged_rows_are_invisible() {
    let prev = snapshot(vec![keyed_table(
        "users",
        &["id", "name"],
        "id",
        &[&["1", "Alice"], &["2", "Bob"], &["3", "Eve"]],
    )]);
    let curr = snapshot(vec![keyed_table(
        "users",
        &["id", "name"],
        "id",
        &[&["1", "Alice"], &["2", "Robert"], &["3", "Eve"]],
    )]);
    let f = diff(&prev, &curr).unwrap();
    assert_eq!(f.ops.len(), 1);
    match &f.ops[0] {
        FixtureOp::Update { set, cond, .. } => {
            assert_eq!(*set, pairs(&[("name", "Robert")]));
            assert_eq!(*cond, pairs(&[("id", "2")]));
        }
        _ => panic!("only the changed row may surface"),
    }
}

#[test]
fn duplicate_primary_key_is_rejected() {
    let prev = snapshot(vec![keyed_table(
        "users",
        &["id", "name"],
        "id",
        &[&["1", "Alice"], &["1", "Bob"]],
    )]);
    let curr = snapshot(vec![keyed_table("users", &["id", "name"], "id", &[])]);
    match diff(&prev, &curr) {
        Err(DiffError::DuplicatePrimaryKey { table, value }) => {
            assert_eq!(table, "users");
            assert_eq!(value, "1");
        }
        _ => panic!("expected a duplicate-key error"),
    }
}

#[test]
fn duplicate_key_in_current_side_is_rejected_too() {
    let prev = snapshot(vec![keyed_table("users", &["id"], "id", &[])]);
    let curr = snapshot(vec![keyed_table("users", &["id"], "id", &[&["7"], &["7"]])]);
    match diff(&prev, &curr) {
        Err(DiffError::DuplicatePrimaryKey { table, value }) => {
            assert_eq!(table, "users");
            assert_eq!(value, "7");
        }
        _ => panic!("expected a duplicate-key error"),
    }
}

#[test]
fn changed_primary_key_is_structure_mismatch() {
    let prev = snapshot(vec![keyed_table("t", &["a", "b"], "a", &[])]);
    let curr = snapshot(vec![keyed_table("t", &["a", "b"], "b", &[])]);
    match diff(&prev, &curr) {
        Err(DiffError::StructureMismatch { table, part }) => {
            assert_eq!(table, "t");
            assert!(matches!(part, StructurePart::PrimaryKey));
        }
        _ => panic!("expected a structure mismatch"),
    }
}

#[test]
fn changed_foreign_keys_are_structure_mismatch() {
    let mut a = keyed_table("orders", &["id", "aid"], "id", &[]);
    a.foreign_keys = vec![fk("aid", "accounts", "id")];
    let b = keyed_table("orders", &["id", "aid"], "id", &[]);
    let prev = snapshot(vec![a]);
    let curr = snapshot(vec![b]);
    match diff(&prev, &curr) {
        Err(DiffError::StructureMismatch { table, part }) => {
            assert_eq!(table, "orders");
            assert!(matches!(part, StructurePart::ForeignKeys));
        }
        _ => panic!("expected a structure mismatch"),
    }
}

#[test]
fn foreign_key_order_is_ignored() {
    let mk = |fks: Vec<ForeignKey>| {
        let mut t = keyed_table("orders", &["id", "aid", "bid"], "id", &[]);
        t.foreign_keys = fks;
        snapshot(vec![t])
    };
    let prev = mk(vec![fk("aid", "accounts", "id"), fk("bid", "batches", "id")]);
    let curr = mk(vec![fk("bid", "batches", "id"), fk("aid", "accounts", "id")]);
    let f = diff(&prev, &curr).unwrap();
    assert_eq!(f.ops.len(), 0);
}

#[test]
fn cyclic_foreign_keys_fall_back_and_flag() {
    let mut a = keyed_table("a", &["id", "bref"], "id", &[]);
    a.foreign_keys = vec![fk("bref", "b", "id")];
    let mut b = keyed_table("b", &["id", "aref"], "id", &[]);
    b.foreign_keys = vec![fk("aref", "a", "id")];
    let prev = snapshot(vec![a, b]);
    let mut a2 = keyed_table("a", &["id", "bref"], "id", &[&["1", "1"]]);
    a2.foreign_keys = vec![fk("bref", "b", "id")];
    let mut b2 = keyed_table("b", &["id", "aref"], "id", &[&["1", "1"]]);
    b2.foreign_keys = vec![fk("aref", "a", "id")];
    let curr = snapshot(vec![a2, b2]);
    let f = diff(&prev, &curr).unwrap();
    assert!(f.cyclic);
    assert_eq!(f.ops.len(), 2);
}

#[test]
fn insert_order_is_topological() {
    let parent = keyed_table("p", &["id"], "id", &[]);
    let mut child = keyed_table("c", &["id", "pid"], "id", &[]);
    child.foreign_keys = vec![fk("pid", "p", "id")];
    let snap = snapshot(vec![child, parent]);
    let (ord, cyclic) = fixture_diff::order::insert_order(&snap);
    assert!(!cyclic);
    assert_eq!(ord, vec![1, 0]); // the parent, declared second, comes first
    let (dord, dcyclic) = fixture_diff::order::delete_order(&snap);
    assert!(!dcyclic);
    assert_eq!(dord, vec![0, 1]);
}

#[test]
fn fixture_method_wraps_errors() {
    let prev = snapshot(vec![keyless_table("only_prev", &["a"], &[])]);
    let curr = snapshot(vec![keyless_table("only_curr", &["a"], &[])]);
    match curr.fixture(&prev) {
        Err(e) => match e.0 {
            DiffError::TableSetMismatch { missing, extra } => {
                assert_eq!(missing, strs(&["only_prev"]));
                assert_eq!(extra, strs(&["only_curr"]));
            }
            _ => panic!("expected a table-set mismatch"),
        },
        Ok(_) => panic!("expected an error"),
    }
}

#[test]
fn fixture_method_diffs_against_previous() {
    let prev = snapshot(vec![keyed_table("users", &["id"], "id", &[])]);
    let curr = snapshot(vec![keyed_table("users", &["id"], "id", &[&["1"]])]);
    let f = curr.fixture(&prev).unwrap();
    assert_eq!(f.ops.len(), 1);
    assert!(matches!(&f.ops[0], FixtureOp::Insert { .. }));
}

#[test]
fn empty_snapshots_diff_to_nothing() {
    let f = diff(&snapshot(vec![]), &snapshot(vec![])).unwrap();
    assert_eq!(f.ops.len(), 0);
    assert!(!f.cyclic);
}

#[test]
fn update_sets_only_changed_columns() {
    let prev = snapshot(vec![keyed_table(
        "users",
        &["id", "name", "city"],
        "id",
        &[&["1", "Alice", "Rome"]],
    )]);
    let curr = snapshot(vec![keyed_table(
        "users",
        &["id", "name", "city"],
        "id",
        &[&["1", "Alice", "Pisa"]],
    )]);
    let f = diff(&prev, &curr).unwrap();
    assert_eq!(f.ops.len(), 1);
    match &f.ops[0] {
        FixtureOp::Update { set, cond, .. } => {
            assert_eq!(*set, pairs(&[("city", "Pisa")]));
            assert_eq!(*cond, pairs(&[("id", "1")]));
        }
        _ => panic!("expected an update"),
    }
}

#[test]
fn keyless_delete_conditions_on_every_column() {
    let prev = snapshot(vec![keyless_table("pairs", &["a", "b"], &[&["1", "2"]])]);
    let curr = snapshot(vec![keyless_table("pairs", &["a", "b"], &[])]);
    let f = diff(&prev, &curr).unwrap();
    assert_eq!(f.ops.len(), 1);
    match &f.ops[0] {
        FixtureOp::Delete { cond, .. } => {
            assert_eq!(*cond, pairs(&[("a", "1"), ("b", "2")]));
        }
        _ => panic!("expected a delete"),
    }
}
