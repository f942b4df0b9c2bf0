//! Library-wide laws, stated and proved over the diff engine's
//! specification: reflexivity of diffing, suppression of operations for
//! unchanged rows, and foreign-key-safe ordering of the produced fixture.

use vstd::prelude::*;
use vstd::multiset::Multiset;
use crate::model::{DiffError, OpModel, TableModel, distinct_seq, names_of, wf_snapshot, wf_table};
use crate::order::{edge, is_table_order, parents_first};
use crate::diff::{
    assembled, changed_pairs, col_index, count_upto, pair_all, dels_upto, diff_err_spec, diff_ok,
    diffable, fk_in, fks_eq, has_key, inss_upto, key_row, keyed_del_ops, keyed_ins_rows,
    keyed_upd_ops, keyless_del_ops, keyless_ins_rows, name_idx, name_in, pair_dup,
    structure_eq, table_del_ops, table_dup, table_ins_ops, table_ins_rows,
    table_upd_ops, tbl_named, unique_keys, upds_upto,
};

verus! {

/// A snapshot is valid for diffing when it is well formed and no keyed table
/// repeats a primary-key value.
pub open spec fn valid_snapshot(s: Seq<TableModel>) -> bool {
    &&& wf_snapshot(s)
    &&& forall|i: int| 0 <= i < s.len() ==> table_dup(#[trigger] s[i]) is None
}

proof fn lemma_count_mono(rows: Seq<Seq<Seq<char>>>, r: Seq<Seq<char>>, a: int, b: int)
    requires
        a <= b,
    ensures
        count_upto(rows, r, a) <= count_upto(rows, r, b),
    decreases b - a,
{
    if b > a {
        lemma_count_mono(rows, r, a, b - 1);
    }
}

proof fn lemma_keyed_del_refl(
    tn: Seq<char>,
    pk: Seq<char>,
    k: int,
    rows: Seq<Seq<Seq<char>>>,
    upto: int,
)
    requires
        upto <= rows.len(),
    ensures
        keyed_del_ops(tn, pk, k, rows, rows, upto) == Seq::<OpModel>::empty(),
    decreases upto,
{
    if upto > 0 {
        lemma_keyed_del_refl(tn, pk, k, rows, upto - 1);
        assert(has_key(rows, k, rows[upto - 1][k]));
        assert(keyed_del_ops(tn, pk, k, rows, rows, upto) =~= Seq::<OpModel>::empty());
    }
}

proof fn lemma_keyed_upd_refl(
    tn: Seq<char>,
    pk: Seq<char>,
    cols: Seq<Seq<char>>,
    k: int,
    rows: Seq<Seq<Seq<char>>>,
    upto: int,
)
    requires
        upto <= rows.len(),
        unique_keys(rows, k),
    ensures
        keyed_upd_ops(tn, pk, cols, k, rows, rows, upto) == Seq::<OpModel>::empty(),
    decreases upto,
{
    if upto > 0 {
        lemma_keyed_upd_refl(tn, pk, cols, k, rows, upto - 1);
        assert(has_key(rows, k, rows[upto - 1][k]));
        let ci = choose|i: int|
            0 <= i < rows.len() && (#[trigger] rows[i])[k] == rows[upto - 1][k];
        if ci != upto - 1 {
            assert(false);  // keys are unique
        }
        assert(key_row(rows, k, rows[upto - 1][k]) == rows[upto - 1]);
        assert(keyed_upd_ops(tn, pk, cols, k, rows, rows, upto) =~= Seq::<OpModel>::empty());
    }
}

proof fn lemma_keyed_ins_refl(k: int, rows: Seq<Seq<Seq<char>>>, upto: int)
    requires
        upto <= rows.len(),
    ensures
        keyed_ins_rows(k, rows, rows, upto) == Seq::<Seq<Seq<char>>>::empty(),
    decreases upto,
{
    if upto > 0 {
        lemma_keyed_ins_refl(k, rows, upto - 1);
        assert(has_key(rows, k, rows[upto - 1][k]));
        assert(keyed_ins_rows(k, rows, rows, upto) =~= Seq::<Seq<Seq<char>>>::empty());
    }
}

proof fn lemma_keyless_del_refl(
    tn: Seq<char>,
    cols: Seq<Seq<char>>,
    rows: Seq<Seq<Seq<char>>>,
    upto: int,
)
    requires
        upto <= rows.len(),
    ensures
        keyless_del_ops(tn, cols, rows, rows, upto) == Seq::<OpModel>::empty(),
    decreases upto,
{
    if upto > 0 {
        lemma_keyless_del_refl(tn, cols, rows, upto - 1);
        lemma_count_mono(rows, rows[upto - 1], upto, rows.len() as int);
        assert(keyless_del_ops(tn, cols, rows, rows, upto) =~= Seq::<OpModel>::empty());
    }
}

proof fn lemma_keyless_ins_refl(rows: Seq<Seq<Seq<char>>>, upto: int)
    requires
        upto <= rows.len(),
    ensures
        keyless_ins_rows(rows, rows, upto) == Seq::<Seq<Seq<char>>>::empty(),
    decreases upto,
{
    if upto > 0 {
        lemma_keyless_ins_refl(rows, upto - 1);
        lemma_count_mono(rows, rows[upto - 1], upto, rows.len() as int);
        assert(keyless_ins_rows(rows, rows, upto) =~= Seq::<Seq<Seq<char>>>::empty());
    }
}

proof fn lemma_table_refl(t: TableModel)
    requires
        wf_table(t),
        table_dup(t) is None,
    ensures
        table_del_ops(t, t) == Seq::<OpModel>::empty(),
        table_upd_ops(t, t) == Seq::<OpModel>::empty(),
        table_ins_ops(t, t) == Seq::<OpModel>::empty(),
{
    match t.primary_key {
        Some(pk) => {
            let k = col_index(t.columns, pk);
            crate::diff::lemma_unique_from_no_dup(t.rows, k);
            lemma_keyed_del_refl(t.name, pk, k, t.rows, t.rows.len() as int);
            lemma_keyed_upd_refl(t.name, pk, t.columns, k, t.rows, t.rows.len() as int);
            lemma_keyed_ins_refl(k, t.rows, t.rows.len() as int);
        },
        None => {
            lemma_keyless_del_refl(t.name, t.columns, t.rows, t.rows.len() as int);
            lemma_keyless_ins_refl(t.rows, t.rows.len() as int);
        },
    }
}

/// With unique table names, looking a table up by its own name yields it.
proof fn lemma_tbl_named_self(s: Seq<TableModel>, i: int)
    requires
        distinct_seq(names_of(s)),
        0 <= i < s.len(),
    ensures
        name_in(s, s[i].name),
        tbl_named(s, s[i].name) == s[i],
{
    assert(name_in(s, s[i].name));
    let j = name_idx(s, s[i].name);
    assert(0 <= j < s.len() && s[j].name == s[i].name);
    if j != i {
        assert(names_of(s)[j] == s[j].name);
        assert(names_of(s)[i] == s[i].name);
        assert(false);
    }
}

/// Reflexivity: diffing a valid snapshot against itself yields no
/// operations, whatever table ordering the engine chose.
pub proof fn lemma_diff_reflexive(s: Seq<TableModel>, f: Seq<OpModel>, cyc: bool)
    requires
        valid_snapshot(s),
        diff_ok(s, s, f, cyc),
    ensures
        f == Seq::<OpModel>::empty(),
{
    let ord = choose|ord: Seq<int>|
        {
            &&& #[trigger] is_table_order(s, ord)
            &&& f == assembled(s, s, ord)
            &&& !cyc ==> parents_first(s, ord)
        };
    assert forall|i: int| 0 <= i < s.len() implies tbl_named(s, (#[trigger] s[i]).name)
        == s[i] by {
        lemma_tbl_named_self(s, i);
    }
    let rord = ord.reverse();
    assert forall|u: int| 0 <= u <= s.len() implies #[trigger] dels_upto(s, s, rord, u)
        =~= Seq::<OpModel>::empty() by {
        lemma_dels_refl(s, rord, u);
    }
    assert forall|u: int| 0 <= u <= s.len() implies #[trigger] upds_upto(s, s, u)
        =~= Seq::<OpModel>::empty() by {
        lemma_upds_refl(s, u);
    }
    assert forall|u: int| 0 <= u <= s.len() implies #[trigger] inss_upto(s, s, ord, u)
        =~= Seq::<OpModel>::empty() by {
        lemma_inss_refl(s, ord, u);
    }
    assert(f =~= Seq::<OpModel>::empty());
}

proof fn lemma_dels_refl(s: Seq<TableModel>, rord: Seq<int>, upto: int)
    requires
        valid_snapshot(s),
        forall|x: int| 0 <= x < rord.len() ==> 0 <= #[trigger] rord[x] < s.len(),
        upto <= rord.len(),
    ensures
        dels_upto(s, s, rord, upto) == Seq::<OpModel>::empty(),
    decreases upto,
{
    if upto > 0 {
        lemma_dels_refl(s, rord, upto - 1);
        let ti = rord[upto - 1];
        lemma_tbl_named_self(s, ti);
        lemma_table_refl(s[ti]);
        assert(dels_upto(s, s, rord, upto) =~= Seq::<OpModel>::empty());
    }
}

proof fn lemma_upds_refl(s: Seq<TableModel>, upto: int)
    requires
        valid_snapshot(s),
        upto <= s.len(),
    ensures
        upds_upto(s, s, upto) == Seq::<OpModel>::empty(),
    decreases upto,
{
    if upto > 0 {
        lemma_upds_refl(s, upto - 1);
        lemma_tbl_named_self(s, upto - 1);
        lemma_table_refl(s[upto - 1]);
        assert(upds_upto(s, s, upto) =~= Seq::<OpModel>::empty());
    }
}

proof fn lemma_inss_refl(s: Seq<TableModel>, ord: Seq<int>, upto: int)
    requires
        valid_snapshot(s),
        forall|x: int| 0 <= x < ord.len() ==> 0 <= #[trigger] ord[x] < s.len(),
        upto <= ord.len(),
    ensures
        inss_upto(s, s, ord, upto) == Seq::<OpModel>::empty(),
    decreases upto,
{
    if upto > 0 {
        lemma_inss_refl(s, ord, upto - 1);
        let ti = ord[upto - 1];
        lemma_tbl_named_self(s, ti);
        lemma_table_refl(s[ti]);
        assert(inss_upto(s, s, ord, upto) =~= Seq::<OpModel>::empty());
    }
}

/// A valid snapshot can always be diffed against itself: no error's
/// condition holds of the pair.
pub proof fn lemma_diff_self_succeeds(s: Seq<TableModel>)
    requires
        valid_snapshot(s),
    ensures
        forall|e: DiffError| !diff_err_spec(s, s, e),
        diffable(s, s),
{
    assert forall|i: int| 0 <= i < s.len() implies name_in(s, (#[trigger] s[i]).name) by {
        lemma_tbl_named_self(s, i);
    }
    assert forall|i: int| 0 <= i < s.len() implies structure_eq(
        #[trigger] s[i],
        tbl_named(s, s[i].name),
    ) by {
        lemma_tbl_named_self(s, i);
        assert(fks_eq(s[i].foreign_keys, s[i].foreign_keys)) by {
            assert forall|x: int| 0 <= x < s[i].foreign_keys.len() implies fk_in(
                s[i].foreign_keys,
                #[trigger] s[i].foreign_keys[x],
            ) by {}
        }
    }
    assert forall|i: int| 0 <= i < s.len() implies pair_dup(
        #[trigger] s[i],
        tbl_named(s, s[i].name),
    ) is None by {
        lemma_tbl_named_self(s, i);
    }
    assert forall|e: DiffError| !diff_err_spec(s, s, e) by {
        match e {
            DiffError::TableSetMismatch { .. } => {},
            DiffError::StructureMismatch { .. } => {},
            DiffError::DuplicatePrimaryKey { .. } => {},
        }
    }
}


// ---------------------------------------------------------------------------
// Shape of the assembled fixture
// ---------------------------------------------------------------------------

/// The table an operation addresses.
pub open spec fn op_table(op: OpModel) -> Seq<char> {
    match op {
        OpModel::Truncate { table } => table,
        OpModel::Insert { table, .. } => table,
        OpModel::Update { table, .. } => table,
        OpModel::Delete { table, .. } => table,
    }
}

/// The phase an operation belongs to: deletes and truncates run first,
/// updates second, inserts last.
pub open spec fn op_phase(op: OpModel) -> int {
    match op {
        OpModel::Truncate { .. } => 0,
        OpModel::Delete { .. } => 0,
        OpModel::Update { .. } => 1,
        OpModel::Insert { .. } => 2,
    }
}

/// Table named `a` declares a foreign key referencing table named `b`.
pub open spec fn edge_named(s: Seq<TableModel>, a: Seq<char>, b: Seq<char>) -> bool {
    exists|ti: int, tj: int|
        {
            &&& 0 <= ti < s.len()
            &&& 0 <= tj < s.len()
            &&& (#[trigger] s[ti]).name == a
            &&& (#[trigger] s[tj]).name == b
            &&& edge(s, ti, tj)
        }
}

proof fn lemma_keyed_del_shape(
    tn: Seq<char>,
    pk: Seq<char>,
    k: int,
    p: Seq<Seq<Seq<char>>>,
    c: Seq<Seq<Seq<char>>>,
    upto: int,
)
    ensures
        forall|oi: int|
            0 <= oi < keyed_del_ops(tn, pk, k, p, c, upto).len() ==> {
                let op = #[trigger] keyed_del_ops(tn, pk, k, p, c, upto)[oi];
                op is Delete && op_table(op) == tn
            },
    decreases upto,
{
    if upto > 0 {
        lemma_keyed_del_shape(tn, pk, k, p, c, upto - 1);
    }
}

proof fn lemma_keyless_del_shape(
    tn: Seq<char>,
    cols: Seq<Seq<char>>,
    p: Seq<Seq<Seq<char>>>,
    c: Seq<Seq<Seq<char>>>,
    upto: int,
)
    ensures
        forall|oi: int|
            0 <= oi < keyless_del_ops(tn, cols, p, c, upto).len() ==> {
                let op = #[trigger] keyless_del_ops(tn, cols, p, c, upto)[oi];
                op is Delete && op_table(op) == tn
            },
    decreases upto,
{
    if upto > 0 {
        lemma_keyless_del_shape(tn, cols, p, c, upto - 1);
    }
}

proof fn lemma_keyed_upd_shape(
    tn: Seq<char>,
    pk: Seq<char>,
    cols: Seq<Seq<char>>,
    k: int,
    p: Seq<Seq<Seq<char>>>,
    c: Seq<Seq<Seq<char>>>,
    upto: int,
)
    ensures
        forall|oi: int|
            0 <= oi < keyed_upd_ops(tn, pk, cols, k, p, c, upto).len() ==> {
                let op = #[trigger] keyed_upd_ops(tn, pk, cols, k, p, c, upto)[oi];
                op is Update && op_table(op) == tn
            },
    decreases upto,
{
    if upto > 0 {
        lemma_keyed_upd_shape(tn, pk, cols, k, p, c, upto - 1);
    }
}

/// Every delete one table pair contributes is a delete addressing it.
proof fn lemma_table_del_shape(pt: TableModel, ct: TableModel)
    ensures
        forall|oi: int|
            0 <= oi < table_del_ops(pt, ct).len() ==> {
                let op = #[trigger] table_del_ops(pt, ct)[oi];
                op is Delete && op_table(op) == pt.name
            },
{
    match pt.primary_key {
        Some(pk) => lemma_keyed_del_shape(
            pt.name,
            pk,
            col_index(pt.columns, pk),
            pt.rows,
            ct.rows,
            pt.rows.len() as int,
        ),
        None => lemma_keyless_del_shape(
            pt.name,
            pt.columns,
            pt.rows,
            ct.rows,
            pt.rows.len() as int,
        ),
    }
}

/// Every update one table pair contributes is an update addressing it.
proof fn lemma_table_upd_shape(pt: TableModel, ct: TableModel)
    ensures
        forall|oi: int|
            0 <= oi < table_upd_ops(pt, ct).len() ==> {
                let op = #[trigger] table_upd_ops(pt, ct)[oi];
                op is Update && op_table(op) == pt.name
            },
{
    match pt.primary_key {
        Some(pk) => lemma_keyed_upd_shape(
            pt.name,
            pk,
            pt.columns,
            col_index(pt.columns, pk),
            pt.rows,
            ct.rows,
            ct.rows.len() as int,
        ),
        None => {},
    }
}

/// Every insert one table pair contributes is an insert addressing it.
proof fn lemma_table_ins_shape(pt: TableModel, ct: TableModel)
    ensures
        forall|oi: int|
            0 <= oi < table_ins_ops(pt, ct).len() ==> {
                let op = #[trigger] table_ins_ops(pt, ct)[oi];
                op is Insert && op_table(op) == pt.name
            },
{
}

proof fn lemma_dels_shape(p: Seq<TableModel>, c: Seq<TableModel>, rord: Seq<int>, upto: int)
    requires
        forall|x: int| 0 <= x < rord.len() ==> 0 <= #[trigger] rord[x] < p.len(),
        upto <= rord.len(),
    ensures
        forall|oi: int|
            0 <= oi < dels_upto(p, c, rord, upto).len() ==> {
                let op = #[trigger] dels_upto(p, c, rord, upto)[oi];
                op is Delete && exists|x: int|
                    0 <= x < upto && op_table(op) == p[#[trigger] rord[x]].name
            },
    decreases upto,
{
    if upto > 0 {
        lemma_dels_shape(p, c, rord, upto - 1);
        let pt = p[rord[upto - 1]];
        lemma_table_del_shape(pt, tbl_named(c, pt.name));
        assert forall|oi: int|
            0 <= oi < dels_upto(p, c, rord, upto).len() implies {
            let op = #[trigger] dels_upto(p, c, rord, upto)[oi];
            op is Delete && exists|x: int|
                0 <= x < upto && op_table(op) == p[#[trigger] rord[x]].name
        } by {
            let prev = dels_upto(p, c, rord, upto - 1);
            let op = dels_upto(p, c, rord, upto)[oi];
            if oi < prev.len() {
                assert(op == prev[oi]);
                let x = choose|x: int|
                    0 <= x < upto - 1 && op_table(prev[oi]) == p[#[trigger] rord[x]].name;
                assert(op_table(op) == p[rord[x]].name);
            } else {
                assert(op == table_del_ops(pt, tbl_named(c, pt.name))[oi - prev.len()]);
                assert(op_table(op) == p[rord[upto - 1]].name);
            }
        }
    }
}

proof fn lemma_upds_shape(p: Seq<TableModel>, c: Seq<TableModel>, upto: int)
    requires
        upto <= p.len(),
    ensures
        forall|oi: int|
            0 <= oi < upds_upto(p, c, upto).len() ==> (#[trigger] upds_upto(
                p,
                c,
                upto,
            )[oi]) is Update,
    decreases upto,
{
    if upto > 0 {
        lemma_upds_shape(p, c, upto - 1);
        lemma_table_upd_shape(p[upto - 1], tbl_named(c, p[upto - 1].name));
    }
}

proof fn lemma_inss_shape(p: Seq<TableModel>, c: Seq<TableModel>, ord: Seq<int>, upto: int)
    requires
        forall|x: int| 0 <= x < ord.len() ==> 0 <= #[trigger] ord[x] < p.len(),
        upto <= ord.len(),
    ensures
        forall|oi: int|
            0 <= oi < inss_upto(p, c, ord, upto).len() ==> (#[trigger] inss_upto(
                p,
                c,
                ord,
                upto,
            )[oi]) is Insert,
    decreases upto,
{
    if upto > 0 {
        lemma_inss_shape(p, c, ord, upto - 1);
        lemma_table_ins_shape(p[ord[upto - 1]], tbl_named(c, p[ord[upto - 1]].name));
    }
}

/// The fixture's phases never run backwards: within one produced fixture
/// every delete precedes every update, and every update every insert.
pub proof fn lemma_phase_order(
    p: Seq<TableModel>,
    c: Seq<TableModel>,
    f: Seq<OpModel>,
    cyc: bool,
    oi: int,
    oj: int,
)
    requires
        diff_ok(p, c, f, cyc),
        0 <= oi < oj < f.len(),
    ensures
        op_phase(f[oi]) <= op_phase(f[oj]),
{
    let ord = choose|ord: Seq<int>|
        {
            &&& #[trigger] is_table_order(p, ord)
            &&& f == assembled(p, c, ord)
            &&& !cyc ==> parents_first(p, ord)
        };
    let rord = ord.reverse();
    let dl = dels_upto(p, c, rord, ord.len() as int);
    let ul = upds_upto(p, c, p.len() as int);
    let il = inss_upto(p, c, ord, ord.len() as int);
    lemma_dels_shape(p, c, rord, ord.len() as int);
    lemma_upds_shape(p, c, p.len() as int);
    lemma_inss_shape(p, c, ord, ord.len() as int);
    assert(f.len() == dl.len() + ul.len() + il.len());
    if oi < dl.len() {
        assert(f[oi] == dl[oi]);
    } else if oi < dl.len() + ul.len() {
        assert(f[oi] == ul[oi - dl.len()]);
    } else {
        assert(f[oi] == il[oi - dl.len() - ul.len()]);
    }
    if oj < dl.len() {
        assert(f[oj] == dl[oj]);
    } else if oj < dl.len() + ul.len() {
        assert(f[oj] == ul[oj - dl.len()]);
    } else {
        assert(f[oj] == il[oj - dl.len() - ul.len()]);
    }
}


// ---------------------------------------------------------------------------
// Foreign-key ordering
// ---------------------------------------------------------------------------

proof fn lemma_name_index(s: Seq<TableModel>, a: int, b: int)
    requires
        distinct_seq(names_of(s)),
        0 <= a < s.len(),
        0 <= b < s.len(),
        s[a].name == s[b].name,
    ensures
        a == b,
{
    if a != b {
        assert(names_of(s)[a] == s[a].name);
        assert(names_of(s)[b] == s[b].name);
        assert(false);
    }
}

proof fn lemma_dels_len_mono(p: Seq<TableModel>, c: Seq<TableModel>, rord: Seq<int>, a: int, b: int)
    requires
        0 <= a <= b,
    ensures
        dels_upto(p, c, rord, a).len() <= dels_upto(p, c, rord, b).len(),
    decreases b - a,
{
    if b > a {
        lemma_dels_len_mono(p, c, rord, a, b - 1);
    }
}

proof fn lemma_inss_len_mono(p: Seq<TableModel>, c: Seq<TableModel>, ord: Seq<int>, a: int, b: int)
    requires
        0 <= a <= b,
    ensures
        inss_upto(p, c, ord, a).len() <= inss_upto(p, c, ord, b).len(),
    decreases b - a,
{
    if b > a {
        lemma_inss_len_mono(p, c, ord, a, b - 1);
    }
}

spec fn dels_attr_at(
    p: Seq<TableModel>,
    c: Seq<TableModel>,
    rord: Seq<int>,
    upto: int,
    oi: int,
    x: int,
) -> bool {
    &&& 0 <= x < upto
    &&& dels_upto(p, c, rord, x).len() <= oi < dels_upto(p, c, rord, x + 1).len()
    &&& op_table(dels_upto(p, c, rord, upto)[oi]) == p[rord[x]].name
    &&& dels_upto(p, c, rord, upto)[oi] == table_del_ops(
        p[rord[x]],
        tbl_named(c, p[rord[x]].name),
    )[oi - dels_upto(p, c, rord, x).len()]
}

spec fn dels_has_attr(p: Seq<TableModel>, c: Seq<TableModel>, rord: Seq<int>, upto: int, oi: int) -> bool {
    exists|x: int| dels_attr_at(p, c, rord, upto, oi, x)
}

proof fn lemma_dels_attr(p: Seq<TableModel>, c: Seq<TableModel>, rord: Seq<int>, upto: int)
    requires
        forall|x: int| 0 <= x < rord.len() ==> 0 <= #[trigger] rord[x] < p.len(),
        upto <= rord.len(),
    ensures
        forall|oi: int|
            0 <= oi < dels_upto(p, c, rord, upto).len() ==> #[trigger] dels_has_attr(p, c, rord, upto, oi),
    decreases upto,
{
    if upto > 0 {
        lemma_dels_attr(p, c, rord, upto - 1);
        let pt = p[rord[upto - 1]];
        lemma_table_del_shape(pt, tbl_named(c, pt.name));
        let prev = dels_upto(p, c, rord, upto - 1);
        let cur = dels_upto(p, c, rord, upto);
        assert forall|oi: int| 0 <= oi < cur.len() implies #[trigger] dels_has_attr(
            p,
            c,
            rord,
            upto,
            oi,
        ) by {
            if oi < prev.len() {
                assert(cur[oi] == prev[oi]);
                assert(dels_has_attr(p, c, rord, upto - 1, oi));
                let x = choose|x: int| #[trigger] dels_attr_at(p, c, rord, upto - 1, oi, x);
                lemma_dels_len_mono(p, c, rord, x + 1, upto - 1);
                assert(dels_attr_at(p, c, rord, upto, oi, x));
            } else {
                let x = upto - 1;
                assert(cur[oi] == table_del_ops(pt, tbl_named(c, pt.name))[oi - prev.len()]);
                assert(dels_attr_at(p, c, rord, upto, oi, x));
            }
        }
    }
}

spec fn inss_attr_at(
    p: Seq<TableModel>,
    c: Seq<TableModel>,
    ord: Seq<int>,
    upto: int,
    oi: int,
    x: int,
) -> bool {
    &&& 0 <= x < upto
    &&& inss_upto(p, c, ord, x).len() <= oi < inss_upto(p, c, ord, x + 1).len()
    &&& op_table(inss_upto(p, c, ord, upto)[oi]) == p[ord[x]].name
    &&& inss_upto(p, c, ord, upto)[oi] == table_ins_ops(
        p[ord[x]],
        tbl_named(c, p[ord[x]].name),
    )[oi - inss_upto(p, c, ord, x).len()]
}

spec fn inss_has_attr(p: Seq<TableModel>, c: Seq<TableModel>, ord: Seq<int>, upto: int, oi: int) -> bool {
    exists|x: int| inss_attr_at(p, c, ord, upto, oi, x)
}

proof fn lemma_inss_attr(p: Seq<TableModel>, c: Seq<TableModel>, ord: Seq<int>, upto: int)
    requires
        forall|x: int| 0 <= x < ord.len() ==> 0 <= #[trigger] ord[x] < p.len(),
        upto <= ord.len(),
    ensures
        forall|oi: int|
            0 <= oi < inss_upto(p, c, ord, upto).len() ==> #[trigger] inss_has_attr(p, c, ord, upto, oi),
    decreases upto,
{
    if upto > 0 {
        lemma_inss_attr(p, c, ord, upto - 1);
        let pt = p[ord[upto - 1]];
        lemma_table_ins_shape(pt, tbl_named(c, pt.name));
        let prev = inss_upto(p, c, ord, upto - 1);
        let cur = inss_upto(p, c, ord, upto);
        assert forall|oi: int| 0 <= oi < cur.len() implies #[trigger] inss_has_attr(
            p,
            c,
            ord,
            upto,
            oi,
        ) by {
            if oi < prev.len() {
                assert(cur[oi] == prev[oi]);
                assert(inss_has_attr(p, c, ord, upto - 1, oi));
                let x = choose|x: int| #[trigger] inss_attr_at(p, c, ord, upto - 1, oi, x);
                lemma_inss_len_mono(p, c, ord, x + 1, upto - 1);
                assert(inss_attr_at(p, c, ord, upto, oi, x));
            } else {
                let x = upto - 1;
                assert(cur[oi] == table_ins_ops(pt, tbl_named(c, pt.name))[oi - prev.len()]);
                assert(inss_attr_at(p, c, ord, upto, oi, x));
            }
        }
    }
}

spec fn upds_attr_at(p: Seq<TableModel>, c: Seq<TableModel>, upto: int, oi: int, x: int) -> bool {
    &&& 0 <= x < upto
    &&& upds_upto(p, c, x).len() <= oi < upds_upto(p, c, x + 1).len()
    &&& upds_upto(p, c, upto)[oi] == table_upd_ops(
        p[x],
        tbl_named(c, p[x].name),
    )[oi - upds_upto(p, c, x).len()]
}

proof fn lemma_upds_len_mono(p: Seq<TableModel>, c: Seq<TableModel>, a: int, b: int)
    requires
        0 <= a <= b,
    ensures
        upds_upto(p, c, a).len() <= upds_upto(p, c, b).len(),
    decreases b - a,
{
    if b > a {
        lemma_upds_len_mono(p, c, a, b - 1);
    }
}

spec fn upds_has_attr(p: Seq<TableModel>, c: Seq<TableModel>, upto: int, oi: int) -> bool {
    exists|x: int| upds_attr_at(p, c, upto, oi, x)
}

proof fn lemma_upds_attr(p: Seq<TableModel>, c: Seq<TableModel>, upto: int)
    requires
        upto <= p.len(),
    ensures
        forall|oi: int|
            0 <= oi < upds_upto(p, c, upto).len() ==> #[trigger] upds_has_attr(p, c, upto, oi),
    decreases upto,
{
    if upto > 0 {
        lemma_upds_attr(p, c, upto - 1);
        let prev = upds_upto(p, c, upto - 1);
        let cur = upds_upto(p, c, upto);
        assert forall|oi: int| 0 <= oi < cur.len() implies #[trigger] upds_has_attr(
            p,
            c,
            upto,
            oi,
        ) by {
            if oi < prev.len() {
                assert(cur[oi] == prev[oi]);
                assert(upds_has_attr(p, c, upto - 1, oi));
                let x = choose|x: int| #[trigger] upds_attr_at(p, c, upto - 1, oi, x);
                lemma_upds_len_mono(p, c, x + 1, upto - 1);
                assert(upds_attr_at(p, c, upto, oi, x));
            } else {
                let x = upto - 1;
                assert(cur[oi] == table_upd_ops(
                    p[x],
                    tbl_named(c, p[x].name),
                )[oi - prev.len()]);
                assert(upds_attr_at(p, c, upto, oi, x));
            }
        }
    }
}

/// Foreign-key safety of a produced fixture when no cycle forced a
/// fallback: for any dependency edge child to parent, no insert addressing
/// the child precedes the insert addressing the parent, and no delete
/// addressing the parent precedes a delete addressing the child. A table
/// referencing itself is excluded from the delete claim: its deletes
/// address one table and order among themselves freely.
pub proof fn lemma_fk_ordering(
    p: Seq<TableModel>,
    c: Seq<TableModel>,
    f: Seq<OpModel>,
    oi: int,
    oj: int,
)
    requires
        distinct_seq(names_of(p)),
        diff_ok(p, c, f, false),
        0 <= oi < oj < f.len(),
    ensures
        f[oi] is Insert && f[oj] is Insert ==> !edge_named(p, op_table(f[oi]), op_table(f[oj])),
        f[oi] is Delete && f[oj] is Delete && op_table(f[oi]) != op_table(f[oj])
            ==> !edge_named(p, op_table(f[oj]), op_table(f[oi])),
{
    let ord = choose|ord: Seq<int>|
        {
            &&& #[trigger] is_table_order(p, ord)
            &&& f == assembled(p, c, ord)
            &&& parents_first(p, ord)
        };
    let n = ord.len() as int;
    let rord = ord.reverse();
    let dl = dels_upto(p, c, rord, n);
    let ul = upds_upto(p, c, p.len() as int);
    let il = inss_upto(p, c, ord, n);
    lemma_dels_shape(p, c, rord, n);
    lemma_upds_shape(p, c, p.len() as int);
    lemma_inss_shape(p, c, ord, n);
    lemma_dels_attr(p, c, rord, n);
    lemma_inss_attr(p, c, ord, n);
    assert(f.len() == dl.len() + ul.len() + il.len());
    if f[oi] is Insert && f[oj] is Insert {
        // both land in the insert phase, in insert order
        assert(oi >= dl.len() + ul.len());
        let qi = oi - dl.len() - ul.len();
        let qj = oj - dl.len() - ul.len();
        assert(f[oi] == il[qi] && f[oj] == il[qj]);
        assert(inss_has_attr(p, c, ord, n, qi));
        assert(inss_has_attr(p, c, ord, n, qj));
        let xi = choose|x: int| #[trigger] inss_attr_at(p, c, ord, n, qi, x);
        let xj = choose|x: int| #[trigger] inss_attr_at(p, c, ord, n, qj, x);
        assert(op_table(il[qi]) == p[ord[xi]].name);
        assert(op_table(il[qj]) == p[ord[xj]].name);
        if xj < xi {
            lemma_inss_len_mono(p, c, ord, xj + 1, xi);
            assert(false);
        }
        if xi == xj {
            // one batched insert per table: two positions cannot share it
            assert(inss_upto(p, c, ord, xi + 1).len() <= inss_upto(p, c, ord, xi).len() + 1);
            assert(false);
        }
        if edge_named(p, op_table(f[oi]), op_table(f[oj])) {
            let (ti, tj): (int, int) = choose|ti: int, tj: int|
                {
                    &&& 0 <= ti < p.len()
                    &&& 0 <= tj < p.len()
                    &&& (#[trigger] p[ti]).name == op_table(f[oi])
                    &&& (#[trigger] p[tj]).name == op_table(f[oj])
                    &&& edge(p, ti, tj)
                };
            lemma_name_index(p, ti, ord[xi]);
            lemma_name_index(p, tj, ord[xj]);
            assert(!edge(p, ord[xi], ord[xj]));
            assert(false);
        }
    }
    if f[oi] is Delete && f[oj] is Delete && op_table(f[oi]) != op_table(f[oj]) {
        assert(oj < dl.len());
        assert(f[oi] == dl[oi] && f[oj] == dl[oj]);
        assert(dels_has_attr(p, c, rord, n, oi));
        assert(dels_has_attr(p, c, rord, n, oj));
        let xi = choose|x: int| #[trigger] dels_attr_at(p, c, rord, n, oi, x);
        let xj = choose|x: int| #[trigger] dels_attr_at(p, c, rord, n, oj, x);
        assert(op_table(dl[oi]) == p[rord[xi]].name);
        assert(op_table(dl[oj]) == p[rord[xj]].name);
        if xj < xi {
            lemma_dels_len_mono(p, c, rord, xj + 1, xi);
            assert(false);
        }
        if xi == xj {
            assert(false);  // the two ops address one table, but the names differ
        }
        if edge_named(p, op_table(f[oj]), op_table(f[oi])) {
            let (ti, tj): (int, int) = choose|ti: int, tj: int|
                {
                    &&& 0 <= ti < p.len()
                    &&& 0 <= tj < p.len()
                    &&& (#[trigger] p[ti]).name == op_table(f[oj])
                    &&& (#[trigger] p[tj]).name == op_table(f[oi])
                    &&& edge(p, ti, tj)
                };
            lemma_name_index(p, ti, rord[xj]);
            lemma_name_index(p, tj, rord[xi]);
            // the reverse of a parents-first order is children-first
            assert(rord[xj] == ord[n - 1 - xj] && rord[xi] == ord[n - 1 - xi]);
            assert(!edge(p, ord[n - 1 - xj], ord[n - 1 - xi]));
            assert(false);
        }
    }
}


// ---------------------------------------------------------------------------
// No-op suppression
// ---------------------------------------------------------------------------

/// The operation addresses, in table `tn` keyed on column `pk` at position
/// `k`, the row carrying `key`: a delete or update conditioned on that key,
/// or an insert batching a row with it.
pub open spec fn op_for_key(
    op: OpModel,
    tn: Seq<char>,
    pk: Seq<char>,
    k: int,
    key: Seq<char>,
) -> bool {
    match op {
        OpModel::Truncate { .. } => false,
        OpModel::Delete { table, cond } => table == tn && cond == seq![(pk, key)],
        OpModel::Update { table, set, cond } => table == tn && cond == seq![(pk, key)],
        OpModel::Insert { table, columns, rows } => table == tn && exists|ri: int|
            0 <= ri < rows.len() && (#[trigger] rows[ri])[k] == key,
    }
}

proof fn lemma_keyed_del_nokey(
    tn: Seq<char>,
    pk: Seq<char>,
    k: int,
    p: Seq<Seq<Seq<char>>>,
    c: Seq<Seq<Seq<char>>>,
    upto: int,
    key: Seq<char>,
)
    requires
        has_key(c, k, key),
    ensures
        forall|oi: int|
            0 <= oi < keyed_del_ops(tn, pk, k, p, c, upto).len() ==> !op_for_key(
                #[trigger] keyed_del_ops(tn, pk, k, p, c, upto)[oi],
                tn,
                pk,
                k,
                key,
            ),
    decreases upto,
{
    if upto > 0 {
        lemma_keyed_del_nokey(tn, pk, k, p, c, upto - 1, key);
        let prev = keyed_del_ops(tn, pk, k, p, c, upto - 1);
        let cur = keyed_del_ops(tn, pk, k, p, c, upto);
        assert forall|oi: int| 0 <= oi < cur.len() implies !op_for_key(
            #[trigger] cur[oi],
            tn,
            pk,
            k,
            key,
        ) by {
            if oi < prev.len() {
                assert(cur[oi] == prev[oi]);
            } else {
                assert(!has_key(c, k, p[upto - 1][k]));
                assert(cur[oi] == OpModel::Delete {
                    table: tn,
                    cond: seq![(pk, p[upto - 1][k])],
                });
                let cond = seq![(pk, p[upto - 1][k])];
                if cond == seq![(pk, key)] {
                    assert(cond[0] == (pk, p[upto - 1][k]));
                    assert(p[upto - 1][k] == key);
                    assert(false);
                }
            }
        }
    }
}

proof fn lemma_keyed_upd_nokey(
    tn: Seq<char>,
    pk: Seq<char>,
    cols: Seq<Seq<char>>,
    k: int,
    p: Seq<Seq<Seq<char>>>,
    c: Seq<Seq<Seq<char>>>,
    upto: int,
    key: Seq<char>,
)
    requires
        upto <= c.len(),
        unique_keys(c, k),
        has_key(c, k, key),
        key_row(p, k, key) == key_row(c, k, key),
    ensures
        forall|oi: int|
            0 <= oi < keyed_upd_ops(tn, pk, cols, k, p, c, upto).len() ==> !op_for_key(
                #[trigger] keyed_upd_ops(tn, pk, cols, k, p, c, upto)[oi],
                tn,
                pk,
                k,
                key,
            ),
    decreases upto,
{
    if upto > 0 {
        lemma_keyed_upd_nokey(tn, pk, cols, k, p, c, upto - 1, key);
        let prev = keyed_upd_ops(tn, pk, cols, k, p, c, upto - 1);
        let cur = keyed_upd_ops(tn, pk, cols, k, p, c, upto);
        assert forall|oi: int| 0 <= oi < cur.len() implies !op_for_key(
            #[trigger] cur[oi],
            tn,
            pk,
            k,
            key,
        ) by {
            if oi < prev.len() {
                assert(cur[oi] == prev[oi]);
            } else {
                assert(has_key(p, k, c[upto - 1][k]) && key_row(p, k, c[upto - 1][k])
                    != c[upto - 1]);
                let cond = seq![(pk, c[upto - 1][k])];
                assert(cur[oi] is Update && cur[oi]->Update_cond == cond);
                if cond == seq![(pk, key)] {
                    assert(cond[0] == (pk, c[upto - 1][k]));
                    assert(c[upto - 1][k] == key);
                    let ci = choose|i: int| 0 <= i < c.len() && (#[trigger] c[i])[k] == key;
                    if ci != upto - 1 {
                        assert(false);  // keys are unique in the current table
                    }
                    assert(key_row(c, k, key) == c[upto - 1]);
                    assert(key_row(p, k, key) == c[upto - 1]);
                    assert(false);
                }
            }
        }
    }
}

proof fn lemma_keyed_ins_nokey(
    k: int,
    p: Seq<Seq<Seq<char>>>,
    c: Seq<Seq<Seq<char>>>,
    upto: int,
    key: Seq<char>,
)
    requires
        has_key(p, k, key),
    ensures
        forall|ri: int|
            0 <= ri < keyed_ins_rows(k, p, c, upto).len() ==> (#[trigger] keyed_ins_rows(
                k,
                p,
                c,
                upto,
            )[ri])[k] != key,
    decreases upto,
{
    if upto > 0 {
        lemma_keyed_ins_nokey(k, p, c, upto - 1, key);
        let prev = keyed_ins_rows(k, p, c, upto - 1);
        let cur = keyed_ins_rows(k, p, c, upto);
        assert forall|ri: int| 0 <= ri < cur.len() implies (#[trigger] cur[ri])[k] != key by {
            if ri < prev.len() {
                assert(cur[ri] == prev[ri]);
            } else {
                assert(!has_key(p, k, c[upto - 1][k]));
                assert(cur[ri] == c[upto - 1]);
                if c[upto - 1][k] == key {
                    assert(false);
                }
            }
        }
    }
}

/// Everything needed of a table pair for the key `key` to be invisible: the
/// keyed row carrying it exists unchanged on both sides.
pub open spec fn unchanged_row(pt: TableModel, ct: TableModel, key: Seq<char>) -> bool {
    let pk = pt.primary_key->0;
    let k = col_index(pt.columns, pk);
    &&& pt.primary_key is Some
    &&& has_key(pt.rows, k, key)
    &&& has_key(ct.rows, k, key)
    &&& key_row(pt.rows, k, key) == key_row(ct.rows, k, key)
}

proof fn lemma_table_nokey(pt: TableModel, ct: TableModel, key: Seq<char>)
    requires
        pt.primary_key == ct.primary_key,
        table_dup(pt) is None,
        table_dup(ct) is None,
        unchanged_row(pt, ct, key),
        pt.columns == ct.columns,
    ensures
        forall|oi: int|
            0 <= oi < table_del_ops(pt, ct).len() ==> !op_for_key(
                #[trigger] table_del_ops(pt, ct)[oi],
                pt.name,
                pt.primary_key->0,
                col_index(pt.columns, pt.primary_key->0),
                key,
            ),
        forall|oi: int|
            0 <= oi < table_upd_ops(pt, ct).len() ==> !op_for_key(
                #[trigger] table_upd_ops(pt, ct)[oi],
                pt.name,
                pt.primary_key->0,
                col_index(pt.columns, pt.primary_key->0),
                key,
            ),
        forall|oi: int|
            0 <= oi < table_ins_ops(pt, ct).len() ==> !op_for_key(
                #[trigger] table_ins_ops(pt, ct)[oi],
                pt.name,
                pt.primary_key->0,
                col_index(pt.columns, pt.primary_key->0),
                key,
            ),
{
    let pk = pt.primary_key->0;
    let k = col_index(pt.columns, pk);
    crate::diff::lemma_unique_from_no_dup(pt.rows, k);
    crate::diff::lemma_unique_from_no_dup(ct.rows, k);
    lemma_keyed_del_nokey(pt.name, pk, k, pt.rows, ct.rows, pt.rows.len() as int, key);
    lemma_keyed_upd_nokey(
        pt.name,
        pk,
        pt.columns,
        k,
        pt.rows,
        ct.rows,
        ct.rows.len() as int,
        key,
    );
    lemma_keyed_ins_nokey(k, pt.rows, ct.rows, ct.rows.len() as int, key);
    assert forall|oi: int| 0 <= oi < table_ins_ops(pt, ct).len() implies !op_for_key(
        #[trigger] table_ins_ops(pt, ct)[oi],
        pt.name,
        pk,
        k,
        key,
    ) by {
        let rows = table_ins_rows(pt, ct);
        if op_for_key(table_ins_ops(pt, ct)[oi], pt.name, pk, k, key) {
            let ri = choose|ri: int| 0 <= ri < rows.len() && (#[trigger] rows[ri])[k] == key;
            assert(false);
        }
    }
}

/// No-op suppression: a keyed row present and unchanged between the two
/// snapshots is addressed by no operation of the produced fixture.
#[verifier::rlimit(60)]
pub proof fn lemma_noop_suppression(
    p: Seq<TableModel>,
    c: Seq<TableModel>,
    f: Seq<OpModel>,
    cyc: bool,
    ti: int,
    key: Seq<char>,
)
    requires
        valid_snapshot(p),
        valid_snapshot(c),
        diffable(p, c),
        diff_ok(p, c, f, cyc),
        0 <= ti < p.len(),
        unchanged_row(p[ti], tbl_named(c, p[ti].name), key),
    ensures
        forall|oi: int|
            0 <= oi < f.len() ==> !op_for_key(
                #[trigger] f[oi],
                p[ti].name,
                p[ti].primary_key->0,
                col_index(p[ti].columns, p[ti].primary_key->0),
                key,
            ),
{
    let tn = p[ti].name;
    let pk = p[ti].primary_key->0;
    let k = col_index(p[ti].columns, pk);
    let ct = tbl_named(c, tn);
    let cti = name_idx(c, tn);
    assert(name_in(c, tn));
    assert(0 <= cti < c.len() && c[cti].name == tn);
    assert(table_dup(c[cti]) is None);
    assert(structure_eq(p[ti], ct));
    lemma_table_nokey(p[ti], ct, key);

    let ord = choose|ord: Seq<int>|
        {
            &&& #[trigger] is_table_order(p, ord)
            &&& f == assembled(p, c, ord)
            &&& !cyc ==> parents_first(p, ord)
        };
    let n = ord.len() as int;
    let rord = ord.reverse();
    let dl = dels_upto(p, c, rord, n);
    let ul = upds_upto(p, c, p.len() as int);
    let il = inss_upto(p, c, ord, n);
    lemma_dels_attr(p, c, rord, n);
    lemma_inss_attr(p, c, ord, n);
    lemma_dels_shape(p, c, rord, n);
    lemma_upds_attr(p, c, p.len() as int);
    assert(f.len() == dl.len() + ul.len() + il.len());
    assert forall|oi: int| 0 <= oi < f.len() implies !op_for_key(
        #[trigger] f[oi],
        tn,
        pk,
        k,
        key,
    ) by {
        if oi < dl.len() {
            assert(f[oi] == dl[oi]);
            assert(dels_has_attr(p, c, rord, n, oi));
            let x = choose|x: int| #[trigger] dels_attr_at(p, c, rord, n, oi, x);
            let st = p[rord[x]];
            lemma_table_del_shape(st, tbl_named(c, st.name));
            if st.name == tn {
                lemma_name_index(p, rord[x], ti);
                assert(f[oi] == table_del_ops(p[ti], ct)[oi - dels_upto(p, c, rord, x).len()]);
            } else {
                assert(op_table(f[oi]) == st.name);
                assert(f[oi] is Delete);
            }
        } else if oi < dl.len() + ul.len() {
            let qi = oi - dl.len();
            assert(f[oi] == ul[qi]);
            assert(upds_has_attr(p, c, p.len() as int, qi));
            let x = choose|x: int| #[trigger] upds_attr_at(p, c, p.len() as int, qi, x);
            let st = p[x];
            lemma_table_upd_shape(st, tbl_named(c, st.name));
            if st.name == tn {
                lemma_name_index(p, x, ti);
                assert(f[oi] == table_upd_ops(p[ti], ct)[qi - upds_upto(p, c, x).len()]);
            } else {
                assert(op_table(f[oi]) == st.name);
                assert(f[oi] is Update);
            }
        } else {
            let qi = oi - dl.len() - ul.len();
            assert(f[oi] == il[qi]);
            assert(inss_has_attr(p, c, ord, n, qi));
            let x = choose|x: int| #[trigger] inss_attr_at(p, c, ord, n, qi, x);
            let st = p[ord[x]];
            lemma_table_ins_shape(st, tbl_named(c, st.name));
            if st.name == tn {
                lemma_name_index(p, ord[x], ti);
                assert(f[oi] == table_ins_ops(p[ti], ct)[qi - inss_upto(p, c, ord, x).len()]);
            } else {
                assert(op_table(f[oi]) == st.name);
                assert(f[oi] is Insert);
            }
        }
    }
}


// ---------------------------------------------------------------------------
// Update application
// ---------------------------------------------------------------------------

/// The value an association list of column/value pairs holds for `col`,
/// scanning in order.
pub open spec fn pairs_lookup(ps: Seq<(Seq<char>, Seq<char>)>, col: Seq<char>) -> Option<
    Seq<char>,
>
    decreases ps.len(),
{
    if ps.len() == 0 {
        None
    } else if ps[0].0 == col {
        Some(ps[0].1)
    } else {
        pairs_lookup(ps.drop_first(), col)
    }
}

/// A replayed update: every column that the set lists takes its new value,
/// every other column keeps the row's.
pub open spec fn apply_set(
    cols: Seq<Seq<char>>,
    row: Seq<Seq<char>>,
    set: Seq<(Seq<char>, Seq<char>)>,
) -> Seq<Seq<char>> {
    Seq::new(
        row.len(),
        |i: int|
            match pairs_lookup(set, cols[i]) {
                Some(v) => v,
                None => row[i],
            },
    )
}

proof fn lemma_pairs_lookup_concat(
    a: Seq<(Seq<char>, Seq<char>)>,
    b: Seq<(Seq<char>, Seq<char>)>,
    col: Seq<char>,
)
    ensures
        pairs_lookup(a + b, col) == match pairs_lookup(a, col) {
            Some(v) => Some(v),
            None => pairs_lookup(b, col),
        },
    decreases a.len(),
{
    if a.len() == 0 {
        assert(a + b =~= b);
    } else {
        assert((a + b)[0] == a[0]);
        assert((a + b).drop_first() =~= a.drop_first() + b);
        lemma_pairs_lookup_concat(a.drop_first(), b, col);
    }
}

proof fn lemma_changed_lookup(
    cols: Seq<Seq<char>>,
    o: Seq<Seq<char>>,
    n: Seq<Seq<char>>,
    upto: int,
    i: int,
)
    requires
        distinct_seq(cols),
        upto <= cols.len(),
        0 <= i < cols.len(),
    ensures
        pairs_lookup(changed_pairs(cols, o, n, upto), cols[i]) == if i < upto && o[i] != n[i] {
            Some(n[i])
        } else {
            None::<Seq<char>>
        },
    decreases upto,
{
    if upto > 0 {
        lemma_changed_lookup(cols, o, n, upto - 1, i);
        let prev = changed_pairs(cols, o, n, upto - 1);
        if o[upto - 1] != n[upto - 1] {
            let tail = seq![(cols[upto - 1], n[upto - 1])];
            lemma_pairs_lookup_concat(prev, tail, cols[i]);
            assert(tail[0] == (cols[upto - 1], n[upto - 1]));
            if i == upto - 1 {
                assert(pairs_lookup(tail, cols[i]) == Some(n[upto - 1]));
            } else {
                assert(cols[upto - 1] != cols[i]);
                assert(tail.drop_first() =~= Seq::<(Seq<char>, Seq<char>)>::empty());
                assert(pairs_lookup(Seq::<(Seq<char>, Seq<char>)>::empty(), cols[i]) is None);
                assert(pairs_lookup(tail, cols[i]) is None);
            }
        } else {
            lemma_pairs_lookup_concat(prev, Seq::empty(), cols[i]);
            assert(prev + Seq::empty() =~= prev);
        }
    }
}

/// The update path of the round trip: the set an update carries, applied to
/// the row it targets, rebuilds the current row exactly. (Deletes and
/// inserts carry their rows whole, so their content is their own statement;
/// a full replay semantics over a running database state is not modelled
/// here.)
pub proof fn lemma_update_set_rebuilds_row(
    cols: Seq<Seq<char>>,
    o: Seq<Seq<char>>,
    n: Seq<Seq<char>>,
)
    requires
        distinct_seq(cols),
        o.len() == cols.len(),
        n.len() == cols.len(),
    ensures
        apply_set(cols, o, changed_pairs(cols, o, n, cols.len() as int)) == n,
{
    let set = changed_pairs(cols, o, n, cols.len() as int);
    assert forall|i: int| 0 <= i < cols.len() implies apply_set(cols, o, set)[i] == n[i] by {
        lemma_changed_lookup(cols, o, n, cols.len() as int, i);
    }
    assert(apply_set(cols, o, set) =~= n);
}


// ---------------------------------------------------------------------------
// Key-less round trip
// ---------------------------------------------------------------------------

/// The rows of `p` (over the first `upto`) whose occurrence number exceeds
/// their total count in `c`: the rows the key-less deletes address.
pub open spec fn keyless_removed(
    p: Seq<Seq<Seq<char>>>,
    c: Seq<Seq<Seq<char>>>,
    upto: int,
) -> Seq<Seq<Seq<char>>>
    decreases upto,
{
    if upto <= 0 {
        Seq::empty()
    } else {
        keyless_removed(p, c, upto - 1) + if count_upto(p, p[upto - 1], upto)
            > count_upto(c, p[upto - 1], c.len() as int) {
            seq![p[upto - 1]]
        } else {
            Seq::empty()
        }
    }
}

/// The key-less deletes carry exactly the removed rows: one delete per
/// removed occurrence, conditioned on every column of that row, in order.
pub proof fn lemma_keyless_deletes_carry_removed(
    tn: Seq<char>,
    cols: Seq<Seq<char>>,
    p: Seq<Seq<Seq<char>>>,
    c: Seq<Seq<Seq<char>>>,
    upto: int,
)
    ensures
        keyless_del_ops(tn, cols, p, c, upto).len() == keyless_removed(p, c, upto).len(),
        forall|i: int|
            0 <= i < keyless_removed(p, c, upto).len() ==> #[trigger] keyless_del_ops(
                tn,
                cols,
                p,
                c,
                upto,
            )[i] == (OpModel::Delete {
                table: tn,
                cond: pair_all(cols, keyless_removed(p, c, upto)[i], cols.len() as int),
            }),
    decreases upto,
{
    if upto > 0 {
        lemma_keyless_deletes_carry_removed(tn, cols, p, c, upto - 1);
    }
}

proof fn lemma_count_upto_agree(
    p: Seq<Seq<Seq<char>>>,
    q: Seq<Seq<Seq<char>>>,
    r: Seq<Seq<char>>,
    k: int,
)
    requires
        k <= p.len(),
        k <= q.len(),
        forall|i: int| 0 <= i < k ==> p[i] == q[i],
    ensures
        count_upto(p, r, k) == count_upto(q, r, k),
    decreases k,
{
    if k > 0 {
        lemma_count_upto_agree(p, q, r, k - 1);
    }
}

proof fn lemma_count_upto_multiset(p: Seq<Seq<Seq<char>>>, r: Seq<Seq<char>>)
    ensures
        count_upto(p, r, p.len() as int) == p.to_multiset().count(r),
    decreases p.len(),
{
    broadcast use vstd::seq_lib::group_to_multiset_ensures;
    broadcast use vstd::multiset::group_multiset_axioms;

    if p.len() == 0 {
        assert(p.to_multiset() =~= Multiset::<Seq<Seq<char>>>::empty());
        assert(p.to_multiset().count(r) == 0);
    } else {
        let q = p.drop_last();
        lemma_count_upto_multiset(q, r);
        lemma_count_upto_agree(p, q, r, q.len() as int);
        assert(p =~= q.push(p.last()));
        assert(q.push(p.last()).to_multiset() =~= q.to_multiset().insert(p.last()));
    }
}

proof fn lemma_removed_count(
    p: Seq<Seq<Seq<char>>>,
    c: Seq<Seq<Seq<char>>>,
    upto: int,
    r: Seq<Seq<char>>,
)
    requires
        0 <= upto <= p.len(),
    ensures
        keyless_removed(p, c, upto).to_multiset().count(r) as int == if count_upto(p, r, upto)
            > count_upto(c, r, c.len() as int) {
            count_upto(p, r, upto) - count_upto(c, r, c.len() as int)
        } else {
            0
        },
    decreases upto,
{
    broadcast use vstd::seq_lib::group_to_multiset_ensures;
    broadcast use vstd::multiset::group_multiset_axioms;

    let cc = count_upto(c, r, c.len() as int);
    lemma_count_nonneg(c, r, c.len() as int);
    if upto == 0 {
        assert(keyless_removed(p, c, 0) =~= Seq::<Seq<Seq<char>>>::empty());
        assert(keyless_removed(p, c, 0).to_multiset() =~= Multiset::<Seq<Seq<char>>>::empty());
    } else {
        lemma_removed_count(p, c, upto - 1, r);
        lemma_count_nonneg(p, r, upto - 1);
        let prev = keyless_removed(p, c, upto - 1);
        let cur = keyless_removed(p, c, upto);
        if count_upto(p, p[upto - 1], upto) > count_upto(c, p[upto - 1], c.len() as int) {
            assert(cur =~= prev.push(p[upto - 1]));
            assert(prev.push(p[upto - 1]).to_multiset() =~= prev.to_multiset().insert(
                p[upto - 1],
            ));
        } else {
            assert(cur =~= prev);
        }
    }
}

proof fn lemma_added_count(
    p: Seq<Seq<Seq<char>>>,
    c: Seq<Seq<Seq<char>>>,
    upto: int,
    r: Seq<Seq<char>>,
)
    requires
        0 <= upto <= c.len(),
    ensures
        keyless_ins_rows(p, c, upto).to_multiset().count(r) as int == if count_upto(c, r, upto)
            > count_upto(p, r, p.len() as int) {
            count_upto(c, r, upto) - count_upto(p, r, p.len() as int)
        } else {
            0
        },
    decreases upto,
{
    broadcast use vstd::seq_lib::group_to_multiset_ensures;
    broadcast use vstd::multiset::group_multiset_axioms;

    lemma_count_nonneg(p, r, p.len() as int);
    if upto == 0 {
        assert(keyless_ins_rows(p, c, 0) =~= Seq::<Seq<Seq<char>>>::empty());
        assert(keyless_ins_rows(p, c, 0).to_multiset() =~= Multiset::<Seq<Seq<char>>>::empty());
    } else {
        lemma_added_count(p, c, upto - 1, r);
        lemma_count_nonneg(c, r, upto - 1);
        let prev = keyless_ins_rows(p, c, upto - 1);
        let cur = keyless_ins_rows(p, c, upto);
        if count_upto(c, c[upto - 1], upto) > count_upto(p, c[upto - 1], p.len() as int) {
            assert(cur =~= prev.push(c[upto - 1]));
            assert(prev.push(c[upto - 1]).to_multiset() =~= prev.to_multiset().insert(
                c[upto - 1],
            ));
        } else {
            assert(cur =~= prev);
        }
    }
}

proof fn lemma_count_nonneg(p: Seq<Seq<Seq<char>>>, r: Seq<Seq<char>>, upto: int)
    ensures
        count_upto(p, r, upto) >= 0,
    decreases upto,
{
    if upto > 0 {
        lemma_count_nonneg(p, r, upto - 1);
    }
}

/// The key-less half of the round trip: removing the rows the deletes
/// address from the previous table's multiset of rows, then adding the rows
/// the insert batches, yields exactly the current table's multiset of rows.
pub proof fn lemma_keyless_round_trip(p: Seq<Seq<Seq<char>>>, c: Seq<Seq<Seq<char>>>)
    ensures
        p.to_multiset().sub(keyless_removed(p, c, p.len() as int).to_multiset()).add(
            keyless_ins_rows(p, c, c.len() as int).to_multiset(),
        ) == c.to_multiset(),
{
    broadcast use vstd::multiset::group_multiset_axioms;

    let removed = keyless_removed(p, c, p.len() as int).to_multiset();
    let added = keyless_ins_rows(p, c, c.len() as int).to_multiset();
    let out = p.to_multiset().sub(removed).add(added);
    assert forall|r: Seq<Seq<char>>| out.count(r) == c.to_multiset().count(r) by {
        lemma_count_upto_multiset(p, r);
        lemma_count_upto_multiset(c, r);
        lemma_removed_count(p, c, p.len() as int, r);
        lemma_added_count(p, c, c.len() as int, r);
    }
    assert(out =~= c.to_multiset());
}


// ---------------------------------------------------------------------------
// Keyed round trip
// ---------------------------------------------------------------------------

proof fn lemma_del_mem(
    tn: Seq<char>,
    pk: Seq<char>,
    k: int,
    p: Seq<Seq<Seq<char>>>,
    c: Seq<Seq<Seq<char>>>,
    upto: int,
    i: int,
)
    requires
        0 <= i < upto,
        !has_key(c, k, p[i][k]),
    ensures
        keyed_del_ops(tn, pk, k, p, c, upto).contains(
            OpModel::Delete { table: tn, cond: seq![(pk, p[i][k])] },
        ),
    decreases upto,
{
    let op = OpModel::Delete { table: tn, cond: seq![(pk, p[i][k])] };
    let prev = keyed_del_ops(tn, pk, k, p, c, upto - 1);
    let cur = keyed_del_ops(tn, pk, k, p, c, upto);
    if i == upto - 1 {
        assert(cur[prev.len() as int] == op);
    } else {
        lemma_del_mem(tn, pk, k, p, c, upto - 1, i);
        let wi = choose|wi: int| 0 <= wi < prev.len() && prev[wi] == op;
        assert(cur[wi] == op);
    }
}

proof fn lemma_upd_mem(
    tn: Seq<char>,
    pk: Seq<char>,
    cols: Seq<Seq<char>>,
    k: int,
    p: Seq<Seq<Seq<char>>>,
    c: Seq<Seq<Seq<char>>>,
    upto: int,
    j: int,
)
    requires
        0 <= j < upto,
        has_key(p, k, c[j][k]),
        key_row(p, k, c[j][k]) != c[j],
    ensures
        keyed_upd_ops(tn, pk, cols, k, p, c, upto).contains(
            OpModel::Update {
                table: tn,
                set: changed_pairs(cols, key_row(p, k, c[j][k]), c[j], cols.len() as int),
                cond: seq![(pk, c[j][k])],
            },
        ),
    decreases upto,
{
    let op = OpModel::Update {
        table: tn,
        set: changed_pairs(cols, key_row(p, k, c[j][k]), c[j], cols.len() as int),
        cond: seq![(pk, c[j][k])],
    };
    let prev = keyed_upd_ops(tn, pk, cols, k, p, c, upto - 1);
    let cur = keyed_upd_ops(tn, pk, cols, k, p, c, upto);
    if j == upto - 1 {
        assert(cur[prev.len() as int] == op);
    } else {
        lemma_upd_mem(tn, pk, cols, k, p, c, upto - 1, j);
        let wi = choose|wi: int| 0 <= wi < prev.len() && prev[wi] == op;
        assert(cur[wi] == op);
    }
}

proof fn lemma_ins_mem(
    k: int,
    p: Seq<Seq<Seq<char>>>,
    c: Seq<Seq<Seq<char>>>,
    upto: int,
    j: int,
)
    requires
        0 <= j < upto,
        !has_key(p, k, c[j][k]),
    ensures
        keyed_ins_rows(k, p, c, upto).contains(c[j]),
    decreases upto,
{
    let prev = keyed_ins_rows(k, p, c, upto - 1);
    let cur = keyed_ins_rows(k, p, c, upto);
    if j == upto - 1 {
        assert(cur[prev.len() as int] == c[j]);
    } else {
        lemma_ins_mem(k, p, c, upto - 1, j);
        let wi = choose|wi: int| 0 <= wi < prev.len() && prev[wi] == c[j];
        assert(cur[wi] == c[j]);
    }
}

/// How one current row of a keyed table is reached from the previous rows:
/// kept untouched, rebuilt by the one update addressing its key, or batched
/// into the insert.
pub open spec fn keyed_row_accounted(
    tn: Seq<char>,
    pk: Seq<char>,
    cols: Seq<Seq<char>>,
    k: int,
    p: Seq<Seq<Seq<char>>>,
    c: Seq<Seq<Seq<char>>>,
    r: Seq<Seq<char>>,
) -> bool {
    ||| (has_key(p, k, r[k]) && key_row(p, k, r[k]) == r)
    ||| (has_key(p, k, r[k]) && keyed_upd_ops(tn, pk, cols, k, p, c, c.len() as int).contains(
        OpModel::Update {
            table: tn,
            set: changed_pairs(cols, key_row(p, k, r[k]), r, cols.len() as int),
            cond: seq![(pk, r[k])],
        },
    ))
    ||| keyed_ins_rows(k, p, c, c.len() as int).contains(r)
}

/// The keyed half of the round trip: every current row is kept, rebuilt by
/// its update (whose set, applied to the previous row, yields it exactly:
/// see [`lemma_update_set_rebuilds_row`]), or batched into the insert; and
/// every previous row either keeps its key in the current table or is
/// addressed by exactly the delete conditioned on its key.
pub proof fn lemma_keyed_round_trip(
    tn: Seq<char>,
    pk: Seq<char>,
    cols: Seq<Seq<char>>,
    k: int,
    p: Seq<Seq<Seq<char>>>,
    c: Seq<Seq<Seq<char>>>,
)
    requires
        unique_keys(p, k),
    ensures
        forall|j: int|
            0 <= j < c.len() ==> keyed_row_accounted(tn, pk, cols, k, p, c, #[trigger] c[j]),
        forall|i: int|
            0 <= i < p.len() ==> has_key(c, k, (#[trigger] p[i])[k]) || keyed_del_ops(
                tn,
                pk,
                k,
                p,
                c,
                p.len() as int,
            ).contains(OpModel::Delete { table: tn, cond: seq![(pk, p[i][k])] }),
{
    assert forall|j: int|
        0 <= j < c.len() implies keyed_row_accounted(tn, pk, cols, k, p, c, #[trigger] c[j]) by {
        let r = c[j];
        if has_key(p, k, r[k]) {
            if key_row(p, k, r[k]) != r {
                lemma_upd_mem(tn, pk, cols, k, p, c, c.len() as int, j);
            }
        } else {
            lemma_ins_mem(k, p, c, c.len() as int, j);
        }
    }
    assert forall|i: int|
        0 <= i < p.len() implies has_key(c, k, (#[trigger] p[i])[k]) || keyed_del_ops(
        tn,
        pk,
        k,
        p,
        c,
        p.len() as int,
    ).contains(OpModel::Delete { table: tn, cond: seq![(pk, p[i][k])] }) by {
        if !has_key(c, k, p[i][k]) {
            lemma_del_mem(tn, pk, k, p, c, p.len() as int, i);
        }
    }
}

} // verus!
