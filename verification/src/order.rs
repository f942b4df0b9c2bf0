//! Dependency grapher: derives a safe table ordering from declared
//! foreign-key relationships.
//!
//! An edge runs from table `c` to table `p` when `c` declares a foreign key
//! referencing `p` (`c` depends on `p`). [`insert_order`] returns a
//! topological ordering of the snapshot's table indices, parents before
//! dependents; [`delete_order`] the reverse. Cyclic foreign keys are legal in
//! SQL but defeat a topological sort: the sort then falls back to the
//! snapshot's declared table order for the part it cannot order and reports
//! the cycle through a non-fatal flag.

use vstd::prelude::*;
use crate::model::{FixtureSnapshot, TableModel, distinct_seq, names_of};

verus! {

/// Table `c` references table `p` through its foreign key at position `f`.
pub open spec fn edge_via(s: Seq<TableModel>, c: int, p: int, f: int) -> bool {
    &&& 0 <= c < s.len()
    &&& 0 <= p < s.len()
    &&& 0 <= f < s[c].foreign_keys.len()
    &&& s[c].foreign_keys[f].ref_table == s[p].name
}

/// Table `c` depends on table `p`: some foreign key of `c` references `p`.
pub open spec fn edge(s: Seq<TableModel>, c: int, p: int) -> bool {
    exists|f: int| edge_via(s, c, p, f)
}

/// `ord` is a permutation of the snapshot's table indices.
pub open spec fn is_table_order(s: Seq<TableModel>, ord: Seq<int>) -> bool {
    &&& ord.len() == s.len()
    &&& forall|k: int| 0 <= k < ord.len() ==> 0 <= #[trigger] ord[k] < s.len()
    &&& distinct_seq(ord)
}

/// No table precedes one of its parents: safe order for inserts.
pub open spec fn parents_first(s: Seq<TableModel>, ord: Seq<int>) -> bool {
    forall|a: int, b: int| 0 <= a < b < ord.len() ==> !edge(s, ord[a], ord[b])
}

/// No table precedes one of its dependents: safe order for deletes.
pub open spec fn children_first(s: Seq<TableModel>, ord: Seq<int>) -> bool {
    forall|a: int, b: int| 0 <= a < b < ord.len() ==> !edge(s, ord[b], ord[a])
}

/// The order as a mathematical sequence of indices.
pub open spec fn ord_model(v: Vec<usize>) -> Seq<int> {
    v@.map_values(|u: usize| u as int)
}

/// Every parent of table `c` is already marked done.
pub open spec fn deps_done(s: Seq<TableModel>, c: int, done: Seq<bool>) -> bool {
    forall|p: int| #[trigger] edge(s, c, p) ==> done[p]
}

/// How many entries of the sequence are true.
pub open spec fn count_true(s: Seq<bool>) -> int
    decreases s.len(),
{
    if s.len() == 0 {
        0
    } else {
        count_true(s.drop_last()) + if s.last() {
            1int
        } else {
            0int
        }
    }
}

proof fn lemma_count_true_full(s: Seq<bool>)
    requires
        forall|i: int| 0 <= i < s.len() ==> s[i],
    ensures
        count_true(s) == s.len(),
    decreases s.len(),
{
    if s.len() > 0 {
        lemma_count_true_full(s.drop_last());
    }
}

proof fn lemma_count_true_update(s: Seq<bool>, i: int)
    requires
        0 <= i < s.len(),
        !s[i],
    ensures
        count_true(s.update(i, true)) == count_true(s) + 1,
    decreases s.len(),
{
    let t = s.update(i, true);
    if i == s.len() - 1 {
        assert(t.drop_last() =~= s.drop_last());
    } else {
        assert(t.drop_last() =~= s.drop_last().update(i, true));
        lemma_count_true_update(s.drop_last(), i);
    }
}

/// Index of the table named `name`, scanning in declared order.
pub fn find_table(s: &FixtureSnapshot, name: &String) -> (r: Option<usize>)
    ensures
        match r {
            Some(j) => j < s@.len() && s@[j as int].name == name@,
            None => forall|j: int| 0 <= j < s@.len() ==> s@[j].name != name@,
        },
{
    let n = s.tables.len();
    let mut j: usize = 0;
    while j < n
        invariant
            n == s@.len(),
            j <= n,
            forall|x: int| 0 <= x < j ==> s@[x].name != name@,
        decreases n - j,
    {
        if s.tables[j].name == *name {
            return Some(j);
        }
        j += 1;
    }
    None
}

/// Whether every parent of table `i` is already marked done. A foreign key
/// referencing a table outside the snapshot imposes no constraint.
fn ready(s: &FixtureSnapshot, i: usize, done: &Vec<bool>) -> (r: bool)
    requires
        i < s@.len(),
        done@.len() == s@.len(),
        distinct_seq(names_of(s@)),
    ensures
        r == deps_done(s@, i as int, done@),
{
    let nf = s.tables[i].foreign_keys.len();
    let mut f: usize = 0;
    while f < nf
        invariant
            i < s@.len(),
            done@.len() == s@.len(),
            distinct_seq(names_of(s@)),
            nf == s@[i as int].foreign_keys.len(),
            f <= nf,
            forall|p: int, ff: int| ff < f && edge_via(s@, i as int, p, ff) ==> done@[p],
        decreases nf - f,
    {
        let name = &s.tables[i].foreign_keys[f].ref_table;
        assert(s@[i as int].foreign_keys[f as int].ref_table == name@);
        match find_table(s, name) {
            Some(j) => {
                if !done[j] {
                    proof {
                        assert(edge_via(s@, i as int, j as int, f as int));
                        assert(edge(s@, i as int, j as int));
                        assert(!deps_done(s@, i as int, done@));
                    }
                    return false;
                }
                proof {
                    assert forall|p: int, ff: int|
                        ff < f + 1 && edge_via(s@, i as int, p, ff) implies done@[p] by {
                        if ff == f {
                            // distinct names pin the referenced table to index j
                            assert(names_of(s@)[p] == s@[p].name);
                            assert(names_of(s@)[j as int] == s@[j as int].name);
                            assert(p == j as int);
                        }
                    }
                }
            },
            None => {
                proof {
                    assert forall|p: int, ff: int|
                        ff < f + 1 && edge_via(s@, i as int, p, ff) implies done@[p] by {
                        if ff == f {
                            assert(s@[p].name != name@);
                        }
                    }
                }
            },
        }
        f += 1;
    }
    proof {
        assert forall|p: int| #[trigger] edge(s@, i as int, p) implies done@[p] by {
            let ff = choose|ff: int| edge_via(s@, i as int, p, ff);
        }
    }
    true
}

/// A topological ordering of the snapshot's table indices, parents before
/// dependents, computed from the declared foreign keys. Among the tables
/// whose parents are all placed, the one earliest in declared order is placed
/// next, so the result is deterministic. The second component is true when a
/// cycle forced a fallback to declared order: the permutation is still
/// returned, but the parents-first guarantee no longer holds for the tables
/// on the cycle.
pub fn insert_order(s: &FixtureSnapshot) -> (res: (Vec<usize>, bool))
    requires
        distinct_seq(names_of(s@)),
    ensures
        is_table_order(s@, ord_model(res.0)),
        !res.1 ==> parents_first(s@, ord_model(res.0)),
{
    let n = s.tables.len();
    let mut done: Vec<bool> = Vec::new();
    let mut k: usize = 0;
    while k < n
        invariant
            done@.len() == k,
            k <= n,
            forall|x: int| 0 <= x < k ==> !done@[x],
        decreases n - k,
    {
        done.push(false);
        k += 1;
    }
    proof {
        assert(count_true(done@) == 0) by {
            lemma_count_all_false(done@);
        }
    }
    let mut placed: Vec<usize> = Vec::new();
    let mut cyclic = false;
    while placed.len() < n
        invariant
            n == s@.len(),
            distinct_seq(names_of(s@)),
            done@.len() == n,
            placed@.len() <= n,
            placed@.len() == count_true(done@),
            forall|a: int| 0 <= a < placed@.len() ==> (#[trigger] placed@[a]) < n,
            forall|a: int| 0 <= a < placed@.len() ==> done@[placed@[a] as int],
            forall|x: int|
                0 <= x < n && done@[x] ==> exists|a: int|
                    0 <= a < placed@.len() && placed@[a] as int == x,
            distinct_seq(placed@),
            !cyclic ==> forall|a: int, p: int|
                0 <= a < placed@.len() && #[trigger] edge(s@, placed@[a] as int, p)
                    ==> exists|m: int| 0 <= m < a && placed@[m] as int == p,
        decreases n - placed.len(),
    {
        // find the first table, in declared order, whose parents are all placed
        let mut pick: usize = n;
        let mut i: usize = 0;
        while i < n
            invariant
                n == s@.len(),
                done@.len() == n,
                distinct_seq(names_of(s@)),
                i <= n,
                pick == n || (pick < n && !done@[pick as int] && deps_done(
                    s@,
                    pick as int,
                    done@,
                )),
            decreases n - i,
        {
            if pick == n && !done[i] {
                if ready(s, i, &done) {
                    pick = i;
                }
            }
            i += 1;
        }
        if pick == n {
            // cycle among the remaining tables: fall back to declared order
            cyclic = true;
            let mut j: usize = 0;
            while j < n
                invariant
                    n == s@.len(),
                    done@.len() == n,
                    j <= n,
                    pick == n || (pick < n && !done@[pick as int]),
                    pick == n ==> forall|x: int| 0 <= x < j ==> done@[x],
                decreases n - j,
            {
                if pick == n && !done[j] {
                    pick = j;
                }
                j += 1;
            }
            proof {
                if pick == n {
                    lemma_count_true_full(done@);
                    assert(false);
                }
            }
        }
        proof {
            lemma_count_true_update(done@, pick as int);
        }
        let ghost done0 = done@;
        let ghost placed0 = placed@;
        done.set(pick, true);
        placed.push(pick);
        proof {
            assert(done@ =~= done0.update(pick as int, true));
            assert(placed@ =~= placed0.push(pick));
            assert forall|x: int|
                0 <= x < n && done@[x] implies exists|a: int|
                0 <= a < placed@.len() && placed@[a] as int == x by {
                if x == pick as int {
                    assert(placed@[placed@.len() - 1] as int == x);
                } else {
                    let a = choose|a: int| 0 <= a < placed0.len() && placed0[a] as int == x;
                    assert(placed@[a] as int == x);
                }
            }
            if !cyclic {
                assert forall|a: int, p: int|
                    0 <= a < placed@.len() && #[trigger] edge(s@, placed@[a] as int, p)
                        implies exists|m: int| 0 <= m < a && placed@[m] as int == p by {
                    if a < placed0.len() {
                        assert(placed@[a] == placed0[a]);
                        let m = choose|m: int| 0 <= m < a && placed0[m] as int == p;
                        assert(placed@[m] as int == p);
                    } else {
                        // the new element: its parents were all done before it
                        assert(placed@[a] == pick);
                        assert(deps_done(s@, pick as int, done0));
                        assert(done0[p]);
                        let m = choose|m: int|
                            0 <= m < placed0.len() && placed0[m] as int == p;
                        assert(placed@[m] as int == p);
                    }
                }
            }
        }
    }
    proof {
        let ord = ord_model(placed);
        assert(ord.len() == n);
        assert forall|a: int, b: int| 0 <= a < b < ord.len() implies ord[a] != ord[b] by {
            assert(placed@[a] != placed@[b]);
        }
        if !cyclic {
            assert forall|a: int, b: int| 0 <= a < b < ord.len() implies !edge(
                s@,
                ord[a],
                ord[b],
            ) by {
                if edge(s@, placed@[a] as int, placed@[b] as int) {
                    let m = choose|m: int|
                        0 <= m < a && placed@[m] as int == placed@[b] as int;
                    assert(placed@[m] == placed@[b]);
                }
            }
        }
    }
    (placed, cyclic)
}

proof fn lemma_count_all_false(s: Seq<bool>)
    requires
        forall|i: int| 0 <= i < s.len() ==> !s[i],
    ensures
        count_true(s) == 0,
    decreases s.len(),
{
    if s.len() > 0 {
        lemma_count_all_false(s.drop_last());
    }
}

/// The reverse of [`insert_order`]: dependents before parents, the safe order
/// for deletes. The flag reports a cycle exactly as there.
pub fn delete_order(s: &FixtureSnapshot) -> (res: (Vec<usize>, bool))
    requires
        distinct_seq(names_of(s@)),
    ensures
        is_table_order(s@, ord_model(res.0)),
        !res.1 ==> children_first(s@, ord_model(res.0)),
{
    let (ord, cyclic) = insert_order(s);
    let n = ord.len();
    let mut rev: Vec<usize> = Vec::new();
    let mut k: usize = 0;
    while k < n
        invariant
            n == ord@.len(),
            k <= n,
            rev@.len() == k,
            forall|x: int| 0 <= x < k ==> rev@[x] == ord@[n - 1 - x],
        decreases n - k,
    {
        rev.push(ord[n - 1 - k]);
        k += 1;
    }
    proof {
        let om = ord_model(ord);
        let rm = ord_model(rev);
        assert forall|x: int| 0 <= x < rm.len() implies 0 <= #[trigger] rm[x] < s@.len() by {
            assert(rm[x] == om[n - 1 - x]);
        }
        assert forall|a: int, b: int| 0 <= a < b < rm.len() implies rm[a] != rm[b] by {
            assert(rm[a] == om[n - 1 - a] && rm[b] == om[n - 1 - b]);
            assert(om[n - 1 - b] != om[n - 1 - a]);
        }
        if !cyclic {
            assert forall|a: int, b: int| 0 <= a < b < rm.len() implies !edge(
                s@,
                rm[b],
                rm[a],
            ) by {
                assert(rm[b] == om[n - 1 - b] && rm[a] == om[n - 1 - a]);
                assert(!edge(s@, om[n - 1 - b], om[n - 1 - a]));
            }
        }
    }
    (rev, cyclic)
}

} // verus!
