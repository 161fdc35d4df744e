//! Choosing replicas: walk the partition table from a starting slot,
//! wrapping at the end, and keep each node the first time it is seen.

use vstd::prelude::*;
use vstd::set_lib::lemma_len_subset;
use vstd::arithmetic::div_mod::lemma_fundamental_div_mod_converse;

verus! {

/// The slot visited at step `j` of a walk that starts at `start`.
pub open spec fn slot_at(t: Seq<u64>, start: nat, j: nat) -> u64 {
    t[((start + j) % t.len()) as int]
}

/// The distinct nodes collected in the first `j` steps of a walk from
/// `start`, stopping once `r` of them are held.
pub open spec fn replica_walk(t: Seq<u64>, start: nat, j: nat, r: nat) -> Seq<u64>
    decreases j,
{
    if j == 0 {
        Seq::empty()
    } else {
        let prev = replica_walk(t, start, (j - 1) as nat, r);
        let x = slot_at(t, start, (j - 1) as nat);
        if prev.len() >= r || prev.contains(x) {
            prev
        } else {
            prev.push(x)
        }
    }
}

/// The replicas for a key whose partition is `start`: what a walk over the
/// whole table collects.
pub open spec fn replica_ids(t: Seq<u64>, start: nat, r: nat) -> Seq<u64> {
    replica_walk(t, start, t.len(), r)
}

/// The nodes seen in the first `j` steps of a walk from `start`.
pub open spec fn visited(t: Seq<u64>, start: nat, j: nat) -> Set<u64> {
    Set::new(|x: u64| exists|m: nat| m < j && slot_at(t, start, m) == x)
}

proof fn lemma_walk_shape(t: Seq<u64>, start: nat, j: nat, r: nat)
    requires
        t.len() > 0,
    ensures
        replica_walk(t, start, j, r).no_duplicates(),
        replica_walk(t, start, j, r).len() <= r,
        replica_walk(t, start, j, r).to_set().subset_of(visited(t, start, j)),
        replica_walk(t, start, j, r).len() < r ==> replica_walk(t, start, j, r).to_set()
            == visited(t, start, j),
    decreases j,
{
    if j > 0 {
        let pj = (j - 1) as nat;
        lemma_walk_shape(t, start, pj, r);
        let prev = replica_walk(t, start, pj, r);
        let x = slot_at(t, start, pj);
        let cur = replica_walk(t, start, j, r);
        assert(visited(t, start, j) =~= visited(t, start, pj).insert(x)) by {
            assert forall|y: u64| visited(t, start, j).contains(y) implies visited(
                t,
                start,
                pj,
            ).insert(x).contains(y) by {
                let m = choose|m: nat| m < j && slot_at(t, start, m) == y;
                if m < pj {
                    assert(visited(t, start, pj).contains(y));
                }
            }
            assert forall|y: u64| visited(t, start, pj).insert(x).contains(y) implies visited(
                t,
                start,
                j,
            ).contains(y) by {
                if y != x {
                    let m = choose|m: nat| m < pj && slot_at(t, start, m) == y;
                    assert(m < j);
                }
            }
        }

        if !(prev.len() >= r || prev.contains(x)) {
            assert(cur.to_set() =~= prev.to_set().insert(x)) by {
                prev.lemma_push_to_set_commute(x);
            }
            assert(cur.no_duplicates()) by {
                assert forall|a: int, b: int| 0 <= a < b < cur.len() implies cur[a] != cur[b] by {
                    if b == cur.len() - 1 {
                        assert(prev.contains(cur[a]));
                    }
                }
            }
        } else if prev.contains(x) && prev.len() < r {
            assert(visited(t, start, j) =~= visited(t, start, pj));
        }
    } else {
        assert(replica_walk(t, start, j, r).to_set() =~= visited(t, start, j));
    }
}

proof fn lemma_walk_settles(t: Seq<u64>, start: nat, j: nat, k: nat, r: nat)
    requires
        j <= k,
        replica_walk(t, start, j, r).len() >= r,
    ensures
        replica_walk(t, start, k, r) == replica_walk(t, start, j, r),
    decreases k - j,
{
    if j < k {
        lemma_walk_settles(t, start, j, (k - 1) as nat, r);
    }
}

proof fn lemma_full_walk_sees_table(t: Seq<u64>, start: nat)
    requires
        start < t.len(),
    ensures
        visited(t, start, t.len()) == t.to_set(),
{
    let l = t.len();
    assert forall|x: u64| t.to_set().contains(x) implies visited(t, start, l).contains(x) by {
        let i = choose|i: int| 0 <= i < l && t[i] == x;
        let m: nat = if i >= start {
            (i - start) as nat
        } else {
            (i + l - start) as nat
        };
        if i >= start {
            lemma_fundamental_div_mod_converse((start + m) as int, l as int, 0, i);
        } else {
            lemma_fundamental_div_mod_converse((start + m) as int, l as int, 1, i);
        }
        assert(slot_at(t, start, m) == x);
    }
    assert forall|x: u64| visited(t, start, l).contains(x) implies t.to_set().contains(x) by {
        let m = choose|m: nat| m < l && slot_at(t, start, m) == x;
        assert(t.contains(x));
    }
    assert(visited(t, start, l) =~= t.to_set());
}

/// A full walk collects `r` nodes exactly when the table holds at least `r`
/// distinct nodes, and fewer otherwise; the nodes it collects are distinct
/// and all come from the table.
pub proof fn lemma_replica_ids(t: Seq<u64>, start: nat, r: nat)
    requires
        start < t.len(),
    ensures
        replica_ids(t, start, r).len() == r <==> r <= t.to_set().len(),
        replica_ids(t, start, r).len() <= r,
        replica_ids(t, start, r).no_duplicates(),
        forall|i: int|
            0 <= i < replica_ids(t, start, r).len() ==> t.contains(
                #[trigger] replica_ids(t, start, r)[i],
            ),
{
    let w = replica_ids(t, start, r);
    lemma_walk_shape(t, start, t.len(), r);
    lemma_full_walk_sees_table(t, start);
    w.unique_seq_to_set();


    vstd::seq_lib::seq_to_set_is_finite(t);
    if w.len() < r {
        assert(w.to_set().len() < r);
    } else {
        lemma_len_subset(w.to_set(), t.to_set());
    }
    assert forall|i: int| 0 <= i < w.len() implies t.contains(#[trigger] w[i]) by {
        assert(w.to_set().contains(w[i]));
        assert(t.to_set().contains(w[i]));
    }
}

/// Whether `x` occurs in `v`.
fn holds_id(v: &Vec<u64>, x: u64) -> (b: bool)
    ensures
        b == v@.contains(x),
{
    let mut i: usize = 0;
    while i < v.len()
        invariant
            0 <= i <= v@.len(),
            forall|m: int| 0 <= m < i ==> v@[m] != x,
        decreases v@.len() - i,
    {
        if v[i] == x {
            return true;
        }
        i = i + 1;
    }
    false
}

/// Walks `table` from slot `start`, wrapping at its end, and collects the
/// first `replicas` distinct node identifiers it meets. Gives `None` when the
/// table holds fewer than `replicas` distinct identifiers; the walk never
/// visits a slot twice.
pub fn select_replicas(table: &[u64], start: usize, replicas: usize) -> (r: Option<Vec<u64>>)
    requires
        start < table@.len(),
    ensures
        r is None <==> table@.to_set().len() < replicas,
        r matches Some(v) ==> {
            &&& v@ == replica_ids(table@, start as nat, replicas as nat)
            &&& v@.len() == replicas
            &&& v@.no_duplicates()
            &&& forall|i: int| 0 <= i < v@.len() ==> table@.contains(#[trigger] v@[i])
        },
{
    let ghost t = table@;
    let l: usize = table.len();
    let mut found: Vec<u64> = Vec::new();
    let mut idx: usize = start;
    let mut j: usize = 0;
    proof {
        lemma_fundamental_div_mod_converse(start as int, l as int, 0, start as int);
    }
    while j < l && found.len() < replicas
        invariant
            t == table@,
            l == t.len(),
            start < l,
            0 <= j <= l,
            idx == (start + j) % (l as int),
            found@ == replica_walk(t, start as nat, j as nat, replicas as nat),
        decreases l - j,
    {
        let x = table[idx];
        proof {
            lemma_walk_shape(t, start as nat, j as nat, replicas as nat);
        }
        if !holds_id(&found, x) {
            found.push(x);
        }
        proof {
            let q = (start + j) / (l as int);
            vstd::arithmetic::div_mod::lemma_fundamental_div_mod(start + j, l as int);
            assert(start + j == q * l + idx) by (nonlinear_arith)
                requires
                    start + j == l * q + (start + j) % (l as int),
                    idx == (start + j) % (l as int),
            ;
            assert((q + 1) * l == q * l + l) by (nonlinear_arith);
            if idx + 1 == l {
                lemma_fundamental_div_mod_converse(start + j + 1, l as int, q + 1, 0);
            } else {
                lemma_fundamental_div_mod_converse(start + j + 1, l as int, q, idx + 1);
            }
        }
        j = j + 1;
        idx = idx + 1;
        if idx >= l {
            idx = 0;
        }
    }
    proof {
        lemma_walk_shape(t, start as nat, j as nat, replicas as nat);
        if found.len() >= replicas {
            lemma_walk_settles(t, start as nat, j as nat, l as nat, replicas as nat);
        }
        lemma_replica_ids(t, start as nat, replicas as nat);
    }
    if found.len() < replicas {
        None
    } else {
        Some(found)
    }
}

} // verus!
