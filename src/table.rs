//! Building the partition table: every node gets the same number of slots,
//! the remainder goes out one slot at a time in node order.

use vstd::prelude::*;
use vstd::arithmetic::div_mod::{
    lemma_fundamental_div_mod_converse, lemma_div_denominator, lemma_multiply_divide_lt,
    lemma_fundamental_div_mod,
};
use rand::seq::SliceRandom;

verus! {

/// The weight that every node carries.
pub const NODE_WEIGHT: usize = 2;

/// Slots owed to each of `n` nodes out of `total`:
/// `floor(total / (n * NODE_WEIGHT)) * NODE_WEIGHT`.
pub open spec fn desired_slots(total: nat, n: nat) -> nat {
    (total / (n * 2)) * 2
}

/// The identifier placed at slot `k` of a freshly filled table: node `i + 1`
/// fills the `i`-th block of `desired_slots` slots, and the slots left over
/// go round-robin to nodes `1, 2, ...`.
pub open spec fn fill_owner(total: nat, n: nat, k: nat) -> u64 {
    let d = desired_slots(total, n);
    if k < n * d {
        (k / d + 1) as u64
    } else {
        ((k - n * d) as nat % n + 1) as u64
    }
}

/// The table, before shuffling, for `total` slots and `n` nodes.
pub open spec fn filled_table(total: nat, n: nat) -> Seq<u64> {
    Seq::new(total, |k: int| fill_owner(total, n, k as nat))
}

proof fn lemma_blocks_fit(total: nat, n: nat)
    requires
        n > 0,
    ensures
        n * desired_slots(total, n) <= total,
{
    lemma_div_denominator(total as int, n as int, 2);
    let q = total / n;
    assert(desired_slots(total, n) == (q / 2) * 2);
    assert((q / 2) * 2 <= q);
    assert(n * q <= total) by (nonlinear_arith)
        requires
            q == total / n,
            n > 0,
    ;
    assert(n * ((q / 2) * 2) <= n * q) by (nonlinear_arith)
        requires
            (q / 2) * 2 <= q,
            n > 0,
    ;
}

/// Lays out `total` slots over nodes `1..=n` as `filled_table` says.
pub fn fill_table(total: usize, n: usize) -> (t: Vec<u64>)
    requires
        n > 0,
    ensures
        t@ == filled_table(total as nat, n as nat),
{
    proof {
        lemma_div_denominator(total as int, n as int, 2);
        lemma_blocks_fit(total as nat, n as nat);
    }
    let d: usize = total / n / NODE_WEIGHT * NODE_WEIGHT;
    assert(d == desired_slots(total as nat, n as nat));
    let ghost nd: nat = n as nat * d as nat;
    let mut t: Vec<u64> = Vec::new();
    let mut i: usize = 0;
    while i < n
        invariant
            0 <= i <= n,
            d == desired_slots(total as nat, n as nat),
            nd == n * d,
            nd <= total,
            t@.len() == i * d,
            forall|k: int| 0 <= k < t@.len() ==> t@[k] == fill_owner(total as nat, n as nat, k as nat),
        decreases n - i,
    {
        assert(i * d + d <= nd) by (nonlinear_arith)
            requires
                i < n,
                nd == n * d,
        ;
        let mut j: usize = 0;
        while j < d
            invariant
                0 <= i < n,
                0 <= j <= d,
                d == desired_slots(total as nat, n as nat),
                nd == n * d,
                i * d + d <= nd,
                nd <= total,
                t@.len() == i * d + j,
                forall|k: int| 0 <= k < t@.len() ==> t@[k] == fill_owner(total as nat, n as nat, k as nat),
            decreases d - j,
        {
            proof {
                lemma_fundamental_div_mod_converse((i * d + j) as int, d as int, i as int, j as int);
            }
            t.push((i + 1) as u64);
            j = j + 1;
        }
        assert(t@.len() == (i + 1) * d) by (nonlinear_arith)
            requires
                t@.len() == i * d + d,
        ;
        i = i + 1;
    }
    assert(t@.len() == nd);
    let base: usize = t.len();
    let mut k: usize = base;
    while k < total
        invariant
            nd <= k <= total,
            base == nd,
            t@.len() == k,
            d == desired_slots(total as nat, n as nat),
            nd == n * d,
            n > 0,
            forall|m: int| 0 <= m < t@.len() ==> t@[m] == fill_owner(total as nat, n as nat, m as nat),
        decreases total - k,
    {
        let owner: usize = (k - base) % n;
        t.push((owner + 1) as u64);
        k = k + 1;
    }
    assert(t@ =~= filled_table(total as nat, n as nat));
    t
}

/// Every slot of a filled table names one of the nodes `1..=n`; when there
/// are at least as many slots as nodes, every node owns a slot.
pub proof fn lemma_filled_table_owners(total: nat, n: nat)
    requires
        0 < n <= u64::MAX,
    ensures
        filled_table(total, n).len() == total,
        forall|k: int|
            0 <= k < total ==> 1 <= #[trigger] filled_table(total, n)[k] <= n,
        total >= n ==> forall|id: u64| 1 <= id <= n ==> filled_table(total, n).contains(id),
{
    let d = desired_slots(total, n);
    lemma_blocks_fit(total, n);
    assert forall|k: int| 0 <= k < total implies 1 <= #[trigger] filled_table(total, n)[k] <= n by {
        if k < n * d {
            lemma_multiply_divide_lt(k, d as int, n as int);
        } else {
            let m = (k - n * d) as nat;
            assert(m % n < n);
        }
    }
    if total >= n {
        assert forall|id: u64| 1 <= id <= n implies filled_table(total, n).contains(id) by {
            let i = id - 1;
            if d > 0 {
                let k = i * d;
                assert(k + d <= n * d) by (nonlinear_arith)
                    requires
                        k == i * d,
                        i < n,
                ;
                lemma_fundamental_div_mod_converse(k, d as int, i, 0);
                assert(filled_table(total, n)[k] == id);
            } else {
                lemma_fundamental_div_mod_converse(i, n as int, 0, i);
                assert(filled_table(total, n)[i] == id);
            }
        }
    }
}

/// The slots left once every node has its desired share.
pub open spec fn leftover_slots(total: nat, n: nat) -> nat {
    (total - n * desired_slots(total, n)) as nat
}

/// The number of slots that node `i + 1` owns in a filled table: its desired
/// share, plus one for each round of the leftover slots that reaches it.
pub open spec fn slots_of(total: nat, n: nat, i: nat) -> nat {
    let rem = leftover_slots(total, n);
    desired_slots(total, n) + (if i < rem { 1nat } else { 0nat }) + (if i + n < rem {
        1nat
    } else {
        0nat
    })
}

/// How many of the first `k` slots of a filled table node `i + 1` owns.
spec fn prefix_slots(total: nat, n: nat, i: nat, k: nat) -> nat {
    let d = desired_slots(total, n);
    let nd = n * d;
    if k <= nd {
        if k <= i * d {
            0
        } else if k >= i * d + d {
            d
        } else {
            (k - i * d) as nat
        }
    } else {
        let m = (k - nd) as nat;
        d + (if i < m { 1nat } else { 0nat }) + (if i + n < m { 1nat } else { 0nat })
    }
}

proof fn lemma_leftover_bound(total: nat, n: nat)
    requires
        n > 0,
    ensures
        n * desired_slots(total, n) <= total,
        leftover_slots(total, n) < 2 * n,
{
    let q = total / (n * 2);
    lemma_fundamental_div_mod(total as int, (n * 2) as int);
    assert(n * desired_slots(total, n) == (n * 2) * q) by (nonlinear_arith)
        requires
            desired_slots(total, n) == q * 2,
    ;
}

proof fn lemma_prefix_slots(total: nat, n: nat, i: nat, k: nat)
    requires
        0 < n <= u64::MAX,
        i < n,
        k <= total,
    ensures
        filled_table(total, n).take(k as int).to_multiset().count((i + 1) as u64) == prefix_slots(
            total,
            n,
            i,
            k,
        ),
    decreases k,
{
    let t = filled_table(total, n);
    let id = (i + 1) as u64;
    let d = desired_slots(total, n);
    let nd = n * d;
    lemma_leftover_bound(total, n);
    assert(i * d + d <= nd) by (nonlinear_arith)
        requires
            i < n,
            nd == n * d,
    ;
    if k == 0 {
        assert(t.take(0) =~= Seq::<u64>::empty());
        t.take(0).to_multiset_ensures();
    } else {
        let p = (k - 1) as nat;
        lemma_prefix_slots(total, n, i, p);
        assert(t.take(k as int) =~= t.take(p as int).push(t[p as int]));
        t.take(p as int).to_multiset_ensures();
        if p < nd {
            if i * d <= p < i * d + d {
                lemma_fundamental_div_mod_converse(p as int, d as int, i as int, p - i * d);
                assert(t[p as int] == id);
            } else {
                assert(d > 0) by (nonlinear_arith)
                    requires
                        p < nd,
                        nd == n * d,
                ;
                lemma_fundamental_div_mod(p as int, d as int);
                assert(d * n == n * d) by (nonlinear_arith);
                lemma_multiply_divide_lt(p as int, d as int, n as int);
                let q = p / d;
                assert(q != i) by {
                    if q == i {
                        assert(d * q == i * d) by (nonlinear_arith)
                            requires
                                q == i,
                        ;
                    }
                }
                assert(t[p as int] != id);
            }
        } else {
            let m = (p - nd) as nat;
            assert(m < 2 * n);
            if m < n {
                lemma_fundamental_div_mod_converse(m as int, n as int, 0, m as int);
            } else {
                lemma_fundamental_div_mod_converse(m as int, n as int, 1, m - n);
            }
        }
    }
}

/// A filled table gives node `i + 1` exactly `slots_of(total, n, i)` slots:
/// its desired share and at most two more, at most one more when no more
/// slots are left over than there are nodes.
pub proof fn lemma_slot_counts(total: nat, n: nat, i: nat)
    requires
        0 < n <= u64::MAX,
        i < n,
    ensures
        filled_table(total, n).to_multiset().count((i + 1) as u64) == slots_of(total, n, i),
        desired_slots(total, n) <= slots_of(total, n, i) <= desired_slots(total, n) + 2,
        leftover_slots(total, n) <= n ==> slots_of(total, n, i) <= desired_slots(total, n) + 1,
{
    lemma_prefix_slots(total, n, i, total);
    lemma_leftover_bound(total, n);
    let d = desired_slots(total, n);
    assert(i * d + d <= n * d) by (nonlinear_arith)
        requires
            i < n,
    ;
    assert(filled_table(total, n).take(total as int) =~= filled_table(total, n));
}

/// Relies on `rand::seq::SliceRandom::shuffle`, driven by `rand::thread_rng`:
/// it only swaps elements of the slice, so the slots are permuted in place.
#[verifier::external_body]
pub(crate) fn shuffle_slots(t: &mut Vec<u64>)
    ensures
        final(t)@.to_multiset() == old(t)@.to_multiset(),
{
    t.as_mut_slice().shuffle(&mut rand::thread_rng());
}

} // verus!
