//! The ring: a registry of nodes, a partition table built from it, and the
//! lookups that resolve a key to its replicas.

use std::collections::HashMap;
use vstd::prelude::*;
use vstd::arithmetic::power2::{pow2, lemma2_to64};
use vstd::bits::lemma_u64_shl_is_mul;
use vstd::string::StringSliceAdditionalSpecFns;
use crate::hashing::{key_partition, partition_of_key};
use crate::replicas::{replica_ids, select_replicas};
use crate::table::{
    desired_slots, fill_table, filled_table, leftover_slots, lemma_filled_table_owners,
    lemma_slot_counts, shuffle_slots, slots_of,
};

verus! {

/// What a ring operation can fail with.
#[derive(Clone, Copy, Debug, PartialEq, Eq, Structural)]
pub enum RingError {
    /// The partition power is outside `1..=32`, or no replica was asked for.
    InvalidConfiguration,
    /// The key is empty.
    InvalidKey,
    /// The partition table has not been built yet.
    UninitializedTable,
    /// The table holds fewer distinct nodes than the replica count.
    InsufficientDistinctNodes,
    /// A rebalance found no node to place while the table still had slots.
    EmptyRegistry,
}

/// A registered node: its identifier and free-form metadata.
#[derive(Debug)]
pub struct NodeEntry {
    pub id: u64,
    pub metadata: HashMap<String, u64>,
}

/// A partition ring over `2^part_power` slots.
#[derive(Debug)]
pub struct Ring {
    name: String,
    nodes: Vec<NodeEntry>,
    shift: u32,
    replicas: usize,
    part_power: u32,
    partitions: Vec<u64>,
}

/// The shift that maps a 32-bit word to one of `2^part_power` partitions.
pub open spec fn shift_for(part_power: nat) -> nat {
    (32 - part_power) as nat
}

impl Ring {
    /// The partition power the ring was made with.
    pub closed spec fn spec_part_power(&self) -> nat {
        self.part_power as nat
    }

    /// The number of distinct nodes a lookup returns.
    pub closed spec fn spec_replicas(&self) -> nat {
        self.replicas as nat
    }

    /// The number of bits dropped from a key's hash word.
    pub closed spec fn spec_shift(&self) -> nat {
        self.shift as nat
    }

    /// The ring's label.
    pub closed spec fn spec_name(&self) -> Seq<char> {
        self.name@
    }

    /// The identifiers of the registered nodes, in order of registration.
    pub closed spec fn node_ids(&self) -> Seq<u64> {
        self.nodes@.map_values(|e: NodeEntry| e.id)
    }

    /// The number of registered nodes.
    pub closed spec fn node_count(&self) -> nat {
        self.nodes@.len()
    }

    /// The partition table: the node identifier that owns each slot.
    pub closed spec fn table(&self) -> Seq<u64> {
        self.partitions@
    }

    /// The number of slots of a built table.
    pub open spec fn slot_count(&self) -> nat {
        pow2(self.spec_part_power())
    }

    /// The ring's invariant: a valid configuration, node `i` carries
    /// identifier `i + 1`, and the table is either empty or complete, with
    /// every slot naming a registered node.
    pub closed spec fn wf(&self) -> bool {
        &&& 1 <= self.part_power <= 32
        &&& self.shift == 32 - self.part_power
        &&& self.replicas >= 1
        &&& pow2(self.part_power as nat) <= usize::MAX
        &&& forall|i: int| 0 <= i < self.nodes@.len() ==> #[trigger] self.nodes@[i].id == i + 1
        &&& self.nodes@.len() < u64::MAX
        &&& (self.partitions@.len() == 0 || self.partitions@.len() == pow2(self.part_power as nat))
        &&& forall|k: int|
            0 <= k < self.partitions@.len() ==> 1 <= #[trigger] self.partitions@[k]
                <= self.nodes@.len()
    }

    /// When every registered node owns a slot, the table holds exactly
    /// `node_count` distinct identifiers.
    proof fn lemma_table_covers_nodes(&self)
        requires
            self.wf(),
            forall|id: u64| 1 <= id <= self.node_count() ==> self.table().contains(id),
        ensures
            self.table().to_set().len() == self.node_count(),
    {
        let ids = self.node_ids();
        assert(ids.no_duplicates());
        ids.unique_seq_to_set();
        assert(self.table().to_set() =~= ids.to_set()) by {
            assert forall|x: u64| self.table().to_set().contains(x) implies ids.to_set().contains(
                x,
            ) by {
                let k = choose|k: int| 0 <= k < self.table().len() && self.table()[k] == x;
                assert(1 <= self.partitions@[k] <= self.nodes@.len());
                assert(ids[x - 1] == x);
            }
            assert forall|x: u64| ids.to_set().contains(x) implies self.table().to_set().contains(
                x,
            ) by {
                let i = choose|i: int| 0 <= i < ids.len() && ids[i] == x;
                assert(self.nodes@[i].id == i + 1);
            }
        }
    }

    /// Creates an empty ring with `2^part_power` partitions and `replicas`
    /// replicas per key.
    pub fn new(name: String, part_power: u32, replicas: usize) -> (r: Result<Ring, RingError>)
        ensures
            r is Err <==> !(1 <= part_power <= 32 && replicas >= 1 && pow2(part_power as nat)
                <= usize::MAX),
            r is Err ==> r == Err::<Ring, RingError>(RingError::InvalidConfiguration),
            r matches Ok(ring) ==> {
                &&& ring.wf()
                &&& ring.spec_name() == name@
                &&& ring.spec_part_power() == part_power
                &&& ring.spec_replicas() == replicas
                &&& ring.spec_shift() == shift_for(part_power as nat)
                &&& ring.node_count() == 0
                &&& ring.table().len() == 0
            },
    {
        if part_power < 1 || part_power > 32 || replicas < 1 {
            return Err(RingError::InvalidConfiguration);
        }
        let size: u64 = 1u64 << part_power as u64;
        proof {
            lemma2_to64();
            lemma_u64_shl_is_mul(1, part_power as u64);
        }
        if size > usize::MAX as u64 {
            return Err(RingError::InvalidConfiguration);
        }
        Ok(Ring {
            name,
            nodes: Vec::new(),
            shift: 32 - part_power,
            replicas,
            part_power,
            partitions: Vec::new(),
        })
    }

    /// Registers a node with `metadata` and returns its identifier, one more
    /// than the number of nodes registered before. The table is left as it
    /// was: a rebalance is needed for the node to own slots.
    pub fn add_node(&mut self, metadata: HashMap<String, u64>) -> (r: u64)
        requires
            old(self).wf(),
            old(self).node_count() + 1 < u64::MAX,
        ensures
            final(self).wf(),
            r == old(self).node_count() + 1,
            final(self).node_ids() == old(self).node_ids().push(r),
            forall|i: int| 0 <= i < old(self).node_count() ==> #[trigger] old(self).node_ids()[i] < r,
            final(self).node_count() == old(self).node_count() + 1,
            final(self).table() == old(self).table(),
            final(self).spec_part_power() == old(self).spec_part_power(),
            final(self).spec_replicas() == old(self).spec_replicas(),
            final(self).spec_shift() == old(self).spec_shift(),
            final(self).spec_name() == old(self).spec_name(),
    {
        let new_id: u64 = self.nodes.len() as u64 + 1;
        self.nodes.push(NodeEntry { id: new_id, metadata });
        proof {
            assert(self.node_ids() =~= old(self).node_ids().push(new_id));
        }
        new_id
    }

    /// The partition that `key` hashes to: the leading 32 bits of the MD5
    /// digest of its UTF-8 bytes, shifted right by `32 - part_power`.
    pub fn get_id(&self, key: &str) -> (r: Result<u32, RingError>)
        requires
            self.wf(),
        ensures
            key@.len() == 0 ==> r == Err::<u32, RingError>(RingError::InvalidKey),
            key@.len() > 0 ==> (r matches Ok(p) && p as nat == key_partition(
                key.spec_bytes(),
                self.spec_shift(),
            )),
            r matches Ok(p) ==> p < self.slot_count(),
    {
        if key.is_empty() {
            return Err(RingError::InvalidKey);
        }
        proof {
            assert(self.shift + self.part_power == 32);
        }
        Ok(partition_of_key(key, self.shift))
    }

    /// Rebuilds the partition table from the registered nodes: each node is
    /// given `floor(slots / (2 * nodes)) * 2` slots, the slots left over go
    /// round-robin in node order, and the whole table is then shuffled.
    /// With no node and no table there is nothing to do.
    pub fn rebalance(&mut self) -> (r: Result<(), RingError>)
        requires
            old(self).wf(),
        ensures
            final(self).wf(),
            final(self).node_ids() == old(self).node_ids(),
            final(self).node_count() == old(self).node_count(),
            final(self).spec_part_power() == old(self).spec_part_power(),
            final(self).spec_replicas() == old(self).spec_replicas(),
            final(self).spec_shift() == old(self).spec_shift(),
            final(self).spec_name() == old(self).spec_name(),
            r is Err <==> old(self).node_count() == 0 && old(self).table().len() > 0,
            r is Err ==> r == Err::<(), RingError>(RingError::EmptyRegistry),
            old(self).node_count() == 0 ==> final(self).table() == old(self).table(),
            old(self).node_count() > 0 ==> {
                &&& final(self).table().len() == final(self).slot_count()
                &&& final(self).table().to_multiset() == filled_table(
                    final(self).slot_count(),
                    final(self).node_count(),
                ).to_multiset()
                &&& forall|k: int|
                    0 <= k < final(self).table().len() ==> 1 <= #[trigger] final(self).table()[k]
                        <= final(self).node_count()
                &&& final(self).slot_count() >= final(self).node_count()
                    ==> final(self).table().to_set().len() == final(self).node_count()
            },
    {
        let n: usize = self.nodes.len();
        if n == 0 {
            if self.partitions.len() == 0 {
                return Ok(());
            }
            return Err(RingError::EmptyRegistry);
        }
        proof {
            lemma2_to64();
            lemma_u64_shl_is_mul(1, self.part_power as u64);
        }
        let size: usize = (1u64 << self.part_power as u64) as usize;
        let mut table = fill_table(size, n);
        proof {
            lemma_filled_table_owners(size as nat, n as nat);
        }
        let ghost filled = table@;
        shuffle_slots(&mut table);
        proof {
            filled.to_multiset_ensures();
            table@.to_multiset_ensures();
            assert forall|k: int| 0 <= k < table@.len() implies 1 <= #[trigger] table@[k] <= n by {
                assert(table@.to_multiset().count(table@[k]) > 0);
                assert(filled.contains(table@[k]));
            }
        }
        self.partitions = table;
        proof {
            if size >= n {
                assert forall|id: u64| 1 <= id <= n implies self.table().contains(id) by {
                    assert(filled.contains(id));
                    assert(filled.to_multiset().count(id) > 0);
                }
                self.lemma_table_covers_nodes();
            }
        }
        Ok(())
    }

    /// The `replicas` distinct nodes that serve `key`: walking the table
    /// from the key's partition, wrapping at the end, each node is taken the
    /// first time it is met.
    pub fn get_nodes(&self, key: &str) -> (r: Result<Vec<&NodeEntry>, RingError>)
        requires
            self.wf(),
        ensures
            key@.len() == 0 ==> r == Err::<Vec<&NodeEntry>, RingError>(RingError::InvalidKey),
            key@.len() > 0 && self.table().len() == 0 ==> r == Err::<Vec<&NodeEntry>, RingError>(
                RingError::UninitializedTable,
            ),
            key@.len() > 0 && self.table().len() > 0 ==> (r is Err <==> self.table().to_set().len()
                < self.spec_replicas()),
            r is Err ==> r == Err::<Vec<&NodeEntry>, RingError>(RingError::InvalidKey) || r == Err::<
                Vec<&NodeEntry>,
                RingError,
            >(RingError::UninitializedTable) || r == Err::<Vec<&NodeEntry>, RingError>(
                RingError::InsufficientDistinctNodes,
            ),
            r matches Ok(v) ==> {
                &&& v@.len() == self.spec_replicas()
                &&& v@.map_values(|e: &NodeEntry| e.id) == replica_ids(
                    self.table(),
                    key_partition(key.spec_bytes(), self.spec_shift()),
                    self.spec_replicas(),
                )
                &&& v@.map_values(|e: &NodeEntry| e.id).no_duplicates()
                &&& forall|i: int|
                    0 <= i < v@.len() ==> 1 <= #[trigger] v@[i].id <= self.node_count()
            },
    {
        if key.is_empty() {
            return Err(RingError::InvalidKey);
        }
        if self.partitions.len() == 0 {
            return Err(RingError::UninitializedTable);
        }
        let start = partition_of_key(key, self.shift);
        proof {
            assert(self.shift + self.part_power == 32);
        }
        let ids = match select_replicas(self.partitions.as_slice(), start as usize, self.replicas) {
            None => {
                return Err(RingError::InsufficientDistinctNodes);
            },
            Some(ids) => ids,
        };
        let mut out: Vec<&NodeEntry> = Vec::new();
        let n: usize = self.nodes.len();
        let mut i: usize = 0;
        while i < ids.len()
            invariant
                self.wf(),
                n == self.nodes@.len(),
                0 <= i <= ids@.len(),
                out@.len() == i,
                forall|m: int| 0 <= m < ids@.len() ==> self.partitions@.contains(#[trigger] ids@[m]),
                forall|m: int| 0 <= m < i ==> (#[trigger] out@[m]).id == ids@[m],
            decreases ids@.len() - i,
        {
            let id = ids[i];
            proof {
                let k = choose|k: int| 0 <= k < self.partitions@.len() && self.partitions@[k] == id;
                assert(1 <= self.partitions@[k] <= self.nodes@.len());
                assert(self.nodes@[id - 1].id == id);
            }
            let idx: usize = (id - 1) as usize;
            let entry = &self.nodes[idx];
            out.push(entry);
            i = i + 1;
        }
        proof {
            assert(out@.map_values(|e: &NodeEntry| e.id) =~= ids@);
        }
        Ok(out)
    }

    /// The partition table: the node identifier that owns each slot.
    pub fn partitions(&self) -> (r: &[u64])
        ensures
            r@ == self.table(),
    {
        self.partitions.as_slice()
    }

    /// The number of registered nodes.
    pub fn len(&self) -> (r: usize)
        ensures
            r == self.node_count(),
    {
        self.nodes.len()
    }

    /// The ring's label.
    pub fn name(&self) -> (r: &str)
        ensures
            r@ == self.spec_name(),
    {
        self.name.as_str()
    }

    /// The number of distinct nodes a lookup returns.
    pub fn replicas(&self) -> (r: usize)
        ensures
            r == self.spec_replicas(),
    {
        self.replicas
    }

    /// The partition power the ring was made with.
    pub fn part_power(&self) -> (r: u32)
        ensures
            r == self.spec_part_power(),
    {
        self.part_power
    }
}

/// Node identifiers only grow: a node registered after another gets a larger
/// identifier, and no identifier is handed out twice.
pub proof fn lemma_ids_strictly_increase(a: Ring, b: Ring, c: Ring, first: u64, second: u64)
    requires
        a.wf(),
        b.wf(),
        c.wf(),
        first == a.node_count() + 1,
        b.node_ids() == a.node_ids().push(first),
        second == b.node_count() + 1,
        c.node_ids() == b.node_ids().push(second),
    ensures
        first < second,
        !a.node_ids().contains(first),
        !b.node_ids().contains(second),
        c.node_ids().no_duplicates(),
{
    assert(b.node_ids().len() == b.node_count());
    assert(a.node_ids().len() == a.node_count());
    assert(c.node_ids().len() == c.node_count());
    assert(b.node_count() == a.node_count() + 1);
    assert forall|i: int| 0 <= i < c.node_ids().len() implies #[trigger] c.node_ids()[i] == i + 1 by {
        assert(c.nodes@[i].id == i + 1);
    }
    assert forall|i: int| 0 <= i < b.node_ids().len() implies #[trigger] b.node_ids()[i] == i + 1 by {
        assert(b.nodes@[i].id == i + 1);
    }
    assert forall|i: int| 0 <= i < a.node_ids().len() implies #[trigger] a.node_ids()[i] == i + 1 by {
        assert(a.nodes@[i].id == i + 1);
    }
}

/// Rebalancing twice with no node added in between leaves every node with
/// the same number of slots. That number is `slots_of`: the node's desired
/// share plus at most two, and plus at most one whenever no more slots are
/// left over than there are nodes.
pub proof fn lemma_rebalance_slot_counts(first: Ring, second: Ring, id: u64)
    requires
        first.wf(),
        second.wf(),
        first.node_count() > 0,
        second.node_count() == first.node_count(),
        second.spec_part_power() == first.spec_part_power(),
        first.table().to_multiset() == filled_table(first.slot_count(), first.node_count()).to_multiset(),
        second.table().to_multiset() == filled_table(second.slot_count(), second.node_count()).to_multiset(),
        1 <= id <= first.node_count(),
    ensures
        first.table().to_multiset().count(id) == second.table().to_multiset().count(id),
        first.table().to_multiset().count(id) == slots_of(
            first.slot_count(),
            first.node_count(),
            (id - 1) as nat,
        ),
        desired_slots(first.slot_count(), first.node_count()) <= first.table().to_multiset().count(
            id,
        ) <= desired_slots(first.slot_count(), first.node_count()) + 2,
        leftover_slots(first.slot_count(), first.node_count()) <= first.node_count()
            ==> first.table().to_multiset().count(id) <= desired_slots(
            first.slot_count(),
            first.node_count(),
        ) + 1,
{
    lemma_slot_counts(first.slot_count(), first.node_count(), (id - 1) as nat);
}

} // verus!
