//! The routing table as mathematics: which ring buffer a hardware priority
//! code leads to.

use crate::codec::{lemma_codes_differ, spec_logical_to_hw, spec_max_priority, valid_bits};
use crate::ring::Ring;
use vstd::prelude::*;

verus! {

/// One configured priority level: a logical priority and its ring buffer.
pub struct Slot {
    pub priority: u8,
    pub ring: Ring,
}

/// The logical priority and the capacity of each slot.
pub open spec fn shape(slots: Seq<Slot>) -> Seq<(u8, nat)> {
    Seq::new(slots.len(), |i: int| (slots[i].priority, slots[i].ring.capacity()))
}

/// The mathematical state of the routing table: the width of the hardware's
/// priority field and the configured priority levels, lowest first.
pub struct Table {
    pub bits: u8,
    pub slots: Seq<Slot>,
}

impl Table {
    /// The number of configured priority levels.
    pub open spec fn len(self) -> nat {
        self.slots.len()
    }

    /// The hardware code of a slot.
    pub open spec fn code(self, slot: int) -> u8 {
        spec_logical_to_hw(self.bits, self.slots[slot].priority)
    }

    /// The table is as a configuration without fault leaves it: the width is one
    /// the hardware can have, the slots stand in rising order of priorities that
    /// the width allows, and every ring buffer has room for at least one byte.
    pub open spec fn wf(self) -> bool {
        &&& valid_bits(self.bits)
        &&& self.len() <= usize::MAX
        &&& forall|i: int, j: int|
            0 <= i < j < self.len() ==> (#[trigger] self.slots[i]).priority < (
            #[trigger] self.slots[j]).priority
        &&& forall|i: int|
            0 <= i < self.len() ==> {
                &&& (#[trigger] self.slots[i]).priority <= spec_max_priority(self.bits)
                &&& 0 < self.slots[i].ring.capacity()
                &&& self.slots[i].ring.wf()
            }
    }

    /// The slots are the given ones, in some order.
    pub open spec fn arranges(self, given: Seq<Slot>) -> bool {
        self.slots.to_multiset() == given.to_multiset()
    }

    /// `slot` is where the hardware code `hw` leads: the slot of the lowest
    /// logical priority whose code it is.
    pub open spec fn routes(self, hw: u8, slot: int) -> bool {
        &&& 0 <= slot < self.len()
        &&& self.code(slot) == hw
        &&& forall|j: int| 0 <= j < slot ==> self.code(j) != hw
    }

    /// The hardware code `hw` leads nowhere: no configured priority has it.
    pub open spec fn unrouted(self, hw: u8) -> bool {
        forall|j: int| 0 <= j < self.len() ==> self.code(j) != hw
    }

    /// The table with the ring buffer of `slot` replaced, all else as it is.
    pub open spec fn put(self, slot: int, ring: Ring) -> Table {
        Table {
            bits: self.bits,
            slots: self.slots.update(slot, Slot { priority: self.slots[slot].priority, ring }),
        }
    }
}

/// The hardware code of a configured priority leads back to its slot. The one
/// exception is the priority `2^bits` where priority zero is configured as
/// well: the two share the code zero, which leads to the slot of priority zero.
pub proof fn lemma_code_routes_back(table: Table, slot: int)
    requires
        table.wf(),
        0 <= slot < table.len(),
        table.slots[slot].priority == spec_max_priority(table.bits) ==> table.slots[0].priority
            != 0,
    ensures
        table.routes(table.code(slot), slot),
{
    assert forall|j: int| 0 <= j < slot implies table.code(j) != table.code(slot) by {
        assert(table.slots[j].priority < table.slots[slot].priority);
        if j > 0 {
            assert(table.slots[0].priority < table.slots[j].priority);
        }
        lemma_codes_differ(table.bits, table.slots[j].priority, table.slots[slot].priority);
    }
}

/// A table without slots, as a platform without interrupt controller has it,
/// leads no hardware code anywhere.
pub proof fn lemma_empty_table_unrouted(table: Table, hw: u8)
    requires
        table.len() == 0,
    ensures
        table.unrouted(hw),
{
}

} // verus!
