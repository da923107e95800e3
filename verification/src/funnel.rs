//! The routing table: the ring buffers of all configured priority levels.

use crate::codec::{
    logical_to_hw, max_priority, spec_logical_to_hw, spec_max_priority, valid_bits, MAX_BITS,
    MIN_BITS, MIN_PRIORITY,
};
use crate::config::{entry_fault, faultless, first_fault, ConfigError, Fault};
use crate::inner::Inner;
use crate::order::{lemma_same_items_contain, lemma_same_items_grow};
use crate::ring::WriteError;
use crate::table::{shape, Slot, Table};
use vstd::math::min;
use vstd::prelude::*;

verus! {

/// The ring buffers as they are offered to a table, each with its logical
/// priority.
pub open spec fn offered(rings: Seq<(u8, Inner)>) -> Seq<Slot> {
    Seq::new(rings.len(), |i: int| Slot { priority: rings[i].0, ring: rings[i].1@ })
}

/// One configured priority level: its logical priority, the hardware code that
/// stands for it, and its ring buffer.
struct Entry {
    priority: u8,
    code: u8,
    ring: Inner,
}

/// The entry is one that a table for this width may hold.
spec fn sound(bits: u8, entry: Entry) -> bool {
    &&& entry.priority <= spec_max_priority(bits)
    &&& entry.code == spec_logical_to_hw(bits, entry.priority)
    &&& 0 < entry.ring@.capacity()
    &&& entry.ring@.wf()
}

/// The slots that the entries stand for.
spec fn slots_of(entries: Seq<Entry>) -> Seq<Slot> {
    Seq::new(entries.len(), |i: int| Slot { priority: entries[i].priority, ring: entries[i].ring@ })
}

/// The entries are the first `count` of the slots given, in rising order of
/// priority.
spec fn built(bits: u8, given: Seq<Slot>, count: int, entries: Seq<Entry>) -> bool {
    &&& forall|a: int, b: int|
        0 <= a < b < entries.len() ==> (#[trigger] entries[a]).priority < (
        #[trigger] entries[b]).priority
    &&& forall|a: int| 0 <= a < entries.len() ==> sound(bits, #[trigger] entries[a])
    &&& slots_of(entries).to_multiset() == given.take(count).to_multiset()
}

/// Where the entries hold a priority, one of the slots given so far had it.
proof fn lemma_built_taken(bits: u8, given: Seq<Slot>, count: int, entries: Seq<Entry>, at: int)
    requires
        built(bits, given, count, entries),
        0 <= count <= given.len(),
        0 <= at < entries.len(),
    ensures
        exists|j: int| 0 <= j < count && (#[trigger] shape(given)[j]).0 == entries[at].priority,
{
    let slot = slots_of(entries)[at];
    lemma_same_items_contain(slots_of(entries), given.take(count), slot);
    let j = choose|j: int| 0 <= j < count && given.take(count)[j] == slot;
    assert(shape(given)[j].0 == entries[at].priority);
}

/// Where the entries hold no priority between two neighbours, none of the slots
/// given so far had one.
proof fn lemma_built_free(
    bits: u8,
    given: Seq<Slot>,
    count: int,
    entries: Seq<Entry>,
    at: int,
    priority: u8,
)
    requires
        built(bits, given, count, entries),
        0 <= count <= given.len(),
        0 <= at <= entries.len(),
        forall|a: int| 0 <= a < at ==> (#[trigger] entries[a]).priority < priority,
        at < entries.len() ==> entries[at].priority > priority,
    ensures
        forall|j: int| 0 <= j < count ==> (#[trigger] shape(given)[j]).0 != priority,
{
    assert forall|j: int| 0 <= j < count implies (#[trigger] shape(given)[j]).0 != priority by {
        assert(given.take(count)[j] == given[j]);
        lemma_same_items_contain(given.take(count), slots_of(entries), given[j]);
        let a = choose|a: int| 0 <= a < entries.len() && slots_of(entries)[a] == given[j];
        if a >= at {
            assert(entries[at].priority <= entries[a].priority);
        }
    }
}

/// An entry put between its neighbours keeps the entries built.
proof fn lemma_built_grows(
    bits: u8,
    given: Seq<Slot>,
    count: int,
    entries: Seq<Entry>,
    at: int,
    entry: Entry,
)
    requires
        built(bits, given, count, entries),
        0 <= count < given.len(),
        0 <= at <= entries.len(),
        forall|a: int| 0 <= a < at ==> (#[trigger] entries[a]).priority < entry.priority,
        at < entries.len() ==> entries[at].priority > entry.priority,
        sound(bits, entry),
        given[count] == (Slot { priority: entry.priority, ring: entry.ring@ }),
    ensures
        built(bits, given, count + 1, entries.insert(at, entry)),
{
    let grown = entries.insert(at, entry);
    assert forall|a: int, b: int| 0 <= a < b < grown.len() implies (#[trigger] grown[a]).priority
        < (#[trigger] grown[b]).priority by {
        if b > at {
            assert(entries[at].priority <= entries[b - 1].priority);
        }
    }
    lemma_same_items_grow(slots_of(entries), given, count, at);
    assert(slots_of(grown) =~= slots_of(entries).insert(at, given[count]));
}

/// The routing table: one ring buffer for each configured logical priority, in
/// rising order of priority, and the width of the hardware's priority field.
pub struct Funnel {
    bits: u8,
    entries: Vec<Entry>,
}

/// The table that the entries stand for.
spec fn model(bits: u8, entries: Seq<Entry>) -> Table {
    Table { bits, slots: slots_of(entries) }
}

/// The hardware code kept in each entry is the code of the entry's priority.
spec fn codes_kept(bits: u8, entries: Seq<Entry>) -> bool {
    forall|i: int|
        0 <= i < entries.len() ==> (#[trigger] entries[i]).code == spec_logical_to_hw(
            bits,
            entries[i].priority,
        )
}

/// A change to the ring buffer of one entry that keeps its capacity leaves a
/// table that is well formed: the same table but for that ring buffer.
proof fn lemma_ring_changed(bits: u8, was: Seq<Entry>, now: Seq<Entry>, slot: int)
    requires
        model(bits, was).wf(),
        codes_kept(bits, was),
        0 <= slot < was.len() == now.len(),
        forall|k: int| 0 <= k < was.len() && k != slot ==> now[k] == was[k],
        now[slot].priority == was[slot].priority,
        now[slot].code == was[slot].code,
        now[slot].ring@.capacity() == was[slot].ring@.capacity(),
        now[slot].ring@.wf(),
    ensures
        model(bits, now).wf(),
        codes_kept(bits, now),
        model(bits, now) == model(bits, was).put(slot, now[slot].ring@),
{
    let before = model(bits, was);
    let after = model(bits, now);
    assert forall|i: int| 0 <= i < now.len() implies (#[trigger] now[i]).code
        == spec_logical_to_hw(bits, now[i].priority) by {
        assert(was[i].code == spec_logical_to_hw(bits, was[i].priority));
    }
    assert forall|i: int, j: int| 0 <= i < j < after.len() implies (
    #[trigger] after.slots[i]).priority < (#[trigger] after.slots[j]).priority by {
        assert(before.slots[i].priority < before.slots[j].priority);
    }
    assert forall|i: int| 0 <= i < after.len() implies {
        &&& (#[trigger] after.slots[i]).priority <= spec_max_priority(bits)
        &&& 0 < after.slots[i].ring.capacity()
        &&& after.slots[i].ring.wf()
    } by {
        assert(before.slots[i].priority <= spec_max_priority(bits));
    }
    assert(after.slots =~= before.put(slot, now[slot].ring@).slots);
}

impl View for Funnel {
    type V = Table;

    closed spec fn view(&self) -> Table {
        model(self.bits, self.entries@)
    }
}

impl Funnel {
    #[verifier::type_invariant]
    spec fn inv(&self) -> bool {
        self@.wf() && codes_kept(self.bits, self.entries@)
    }

    /// Builds the table for the ring buffers of a configuration, each given with
    /// its logical priority, or says what is wrong with the configuration.
    pub fn new(bits: u8, rings: Vec<(u8, Inner)>) -> (res: Result<Funnel, ConfigError>)
        ensures
            match res {
                Ok(funnel) => {
                    &&& valid_bits(bits)
                    &&& faultless(spec_max_priority(bits) as usize, shape(offered(rings@)))
                    &&& funnel@.wf()
                    &&& funnel@.bits == bits
                    &&& funnel@.len() == rings@.len()
                    &&& funnel@.arranges(offered(rings@))
                },
                Err(error) => if valid_bits(bits) {
                    first_fault(spec_max_priority(bits) as usize, shape(offered(rings@)), error)
                } else {
                    error == ConfigError::Bits(
                        Fault::OutOfRange(MIN_BITS as usize, MAX_BITS as usize),
                    )
                },
            },
    {
        if bits < MIN_BITS || bits > MAX_BITS {
            return Err(ConfigError::Bits(Fault::OutOfRange(MIN_BITS as usize, MAX_BITS as usize)));
        }
        let upper = max_priority(bits);
        let limit = upper as usize;
        let count = rings.len();
        let ghost given = offered(rings@);
        let ghost config = shape(given);
        let mut entries: Vec<Entry> = Vec::new();
        let mut index: usize = 0;
        assert(slots_of(entries@) =~= given.take(0));
        for item in it: rings
            invariant
                valid_bits(bits),
                upper == spec_max_priority(bits),
                limit == upper,
                given == offered(rings@),
                config == shape(given),
                index == it.index(),
                it.seq() == rings@,
                rings@.len() == count,
                entries@.len() == index,
                built(bits, given, index as int, entries@),
                forall|j: int|
                    0 <= j < index ==> (#[trigger] entry_fault(limit, config, j)) is None,
        {
            let (priority, ring) = item;
            if priority as u16 > upper {
                assert(entry_fault(limit, config, index as int) == Some(
                    ConfigError::Priority(index, Fault::OutOfRange(MIN_PRIORITY as usize, limit)),
                ));
                return Err(
                    ConfigError::Priority(index, Fault::OutOfRange(MIN_PRIORITY as usize, limit)),
                );
            }
            if ring.capacity() == 0 {
                assert(entry_fault(limit, config, index as int) == Some(
                    ConfigError::Size(index, Fault::OutOfRange(1, usize::MAX)),
                ));
                return Err(ConfigError::Size(index, Fault::OutOfRange(1, usize::MAX)));
            }
            let mut at: usize = 0;
            while at < entries.len() && entries[at].priority < priority
                invariant
                    at <= entries@.len(),
                    forall|a: int| 0 <= a < at ==> (#[trigger] entries@[a]).priority < priority,
                decreases entries@.len() - at,
            {
                at = at + 1;
            }
            if at < entries.len() && entries[at].priority == priority {
                proof {
                    lemma_built_taken(bits, given, index as int, entries@, at as int);
                }
                assert(entry_fault(limit, config, index as int) == Some(
                    ConfigError::Duplicate(index),
                ));
                return Err(ConfigError::Duplicate(index));
            }
            let code = logical_to_hw(bits, priority);
            let entry = Entry { priority, code, ring };
            proof {
                lemma_built_free(bits, given, index as int, entries@, at as int, priority);
                lemma_built_grows(bits, given, index as int, entries@, at as int, entry);
                assert(entry_fault(limit, config, index as int) is None);
            }
            entries.insert(at, entry);
            index = index + 1;
        }
        let funnel = Funnel { bits, entries };
        assert(given.take(count as int) =~= given);
        Ok(funnel)
    }

    /// The number of configured priority levels.
    pub fn len(&self) -> (len: usize)
        ensures
            len == self@.len(),
            self@.wf(),
    {
        proof {
            use_type_invariant(self);
        }
        self.entries.len()
    }

    /// The width of the hardware's priority field, in bits.
    pub fn bits(&self) -> (bits: u8)
        ensures
            bits == self@.bits,
    {
        self.bits
    }

    /// The logical priority of a slot.
    pub fn priority(&self, slot: usize) -> (priority: u8)
        requires
            slot < self@.len(),
        ensures
            priority == self@.slots[slot as int].priority,
    {
        self.entries[slot].priority
    }

    /// The ring buffer of a slot, to look at.
    pub fn ring(&self, slot: usize) -> (ring: &Inner)
        requires
            slot < self@.len(),
        ensures
            ring@ == self@.slots[slot as int].ring,
    {
        &self.entries[slot].ring
    }

    /// The slot to which a hardware priority code leads: that of the lowest
    /// logical priority with this code, or none if no configured priority has it.
    pub fn route(&self, hw: u8) -> (slot: Option<usize>)
        ensures
            match slot {
                Some(slot) => self@.routes(hw, slot as int),
                None => self@.unrouted(hw),
            },
    {
        proof {
            use_type_invariant(self);
        }
        let mut slot: usize = 0;
        while slot < self.entries.len()
            invariant
                slot <= self.entries@.len() == self@.len(),
                codes_kept(self.bits, self.entries@),
                forall|j: int| 0 <= j < slot ==> self@.code(j) != hw,
            decreases self.entries@.len() - slot,
        {
            if self.entries[slot].code == hw {
                return Some(slot);
            }
            slot = slot + 1;
        }
        None
    }

    /// Writes a record to the ring buffer of a slot.
    pub(crate) fn write(&mut self, slot: usize, bytes: &[u8]) -> (res: Result<(), WriteError>)
        requires
            slot < old(self)@.len(),
        ensures
            res == old(self)@.slots[slot as int].ring.admits(bytes@.len()),
            final(self)@ == if res is Ok {
                old(self)@.put(slot as int, old(self)@.slots[slot as int].ring.push(bytes@))
            } else {
                old(self)@
            },
            final(self)@.wf(),
    {
        proof {
            use_type_invariant(&*self);
        }
        let mut entries: Vec<Entry> = Vec::new();
        std::mem::swap(&mut entries, &mut self.entries);
        let ghost was = entries@;
        let res = entries[slot].ring.write(bytes);
        proof {
            lemma_ring_changed(self.bits, was, entries@, slot as int);
        }
        self.entries = entries;
        proof {
            if res is Err {
                assert(self@.slots =~= old(self)@.slots);
            }
        }
        res
    }

    /// Reads from the ring buffer of a slot into the front of `buf`.
    pub(crate) fn read(&mut self, slot: usize, buf: &mut [u8]) -> (n: usize)
        requires
            slot < old(self)@.len(),
        ensures
            n == min(old(buf)@.len() as int, old(self)@.slots[slot as int].ring.used() as int),
            final(buf)@ == old(self)@.slots[slot as int].ring.unread().take(n as int) + old(
                buf,
            )@.skip(n as int),
            final(self)@ == old(self)@.put(
                slot as int,
                old(self)@.slots[slot as int].ring.pop(n as nat),
            ),
            final(self)@.wf(),
    {
        proof {
            use_type_invariant(&*self);
        }
        let mut entries: Vec<Entry> = Vec::new();
        std::mem::swap(&mut entries, &mut self.entries);
        let ghost was = entries@;
        let n = entries[slot].ring.drain_read(buf);
        proof {
            lemma_ring_changed(self.bits, was, entries@, slot as int);
        }
        self.entries = entries;
        n
    }
}

} // verus!
