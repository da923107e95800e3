//! The read end of a ring buffer.

use crate::funnel::Funnel;
use vstd::math::min;
use vstd::prelude::*;

verus! {

/// The read end of the ring buffer of one priority level. It names a slot of
/// the routing table it was got from, and is of use with that table only.
#[derive(Clone, Copy)]
pub struct Drain {
    slot: usize,
}

impl View for Drain {
    type V = usize;

    closed spec fn view(&self) -> usize {
        self.slot
    }
}

impl Drain {
    /// The drains of all configured priority levels, highest priority first.
    pub fn get_all(funnel: &Funnel) -> (drains: Vec<Drain>)
        ensures
            funnel@.wf(),
            drains@.len() == funnel@.len(),
            forall|k: int|
                0 <= k < drains@.len() ==> (#[trigger] drains@[k])@ == funnel@.len() - 1 - k,
            forall|a: int, b: int|
                0 <= a < b < drains@.len() ==> funnel@.slots[(
                #[trigger] drains@[a])@ as int].priority > funnel@.slots[(
                #[trigger] drains@[b])@ as int].priority,
    {
        let len = funnel.len();
        let mut drains: Vec<Drain> = Vec::new();
        let mut left = len;
        while left > 0
            invariant
                left <= len == funnel@.len(),
                drains@.len() == len - left,
                forall|k: int| 0 <= k < drains@.len() ==> (#[trigger] drains@[k])@ == len - 1 - k,
            decreases left,
        {
            left = left - 1;
            drains.push(Drain { slot: left });
        }
        drains
    }

    /// The slot of the routing table that this drain reads from.
    pub fn slot(&self) -> (slot: usize)
        ensures
            slot == self@,
    {
        self.slot
    }

    /// Moves the oldest unread bytes of the ring buffer into the front of `buf`,
    /// as many as it holds, and returns that part of `buf`: empty when nothing
    /// is unread.
    pub fn read<'b>(&self, funnel: &mut Funnel, buf: &'b mut [u8]) -> (out: &'b [u8])
        requires
            self@ < old(funnel)@.len(),
        ensures
            out@.len() == min(
                old(buf)@.len() as int,
                old(funnel)@.slots[self@ as int].ring.used() as int,
            ),
            out@ == old(funnel)@.slots[self@ as int].ring.unread().take(out@.len() as int),
            final(buf)@ == out@ + old(buf)@.skip(out@.len() as int),
            final(funnel)@ == old(funnel)@.put(
                self@ as int,
                old(funnel)@.slots[self@ as int].ring.pop(out@.len()),
            ),
            final(funnel)@.wf(),
    {
        let n = funnel.read(self.slot, buf);
        let filled: &'b [u8] = buf;
        vstd::slice::slice_subrange(filled, 0, n)
    }

    /// The oldest unread byte of the ring buffer, or none when nothing is
    /// unread now. After none, a later call gives a byte again once one has
    /// been written: this is no stream that ends.
    pub fn next(&mut self, funnel: &mut Funnel) -> (byte: Option<u8>)
        requires
            old(self)@ < old(funnel)@.len(),
        ensures
            final(self)@ == old(self)@,
            byte == if old(funnel)@.slots[old(self)@ as int].ring.used() == 0 {
                None
            } else {
                Some(old(funnel)@.slots[old(self)@ as int].ring.unread()[0])
            },
            final(funnel)@ == old(funnel)@.put(
                old(self)@ as int,
                old(funnel)@.slots[old(self)@ as int].ring.pop(
                    if byte is Some {
                        1nat
                    } else {
                        0nat
                    },
                ),
            ),
            final(funnel)@.wf(),
    {
        let mut one: [u8; 1] = [0];
        let n = funnel.read(self.slot, &mut one);
        if n == 0 {
            None
        } else {
            Some(one[0])
        }
    }
}

} // verus!
