//! The write end of a ring buffer, found by the priority that is running.

use crate::funnel::Funnel;
use crate::nvic::{active_interrupt, priority_byte, spec_active_interrupt, spec_priority_byte};
use crate::ring::WriteError;
use vstd::prelude::*;
use vstd::string::StringSliceAdditionalSpecFns;

verus! {

/// What was read from the interrupt controller about the handler that is
/// running: the interrupt control and state register, and the priority
/// register that holds the priority of the interrupt it names. Where that
/// register names no interrupt, no priority register need be read, and `ipr`
/// may hold anything.
#[derive(Clone, Copy, Debug, PartialEq, Eq)]
pub struct Registers {
    pub icsr: u32,
    pub ipr: u32,
}

/// The hardware priority code of the interrupt being served, if the platform
/// has an interrupt controller (`registers` is then `Some`) and it is serving
/// an interrupt.
pub open spec fn current_priority(registers: Option<Registers>) -> Option<u8> {
    match registers {
        None => None,
        Some(read) => match spec_active_interrupt(read.icsr) {
            None => None,
            Some(nr) => Some(spec_priority_byte(read.ipr, nr)),
        },
    }
}

/// The write end of the ring buffer of one priority level. It names a slot
/// of the routing table it was got from, and is of use with that table only.
pub struct Logger {
    slot: usize,
}

impl View for Logger {
    type V = usize;

    closed spec fn view(&self) -> usize {
        self.slot
    }
}

impl Logger {
    /// The logger of the priority level that is running, if there is one:
    /// none on a platform without an interrupt controller, none in thread mode
    /// or in an exception below the first interrupt, and none for an interrupt
    /// whose priority has no ring buffer. Nothing is written anywhere.
    pub fn get(funnel: &Funnel, registers: Option<Registers>) -> (logger: Option<Logger>)
        ensures
            match logger {
                Some(logger) => current_priority(registers) matches Some(hw)
                    && funnel@.routes(hw, logger@ as int),
                None => current_priority(registers) matches Some(hw) ==> funnel@.unrouted(hw),
            },
    {
        let read = match registers {
            None => {
                return None;
            },
            Some(read) => read,
        };
        match active_interrupt(read.icsr) {
            None => None,
            Some(nr) => match funnel.route(priority_byte(read.ipr, nr)) {
                None => None,
                Some(slot) => Some(Logger { slot }),
            },
        }
    }

    /// The slot of the routing table that this logger writes to.
    pub fn slot(&self) -> (slot: usize)
        ensures
            slot == self@,
    {
        self.slot
    }

    /// Writes the bytes of `s` to the ring buffer as one record, or nothing at
    /// all.
    pub fn log(&self, funnel: &mut Funnel, s: &str) -> (res: Result<(), WriteError>)
        requires
            self@ < old(funnel)@.len(),
        ensures
            res == old(funnel)@.slots[self@ as int].ring.admits(s.spec_bytes().len()),
            final(funnel)@ == if res is Ok {
                old(funnel)@.put(
                    self@ as int,
                    old(funnel)@.slots[self@ as int].ring.push(s.spec_bytes()),
                )
            } else {
                old(funnel)@
            },
            final(funnel)@.wf(),
    {
        funnel.write(self.slot, s.as_bytes())
    }
}

} // verus!
