//! What the registers of the interrupt controller say about the handler that
//! is running.

use vstd::arithmetic::power2::lemma2_to64;
use vstd::bits::lemma_u32_shr_is_div;
use vstd::prelude::*;

verus! {

/// The number of the first interrupt among the exceptions. Below it stand
/// thread mode, which is zero, and the exceptions of fixed or system priority.
pub const FIRST_INTERRUPT: u8 = 16;

/// The interrupt that is being served according to the interrupt control and
/// state register `icsr`, counted from the first interrupt. Only the low eight
/// bits of the register are looked at. There is none in thread mode and none
/// while an exception below the first interrupt is being served.
pub open spec fn spec_active_interrupt(icsr: u32) -> Option<u8> {
    let active = icsr % 256;
    if active < FIRST_INTERRUPT {
        None
    } else {
        Some((active - FIRST_INTERRUPT) as u8)
    }
}

/// The index of the 32-bit priority register that holds the priority of
/// interrupt `nr`: each register holds four.
pub open spec fn spec_priority_word(nr: u8) -> nat {
    nr as nat / 4
}

/// The priority of interrupt `nr`, given the priority register `ipr` that
/// holds it: byte `nr % 4` of the register, counted from the low end.
pub open spec fn spec_priority_byte(ipr: u32, nr: u8) -> u8 {
    let unit: nat = if nr % 4 == 0 {
        0x1
    } else if nr % 4 == 1 {
        0x100
    } else if nr % 4 == 2 {
        0x1_0000
    } else {
        0x100_0000
    };
    (ipr as nat / unit % 256) as u8
}

/// The interrupt that is being served, if one is.
pub fn active_interrupt(icsr: u32) -> (nr: Option<u8>)
    ensures
        nr == spec_active_interrupt(icsr),
{
    assert(icsr & 0xff == icsr % 256) by (bit_vector);
    assert(icsr & 0xff < 256) by (bit_vector);
    let active = (icsr & 0xff) as u8;
    if active < FIRST_INTERRUPT {
        None
    } else {
        Some(active - FIRST_INTERRUPT)
    }
}

/// The index of the priority register to read for interrupt `nr`.
pub fn priority_word(nr: u8) -> (index: usize)
    ensures
        index == spec_priority_word(nr),
{
    (nr / 4) as usize
}

/// The priority of interrupt `nr`, picked out of its priority register.
pub fn priority_byte(ipr: u32, nr: u8) -> (priority: u8)
    ensures
        priority == spec_priority_byte(ipr, nr),
{
    let shift: u32 = 8 * (nr % 4) as u32;
    proof {
        lemma2_to64();
        lemma_u32_shr_is_div(ipr, shift);
    }
    let moved: u32 = ipr >> shift;
    assert(moved & 0xff == moved % 256) by (bit_vector);
    assert(moved & 0xff < 256) by (bit_vector);
    (moved & 0xff) as u8
}

} // verus!
