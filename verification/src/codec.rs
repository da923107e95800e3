//! Logical priorities and the codes that the hardware keeps for them.

use vstd::arithmetic::power2::{lemma2_to64, lemma_pow2_adds, pow2};
use vstd::bits::lemma_u32_shl_is_mul;
use vstd::prelude::*;

verus! {

/// The narrowest priority field an interrupt controller can have, in bits.
pub const MIN_BITS: u8 = 1;

/// The widest priority field an interrupt controller can have, in bits.
pub const MAX_BITS: u8 = 8;

/// The smallest logical priority.
pub const MIN_PRIORITY: u8 = 0;

/// The largest logical priority that is accepted while the width of the
/// priority field is still a symbol: every `u8`.
pub const SYMBOLIC_MAX_PRIORITY: u8 = 255;

/// The width is one the hardware can have.
pub open spec fn valid_bits(bits: u8) -> bool {
    MIN_BITS <= bits <= MAX_BITS
}

/// The largest logical priority for a priority field of `bits` bits: `2^bits`.
/// Logical priorities run over `0..=2^bits`, not over the narrower `1..=bits`.
pub open spec fn spec_max_priority(bits: u8) -> nat {
    pow2(bits as nat)
}

/// The hardware priority code of a logical priority:
/// `(2^bits - logical) * 2^(8 - bits)`, of which the register keeps the low
/// eight bits. A larger logical priority is more urgent, a smaller code is.
pub open spec fn spec_logical_to_hw(bits: u8, logical: u8) -> u8 {
    (((pow2(bits as nat) - logical) * pow2((8 - bits) as nat)) % 256) as u8
}

/// The priority levels times the step between their codes fill the register's
/// 256 values.
proof fn lemma_levels_times_step(bits: u8)
    requires
        valid_bits(bits),
    ensures
        pow2(bits as nat) * pow2((8 - bits) as nat) == 256,
        pow2(bits as nat) <= 256,
        pow2((8 - bits) as nat) > 0,
{
    lemma2_to64();
    lemma_pow2_adds(bits as nat, (8 - bits) as nat);
}

/// The largest logical priority for a priority field of `bits` bits.
pub fn max_priority(bits: u8) -> (max: u16)
    requires
        valid_bits(bits),
    ensures
        max == spec_max_priority(bits),
{
    proof {
        lemma2_to64();
        lemma_u32_shl_is_mul(1, bits as u32);
    }
    let max: u32 = 1u32 << (bits as u32);
    max as u16
}

/// The hardware priority code of a logical priority.
pub fn logical_to_hw(bits: u8, logical: u8) -> (hw: u8)
    requires
        valid_bits(bits),
        logical <= spec_max_priority(bits),
    ensures
        hw == spec_logical_to_hw(bits, logical),
{
    proof {
        lemma2_to64();
        lemma_u32_shl_is_mul(1, bits as u32);
    }
    let levels: u32 = 1u32 << (bits as u32);
    let inverted: u32 = levels - logical as u32;
    proof {
        lemma_levels_times_step(bits);
        assert(inverted * pow2((8 - bits) as nat) <= 256) by (nonlinear_arith)
            requires
                0 <= inverted <= pow2(bits as nat),
                pow2(bits as nat) * pow2((8 - bits) as nat) == 256,
        ;
        lemma_u32_shl_is_mul(inverted, (8 - bits) as u32);
    }
    let wide: u32 = inverted << ((8 - bits) as u32);
    assert(wide & 0xff == wide % 256) by (bit_vector);
    assert(wide & 0xff < 256) by (bit_vector);
    (wide & 0xff) as u8
}

/// Between zero and `2^bits` the code falls as the logical priority rises, in
/// steps of `2^(8 - bits)` down from 256; zero itself, like `2^bits`, has the
/// code zero.
pub proof fn lemma_code_value(bits: u8, logical: u8)
    requires
        valid_bits(bits),
        logical <= spec_max_priority(bits),
    ensures
        spec_logical_to_hw(bits, logical) == if logical == 0 {
            0
        } else {
            256 - logical * pow2((8 - bits) as nat)
        },
        0 < logical ==> 0 < logical * pow2((8 - bits) as nat) <= 256,
{
    lemma2_to64();
    let step = pow2((8 - bits) as nat) as int;
    let levels = pow2(bits as nat) as int;
    lemma_levels_times_step(bits);
    assert((levels - logical) * step == 256 - logical * step) by (nonlinear_arith)
        requires
            levels * step == 256,
    ;
    if logical > 0 {
        assert(0 < logical * step <= 256) by (nonlinear_arith)
            requires
                0 < logical <= levels,
                levels * step == 256,
                step > 0,
        ;
    }
}

/// Two logical priorities share a code only if they are zero and `2^bits`.
pub proof fn lemma_codes_differ(bits: u8, a: u8, b: u8)
    requires
        valid_bits(bits),
        a < b <= spec_max_priority(bits),
        !(a == 0 && b == spec_max_priority(bits)),
    ensures
        spec_logical_to_hw(bits, a) != spec_logical_to_hw(bits, b),
        0 < a ==> spec_logical_to_hw(bits, a) > spec_logical_to_hw(bits, b),
{
    lemma2_to64();
    lemma_code_value(bits, a);
    lemma_code_value(bits, b);
    lemma_levels_times_step(bits);
    let step = pow2((8 - bits) as nat) as int;
    let levels = pow2(bits as nat) as int;
    assert(a * step < b * step) by (nonlinear_arith)
        requires
            a < b,
            step > 0,
    ;
    if a == 0 {
        assert(b * step < 256) by (nonlinear_arith)
            requires
                b < levels,
                levels * step == 256,
                step > 0,
        ;
    }
}

} // verus!
