use funnel::codec::{
    logical_to_hw, max_priority, MAX_BITS, MIN_BITS, MIN_PRIORITY, SYMBOLIC_MAX_PRIORITY,
};
use funnel::nvic::{active_interrupt, priority_byte, priority_word, FIRST_INTERRUPT};

#[test]
fn codes_of_a_three_bit_controller() {
    assert_eq!(logical_to_hw(3, 1), 224);
    assert_eq!(logical_to_hw(3, 2), 192);
    assert_eq!(logical_to_hw(3, 3), 160);
    assert_eq!(logical_to_hw(3, 7), 32);
    assert_eq!(logical_to_hw(3, 8), 0);
}

#[test]
fn priority_zero_has_the_code_zero() {
    for bits in MIN_BITS..=MAX_BITS {
        assert_eq!(logical_to_hw(bits, 0), 0);
    }
}

#[test]
fn codes_of_other_widths() {
    assert_eq!(logical_to_hw(1, 1), 128);
    assert_eq!(logical_to_hw(1, 2), 0);
    assert_eq!(logical_to_hw(2, 1), 192);
    assert_eq!(logical_to_hw(2, 3), 64);
    assert_eq!(logical_to_hw(4, 1), 240);
    assert_eq!(logical_to_hw(4, 15), 16);
    assert_eq!(logical_to_hw(8, 1), 255);
    assert_eq!(logical_to_hw(8, 255), 1);
}

#[test]
fn the_code_is_the_formula_kept_to_eight_bits() {
    for bits in MIN_BITS..=MAX_BITS {
        for logical in 0..=max_priority(bits).min(255) {
            let wide = ((1u32 << bits) - logical as u32) << (8 - bits);
            assert_eq!(logical_to_hw(bits, logical as u8) as u32, wide & 0xff);
        }
    }
}

#[test]
fn a_more_urgent_priority_has_a_smaller_code() {
    for bits in MIN_BITS..=MAX_BITS {
        let top = max_priority(bits).min(255) as u8;
        for logical in 1..top {
            assert!(logical_to_hw(bits, logical) > logical_to_hw(bits, logical + 1));
        }
    }
}

#[test]
fn the_bounds_of_a_configuration() {
    assert_eq!(MIN_BITS, 1);
    assert_eq!(MAX_BITS, 8);
    assert_eq!(MIN_PRIORITY, 0);
    assert_eq!(SYMBOLIC_MAX_PRIORITY, 255);
    assert_eq!(max_priority(1), 2);
    assert_eq!(max_priority(3), 8);
    assert_eq!(max_priority(8), 256);
}

#[test]
fn the_active_interrupt_is_counted_from_the_first_interrupt() {
    assert_eq!(FIRST_INTERRUPT, 16);
    assert_eq!(active_interrupt(0), None);
    assert_eq!(active_interrupt(2), None);
    assert_eq!(active_interrupt(15), None);
    assert_eq!(active_interrupt(16), Some(0));
    assert_eq!(active_interrupt(17), Some(1));
    assert_eq!(active_interrupt(255), Some(239));
    assert_eq!(active_interrupt(0x100), None);
    assert_eq!(active_interrupt(0xffff_ff20), Some(16));
}

#[test]
fn four_priorities_share_a_register() {
    assert_eq!(priority_word(0), 0);
    assert_eq!(priority_word(3), 0);
    assert_eq!(priority_word(4), 1);
    assert_eq!(priority_word(239), 59);
    assert_eq!(priority_byte(0x4433_2211, 0), 0x11);
    assert_eq!(priority_byte(0x4433_2211, 1), 0x22);
    assert_eq!(priority_byte(0x4433_2211, 2), 0x33);
    assert_eq!(priority_byte(0x4433_2211, 3), 0x44);
    assert_eq!(priority_byte(0x4433_2211, 4), 0x11);
    assert_eq!(priority_byte(0x4433_2211, 239), 0x44);
}
