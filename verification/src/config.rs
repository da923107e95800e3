//! The configuration: which logical priorities get a ring buffer, and how
//! large, as it is written and as it is checked.

use crate::codec::{
    max_priority, spec_max_priority, valid_bits, MAX_BITS, MIN_BITS, MIN_PRIORITY,
    SYMBOLIC_MAX_PRIORITY,
};
use crate::order::{lemma_same_items_contain, lemma_same_items_grow, lemma_same_items_same_len};
use vstd::arithmetic::power2::lemma2_to64;
use vstd::prelude::*;

verus! {

/// What is wrong with one number of a configuration.
#[derive(Clone, Copy, Debug, PartialEq, Eq, Structural)]
pub enum Fault {
    /// The literal carries a type suffix.
    Suffixed,
    /// The literal is no number that its type can hold.
    Unparsable,
    /// The number lies outside the range that is allowed for it, which runs
    /// from the first of the two numbers given here to the second.
    OutOfRange(usize, usize),
}

/// Why a configuration is refused. An entry is named by its position in the
/// configuration as it was given.
#[derive(Clone, Copy, Debug, PartialEq, Eq, Structural)]
pub enum ConfigError {
    /// The configuration does not start with the name of the width.
    Name,
    /// The width of the priority field is at fault.
    Bits(Fault),
    /// The logical priority of an entry is at fault.
    Priority(usize, Fault),
    /// The capacity of an entry is at fault.
    Size(usize, Fault),
    /// The logical priority of an entry was already given by an earlier one.
    Duplicate(usize),
}

/// What is wrong with entry `i` of a configuration of logical priorities and
/// capacities, the earlier entries taken as given: its priority is above
/// `upper`, or its capacity is zero, or an earlier entry has its priority.
pub open spec fn entry_fault(upper: usize, config: Seq<(u8, nat)>, i: int) -> Option<
    ConfigError,
> {
    if config[i].0 > upper {
        Some(ConfigError::Priority(i as usize, Fault::OutOfRange(MIN_PRIORITY as usize, upper)))
    } else if config[i].1 == 0 {
        Some(ConfigError::Size(i as usize, Fault::OutOfRange(1, usize::MAX)))
    } else if exists|j: int| 0 <= j < i && config[j].0 == config[i].0 {
        Some(ConfigError::Duplicate(i as usize))
    } else {
        None
    }
}

/// `error` is what is wrong with the first entry that has a fault.
pub open spec fn first_fault(upper: usize, config: Seq<(u8, nat)>, error: ConfigError) -> bool {
    exists|i: int|
        0 <= i < config.len() && #[trigger] entry_fault(upper, config, i) == Some(error)
            && forall|j: int| 0 <= j < i ==> (#[trigger] entry_fault(upper, config, j)) is None
}

/// No entry has a fault.
pub open spec fn faultless(upper: usize, config: Seq<(u8, nat)>) -> bool {
    forall|i: int| 0 <= i < config.len() ==> (#[trigger] entry_fault(upper, config, i)) is None
}

/// An integer literal of a configuration: the digits of its value in base 10,
/// and its type suffix, which is empty where it has none.
pub struct Literal {
    pub digits: String,
    pub suffix: String,
}

/// The byte that stands for the digit zero.
const ASCII_ZERO: u8 = 0x30;

/// The byte that stands for the digit nine.
const ASCII_NINE: u8 = 0x39;

/// The character is a decimal digit.
pub open spec fn is_digit(c: char) -> bool {
    '0' <= c <= '9'
}

/// The text is a number in base 10: one digit or more, and nothing else.
pub open spec fn is_decimal(text: Seq<char>) -> bool {
    text.len() > 0 && forall|i: int| 0 <= i < text.len() ==> is_digit(#[trigger] text[i])
}

/// The value of a number in base 10.
pub open spec fn decimal(text: Seq<char>) -> nat
    decreases text.len(),
{
    if text.len() == 0 {
        0
    } else {
        (10 * decimal(text.drop_last()) + (text.last() as u32 - '0' as u32)) as nat
    }
}

/// What a literal stands for, where its type holds numbers up to `max` and
/// the configuration allows those from `lo` to `hi`.
pub open spec fn spec_lit2ux(lit: Literal, max: usize, lo: usize, hi: usize) -> Result<
    usize,
    Fault,
> {
    if lit.suffix@.len() > 0 {
        Err(Fault::Suffixed)
    } else if !is_decimal(lit.digits@) || decimal(lit.digits@) > max {
        Err(Fault::Unparsable)
    } else if decimal(lit.digits@) < lo || decimal(lit.digits@) > hi {
        Err(Fault::OutOfRange(lo, hi))
    } else {
        Ok(decimal(lit.digits@) as usize)
    }
}

/// A longer number is no smaller than the number it starts with.
proof fn lemma_decimal_grows(text: Seq<char>, count: int)
    requires
        0 <= count <= text.len(),
        forall|i: int| 0 <= i < text.len() ==> is_digit(#[trigger] text[i]),
    ensures
        decimal(text.take(count)) <= decimal(text),
    decreases text.len(),
{
    if count < text.len() {
        lemma_decimal_grows(text.drop_last(), count);
        assert(text.drop_last().take(count) =~= text.take(count));
    } else {
        assert(text.take(count) =~= text);
    }
}

/// Reads a literal as a number of a type that holds numbers up to `max`, and
/// holds it to the range from `lo` to `hi`.
pub fn lit2ux(lit: &Literal, max: usize, lo: usize, hi: usize) -> (res: Result<usize, Fault>)
    ensures
        res == spec_lit2ux(*lit, max, lo, hi),
{
    if !lit.suffix.as_str().is_empty() {
        return Err(Fault::Suffixed);
    }
    let digits = lit.digits.as_str();
    if !digits.is_ascii() {
        assert(!is_decimal(digits@)) by {
            if is_decimal(digits@) {
                assert forall|i: int| 0 <= i < digits@.len() implies 128 > (
                #[trigger] digits@[i]) as nat by {
                    assert(is_digit(digits@[i]));
                }
            }
        }
        return Err(Fault::Unparsable);
    }
    let bytes = digits.as_bytes();
    proof {
        vstd::string::is_ascii_spec_bytes(digits);
    }
    if bytes.len() == 0 {
        return Err(Fault::Unparsable);
    }
    let mut value: usize = 0;
    let mut i: usize = 0;
    while i < bytes.len()
        invariant
            i <= bytes@.len() == digits@.len(),
            digits@ == lit.digits@,
            lit.suffix@.len() == 0,
            vstd::utf8::is_ascii_chars(digits@),
            forall|k: int| 0 <= k < bytes@.len() ==> bytes@[k] == (#[trigger] digits@[k]) as u8,
            forall|k: int| 0 <= k < i ==> is_digit(#[trigger] digits@[k]),
            value == decimal(digits@.take(i as int)),
            value <= max,
        decreases bytes@.len() - i,
    {
        let byte = bytes[i];
        assert(byte == digits@[i as int] as u32);
        if byte < ASCII_ZERO || byte > ASCII_NINE {
            return Err(Fault::Unparsable);
        }
        let digit = (byte - ASCII_ZERO) as usize;
        proof {
            assert(digits@.take(i + 1).drop_last() =~= digits@.take(i as int));
            if is_decimal(digits@) {
                lemma_decimal_grows(digits@, i + 1);
            }
        }
        if value > max / 10 || digit > max - value * 10 {
            return Err(Fault::Unparsable);
        }
        value = value * 10 + digit;
        i = i + 1;
    }
    assert(digits@.take(i as int) =~= digits@);
    if value < lo || value > hi {
        Err(Fault::OutOfRange(lo, hi))
    } else {
        Ok(value)
    }
}

/// One entry of a configuration: a logical priority and the capacity of its
/// ring buffer, both as written.
pub struct KeyValue {
    pub priority: Literal,
    pub size: Literal,
}

/// The width of the hardware's priority field as a configuration gives it: a
/// literal, or the path of a constant whose value is not known yet.
pub enum Width {
    Literal(Literal),
    Path,
}

/// A configuration as written: the name that introduces the width, the width,
/// and the entries.
pub struct Input {
    pub nvic_prio_bits: String,
    pub bits: Width,
    pub map: Vec<KeyValue>,
}

/// A configuration that was read and found without fault: the width, where it
/// is known, and the logical priority and capacity of each ring buffer, in
/// rising order of priority.
pub struct Plan {
    pub bits: Option<u8>,
    pub entries: Vec<(u8, usize)>,
}

/// The width that a configuration gives: from one to eight bits where it is a
/// literal, unknown where it is a path.
pub open spec fn width_of(bits: Width) -> Result<Option<u8>, ConfigError> {
    match bits {
        Width::Path => Ok(None),
        Width::Literal(lit) => match spec_lit2ux(
            lit,
            u8::MAX as usize,
            MIN_BITS as usize,
            MAX_BITS as usize,
        ) {
            Ok(bits) => Ok(Some(bits as u8)),
            Err(fault) => Err(ConfigError::Bits(fault)),
        },
    }
}

/// The largest logical priority a configuration may name: `2^bits` where the
/// width is known, but no more than a `u8` holds, and every `u8` where it is
/// not.
pub open spec fn upper_for(bits: Option<u8>) -> usize {
    match bits {
        Some(bits) => if spec_max_priority(bits) <= u8::MAX {
            spec_max_priority(bits) as usize
        } else {
            u8::MAX as usize
        },
        None => SYMBOLIC_MAX_PRIORITY as usize,
    }
}

/// The logical priority and the capacity that entry `i` gives, read on its
/// own: the priority first, then the capacity, which is at least one byte.
pub open spec fn pair_at(upper: usize, map: Seq<KeyValue>, i: int) -> Result<
    (u8, usize),
    ConfigError,
> {
    match spec_lit2ux(map[i].priority, u8::MAX as usize, MIN_PRIORITY as usize, upper) {
        Err(fault) => Err(ConfigError::Priority(i as usize, fault)),
        Ok(priority) => match spec_lit2ux(map[i].size, usize::MAX, 1, usize::MAX) {
            Err(fault) => Err(ConfigError::Size(i as usize, fault)),
            Ok(size) => Ok((priority as u8, size)),
        },
    }
}

/// The logical priority that entry `i` gives, read on its own, if it gives
/// one.
pub open spec fn priority_at(upper: usize, map: Seq<KeyValue>, i: int) -> Option<u8> {
    match pair_at(upper, map, i) {
        Ok(pair) => Some(pair.0),
        Err(_) => None,
    }
}

/// An entry before entry `i` gives this logical priority.
pub open spec fn named_before(upper: usize, map: Seq<KeyValue>, i: int, priority: u8) -> bool {
    exists|j: int| 0 <= j < i && #[trigger] priority_at(upper, map, j) == Some(priority)
}

/// What entry `i` gives after the entries before it: what it gives on its own,
/// unless one of them gave its priority.
pub open spec fn entry_at(upper: usize, map: Seq<KeyValue>, i: int) -> Result<
    (u8, usize),
    ConfigError,
> {
    match pair_at(upper, map, i) {
        Err(error) => Err(error),
        Ok(pair) => if named_before(upper, map, i, pair.0) {
            Err(ConfigError::Duplicate(i as usize))
        } else {
            Ok(pair)
        },
    }
}

/// What the entries of a configuration give, one after the other, where none
/// of them is at fault.
pub open spec fn wanted(upper: usize, map: Seq<KeyValue>) -> Seq<(u8, usize)> {
    Seq::new(map.len(), |i: int| entry_at(upper, map, i)->Ok_0)
}

/// The name that introduces the width of the priority field.
pub open spec fn width_name() -> Seq<char> {
    "NVIC_PRIO_BITS"@
}

/// `error` is the first thing wrong with the configuration: its name, else
/// its width, else the first entry that is at fault.
pub open spec fn refuses(input: Input, error: ConfigError) -> bool {
    if input.nvic_prio_bits@ != width_name() {
        error == ConfigError::Name
    } else {
        match width_of(input.bits) {
            Err(fault) => error == fault,
            Ok(bits) => exists|i: int|
                0 <= i < input.map@.len() && (#[trigger] entry_at(
                    upper_for(bits),
                    input.map@,
                    i,
                )) == Err::<(u8, usize), ConfigError>(error) && forall|j: int|
                    0 <= j < i ==> (#[trigger] entry_at(upper_for(bits), input.map@, j)) is Ok,
        }
    }
}

/// `plan` is what the configuration asks for: it has no fault, and the plan
/// holds its width and what its entries give, in rising order of priority.
pub open spec fn plans(input: Input, plan: Plan) -> bool {
    &&& input.nvic_prio_bits@ == width_name()
    &&& width_of(input.bits) == Ok::<Option<u8>, ConfigError>(plan.bits)
    &&& forall|i: int|
        0 <= i < input.map@.len() ==> (#[trigger] entry_at(
            upper_for(plan.bits),
            input.map@,
            i,
        )) is Ok
    &&& forall|a: int, b: int|
        0 <= a < b < plan.entries@.len() ==> (#[trigger] plan.entries@[a]).0 < (
        #[trigger] plan.entries@[b]).0
    &&& plan.entries@.to_multiset() == wanted(upper_for(plan.bits), input.map@).to_multiset()
}

/// The entries are what the first `count` entries of the configuration give,
/// in rising order of priority.
spec fn built(upper: usize, map: Seq<KeyValue>, count: int, entries: Seq<(u8, usize)>) -> bool {
    &&& forall|j: int| 0 <= j < count ==> (#[trigger] entry_at(upper, map, j)) is Ok
    &&& forall|a: int, b: int|
        0 <= a < b < entries.len() ==> (#[trigger] entries[a]).0 < (#[trigger] entries[b]).0
    &&& entries.to_multiset() == wanted(upper, map).take(count).to_multiset()
}

/// Where the entries hold a priority, an entry of the configuration so far
/// gave it.
proof fn lemma_built_taken(
    upper: usize,
    map: Seq<KeyValue>,
    count: int,
    entries: Seq<(u8, usize)>,
    at: int,
)
    requires
        built(upper, map, count, entries),
        0 <= count <= map.len(),
        0 <= at < entries.len(),
    ensures
        named_before(upper, map, count, entries[at].0),
{
    let given = wanted(upper, map).take(count);
    lemma_same_items_contain(entries, given, entries[at]);
    let j = choose|j: int| 0 <= j < count && given[j] == entries[at];
    assert(entry_at(upper, map, j) is Ok);
    assert(priority_at(upper, map, j) == Some(entries[at].0));
}

/// Where the entries hold no priority between two neighbours, no entry of the
/// configuration so far gave one.
proof fn lemma_built_free(
    upper: usize,
    map: Seq<KeyValue>,
    count: int,
    entries: Seq<(u8, usize)>,
    at: int,
    priority: u8,
)
    requires
        built(upper, map, count, entries),
        0 <= count <= map.len(),
        0 <= at <= entries.len(),
        forall|a: int| 0 <= a < at ==> (#[trigger] entries[a]).0 < priority,
        at < entries.len() ==> entries[at].0 > priority,
    ensures
        !named_before(upper, map, count, priority),
{
    if named_before(upper, map, count, priority) {
        let given = wanted(upper, map).take(count);
        let j = choose|j: int|
            0 <= j < count && #[trigger] priority_at(upper, map, j) == Some(priority);
        assert(entry_at(upper, map, j) is Ok);
        assert(given[j].0 == priority);
        lemma_same_items_contain(given, entries, given[j]);
        let a = choose|a: int| 0 <= a < entries.len() && entries[a] == given[j];
        if a >= at {
            assert(entries[at].0 <= entries[a].0);
        }
    }
}

/// A pair put between its neighbours keeps the entries built.
proof fn lemma_built_grows(
    upper: usize,
    map: Seq<KeyValue>,
    count: int,
    entries: Seq<(u8, usize)>,
    at: int,
    pair: (u8, usize),
)
    requires
        built(upper, map, count, entries),
        0 <= count < map.len(),
        0 <= at <= entries.len(),
        forall|a: int| 0 <= a < at ==> (#[trigger] entries[a]).0 < pair.0,
        at < entries.len() ==> entries[at].0 > pair.0,
        entry_at(upper, map, count) == Ok::<(u8, usize), ConfigError>(pair),
    ensures
        built(upper, map, count + 1, entries.insert(at, pair)),
{
    let grown = entries.insert(at, pair);
    assert forall|a: int, b: int| 0 <= a < b < grown.len() implies (#[trigger] grown[a]).0 < (
    #[trigger] grown[b]).0 by {
        if b > at {
            assert(entries[at].0 <= entries[b - 1].0);
        }
    }
    lemma_same_items_grow(entries, wanted(upper, map), count, at);
}

/// Reads a configuration as written: checks its name, its width and each
/// entry in turn, and puts the entries in rising order of priority.
pub fn compile(input: &Input) -> (res: Result<Plan, ConfigError>)
    ensures
        match res {
            Ok(plan) => plans(*input, plan) && plan.entries@.len() == input.map@.len(),
            Err(error) => refuses(*input, error),
        },
{
    let expected = "NVIC_PRIO_BITS".to_owned();
    if !(input.nvic_prio_bits == expected) {
        return Err(ConfigError::Name);
    }
    let bits: Option<u8> = match &input.bits {
        Width::Path => None,
        Width::Literal(lit) => match lit2ux(
            lit,
            u8::MAX as usize,
            MIN_BITS as usize,
            MAX_BITS as usize,
        ) {
            Ok(bits) => Some(bits as u8),
            Err(fault) => {
                return Err(ConfigError::Bits(fault));
            },
        },
    };
    let upper: usize = match bits {
        Some(bits) => {
            let levels = max_priority(bits);
            if levels <= u8::MAX as u16 {
                levels as usize
            } else {
                u8::MAX as usize
            }
        },
        None => SYMBOLIC_MAX_PRIORITY as usize,
    };
    let mut entries: Vec<(u8, usize)> = Vec::new();
    let mut i: usize = 0;
    assert(entries@ =~= wanted(upper, input.map@).take(0));
    while i < input.map.len()
        invariant
            i <= input.map@.len(),
            input.nvic_prio_bits@ == width_name(),
            width_of(input.bits) == Ok::<Option<u8>, ConfigError>(bits),
            upper == upper_for(bits),
            built(upper, input.map@, i as int, entries@),
        decreases input.map@.len() - i,
    {
        let priority = match lit2ux(
            &input.map[i].priority,
            u8::MAX as usize,
            MIN_PRIORITY as usize,
            upper,
        ) {
            Ok(priority) => priority as u8,
            Err(fault) => {
                assert(entry_at(upper, input.map@, i as int) == Err::<(u8, usize), ConfigError>(
                    ConfigError::Priority(i, fault),
                ));
                return Err(ConfigError::Priority(i, fault));
            },
        };
        let size = match lit2ux(&input.map[i].size, usize::MAX, 1, usize::MAX) {
            Ok(size) => size,
            Err(fault) => {
                assert(entry_at(upper, input.map@, i as int) == Err::<(u8, usize), ConfigError>(
                    ConfigError::Size(i, fault),
                ));
                return Err(ConfigError::Size(i, fault));
            },
        };
        let mut at: usize = 0;
        while at < entries.len() && entries[at].0 < priority
            invariant
                at <= entries@.len(),
                forall|a: int| 0 <= a < at ==> (#[trigger] entries@[a]).0 < priority,
            decreases entries@.len() - at,
        {
            at = at + 1;
        }
        if at < entries.len() && entries[at].0 == priority {
            proof {
                lemma_built_taken(upper, input.map@, i as int, entries@, at as int);
            }
            assert(entry_at(upper, input.map@, i as int) == Err::<(u8, usize), ConfigError>(
                ConfigError::Duplicate(i),
            ));
            return Err(ConfigError::Duplicate(i));
        }
        proof {
            lemma_built_free(upper, input.map@, i as int, entries@, at as int, priority);
            lemma_built_grows(upper, input.map@, i as int, entries@, at as int, (priority, size));
        }
        entries.insert(at, (priority, size));
        i = i + 1;
    }
    proof {
        assert(wanted(upper, input.map@).take(i as int) =~= wanted(upper, input.map@));
        lemma_same_items_same_len(entries@, wanted(upper, input.map@));
    }
    Ok(Plan { bits, entries })
}

/// The logical priorities and capacities of a plan, as a table is built from
/// them.
pub open spec fn plan_shape(entries: Seq<(u8, usize)>) -> Seq<(u8, nat)> {
    Seq::new(entries.len(), |i: int| (entries[i].0, entries[i].1 as nat))
}

/// What was planned can be built: where the width of a plan is known, it is
/// one the hardware can have, and ring buffers of the planned capacities under
/// the planned priorities make a table without fault.
pub proof fn lemma_plan_is_faultless(input: Input, plan: Plan)
    requires
        plans(input, plan),
        plan.bits is Some,
    ensures
        valid_bits(plan.bits->Some_0),
        faultless(spec_max_priority(plan.bits->Some_0) as usize, plan_shape(plan.entries@)),
{
    let bits = plan.bits->Some_0;
    let upper = upper_for(plan.bits);
    let config = plan_shape(plan.entries@);
    lemma2_to64();
    assert forall|a: int| 0 <= a < config.len() implies (#[trigger] entry_fault(
        spec_max_priority(bits) as usize,
        config,
        a,
    )) is None by {
        let given = wanted(upper, input.map@);
        lemma_same_items_contain(plan.entries@, given, plan.entries@[a]);
        let j = choose|j: int| 0 <= j < given.len() && given[j] == plan.entries@[a];
        assert(entry_at(upper, input.map@, j) is Ok);
        assert forall|b: int| 0 <= b < a implies config[b].0 != config[a].0 by {
            assert(plan.entries@[b].0 < plan.entries@[a].0);
        }
    }
}

} // verus!
