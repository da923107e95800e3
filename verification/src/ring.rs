//! The ring buffer as mathematics: its state, what a write and a read do to
//! it, and the laws that follow.

use vstd::arithmetic::div_mod::{
    lemma_add_mod_noop_right, lemma_fundamental_div_mod, lemma_mod_multiples_basic,
    lemma_mod_multiples_vanish, lemma_small_mod, lemma_sub_mod_noop,
};
use vstd::arithmetic::power2::{
    lemma2_to64, lemma2_to64_rest, lemma_pow2_adds, lemma_pow2_pos, pow2,
};
use vstd::math::min;
use vstd::prelude::*;

verus! {

/// Why a ring buffer refused a message.
#[derive(Clone, Copy, Debug, PartialEq, Eq, Structural)]
pub enum WriteError {
    /// The message is longer than the whole buffer, so it can never be stored.
    MessageTooLarge,
    /// The message would fit an empty buffer, but not the space that is free now.
    Full,
}

/// The number of values a cursor can take; cursors count modulo this.
pub open spec fn cursor_range() -> int {
    usize::MAX + 1
}

/// A cursor moved forward by `n` bytes, wrapping past the largest `usize`.
pub open spec fn advance(cursor: usize, n: nat) -> usize {
    (if cursor + n < cursor_range() {
        cursor + n
    } else {
        cursor + n - cursor_range()
    }) as usize
}

/// The mathematical state of a ring buffer: its storage and its two cursors.
pub struct Ring {
    pub storage: Seq<u8>,
    pub write: usize,
    pub read: usize,
}

impl Ring {
    /// The fixed number of bytes the storage holds.
    pub open spec fn capacity(self) -> nat {
        self.storage.len()
    }

    /// The number of unread bytes: the wrapping difference of the cursors.
    pub open spec fn used(self) -> nat {
        (if self.write >= self.read {
            self.write - self.read
        } else {
            self.write - self.read + cursor_range()
        }) as nat
    }

    /// The unread bytes never outnumber the storage, whose size a `usize` can hold.
    pub open spec fn wf(self) -> bool {
        self.used() <= self.capacity() <= usize::MAX
    }

    /// The storage index a cursor stands for.
    pub open spec fn slot(self, cursor: usize) -> int {
        cursor as int % self.capacity() as int
    }

    /// The unread bytes, oldest first, as a reader finds them: `used()` bytes that
    /// start at the read cursor's slot and continue round the end of the storage.
    pub open spec fn unread(self) -> Seq<u8> {
        Seq::new(
            self.used(),
            |i: int| self.storage[(self.slot(self.read) + i) % self.capacity() as int],
        )
    }

    /// The writer continues exactly where the unread bytes end.
    pub open spec fn in_step(self) -> bool {
        self.capacity() > 0 ==> (self.slot(self.read) + self.used()) % self.capacity() as int
            == self.slot(self.write)
    }

    /// What becomes of a message of `len` bytes: it is too large if the storage
    /// could never hold it, as any message is for a storage of no bytes; the buffer
    /// is full if only the unread bytes are in its way; otherwise it is taken.
    pub open spec fn admits(self, len: nat) -> Result<(), WriteError> {
        if self.capacity() == 0 || len > self.capacity() {
            Err(WriteError::MessageTooLarge)
        } else if self.capacity() < len + self.used() {
            Err(WriteError::Full)
        } else {
            Ok(())
        }
    }

    /// A message of `len` bytes is accepted now.
    pub open spec fn accepts(self, len: nat) -> bool {
        self.admits(len) is Ok
    }

    /// The state after a message was accepted: its bytes stand in the storage from
    /// the write cursor's slot on, round the end, and the write cursor has moved
    /// past them.
    pub open spec fn push(self, bytes: Seq<u8>) -> Ring {
        Ring {
            storage: Seq::new(
                self.storage.len(),
                |k: int|
                    {
                        let j = (k - self.slot(self.write)) % self.capacity() as int;
                        if j < bytes.len() {
                            bytes[j]
                        } else {
                            self.storage[k]
                        }
                    },
            ),
            write: advance(self.write, bytes.len()),
            read: self.read,
        }
    }

    /// The state after `n` bytes were read: only the read cursor has moved.
    pub open spec fn pop(self, n: nat) -> Ring {
        Ring { storage: self.storage, write: self.write, read: advance(self.read, n) }
    }
}

/// One call on a ring buffer: a message offered to it, or a read into a buffer
/// with room for so many bytes.
pub enum Step {
    Write(Seq<u8>),
    Read(nat),
}

impl Ring {
    /// The state after one call: a message is stored if it is accepted and
    /// changes nothing if it is not; a read takes the oldest unread bytes, as
    /// many as there is room for.
    pub open spec fn step(self, step: Step) -> Ring {
        match step {
            Step::Write(bytes) => if self.accepts(bytes.len()) {
                self.push(bytes)
            } else {
                self
            },
            Step::Read(room) => self.pop(min(room as int, self.used() as int) as nat),
        }
    }

    /// The state after a sequence of calls, each made on the state that the one
    /// before it left.
    pub open spec fn run(self, steps: Seq<Step>) -> Ring
        decreases steps.len(),
    {
        if steps.len() == 0 {
            self
        } else {
            self.run(steps.drop_last()).step(steps.last())
        }
    }
}

/// What one call does to a queue without end that holds at most `capacity`
/// bytes: a message that fits is appended, a read takes bytes from the front.
pub open spec fn queue_step(queue: Seq<u8>, capacity: nat, step: Step) -> Seq<u8> {
    match step {
        Step::Write(bytes) => if capacity > 0 && queue.len() + bytes.len() <= capacity {
            queue + bytes
        } else {
            queue
        },
        Step::Read(room) => queue.skip(min(room as int, queue.len() as int)),
    }
}

/// What a sequence of calls does to a queue without end.
pub open spec fn queue_run(queue: Seq<u8>, capacity: nat, steps: Seq<Step>) -> Seq<u8>
    decreases steps.len(),
{
    if steps.len() == 0 {
        queue
    } else {
        queue_step(queue_run(queue, capacity, steps.drop_last()), capacity, steps.last())
    }
}

/// The number of bytes that a sequence of calls offers to a ring buffer.
pub open spec fn offered(steps: Seq<Step>) -> nat
    decreases steps.len(),
{
    if steps.len() == 0 {
        0
    } else {
        offered(steps.drop_last()) + match steps.last() {
            Step::Write(bytes) => bytes.len(),
            Step::Read(_) => 0,
        }
    }
}

/// The capacity divides the cursor range, so a cursor that wraps past the largest
/// `usize` lands on the slot that follows.
pub open spec fn wraps_evenly(capacity: nat) -> bool {
    capacity > 0 && cursor_range() % capacity as int == 0
}

/// Every power of two that a `usize` can count up to divides the cursor range.
pub proof fn lemma_power_of_two_wraps_evenly(exponent: nat)
    requires
        exponent <= usize::BITS,
    ensures
        wraps_evenly(pow2(exponent)),
{
    let rest = (usize::BITS - exponent) as nat;
    lemma2_to64();
    lemma2_to64_rest();
    vstd::layout::unsigned_int_max_values();
    assert(cursor_range() == pow2(usize::BITS as nat));
    lemma_pow2_adds(rest, exponent);
    lemma_pow2_pos(exponent);
    lemma_mod_multiples_basic(pow2(rest) as int, pow2(exponent) as int);
}

/// Moving `cursor` by `n` moves its slot by `n`, round the end of the storage.
pub open spec fn steps_evenly(capacity: nat, cursor: usize, n: nat) -> bool {
    capacity > 0 ==> advance(cursor, n) as int % capacity as int == (cursor as int
        % capacity as int + n) % capacity as int
}

/// Within one capacity of zero either way, the remainder is found by at most one
/// correction.
pub proof fn lemma_mod_window(x: int, m: int)
    requires
        m > 0,
        -m <= x < 2 * m,
    ensures
        x % m == if x < 0 {
            x + m
        } else if x < m {
            x
        } else {
            x - m
        },
{
    if x < 0 {
        lemma_small_mod((x + m) as nat, m as nat);
        lemma_mod_multiples_vanish(-1, x + m, m);
    } else if x < m {
        lemma_small_mod(x as nat, m as nat);
    } else {
        lemma_small_mod((x - m) as nat, m as nat);
        lemma_mod_multiples_vanish(1, x - m, m);
    }
}

/// A cursor steps evenly when it does not pass the largest `usize`, and always
/// when the capacity divides the cursor range.
pub proof fn lemma_steps_evenly(capacity: nat, cursor: usize, n: nat)
    requires
        n <= usize::MAX,
        wraps_evenly(capacity) || cursor + n <= usize::MAX,
    ensures
        steps_evenly(capacity, cursor, n),
{
    if capacity > 0 {
        let m = capacity as int;
        lemma_add_mod_noop_right(n as int, cursor as int, m);
        if cursor + n > usize::MAX {
            let q = cursor_range() / m;
            lemma_fundamental_div_mod(cursor_range(), m);
            assert(m * (-q) == -(m * q)) by (nonlinear_arith);
            lemma_mod_multiples_vanish(-q, cursor + n, m);
        }
    }
}

/// With a capacity that divides the cursor range the cursors are always in step.
pub proof fn lemma_even_capacity_in_step(r: Ring)
    requires
        r.wf(),
        wraps_evenly(r.capacity()),
    ensures
        r.in_step(),
{
    let m = r.capacity() as int;
    lemma_add_mod_noop_right(r.used() as int, r.read as int, m);
    if r.write < r.read {
        let q = cursor_range() / m;
        lemma_fundamental_div_mod(cursor_range(), m);
        lemma_mod_multiples_vanish(q, r.write as int, m);
    }
}

/// While the write cursor has not wrapped past the read cursor (an empty buffer
/// included) the cursors are in step, whatever the capacity.
pub proof fn lemma_ordered_cursors_in_step(r: Ring)
    requires
        r.read <= r.write,
    ensures
        r.in_step(),
{
    if r.capacity() > 0 {
        lemma_add_mod_noop_right(r.used() as int, r.read as int, r.capacity() as int);
    }
}

/// The capacity invariant: an accepted message adds its length to the unread
/// count, a read takes its length away, and neither leaves more unread bytes
/// than the storage holds. The storage never changes size.
pub proof fn lemma_capacity_invariant(r: Ring, bytes: Seq<u8>, n: nat)
    requires
        r.wf(),
    ensures
        r.accepts(bytes.len()) ==> r.push(bytes).wf() && r.push(bytes).used() == r.used()
            + bytes.len(),
        n <= r.used() ==> r.pop(n).wf() && r.pop(n).used() == r.used() - n,
        r.push(bytes).capacity() == r.capacity(),
        r.pop(n).capacity() == r.capacity(),
{
}

/// No torn records: when the cursors are in step, an accepted message follows
/// the bytes that were unread before it, whole and in order, wherever in the
/// storage it landed. Written to an empty buffer, it is all there is to read.
pub proof fn lemma_push_appends(r: Ring, bytes: Seq<u8>)
    requires
        r.wf(),
        r.in_step(),
        r.accepts(bytes.len()),
    ensures
        r.push(bytes).unread() == r.unread() + bytes,
        r.push(bytes).unread().take(r.used() as int) == r.unread(),
        r.used() == 0 ==> r.push(bytes).unread() == bytes,
{
    let m = r.capacity() as int;
    let u = r.used() as int;
    let start = r.slot(r.read);
    let p = r.push(bytes);
    lemma_capacity_invariant(r, bytes, 0);
    assert forall|i: int| 0 <= i < u + bytes.len() implies p.unread()[i] == (r.unread()
        + bytes)[i] by {
        let k = (start + i) % m;
        lemma_sub_mod_noop(start + i, start + u, m);
        lemma_mod_window(i - u, m);
    }
    assert(p.unread() =~= r.unread() + bytes);
    assert((r.unread() + bytes).take(u) =~= r.unread());
    if u == 0 {
        assert(r.unread() + bytes =~= bytes);
    }
}

/// A read of `n` bytes leaves the bytes after them unread and in order, when
/// the read cursor steps evenly over what was read.
pub proof fn lemma_pop_skips(r: Ring, n: nat)
    requires
        r.wf(),
        n <= r.used(),
        steps_evenly(r.capacity(), r.read, n),
    ensures
        r.pop(n).unread() == r.unread().skip(n as int),
{
    let m = r.capacity() as int;
    let p = r.pop(n);
    lemma_capacity_invariant(r, Seq::empty(), n);
    assert forall|i: int| 0 <= i < r.used() - n implies p.unread()[i] == r.unread().skip(
        n as int,
    )[i] by {
        lemma_add_mod_noop_right(i, r.slot(r.read) + n, m);
        lemma_add_mod_noop_right(i, p.read as int, m);
    }
    assert(p.unread() =~= r.unread().skip(n as int));
}

/// An accepted message leaves the cursors in step when the write cursor steps
/// evenly over it.
pub proof fn lemma_push_in_step(r: Ring, bytes: Seq<u8>)
    requires
        r.wf(),
        r.in_step(),
        r.accepts(bytes.len()),
        steps_evenly(r.capacity(), r.write, bytes.len()),
    ensures
        r.push(bytes).in_step(),
{
    let m = r.capacity() as int;
    lemma_capacity_invariant(r, bytes, 0);
    lemma_add_mod_noop_right(bytes.len() as int, r.slot(r.read) + r.used(), m);
}

/// A read leaves the cursors in step when the read cursor steps evenly over
/// what was read.
pub proof fn lemma_pop_in_step(r: Ring, n: nat)
    requires
        r.wf(),
        r.in_step(),
        n <= r.used(),
        steps_evenly(r.capacity(), r.read, n),
    ensures
        r.pop(n).in_step(),
{
    if r.capacity() > 0 {
        let m = r.capacity() as int;
        lemma_capacity_invariant(r, Seq::empty(), n);
        lemma_add_mod_noop_right(r.used() - n, r.slot(r.read) + n, m);
        lemma_add_mod_noop_right(r.used() - n, r.pop(n).read as int, m);
    }
}

/// A message that is accepted while a read is under way, after the reader has
/// looked at the cursors and before it moves its own, does the reader no harm:
/// the bytes being read are untouched, and the outcome is that of the read
/// followed by the write.
pub proof fn lemma_write_during_read(r: Ring, bytes: Seq<u8>, n: nat)
    requires
        r.wf(),
        r.in_step(),
        r.accepts(bytes.len()),
        n <= r.used(),
    ensures
        r.push(bytes).unread().take(n as int) == r.unread().take(n as int),
        r.pop(n).accepts(bytes.len()),
        r.push(bytes).pop(n) == r.pop(n).push(bytes),
{
    lemma_push_appends(r, bytes);
    lemma_capacity_invariant(r, bytes, n);
    assert((r.unread() + bytes).take(n as int) =~= r.unread().take(n as int));
    assert(r.push(bytes).pop(n).storage =~= r.pop(n).push(bytes).storage);
}

/// Reading nothing, as from an empty buffer, changes nothing.
pub proof fn lemma_pop_nothing(r: Ring)
    ensures
        r.pop(0) == r,
{
}

/// The capacity invariant over every sequence of writes and reads: the
/// unread bytes never outnumber the storage, which never changes size.
pub proof fn lemma_run_keeps_capacity(r: Ring, steps: Seq<Step>)
    requires
        r.wf(),
    ensures
        r.run(steps).wf(),
        r.run(steps).capacity() == r.capacity(),
    decreases steps.len(),
{
    if steps.len() > 0 {
        let before = r.run(steps.drop_last());
        lemma_run_keeps_capacity(r, steps.drop_last());
        match steps.last() {
            Step::Write(bytes) => lemma_capacity_invariant(before, bytes, 0),
            Step::Read(room) => lemma_capacity_invariant(
                before,
                Seq::empty(),
                min(room as int, before.used() as int) as nat,
            ),
        }
    }
}

/// A ring buffer is a queue without end: one call appends a message to the
/// unread bytes or takes bytes from their front, wherever the cursors stand in
/// the storage. This holds where the capacity divides the cursor range, and for
/// every capacity while the write cursor has not wrapped past the read cursor.
pub proof fn lemma_step_is_queue_step(r: Ring, step: Step)
    requires
        r.wf(),
        wraps_evenly(r.capacity()) || r.read <= r.write,
    ensures
        r.step(step).unread() == queue_step(r.unread(), r.capacity(), step),
{
    if wraps_evenly(r.capacity()) {
        lemma_even_capacity_in_step(r);
    } else {
        lemma_ordered_cursors_in_step(r);
    }
    match step {
        Step::Write(bytes) => {
            if r.accepts(bytes.len()) {
                lemma_push_appends(r, bytes);
            }
        },
        Step::Read(room) => {
            let n = min(room as int, r.used() as int) as nat;
            lemma_steps_evenly(r.capacity(), r.read, n);
            lemma_pop_skips(r, n);
        },
    }
}

/// Every sequence of writes and reads leaves unread what it would leave in a
/// queue without end. This holds where the capacity divides the cursor range,
/// and for every capacity as long as the bytes offered do not take the write
/// cursor past the largest `usize`.
pub proof fn lemma_run_is_queue_run(r: Ring, steps: Seq<Step>)
    requires
        r.wf(),
        wraps_evenly(r.capacity()) || (r.read <= r.write && r.write + offered(steps)
            <= usize::MAX),
    ensures
        r.run(steps).unread() == queue_run(r.unread(), r.capacity(), steps),
        !wraps_evenly(r.capacity()) ==> r.run(steps).read <= r.run(steps).write <= r.write
            + offered(steps),
    decreases steps.len(),
{
    if steps.len() > 0 {
        lemma_run_is_queue_run(r, steps.drop_last());
        lemma_run_keeps_capacity(r, steps.drop_last());
        lemma_step_is_queue_step(r.run(steps.drop_last()), steps.last());
    }
}

} // verus!
