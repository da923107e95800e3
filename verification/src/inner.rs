//! The ring buffer itself: storage, two cursors, and the two operations on
//! them.

use crate::ring::{
    lemma_mod_window, lemma_pop_nothing, lemma_pop_skips, lemma_push_appends, steps_evenly, Ring,
    WriteError,
};
use vstd::math::min;
use vstd::prelude::*;

verus! {

/// A ring buffer: fixed storage with a write cursor and a read cursor that only
/// ever move forward, wrapping past the largest `usize`.
///
/// Writing and reading each take `&mut self`, so a writer and a reader never
/// overlap: every call runs to its end on a state that no one else is changing.
///
/// A cursor stands for the storage index that is its remainder by the
/// capacity. With a capacity that is a power of two this index moves on evenly
/// when a cursor wraps; with any other capacity it jumps there, and a record
/// that is unread at that moment may be read wrongly. See
/// [`lemma_run_is_queue_run`](crate::ring::lemma_run_is_queue_run) for what
/// holds of every capacity.
pub struct Inner {
    write: usize,
    read: usize,
    buffer: Vec<u8>,
}

impl View for Inner {
    type V = Ring;

    closed spec fn view(&self) -> Ring {
        Ring { storage: self.buffer@, write: self.write, read: self.read }
    }
}

impl Inner {
    #[verifier::type_invariant]
    spec fn inv(&self) -> bool {
        self@.wf()
    }

    /// A ring buffer over `buffer`, empty, with both cursors at zero.
    pub fn new(buffer: Vec<u8>) -> (ring: Self)
        ensures
            ring@ == (Ring { storage: buffer@, write: 0, read: 0 }),
            ring@.wf(),
    {
        assert(buffer@.len() == buffer.len());
        Inner { write: 0, read: 0, buffer }
    }

    /// A ring buffer over `buffer`, empty, with both cursors at `cursor`: only
    /// the difference of the cursors counts, so any common start will do.
    pub fn starting_at(buffer: Vec<u8>, cursor: usize) -> (ring: Self)
        ensures
            ring@ == (Ring { storage: buffer@, write: cursor, read: cursor }),
            ring@.wf(),
    {
        assert(buffer@.len() == buffer.len());
        Inner { write: cursor, read: cursor, buffer }
    }

    /// The number of bytes the storage holds.
    pub fn capacity(&self) -> (capacity: usize)
        ensures
            capacity == self@.capacity(),
            self@.wf(),
    {
        proof {
            use_type_invariant(self);
        }
        self.buffer.len()
    }

    /// The number of unread bytes, which is never more than the capacity.
    pub fn len(&self) -> (len: usize)
        ensures
            len == self@.used(),
            self@.wf(),
    {
        proof {
            use_type_invariant(self);
        }
        self.write.wrapping_sub(self.read)
    }

    /// Nothing is unread.
    pub fn is_empty(&self) -> (empty: bool)
        ensures
            empty == (self@.used() == 0),
    {
        self.write == self.read
    }

    /// The write cursor.
    pub fn write_cursor(&self) -> (cursor: usize)
        ensures
            cursor == self@.write,
    {
        self.write
    }

    /// The read cursor.
    pub fn read_cursor(&self) -> (cursor: usize)
        ensures
            cursor == self@.read,
    {
        self.read
    }

    /// The storage as it lies in memory, read and unread bytes alike.
    pub fn storage(&self) -> (storage: &[u8])
        ensures
            storage@ == self@.storage,
    {
        self.buffer.as_slice()
    }

    /// Stores `bytes` as one record, or nothing at all: a message that is
    /// refused leaves the storage and the cursors as they were. Where the
    /// cursors are in step, an accepted message follows the bytes that were
    /// unread before it.
    pub fn write(&mut self, bytes: &[u8]) -> (res: Result<(), WriteError>)
        ensures
            res == old(self)@.admits(bytes@.len()),
            final(self)@ == if res is Ok {
                old(self)@.push(bytes@)
            } else {
                old(self)@
            },
            final(self)@.wf(),
            res is Ok && old(self)@.in_step() ==> final(self)@.unread() == old(self)@.unread()
                + bytes@,
    {
        proof {
            use_type_invariant(&*self);
        }
        let blen = self.buffer.len();
        let ilen = bytes.len();
        if blen == 0 || ilen > blen {
            return Err(WriteError::MessageTooLarge);
        }
        let used = self.write.wrapping_sub(self.read);
        if ilen > blen - used {
            return Err(WriteError::Full);
        }
        let w = self.write % blen;
        let tail = blen - w;
        // At most two runs of bytes: up to the end of the storage, then on
        // from its front.
        let first = if ilen > tail {
            tail
        } else {
            ilen
        };
        let mut i: usize = 0;
        while i < first
            invariant
                i <= first <= ilen == bytes@.len(),
                w + first <= blen == self.buffer@.len(),
                old(self)@.wf(),
                old(self).buffer@.len() == blen,
                self.write == old(self).write,
                self.read == old(self).read,
                forall|k: int|
                    0 <= k < blen ==> self.buffer@[k] == if w <= k < w + i {
                        bytes@[k - w]
                    } else {
                        old(self).buffer@[k]
                    },
            decreases first - i,
        {
            self.buffer[w + i] = bytes[i];
            i = i + 1;
        }
        while i < ilen
            invariant
                first <= i <= ilen == bytes@.len(),
                first == tail || first == ilen,
                ilen - first <= w,
                w + tail == blen == self.buffer@.len(),
                old(self)@.wf(),
                old(self).buffer@.len() == blen,
                self.write == old(self).write,
                self.read == old(self).read,
                forall|k: int|
                    0 <= k < blen ==> self.buffer@[k] == if w <= k < w + first {
                        bytes@[k - w]
                    } else if k < i - first {
                        bytes@[k + first]
                    } else {
                        old(self).buffer@[k]
                    },
            decreases ilen - i,
        {
            self.buffer[i - first] = bytes[i];
            i = i + 1;
        }
        // The cursor moves once, and only when the bytes are in place.
        self.write = self.write.wrapping_add(ilen);
        proof {
            let before = old(self)@;
            let m = blen as int;
            assert forall|k: int| 0 <= k < m implies self.buffer@[k] == before.push(
                bytes@,
            ).storage[k] by {
                lemma_mod_window(k - w, m);
            }
            assert(self.buffer@ =~= before.push(bytes@).storage);
            if before.in_step() {
                lemma_push_appends(before, bytes@);
            }
        }
        Ok(())
    }

    /// Moves the oldest unread bytes into the front of `buf`, as many as it
    /// holds, and returns their number. When nothing is unread that is zero,
    /// and neither `buf` nor the ring buffer changes. Where the read cursor steps
    /// evenly, the bytes after those read stay unread, in order.
    pub fn drain_read(&mut self, buf: &mut [u8]) -> (n: usize)
        ensures
            n == min(old(buf)@.len() as int, old(self)@.used() as int),
            final(buf)@ == old(self)@.unread().take(n as int) + old(buf)@.skip(n as int),
            final(self)@ == old(self)@.pop(n as nat),
            final(self)@.wf(),
            n == 0 ==> final(self)@ == old(self)@ && final(buf)@ == old(buf)@,
            steps_evenly(old(self)@.capacity(), old(self)@.read, n as nat)
                ==> final(self)@.unread() == old(self)@.unread().skip(n as int),
    {
        proof {
            use_type_invariant(&*self);
        }
        let blen = self.buffer.len();
        if blen == 0 {
            proof {
                assert(buf@ =~= old(self)@.unread().take(0) + old(buf)@.skip(0));
                lemma_pop_nothing(old(self)@);
                lemma_pop_skips(old(self)@, 0);
            }
            return 0;
        }
        let available = self.write.wrapping_sub(self.read);
        let n = if buf.len() < available {
            buf.len()
        } else {
            available
        };
        let r = self.read % blen;
        let tail = blen - r;
        // At most two runs of bytes, as they were written.
        let first = if n > tail {
            tail
        } else {
            n
        };
        let mut i: usize = 0;
        while i < first
            invariant
                i <= first <= n <= buf@.len() == old(buf)@.len(),
                r + first <= blen == self.buffer@.len(),
                forall|k: int|
                    0 <= k < buf@.len() ==> buf@[k] == if k < i {
                        self.buffer@[r + k]
                    } else {
                        old(buf)@[k]
                    },
            decreases first - i,
        {
            buf[i] = self.buffer[r + i];
            i = i + 1;
        }
        while i < n
            invariant
                first <= i <= n <= buf@.len() == old(buf)@.len(),
                first == tail || first == n,
                n - first <= r,
                r + tail == blen == self.buffer@.len(),
                forall|k: int|
                    0 <= k < buf@.len() ==> buf@[k] == if k < first {
                        self.buffer@[r + k]
                    } else if k < i {
                        self.buffer@[k - first]
                    } else {
                        old(buf)@[k]
                    },
            decreases n - i,
        {
            buf[i] = self.buffer[i - first];
            i = i + 1;
        }
        // The bytes are given up for writing only when they have been copied.
        self.read = self.read.wrapping_add(n);
        proof {
            let before = old(self)@;
            let m = blen as int;
            let expected = before.unread().take(n as int) + old(buf)@.skip(n as int);
            assert forall|k: int| 0 <= k < buf@.len() implies buf@[k] == expected[k] by {
                if k < n {
                    lemma_mod_window(r + k, m);
                }
            }
            assert(buf@ =~= expected);
            if n == 0 {
                lemma_pop_nothing(before);
            }
            if steps_evenly(before.capacity(), before.read, n as nat) {
                lemma_pop_skips(before, n as nat);
            }
        }
        n
    }
}

} // verus!
