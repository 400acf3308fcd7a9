//! The bounded shared buffer and the sink's write policy.
//!
//! Producers hand byte slices to [`LogBuffer::write`]. The policy, applied
//! atomically under the caller's lock:
//!
//! * a write against a completely full buffer appends nothing; the final
//!   [`notice_len`] bytes of the buffer are overwritten in place with the
//!   overflow notice and the caller is told the queue is full;
//! * a write larger than the remaining capacity is truncated to the remaining
//!   capacity (a short write);
//! * the accepted bytes are appended, and the caller is told how many.
//!
//! The buffer's length never exceeds its capacity.

use crate::notice::{notice_len, overflow_notice, overflow_notice_bytes};
use vstd::prelude::*;

verus! {

/// The non-fatal condition a producer can meet: the queue is full.
///
/// The write appended nothing; the overflow notice now ends the buffer. The
/// caller may simply drop the record.
#[derive(Debug, Clone, Copy, PartialEq, Eq, Structural)]
pub enum WriteError {
    /// No remaining capacity; the record was dropped.
    QueueFull,
}

/// What one write leaves in the buffer: `data` is the buffer's content before
/// the call, `cap` its capacity, `input` the bytes offered.
pub open spec fn write_step(data: Seq<u8>, cap: nat, input: Seq<u8>) -> Seq<u8> {
    if data.len() >= cap {
        data.take(data.len() - notice_len()) + overflow_notice()
    } else if input.len() <= cap - data.len() {
        data + input
    } else {
        data + input.take((cap - data.len()) as int)
    }
}

/// What one write reports: the count of bytes actually appended, or the
/// queue-full condition.
pub open spec fn write_outcome(data: Seq<u8>, cap: nat, input: Seq<u8>) -> Result<nat, WriteError> {
    if data.len() >= cap {
        Err(WriteError::QueueFull)
    } else if input.len() <= cap - data.len() {
        Ok(input.len())
    } else {
        Ok((cap - data.len()) as nat)
    }
}

/// The buffer a sequence of writes leaves behind, applied in call order.
pub open spec fn fold_writes(data: Seq<u8>, cap: nat, writes: Seq<Seq<u8>>) -> Seq<u8>
    decreases writes.len(),
{
    if writes.len() == 0 {
        data
    } else {
        write_step(fold_writes(data, cap, writes.drop_last()), cap, writes.last())
    }
}

/// The bounded byte buffer shared by the sink and the writer.
pub struct LogBuffer {
    data: Vec<u8>,
    capacity: usize,
}

impl View for LogBuffer {
    type V = Seq<u8>;

    closed spec fn view(&self) -> Seq<u8> {
        self.data@
    }
}

impl LogBuffer {
    /// The buffer's capacity in bytes.
    pub closed spec fn spec_capacity(&self) -> nat {
        self.capacity as nat
    }

    /// Well-formedness: the content fits the capacity, and the capacity can
    /// hold more than the overflow notice.
    pub open spec fn wf(&self) -> bool {
        &&& self@.len() <= self.spec_capacity()
        &&& notice_len() < self.spec_capacity()
    }

    /// An empty buffer of the given capacity.
    pub fn new(capacity: usize) -> (r: LogBuffer)
        requires
            capacity > notice_len(),
        ensures
            r.wf(),
            r@ == Seq::<u8>::empty(),
            r.spec_capacity() == capacity,
    {
        let r = LogBuffer { data: Vec::with_capacity(capacity), capacity };
        proof {
            assert(r@ =~= Seq::<u8>::empty());
        }
        r
    }

    /// The buffer's capacity.
    pub fn capacity(&self) -> (r: usize)
        ensures
            r == self.spec_capacity(),
    {
        self.capacity
    }

    /// The buffer's current length.
    pub fn len(&self) -> (r: usize)
        ensures
            r == self@.len(),
    {
        self.data.len()
    }

    /// Whether the buffer is empty — the writer's wait predicate.
    pub fn is_empty(&self) -> (r: bool)
        ensures
            r == (self@.len() == 0),
    {
        self.data.len() == 0
    }

    /// One producer write, under the caller's lock.
    ///
    /// The content afterwards is [`write_step`] of the content before; the
    /// report is [`write_outcome`]. Spelled out:
    ///
    /// * full buffer: nothing is appended, the buffer keeps its length and now
    ///   ends in the overflow notice, and the queue-full condition is reported;
    /// * otherwise the input, truncated to the remaining capacity, is appended,
    ///   and exactly the appended count is reported.
    ///
    /// The length never exceeds the capacity.
    pub fn write(&mut self, input: &[u8]) -> (r: Result<usize, WriteError>)
        requires
            old(self).wf(),
        ensures
            final(self).wf(),
            final(self).spec_capacity() == old(self).spec_capacity(),
            final(self)@ == write_step(old(self)@, old(self).spec_capacity(), input@),
            match r {
                Ok(n) => write_outcome(old(self)@, old(self).spec_capacity(), input@)
                    == Ok::<nat, WriteError>(n as nat),
                Err(e) => write_outcome(old(self)@, old(self).spec_capacity(), input@)
                    == Err::<nat, WriteError>(e),
            },
            final(self)@.len() <= final(self).spec_capacity(),
            old(self)@.len() == old(self).spec_capacity() ==> {
                &&& r == Err::<usize, WriteError>(WriteError::QueueFull)
                &&& final(self)@.len() == old(self)@.len()
                &&& final(self)@.skip(final(self)@.len() - notice_len()) == overflow_notice()
            },
            old(self)@.len() < old(self).spec_capacity() ==> {
                let remaining = (old(self).spec_capacity() - old(self)@.len()) as nat;
                &&& r == Ok::<usize, WriteError>(
                    (if input@.len() <= remaining {
                        input@.len()
                    } else {
                        remaining
                    }) as usize,
                )
                &&& final(self)@ == old(self)@ + input@.take(
                    if input@.len() <= remaining {
                        input@.len() as int
                    } else {
                        remaining as int
                    },
                )
            },
    {
        let remaining = self.capacity - self.data.len();
        if remaining == 0 {
            // Overwrite the end of the buffer with the overflow notice.
            let notice = overflow_notice_bytes();
            let start = self.data.len() - notice.len();
            self.data.truncate(start);
            let mut j: usize = 0;
            while j < notice.len()
                invariant
                    j <= notice@.len(),
                    notice@ == overflow_notice(),
                    start == old(self)@.len() - notice_len(),
                    self.capacity == old(self).capacity,
                    self.data@ == old(self)@.take(start as int) + notice@.take(j as int),
                decreases notice@.len() - j,
            {
                self.data.push(notice[j]);
                proof {
                    assert(self.data@ =~= old(self)@.take(start as int) + notice@.take(
                        j as int + 1,
                    ));
                }
                j += 1;
            }
            proof {
                assert(notice@.take(notice@.len() as int) =~= notice@);
                assert(self@.skip(self@.len() - notice_len()) =~= overflow_notice());
            }
            Err(WriteError::QueueFull)
        } else {
            let take = if input.len() <= remaining {
                input.len()
            } else {
                remaining
            };
            let mut j: usize = 0;
            while j < take
                invariant
                    j <= take,
                    take <= input@.len(),
                    self.capacity == old(self).capacity,
                    self.data@ == old(self)@ + input@.take(j as int),
                decreases take - j,
            {
                self.data.push(input[j]);
                proof {
                    assert(self.data@ =~= old(self)@ + input@.take(j as int + 1));
                }
                j += 1;
            }
            proof {
                if take == input@.len() {
                    assert(input@.take(take as int) =~= input@);
                }
            }
            Ok(take)
        }
    }

    /// A no-op: durability is the writer's responsibility, asynchronously.
    pub fn flush(&self) -> (r: Result<(), WriteError>)
        ensures
            r == Ok::<(), WriteError>(()),
    {
        Ok(())
    }

    /// The writer's constant-time swap: exchanges the buffer's content with
    /// the (empty) private scratch buffer, under the caller's lock.
    pub fn swap_contents(&mut self, scratch: &mut Vec<u8>)
        requires
            old(self).wf(),
            old(scratch)@.len() == 0,
        ensures
            final(self).wf(),
            final(self).spec_capacity() == old(self).spec_capacity(),
            final(self)@ == old(scratch)@,
            final(scratch)@ == old(self)@,
            final(self)@.len() == 0,
    {
        core::mem::swap(&mut self.data, scratch);
    }
}

/// Writes in call order accumulate exactly their concatenation.
///
/// As long as the buffer never becomes full before a write — in particular
/// whenever the writes are non-empty and their total size fits the free
/// capacity — every write is accepted whole, and the buffer afterwards holds
/// the old content followed by the concatenation of the writes in call order.
pub proof fn lemma_sink_accepts_in_order(data: Seq<u8>, cap: nat, writes: Seq<Seq<u8>>)
    requires
        data.len() + writes.flatten().len() <= cap,
        forall|i: int|
            0 <= i < writes.len() ==> data.len() + #[trigger] writes.take(i).flatten().len() < cap,
    ensures
        fold_writes(data, cap, writes) == data + writes.flatten(),
        forall|i: int|
            0 <= i < writes.len() ==> write_outcome(
                fold_writes(data, cap, writes.take(i)),
                cap,
                #[trigger] writes[i],
            ) == Ok::<nat, WriteError>(writes[i].len()),
    decreases writes.len(),
{
    if writes.len() == 0 {
        assert(writes.flatten() =~= Seq::<u8>::empty());
        assert(fold_writes(data, cap, writes) == data + writes.flatten());
    } else {
        let prefix = writes.drop_last();
        let last = writes.last();
        assert(writes =~= prefix.push(last));
        prefix.lemma_flatten_and_flatten_alt_are_equivalent();
        writes.lemma_flatten_and_flatten_alt_are_equivalent();
        assert(writes.flatten_alt() == prefix.flatten_alt() + last);
        assert(forall|i: int| 0 <= i <= prefix.len() ==> writes.take(i) =~= #[trigger] prefix.take(
            i,
        ));
        lemma_sink_accepts_in_order(data, cap, prefix);
        let before = fold_writes(data, cap, prefix);
        assert(before == data + prefix.flatten());
        assert(before.len() < cap) by {
            assert(writes.take(prefix.len() as int) =~= prefix);
        }
        assert(fold_writes(data, cap, writes) == write_step(before, cap, last));
        assert(last.len() <= cap - before.len());
        assert(fold_writes(data, cap, writes) =~= data + writes.flatten());
        assert(writes.take(writes.len() as int) =~= writes);
        assert forall|i: int| 0 <= i < writes.len() implies write_outcome(
            fold_writes(data, cap, writes.take(i)),
            cap,
            #[trigger] writes[i],
        ) == Ok::<nat, WriteError>(writes[i].len()) by {
            if i < prefix.len() {
                assert(writes.take(i) =~= prefix.take(i));
                assert(writes[i] == prefix[i]);
            } else {
                assert(writes.take(i) =~= prefix);
            }
        }
    }
}

} // verus!
