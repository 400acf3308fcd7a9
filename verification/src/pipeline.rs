//! The pipeline end to end: producers → shared buffer → drain → rotating
//! store.
//!
//! [`LogPipeline`] combines the bounded buffer and the rotating store into one
//! in-memory machine. Its [`write`](LogPipeline::write) is the sink's policy;
//! its [`drain`](LogPipeline::drain) is one turn of the writer's loop — take
//! everything out of the buffer in one constant-time swap, then hand it to
//! the rotating store. In the running system the two halves live on different
//! threads, connected by a mutex and a condition signal; the decisions they
//! make are exactly the verified steps here.

use crate::buffer::{fold_writes, write_outcome, write_step, LogBuffer, WriteError};
use crate::config::Config;
use crate::notice::notice_len;
use crate::rotation::{
    append_bytes, empty_store, lemma_append_preserves_persisted, persisted, view_wf, RotatingStore,
    StoreView,
};
use vstd::prelude::*;

verus! {

/// The shared buffer and the rotating store, as one sequential machine.
pub struct LogPipeline {
    buffer: LogBuffer,
    store: RotatingStore,
}

impl LogPipeline {
    /// Content of the shared buffer.
    pub closed spec fn buffer_view(&self) -> Seq<u8> {
        self.buffer@
    }

    /// Capacity of the shared buffer.
    pub closed spec fn buffer_capacity(&self) -> nat {
        self.buffer.spec_capacity()
    }

    /// State of the rotating store.
    pub closed spec fn store_view(&self) -> StoreView {
        self.store@
    }

    /// Well-formedness: the buffer within its capacity, the capacity beyond
    /// the overflow notice, the store within its limits.
    pub open spec fn wf(&self) -> bool {
        &&& self.buffer_view().len() <= self.buffer_capacity()
        &&& notice_len() < self.buffer_capacity()
        &&& view_wf(self.store_view())
    }

    /// A fresh pipeline for a valid configuration.
    pub fn new(config: &Config) -> (r: LogPipeline)
        requires
            config.valid(),
        ensures
            r.wf(),
            r.buffer_view() == Seq::<u8>::empty(),
            r.buffer_capacity() == config.buffer_capacity,
            r.store_view() == empty_store(
                config.max_files as nat,
                config.max_file_size as nat,
            ),
    {
        LogPipeline {
            buffer: LogBuffer::new(config.buffer_capacity),
            store: RotatingStore::new(config.max_files, config.max_file_size),
        }
    }

    /// One producer write into the shared buffer; the store is untouched.
    /// The buffer steps by [`write_step`], the report is [`write_outcome`].
    pub fn write(&mut self, input: &[u8]) -> (r: Result<usize, WriteError>)
        requires
            old(self).wf(),
        ensures
            final(self).wf(),
            final(self).buffer_capacity() == old(self).buffer_capacity(),
            final(self).store_view() == old(self).store_view(),
            final(self).buffer_view() == write_step(
                old(self).buffer_view(),
                old(self).buffer_capacity(),
                input@,
            ),
            match r {
                Ok(n) => write_outcome(
                    old(self).buffer_view(),
                    old(self).buffer_capacity(),
                    input@,
                ) == Ok::<nat, WriteError>(n as nat),
                Err(e) => write_outcome(
                    old(self).buffer_view(),
                    old(self).buffer_capacity(),
                    input@,
                ) == Err::<nat, WriteError>(e),
            },
    {
        self.buffer.write(input)
    }

    /// A no-op: durability is the writer's responsibility, asynchronously.
    pub fn flush(&self) -> (r: Result<(), WriteError>)
        ensures
            r == Ok::<(), WriteError>(()),
    {
        self.buffer.flush()
    }

    /// One turn of the writer's loop: swap the buffer's whole content out in
    /// constant time, then append it to the rotating store.
    pub fn drain(&mut self)
        requires
            old(self).wf(),
        ensures
            final(self).wf(),
            final(self).buffer_capacity() == old(self).buffer_capacity(),
            final(self).buffer_view().len() == 0,
            final(self).store_view() == append_bytes(
                old(self).store_view(),
                old(self).buffer_view(),
            ),
    {
        let mut scratch: Vec<u8> = Vec::new();
        self.buffer.swap_contents(&mut scratch);
        self.store.append(scratch.as_slice());
    }

    /// The shared buffer's current length.
    pub fn buffer_len(&self) -> (r: usize)
        ensures
            r == self.buffer_view().len(),
    {
        self.buffer.len()
    }

    /// The rotating store, for inspection.
    pub fn store(&self) -> (r: &RotatingStore)
        ensures
            r@ == self.store_view(),
    {
        &self.store
    }
}

/// Writes issued while the writer is paused are persisted whole, in call
/// order.
///
/// Let a run of writes reach the buffer while the writer is paused, none of
/// them meeting a full buffer — so in particular any run of non-empty writes
/// whose total size fits the buffer capacity. Every write is then accepted
/// whole, and once the writer resumes and drains, the rotating store persists
/// exactly the concatenation of those bytes in call order — provided the
/// drain stays within the retention limit, so that no archive is deleted
/// under it.
/// One more write extends the flattened run by exactly that write.
proof fn lemma_flatten_take_succ(writes: Seq<Seq<u8>>, i: int)
    requires
        0 <= i < writes.len(),
    ensures
        writes.take(i + 1).flatten() == writes.take(i).flatten() + writes[i],
{
    let next = writes.take(i + 1);
    assert(next.drop_last() =~= writes.take(i));
    assert(next.last() == writes[i]);
    next.lemma_flatten_and_flatten_alt_are_equivalent();
    writes.take(i).lemma_flatten_and_flatten_alt_are_equivalent();
}

/// A prefix of the writes never flattens to more than the whole run.
proof fn lemma_flatten_prefix_len(writes: Seq<Seq<u8>>, i: int)
    requires
        0 <= i <= writes.len(),
    ensures
        writes.take(i).flatten().len() <= writes.flatten().len(),
    decreases writes.len() - i,
{
    if i == writes.len() {
        assert(writes.take(i) =~= writes);
    } else {
        lemma_flatten_take_succ(writes, i);
        lemma_flatten_prefix_len(writes, i + 1);
    }
}

/// Non-empty writes whose total size fits the buffer capacity never meet a
/// full buffer: before each of them, the buffer holds strictly less than its
/// capacity.
pub proof fn lemma_nonempty_writes_never_fill(cap: nat, writes: Seq<Seq<u8>>)
    requires
        writes.flatten().len() <= cap,
        forall|i: int| 0 <= i < writes.len() ==> (#[trigger] writes[i]).len() >= 1,
    ensures
        forall|i: int| 0 <= i < writes.len() ==> #[trigger] writes.take(i).flatten().len() < cap,
{
    assert forall|i: int| 0 <= i < writes.len() implies #[trigger] writes.take(
        i,
    ).flatten().len() < cap by {
        lemma_flatten_take_succ(writes, i);
        lemma_flatten_prefix_len(writes, i + 1);
    }
}

pub proof fn lemma_writes_then_drain_persist(cap: nat, writes: Seq<Seq<u8>>, store: StoreView)
    requires
        view_wf(store),
        writes.flatten().len() <= cap,
        forall|i: int|
            0 <= i < writes.len() ==> #[trigger] writes.take(i).flatten().len() < cap,
        persisted(store).len() + writes.flatten().len() <= (store.max_files + 1)
            * store.max_file_size,
    ensures
        fold_writes(Seq::<u8>::empty(), cap, writes) == writes.flatten(),
        forall|i: int|
            0 <= i < writes.len() ==> write_outcome(
                fold_writes(Seq::<u8>::empty(), cap, writes.take(i)),
                cap,
                #[trigger] writes[i],
            ) == Ok::<nat, WriteError>(writes[i].len()),
        persisted(append_bytes(store, fold_writes(Seq::<u8>::empty(), cap, writes))) == persisted(
            store,
        ) + writes.flatten(),
{
    crate::buffer::lemma_sink_accepts_in_order(Seq::<u8>::empty(), cap, writes);
    assert(Seq::<u8>::empty() + writes.flatten() =~= writes.flatten());
    lemma_append_preserves_persisted(store, writes.flatten());
}

/// The same law under its plainest premise: any run of non-empty writes
/// whose total size is at most the buffer capacity, issued while the writer
/// is paused, is accepted whole, and the drain persists exactly its
/// concatenation in call order — provided the drain stays within the
/// retention limit.
pub proof fn lemma_nonempty_writes_then_drain_persist(
    cap: nat,
    writes: Seq<Seq<u8>>,
    store: StoreView,
)
    requires
        view_wf(store),
        writes.flatten().len() <= cap,
        forall|i: int| 0 <= i < writes.len() ==> (#[trigger] writes[i]).len() >= 1,
        persisted(store).len() + writes.flatten().len() <= (store.max_files + 1)
            * store.max_file_size,
    ensures
        fold_writes(Seq::<u8>::empty(), cap, writes) == writes.flatten(),
        forall|i: int|
            0 <= i < writes.len() ==> write_outcome(
                fold_writes(Seq::<u8>::empty(), cap, writes.take(i)),
                cap,
                #[trigger] writes[i],
            ) == Ok::<nat, WriteError>(writes[i].len()),
        persisted(append_bytes(store, fold_writes(Seq::<u8>::empty(), cap, writes))) == persisted(
            store,
        ) + writes.flatten(),
{
    lemma_nonempty_writes_never_fill(cap, writes);
    lemma_writes_then_drain_persist(cap, writes, store);
}

} // verus!
