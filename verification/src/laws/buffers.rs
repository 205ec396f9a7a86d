//! Buffered output.

use vstd::prelude::*;

use crate::buffer::{all_written, lemma_write_appends, BufferView};

verus! {

/// Writing on until everything is accepted puts all bytes behind what was written before, in order
/// and once, whichever way they take.
pub proof fn lemma_everything_is_written(state: BufferView, bytes: Seq<u8>)
    requires
        state.buffered.len() <= state.capacity,
    ensures
        state.written_all(bytes).output() == state.output() + bytes,
        state.written_all(bytes).input == state.input,
        state.written_all(bytes).closed == state.closed,
        state.written_all(bytes).capacity == state.capacity,
        state.written_all(bytes).buffered.len() <= state.capacity,
    decreases bytes.len(),
{
    lemma_write_appends(state, bytes);
    let n = state.accepts(bytes);
    if bytes.len() == 0 {
        assert(state.output() + bytes =~= state.output());
    } else {
        lemma_everything_is_written(state.written(bytes), bytes.skip(n as int));
        assert(state.output() + bytes.take(n as int) + bytes.skip(n as int) =~= state.output()
            + bytes);
    }
}

/// A write that leaves room in the buffer only buffers: the transport is not asked to do anything.
pub proof fn lemma_small_writes_wait(state: BufferView, bytes: Seq<u8>)
    requires
        state.buffered.len() + bytes.len() < state.capacity,
    ensures
        state.written(bytes).writes == state.writes,
        state.written(bytes).buffered == state.buffered + bytes,
        state.accepts(bytes) == bytes.len(),
{
    assert(bytes.take(bytes.len() as int) =~= bytes);
}

/// A write of at least the size of the buffer goes to the transport whole, behind what waited.
pub proof fn lemma_large_writes_pass(state: BufferView, bytes: Seq<u8>)
    requires
        bytes.len() >= state.capacity,
        bytes.len() > 0,
    ensures
        state.accepts(bytes) == bytes.len(),
        state.written(bytes).buffered.len() == 0,
        state.written(bytes).writes.last() == bytes,
        state.buffered.len() > 0 ==> state.written(bytes).writes == state.writes.push(
            state.buffered,
        ).push(bytes),
        state.buffered.len() == 0 ==> state.written(bytes).writes == state.writes.push(bytes),
{
}

/// A flush hands what waits to the transport as one write, and nothing where nothing waits.
pub proof fn lemma_flushes_hand_over(state: BufferView)
    ensures
        state.flushed().buffered.len() == 0,
        state.buffered.len() > 0 ==> state.flushed().writes == state.writes.push(state.buffered),
        state.buffered.len() == 0 ==> state.flushed().writes == state.writes,
        all_written(state.flushed().writes) == state.output(),
        state.flushed().flushed() == state.flushed(),
{
    crate::buffer::lemma_flush_keeps_output(state);
    let after = state.flushed();
    assert(after.output() =~= all_written(after.writes));
    assert(after.flushed() =~= after);
}

} // verus!
