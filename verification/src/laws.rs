use vstd::prelude::*;

use crate::buffer::{buf_prune_le, buf_sorted, lemma_buf_prune_le};
use crate::sample::{Miss, Sample, SourceId};
use crate::tracker::{
    chain_split, emits_of, flush_split, keys_of, lemma_chain_split, lemma_flush_contiguous,
    lemma_flush_split, seq_ingest, Emission, SequencedState,
};
use crate::ts_tracker::TimestampedState;

verus! {

/// Monotonic delivery: for each sequenced source, the sequence numbers of
/// the samples handed to the application are strictly increasing over the
/// whole life of the source. The ghost field `delivered` records every
/// delivery in order; every event handler maintains well-formedness.
pub proof fn monotonic_delivery<P>(st: SequencedState<P>, source: SourceId, i: int, j: int)
    requires
        st.wf(source),
        0 <= i < j < st.delivered@.len(),
    ensures
        st.delivered@[i] < st.delivered@[j],
{
}

/// No duplicate delivery: each `(source, sequence number)` pair is delivered
/// at most once; two distinct positions of a source's delivery history never
/// carry the same sequence number.
pub proof fn no_duplicate_delivery<P>(st: SequencedState<P>, source: SourceId, i: int, j: int)
    requires
        st.wf(source),
        0 <= i < st.delivered@.len(),
        0 <= j < st.delivered@.len(),
        i != j,
    ensures
        st.delivered@[i] != st.delivered@[j],
{
    if i < j {
        monotonic_delivery(st, source, i, j);
    } else {
        monotonic_delivery(st, source, j, i);
    }
}

/// No reordering: for two delivered samples of one source with sequence
/// numbers `a < b`, `a` was delivered before `b`.
pub proof fn no_reordering<P>(st: SequencedState<P>, source: SourceId, i: int, j: int)
    requires
        st.wf(source),
        0 <= i < st.delivered@.len(),
        0 <= j < st.delivered@.len(),
        st.delivered@[i] < st.delivered@[j],
    ensures
        i < j,
{
    if j < i {
        monotonic_delivery(st, source, j, i);
    }
}

/// Monotonic delivery for a timestamped origin: delivered timestamps are
/// strictly increasing in delivery order.
pub proof fn ts_monotonic_delivery<P>(st: TimestampedState<P>, node: u128, i: int, j: int)
    requires
        st.wf(node),
        0 <= i < j < st.delivered@.len(),
    ensures
        st.delivered@[i].lt_spec(st.delivered@[j]),
{
}

/// Eventual delivery under recovery: when retransmission filled the buffer
/// with exactly the contiguous range that follows the last delivery and the
/// last reply guard releases, the flush delivers every buffered sample in
/// order and reports no miss.
pub proof fn recovery_completes<P>(st: SequencedState<P>, source: SourceId)
    requires
        st.wf(source),
        st.pending_queries == 0,
        st.last_delivered is Some,
        forall|i: int|
            0 <= i < st.pending_samples@.len() ==> (#[trigger] st.pending_samples@[i]).0
                == st.last_delivered->Some_0 + 1 + i,
    ensures
        flush_split(st.pending_samples@, st.last_delivered, source).emits == emits_of(
            st.pending_samples@,
        ),
        flush_split(st.pending_samples@, st.last_delivered, source).keys == keys_of(
            st.pending_samples@,
        ),
{
    lemma_flush_contiguous(st.pending_samples@, st.last_delivered->Some_0, source);
    lemma_flush_split(st.pending_samples@, st.last_delivered, source);
}

/// Miss accounting: when a gap `a+1 .. b-1` is closed by delivering `b`
/// without retransmission, exactly one miss notification with
/// `nb == b - a - 1` is emitted, and it precedes the delivery of `b`.
pub proof fn miss_accounting<P>(
    last: u32,
    pending: Seq<(u32, Sample<P>)>,
    s: Sample<P>,
    source: SourceId,
)
    requires
        s.source_sn is Some,
        s.source_sn->Some_0 > last + 1,
    ensures
        seq_ingest(Some(last), pending, s, false, false, source).emits == seq![
            Emission::MissDetected(
                Miss { source, nb: (s.source_sn->Some_0 - last - 1) as u32 },
            ),
            Emission::Deliver(s),
        ],
{
}

/// Flush triggers: when the pending-query counters reach zero, every
/// buffered sample is handled by that flush: the buffer is left empty, and
/// under the buffer invariant every buffered sequence number is delivered,
/// in ascending order.
pub proof fn flush_delivers_all<P>(st: SequencedState<P>, source: SourceId)
    requires
        st.wf(source),
    ensures
        flush_split(st.pending_samples@, st.last_delivered, source).keys == keys_of(
            st.pending_samples@,
        ),
{
    assert(st.last_delivered is Some ==> forall|i: int|
        0 <= i < st.pending_samples@.len() ==> (#[trigger] st.pending_samples@[i]).0
            > st.last_delivered->Some_0);
    lemma_flush_split(st.pending_samples@, st.last_delivered, source);
}

/// The last delivery never moves backwards: one ingested sample leaves
/// `last_delivered` where it was or advances it.
pub proof fn last_delivered_monotone<P>(
    last: Option<u32>,
    pending: Seq<(u32, Sample<P>)>,
    s: Sample<P>,
    gating: bool,
    retransmission: bool,
    source: SourceId,
)
    requires
        s.source_sn is Some,
        buf_sorted(pending),
        last is Some ==> forall|i: int|
            0 <= i < pending.len() ==> (#[trigger] pending[i]).0 > last->Some_0,
    ensures
        ({
            let st = seq_ingest(last, pending, s, gating, retransmission, source);
            last is Some ==> st.last is Some && st.last->Some_0 >= last->Some_0
        }),
{
    let sn = s.source_sn->Some_0;
    if !gating && (last is None || sn == last->Some_0 + 1) {
        let pruned = buf_prune_le(pending, sn);
        lemma_buf_prune_le(pending, sn);
        lemma_chain_split(pruned, sn);
    }
}

/// Idempotent duplicate suppression: ingesting the same sequenced sample a
/// second time, right after the first, emits nothing: the copy is dropped as
/// stale or swallowed by first-insertion-wins buffering.
pub proof fn duplicate_suppression<P>(
    last: Option<u32>,
    pending: Seq<(u32, Sample<P>)>,
    s: Sample<P>,
    gating: bool,
    retransmission: bool,
    source: SourceId,
)
    requires
        s.source_sn is Some,
        buf_sorted(pending),
        last is Some ==> forall|i: int|
            0 <= i < pending.len() ==> (#[trigger] pending[i]).0 > last->Some_0,
    ensures
        ({
            let st1 = seq_ingest(last, pending, s, gating, retransmission, source);
            seq_ingest(st1.last, st1.pending, s, gating, retransmission, source).emits == Seq::<
                Emission<P>,
            >::empty()
        }),
{
    let sn = s.source_sn->Some_0;
    let st1 = seq_ingest(last, pending, s, gating, retransmission, source);
    if !gating {
        if last is None || sn == last->Some_0 + 1 || (last is Some && sn > last->Some_0 + 1
            && !retransmission) {
            if last is None || sn == last->Some_0 + 1 {
                let pruned = buf_prune_le(pending, sn);
                lemma_buf_prune_le(pending, sn);
                lemma_chain_split(pruned, sn);
                assert(st1.last->Some_0 >= sn);
            }
        }
    }
}

} // verus!
