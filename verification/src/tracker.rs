use vstd::prelude::*;

use crate::buffer::{buf_insert, buf_prune_le, buf_sorted, lemma_buf_prune_le, SampleBuffer};
use crate::sample::{Miss, Sample, SourceId};

verus! {

/// What the core asks its surroundings to do, in order: hand a sample to the
/// application callback, or report an unrecoverable gap to every registered
/// miss listener.
pub enum Emission<P> {
    Deliver(Sample<P>),
    MissDetected(Miss),
}

/// The deliveries for a run of buffer entries, in order.
pub open spec fn emits_of<P>(d: Seq<(u32, Sample<P>)>) -> Seq<Emission<P>> {
    d.map_values(|e: (u32, Sample<P>)| Emission::Deliver(e.1))
}

/// The keys of a run of buffer entries, in order.
pub open spec fn keys_of<P>(d: Seq<(u32, Sample<P>)>) -> Seq<u32> {
    d.map_values(|e: (u32, Sample<P>)| e.0)
}

/// A strictly increasing sequence of sequence numbers.
pub open spec fn strictly_inc(s: Seq<u32>) -> bool {
    forall|i: int, j: int| 0 <= i < j < s.len() ==> s[i] < s[j]
}

/// Splitting a buffer into the contiguous run that directly follows `last`
/// and the remainder.
pub struct ChainStep<P> {
    pub taken: Seq<(u32, Sample<P>)>,
    pub rest: Seq<(u32, Sample<P>)>,
}

pub open spec fn chain_split<P>(s: Seq<(u32, Sample<P>)>, last: u32) -> ChainStep<P>
    decreases s.len(),
{
    if s.len() > 0 && last < u32::MAX && s[0].0 == last + 1 {
        let c = chain_split(s.drop_first(), (last + 1) as u32);
        ChainStep { taken: seq![s[0]] + c.taken, rest: c.rest }
    } else {
        ChainStep { taken: Seq::empty(), rest: s }
    }
}

pub proof fn lemma_chain_split<P>(s: Seq<(u32, Sample<P>)>, last: u32)
    requires
        buf_sorted(s),
        forall|i: int| 0 <= i < s.len() ==> (#[trigger] s[i]).0 > last,
    ensures
        ({
            let c = chain_split(s, last);
            &&& s == c.taken + c.rest
            &&& last + c.taken.len() <= u32::MAX
            &&& forall|i: int|
                0 <= i < c.taken.len() ==> (#[trigger] c.taken[i]).0 == last + 1 + i
            &&& forall|i: int|
                0 <= i < c.rest.len() ==> (#[trigger] c.rest[i]).0 > last + c.taken.len()
            &&& buf_sorted(c.rest)
        }),
    decreases s.len(),
{
    let c = chain_split(s, last);
    if s.len() > 0 && last < u32::MAX && s[0].0 == last + 1 {
        let t = s.drop_first();
        assert(forall|i: int| 0 <= i < t.len() ==> (#[trigger] t[i]).0 > last + 1);
        lemma_chain_split(t, (last + 1) as u32);
        let c2 = chain_split(t, (last + 1) as u32);
        assert(s =~= seq![s[0]] + (c2.taken + c2.rest));
        assert(s =~= (seq![s[0]] + c2.taken) + c2.rest);
    } else {
        assert(s =~= c.taken + c.rest);
    }
}

/// The outcome of ingesting one sequenced sample: the new tracking values and
/// what is emitted, in order.
pub struct SeqStep<P> {
    pub last: Option<u32>,
    pub pending: Seq<(u32, Sample<P>)>,
    pub emits: Seq<Emission<P>>,
    pub keys: Seq<u32>,
}

/// The sequenced delivery algorithm for one incoming sample.
///
/// `gating` tells whether a history-style query is in flight, in which case
/// the sample is buffered instead of delivered. Otherwise the sample is
/// delivered when it is the first one or the direct successor of the last
/// delivery (draining the buffered run that follows it); buffered when it
/// leaves a gap and retransmission will be asked for; and otherwise delivered
/// after a single miss notification for the skipped range. Stale sequence
/// numbers are dropped.
pub open spec fn seq_ingest<P>(
    last: Option<u32>,
    pending: Seq<(u32, Sample<P>)>,
    s: Sample<P>,
    gating: bool,
    retransmission: bool,
    source: SourceId,
) -> SeqStep<P> {
    let sn = s.source_sn->Some_0;
    if gating {
        if last is None || sn > last->Some_0 {
            SeqStep {
                last,
                pending: buf_insert(pending, sn, s),
                emits: Seq::empty(),
                keys: Seq::empty(),
            }
        } else {
            SeqStep { last, pending, emits: Seq::empty(), keys: Seq::empty() }
        }
    } else if last is Some && sn <= last->Some_0 {
        SeqStep { last, pending, emits: Seq::empty(), keys: Seq::empty() }
    } else if last is Some && sn > last->Some_0 + 1 && retransmission {
        SeqStep {
            last,
            pending: buf_insert(pending, sn, s),
            emits: Seq::empty(),
            keys: Seq::empty(),
        }
    } else if last is Some && sn > last->Some_0 + 1 {
        SeqStep {
            last: Some(sn),
            pending: buf_prune_le(pending, sn),
            emits: seq![
                Emission::MissDetected(Miss { source, nb: (sn - last->Some_0 - 1) as u32 }),
                Emission::Deliver(s),
            ],
            keys: seq![sn],
        }
    } else {
        let c = chain_split(buf_prune_le(pending, sn), sn);
        SeqStep {
            last: Some((sn + c.taken.len()) as u32),
            pending: c.rest,
            emits: seq![Emission::Deliver(s)] + emits_of(c.taken),
            keys: seq![sn] + keys_of(c.taken),
        }
    }
}

/// The outcome of flushing a detached buffer: what is emitted, the new last
/// delivery, and the sequence numbers delivered.
pub struct FlushStep<P> {
    pub emits: Seq<Emission<P>>,
    pub last: Option<u32>,
    pub keys: Seq<u32>,
}

/// The sequenced flush algorithm over a detached buffer in ascending order:
/// deliver the first sample and every successor; precede each delivery that
/// closes a gap with one miss notification for the skipped range; drop stale
/// entries.
pub open spec fn flush_split<P>(
    s: Seq<(u32, Sample<P>)>,
    last: Option<u32>,
    source: SourceId,
) -> FlushStep<P>
    decreases s.len(),
{
    if s.len() == 0 {
        FlushStep { emits: Seq::empty(), last, keys: Seq::empty() }
    } else {
        let sn = s[0].0;
        let smp = s[0].1;
        if last is None || sn == last->Some_0 + 1 {
            let f = flush_split(s.drop_first(), Some(sn), source);
            FlushStep {
                emits: seq![Emission::Deliver(smp)] + f.emits,
                last: f.last,
                keys: seq![sn] + f.keys,
            }
        } else if sn > last->Some_0 + 1 {
            let f = flush_split(s.drop_first(), Some(sn), source);
            FlushStep {
                emits: seq![
                    Emission::MissDetected(
                        Miss { source, nb: (sn - last->Some_0 - 1) as u32 },
                    ),
                    Emission::Deliver(smp),
                ] + f.emits,
                last: f.last,
                keys: seq![sn] + f.keys,
            }
        } else {
            flush_split(s.drop_first(), last, source)
        }
    }
}

/// Under the buffer invariant (sorted, everything newer than `last`), a flush
/// delivers every buffered entry, in order.
pub proof fn lemma_flush_split<P>(s: Seq<(u32, Sample<P>)>, last: Option<u32>, source: SourceId)
    requires
        buf_sorted(s),
        last is Some ==> forall|i: int| 0 <= i < s.len() ==> (#[trigger] s[i]).0 > last->Some_0,
    ensures
        ({
            let f = flush_split(s, last, source);
            &&& f.keys =~= keys_of(s)
            &&& f.last == if s.len() == 0 {
                last
            } else {
                Some(s.last().0)
            }
        }),
    decreases s.len(),
{
    if s.len() > 0 {
        let t = s.drop_first();
        let sn = s[0].0;
        assert(forall|i: int| 0 <= i < t.len() ==> (#[trigger] t[i]).0 > sn);
        lemma_flush_split(t, Some(sn), source);
        assert(keys_of(s) =~= seq![sn] + keys_of(t));
        if t.len() > 0 {
            assert(s.last() == t.last());
        }
    }
}

/// When the buffer holds exactly the contiguous range that follows `last`, a
/// flush delivers all of it without any miss notification.
pub proof fn lemma_flush_contiguous<P>(s: Seq<(u32, Sample<P>)>, last: u32, source: SourceId)
    requires
        forall|i: int| 0 <= i < s.len() ==> (#[trigger] s[i]).0 == last + 1 + i,
    ensures
        flush_split(s, Some(last), source).emits =~= emits_of(s),
    decreases s.len(),
{
    if s.len() > 0 {
        let t = s.drop_first();
        assert(forall|i: int| 0 <= i < t.len() ==> (#[trigger] t[i]).0 == s[0].0 + 1 + i);
        lemma_flush_contiguous(t, s[0].0, source);
        assert(emits_of(s) =~= seq![Emission::Deliver(s[0].1)] + emits_of(t));
    }
}

/// `buf_insert` keeps the order, adds nothing but the new entry, and keeps
/// every old entry.
pub proof fn lemma_buf_insert_props<P>(s: Seq<(u32, Sample<P>)>, sn: u32, x: Sample<P>)
    requires
        buf_sorted(s),
    ensures
        buf_sorted(buf_insert(s, sn, x)),
        forall|i: int|
            0 <= i < buf_insert(s, sn, x).len() ==> s.contains(#[trigger] buf_insert(s, sn, x)[i])
                || buf_insert(s, sn, x)[i] == (sn, x),
    decreases s.len(),
{
    let r = buf_insert(s, sn, x);
    if s.len() == 0 {
    } else if s[0].0 < sn {
        let t = s.drop_first();
        lemma_buf_insert_props(t, sn, x);
        let rt = buf_insert(t, sn, x);
        assert(forall|i: int| 0 <= i < t.len() ==> s.contains(#[trigger] t[i]));
        assert(rt.len() > 0 && (rt[0] == (sn, x) || rt[0] == t[0] || t.contains(rt[0])));
        assert(forall|i: int|
            0 <= i < rt.len() ==> (#[trigger] rt[i]).0 >= sn || t.contains(rt[i]));
        assert forall|i: int| 0 <= i < r.len() implies s.contains(#[trigger] r[i]) || r[i] == (
            sn,
            x,
        ) by {
            if i == 0 {
                assert(s.contains(s[0]));
            } else {
                assert(r[i] == rt[i - 1]);
                if t.contains(rt[i - 1]) {
                    let j = choose|j: int| 0 <= j < t.len() && t[j] == rt[i - 1];
                    assert(s.contains(s[j + 1]));
                }
            }
        }
        assert forall|i: int, j: int| 0 <= i < j < r.len() implies r[i].0 < r[j].0 by {
            if i == 0 {
                assert(r[j] == rt[j - 1]);
                if t.contains(rt[j - 1]) {
                    let k = choose|k: int| 0 <= k < t.len() && t[k] == rt[j - 1];
                    assert(s[0].0 < t[k].0);
                }
            } else {
                assert(r[i] == rt[i - 1] && r[j] == rt[j - 1]);
            }
        }
    } else {
        assert(forall|i: int| 0 <= i < s.len() ==> s.contains(#[trigger] s[i]));
    }
}

/// Ordered delivery state for one sequenced source: the last sequence number
/// handed to the application, the number of in-flight queries that target
/// this source, the buffered out-of-order samples, and (as ghost history)
/// every sequence number delivered so far, in delivery order.
pub struct SequencedState<P> {
    pub last_delivered: Option<u32>,
    pub pending_queries: u64,
    pub pending_samples: SampleBuffer<P>,
    pub delivered: Ghost<Seq<u32>>,
}

impl<P> SequencedState<P> {
    /// One buffered entry is tagged with this source and its own key, and is
    /// newer than the last delivery.
    pub open spec fn entry_ok(self, e: (u32, Sample<P>), source: SourceId) -> bool {
        &&& e.1.source_id == Some(source)
        &&& e.1.source_sn == Some(e.0)
        &&& self.last_delivered is Some ==> e.0 > self.last_delivered->Some_0
    }

    /// Well-formedness: the buffer is sorted and holds only correctly tagged
    /// samples newer than the last delivery, and the ghost delivery history
    /// is strictly increasing and ends at the last delivery.
    pub open spec fn wf(self, source: SourceId) -> bool {
        &&& self.pending_samples.wf()
        &&& forall|i: int|
            0 <= i < self.pending_samples@.len() ==> self.entry_ok(
                #[trigger] self.pending_samples@[i],
                source,
            )
        &&& strictly_inc(self.delivered@)
        &&& match self.last_delivered {
            Some(k) => self.delivered@.len() > 0 && self.delivered@.last() == k,
            None => self.delivered@.len() == 0,
        }
    }

    /// A fresh source: nothing delivered, nothing buffered, no query.
    pub fn new() -> (r: Self)
        ensures
            forall|source: SourceId| r.wf(source),
            r.last_delivered is None,
            r.pending_queries == 0,
            r.pending_samples@ =~= Seq::<(u32, Sample<P>)>::empty(),
            r.delivered@ =~= Seq::<u32>::empty(),
    {
        SequencedState {
            last_delivered: None,
            pending_queries: 0,
            pending_samples: SampleBuffer::new(),
            delivered: Ghost(Seq::empty()),
        }
    }

    /// Drain the contiguous buffered run that directly follows `last`,
    /// returning the last sequence number reached and the deliveries.
    fn drain(&mut self, last: u32) -> (r: (u32, Vec<Emission<P>>))
        requires
            old(self).pending_samples.wf(),
            forall|i: int|
                0 <= i < old(self).pending_samples@.len() ==> (#[trigger] old(
                    self,
                ).pending_samples@[i]).0 > last,
        ensures
            ({
                let c = chain_split(old(self).pending_samples@, last);
                &&& final(self).pending_samples@ == c.rest
                &&& final(self).pending_samples.wf()
                &&& r.1@ == emits_of(c.taken)
                &&& r.0 == last + c.taken.len()
                &&& final(self).last_delivered == old(self).last_delivered
                &&& final(self).pending_queries == old(self).pending_queries
                &&& final(self).delivered == old(self).delivered
            }),
        decreases old(self).pending_samples@.len(),
    {
        proof {
            lemma_chain_split(self.pending_samples@, last);
        }
        let cont = if last < u32::MAX {
            match self.pending_samples.first_key() {
                Some(k) => k == last + 1,
                None => false,
            }
        } else {
            false
        };
        if cont {
            let ghost s0 = self.pending_samples@;
            let (k, smp) = self.pending_samples.pop_first();
            proof {
                assert(forall|i: int|
                    0 <= i < self.pending_samples@.len() ==> (
                    #[trigger] self.pending_samples@[i]).0 > k);
            }
            let (lastf, mut rest) = self.drain(k);
            let mut out: Vec<Emission<P>> = Vec::new();
            out.push(Emission::Deliver(smp));
            out.append(&mut rest);
            proof {
                let c = chain_split(s0, last);
                let c2 = chain_split(s0.drop_first(), k);
                assert(c.taken == seq![s0[0]] + c2.taken);
                assert(emits_of(c.taken) =~= seq![Emission::Deliver(smp)] + emits_of(c2.taken));
            }
            (lastf, out)
        } else {
            (last, Vec::new())
        }
    }

    /// Deliver `s` (the first sample, or the direct successor of the last
    /// delivery) and then the buffered run that follows it.
    fn deliver_and_drain(&mut self, s: Sample<P>, source: SourceId) -> (out: Vec<Emission<P>>)
        requires
            old(self).wf(source),
            s.source_id == Some(source),
            s.source_sn is Some,
            old(self).last_delivered is None || s.source_sn->Some_0 == old(
                self,
            ).last_delivered->Some_0 + 1,
        ensures
            final(self).wf(source),
            final(self).pending_queries == old(self).pending_queries,
            ({
                let st = seq_ingest(
                    old(self).last_delivered,
                    old(self).pending_samples@,
                    s,
                    false,
                    false,
                    source,
                );
                &&& final(self).last_delivered == st.last
                &&& final(self).pending_samples@ == st.pending
                &&& out@ == st.emits
                &&& final(self).delivered@ == old(self).delivered@ + st.keys
            }),
    {
        let sn = s.source_sn.unwrap();
        let mut out: Vec<Emission<P>> = Vec::new();
        out.push(Emission::Deliver(s));
        proof {
            lemma_buf_prune_le(self.pending_samples@, sn);
        }
        self.pending_samples.prune_le(sn);
        let ghost pruned = self.pending_samples@;
        proof {
            lemma_chain_split(pruned, sn);
        }
        let (lastf, mut chained) = self.drain(sn);
        out.append(&mut chained);
        self.last_delivered = Some(lastf);
        self.delivered = Ghost(
            old(self).delivered@ + seq![sn] + keys_of(chain_split(pruned, sn).taken),
        );
        proof {
            let c = chain_split(pruned, sn);
            let st = seq_ingest(
                old(self).last_delivered,
                old(self).pending_samples@,
                s,
                false,
                false,
                source,
            );
            assert(out@ =~= st.emits);
            assert(old(self).delivered@ + seq![sn] + keys_of(c.taken) =~= old(self).delivered@
                + st.keys);
            // well-formedness of what remains and of the extended history
            assert forall|i: int|
                0 <= i < self.pending_samples@.len() implies self.entry_ok(
                #[trigger] self.pending_samples@[i],
                source,
            ) by {
                assert(c.rest[i] == (c.taken + c.rest)[c.taken.len() + i]);
                assert(pruned.contains(c.rest[i]));
                let j = choose|j: int| 0 <= j < pruned.len() && pruned[j] == c.rest[i];
                assert(old(self).pending_samples@.contains(pruned[j]));
            }
            let d = self.delivered@;
            assert forall|i: int, j: int| 0 <= i < j < d.len() implies d[i] < d[j] by {
                let n0 = old(self).delivered@.len();
                if j >= n0 {
                    if i >= n0 {
                    } else {
                        assert(old(self).delivered@[i] == d[i]);
                        if old(self).last_delivered is Some {
                            assert(d[i] <= old(self).delivered@.last());
                        }
                    }
                }
            }
            assert(d.last() == lastf);
        }
        out
    }

    /// Ingest one sequenced sample, as the live and reply paths both do.
    pub fn ingest(&mut self, s: Sample<P>, gating: bool, retransmission: bool, source: SourceId)
        -> (out: Vec<Emission<P>>)
        requires
            old(self).wf(source),
            s.source_id == Some(source),
            s.source_sn is Some,
        ensures
            final(self).wf(source),
            final(self).pending_queries == old(self).pending_queries,
            ({
                let st = seq_ingest(
                    old(self).last_delivered,
                    old(self).pending_samples@,
                    s,
                    gating,
                    retransmission,
                    source,
                );
                &&& final(self).last_delivered == st.last
                &&& final(self).pending_samples@ == st.pending
                &&& out@ == st.emits
                &&& final(self).delivered@ == old(self).delivered@ + st.keys
            }),
    {
        let sn = s.source_sn.unwrap();
        if gating {
            let buffer_it = match self.last_delivered {
                None => true,
                Some(k) => sn > k,
            };
            if buffer_it {
                proof {
                    lemma_buf_insert_props(self.pending_samples@, sn, s);
                }
                self.pending_samples.insert(sn, s);
            }
            return Vec::new();
        }
        match self.last_delivered {
            None => self.deliver_and_drain(s, source),
            Some(k) => {
                if sn <= k {
                    Vec::new()
                } else if sn == k + 1 {
                    self.deliver_and_drain(s, source)
                } else if retransmission {
                    proof {
                        lemma_buf_insert_props(self.pending_samples@, sn, s);
                    }
                    self.pending_samples.insert(sn, s);
                    Vec::new()
                } else {
                    let mut out: Vec<Emission<P>> = Vec::new();
                    out.push(Emission::MissDetected(Miss { source, nb: sn - k - 1 }));
                    out.push(Emission::Deliver(s));
                    self.last_delivered = Some(sn);
                    proof {
                        lemma_buf_prune_le(self.pending_samples@, sn);
                    }
                    self.pending_samples.prune_le(sn);
                    self.delivered = Ghost(old(self).delivered@ + seq![sn]);
                    proof {
                        assert forall|i: int|
                            0 <= i < self.pending_samples@.len() implies self.entry_ok(
                            #[trigger] self.pending_samples@[i],
                            source,
                        ) by {
                            assert(old(self).pending_samples@.contains(
                                self.pending_samples@[i],
                            ));
                        }
                        let d = self.delivered@;
                        assert forall|i: int, j: int| 0 <= i < j < d.len() implies d[i]
                            < d[j] by {
                            if j == d.len() - 1 {
                                assert(d[i] <= old(self).delivered@.last());
                            }
                        }
                    }
                    out
                }
            }
        }
    }

    /// Flush the whole buffer in ascending order, exactly when no query
    /// targeting this source is still in flight.
    pub fn flush(&mut self, source: SourceId) -> (out: Vec<Emission<P>>)
        requires
            old(self).wf(source),
        ensures
            final(self).wf(source),
            final(self).pending_queries == old(self).pending_queries,
            old(self).pending_queries == 0 ==> ({
                let f = flush_split(old(self).pending_samples@, old(self).last_delivered, source);
                &&& out@ == f.emits
                &&& final(self).last_delivered == f.last
                &&& final(self).pending_samples@ == Seq::<(u32, Sample<P>)>::empty()
                &&& final(self).delivered@ == old(self).delivered@ + f.keys
            }),
            old(self).pending_queries != 0 ==> ({
                &&& final(self).last_delivered == old(self).last_delivered
                &&& final(self).pending_samples@ == old(self).pending_samples@
                &&& final(self).delivered@ == old(self).delivered@
                &&& out@ == Seq::<Emission<P>>::empty()
            }),
    {
        if self.pending_queries != 0 {
            return Vec::new();
        }
        let entries = self.pending_samples.take_all();
        proof {
            lemma_flush_split(entries@, self.last_delivered, source);
        }
        let (lastf, out) = flush_entries(entries, self.last_delivered, source);
        self.last_delivered = lastf;
        self.delivered = Ghost(
            old(self).delivered@ + flush_split(
                old(self).pending_samples@,
                old(self).last_delivered,
                source,
            ).keys,
        );
        proof {
            let s0 = old(self).pending_samples@;
            let f = flush_split(s0, old(self).last_delivered, source);
            let d = self.delivered@;
            assert(f.keys =~= keys_of(s0));
            assert forall|i: int, j: int| 0 <= i < j < d.len() implies d[i] < d[j] by {
                let n0 = old(self).delivered@.len();
                if i < n0 && j >= n0 {
                    assert(d[j] == s0[j - n0].0);
                    if old(self).last_delivered is Some {
                        assert(d[i] <= old(self).delivered@.last());
                    }
                }
                if i >= n0 {
                    assert(d[i] == s0[i - n0].0 && d[j] == s0[j - n0].0);
                }
            }
            if f.keys.len() > 0 {
                assert(d.last() == s0.last().0);
            }
        }
        out
    }
}

/// Run the flush algorithm over a detached, ascending buffer.
fn flush_entries<P>(entries: Vec<(u32, Sample<P>)>, last: Option<u32>, source: SourceId) -> (r: (
    Option<u32>,
    Vec<Emission<P>>,
))
    ensures
        ({
            let f = flush_split(entries@, last, source);
            &&& r.0 == f.last
            &&& r.1@ == f.emits
        }),
    decreases entries@.len(),
{
    let mut entries = entries;
    if entries.len() == 0 {
        return (last, Vec::new());
    }
    let ghost s0 = entries@;
    let (sn, smp) = entries.remove(0);
    proof {
        assert(entries@ =~= s0.drop_first());
    }
    let mut out: Vec<Emission<P>> = Vec::new();
    let deliver = match last {
        None => true,
        Some(l) => sn > l,
    };
    if deliver {
        if let Some(l) = last {
            if sn > l + 1 {
                out.push(Emission::MissDetected(Miss { source, nb: sn - l - 1 }));
            }
        }
        out.push(Emission::Deliver(smp));
        let (lastf, mut rest) = flush_entries(entries, Some(sn), source);
        out.append(&mut rest);
        (lastf, out)
    } else {
        flush_entries(entries, last, source)
    }
}

} // verus!
