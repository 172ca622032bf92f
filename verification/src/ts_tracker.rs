use vstd::prelude::*;

use crate::sample::{Sample, Timestamp};
use crate::tracker::Emission;
use crate::tsbuffer::{ts_insert, ts_sorted, TsBuffer};

verus! {

/// The deliveries for a run of timestamped buffer entries, in order.
pub open spec fn ts_emits_of<P>(d: Seq<(Timestamp, Sample<P>)>) -> Seq<Emission<P>> {
    d.map_values(|e: (Timestamp, Sample<P>)| Emission::Deliver(e.1))
}

/// The timestamps of a run of buffer entries, in order.
pub open spec fn ts_keys_of<P>(d: Seq<(Timestamp, Sample<P>)>) -> Seq<Timestamp> {
    d.map_values(|e: (Timestamp, Sample<P>)| e.0)
}

/// A strictly increasing sequence of timestamps.
pub open spec fn ts_strictly_inc(s: Seq<Timestamp>) -> bool {
    forall|i: int, j: int| 0 <= i < j < s.len() ==> s[i].lt_spec(s[j])
}

/// The outcome of ingesting one timestamped sample.
pub struct TsStep<P> {
    pub last: Option<Timestamp>,
    pub pending: Seq<(Timestamp, Sample<P>)>,
    pub emits: Seq<Emission<P>>,
    pub keys: Seq<Timestamp>,
}

/// The timestamped delivery algorithm for one incoming sample: drop it when
/// it is not newer than the last delivery; buffer it while any query is in
/// flight; deliver it otherwise.
pub open spec fn ts_ingest_spec<P>(
    last: Option<Timestamp>,
    pending: Seq<(Timestamp, Sample<P>)>,
    s: Sample<P>,
    gating: bool,
) -> TsStep<P> {
    let t = s.timestamp->Some_0;
    if last is Some && !last->Some_0.lt_spec(t) {
        TsStep { last, pending, emits: Seq::empty(), keys: Seq::empty() }
    } else if gating {
        TsStep { last, pending: ts_insert(pending, t, s), emits: Seq::empty(), keys: Seq::empty() }
    } else {
        TsStep {
            last: Some(t),
            pending,
            emits: seq![Emission::Deliver(s)],
            keys: seq![t],
        }
    }
}

/// The outcome of flushing a detached timestamped buffer: deliver, in
/// ascending order, every buffered sample newer than the last delivery.
pub struct TsFlush<P> {
    pub emits: Seq<Emission<P>>,
    pub last: Option<Timestamp>,
    pub keys: Seq<Timestamp>,
}

pub open spec fn ts_flush_split<P>(
    s: Seq<(Timestamp, Sample<P>)>,
    last: Option<Timestamp>,
) -> TsFlush<P>
    decreases s.len(),
{
    if s.len() == 0 {
        TsFlush { emits: Seq::empty(), last, keys: Seq::empty() }
    } else {
        let t = s[0].0;
        if last is None || last->Some_0.lt_spec(t) {
            let f = ts_flush_split(s.drop_first(), Some(t));
            TsFlush {
                emits: seq![Emission::Deliver(s[0].1)] + f.emits,
                last: f.last,
                keys: seq![t] + f.keys,
            }
        } else {
            ts_flush_split(s.drop_first(), last)
        }
    }
}

/// Under the buffer invariant (sorted, everything newer than `last`), a flush
/// delivers every buffered entry, in order.
pub proof fn lemma_ts_flush_split<P>(s: Seq<(Timestamp, Sample<P>)>, last: Option<Timestamp>)
    requires
        ts_sorted(s),
        last is Some ==> forall|i: int|
            0 <= i < s.len() ==> last->Some_0.lt_spec((#[trigger] s[i]).0),
    ensures
        ({
            let f = ts_flush_split(s, last);
            &&& f.keys =~= ts_keys_of(s)
            &&& f.emits =~= ts_emits_of(s)
            &&& f.last == if s.len() == 0 {
                last
            } else {
                Some(s.last().0)
            }
        }),
    decreases s.len(),
{
    if s.len() > 0 {
        let t = s.drop_first();
        assert(forall|i: int| 0 <= i < t.len() ==> s[0].0.lt_spec((#[trigger] t[i]).0));
        lemma_ts_flush_split(t, Some(s[0].0));
        assert(ts_keys_of(s) =~= seq![s[0].0] + ts_keys_of(t));
        assert(ts_emits_of(s) =~= seq![Emission::Deliver(s[0].1)] + ts_emits_of(t));
        if t.len() > 0 {
            assert(s.last() == t.last());
        }
    }
}

/// `ts_insert` keeps the order, adds nothing but the new entry, and keeps
/// every old entry.
pub proof fn lemma_ts_insert_props<P>(s: Seq<(Timestamp, Sample<P>)>, t: Timestamp, x: Sample<P>)
    requires
        ts_sorted(s),
    ensures
        ts_sorted(ts_insert(s, t, x)),
        forall|i: int|
            0 <= i < ts_insert(s, t, x).len() ==> s.contains(#[trigger] ts_insert(s, t, x)[i])
                || ts_insert(s, t, x)[i] == (t, x),
    decreases s.len(),
{
    let r = ts_insert(s, t, x);
    if s.len() == 0 {
    } else if s[0].0.lt_spec(t) {
        let u = s.drop_first();
        lemma_ts_insert_props(u, t, x);
        let ru = ts_insert(u, t, x);
        assert(forall|i: int| 0 <= i < u.len() ==> s.contains(#[trigger] u[i]));
        assert(forall|i: int|
            0 <= i < ru.len() ==> (#[trigger] ru[i]) == (t, x) || u.contains(ru[i]));
        assert forall|i: int|
            0 <= i < ru.len() implies t == (#[trigger] ru[i]).0 || t.lt_spec(ru[i].0)
            || ru[i].0.lt_spec(t) by {
            if u.contains(ru[i]) {
                let k = choose|k: int| 0 <= k < u.len() && u[k] == ru[i];
                assert(u[k] == ru[i]);
            }
        }
        assert forall|i: int| 0 <= i < r.len() implies s.contains(#[trigger] r[i]) || r[i] == (
            t,
            x,
        ) by {
            if i == 0 {
                assert(s.contains(s[0]));
            } else {
                assert(r[i] == ru[i - 1]);
                if u.contains(ru[i - 1]) {
                    let j = choose|j: int| 0 <= j < u.len() && u[j] == ru[i - 1];
                    assert(s.contains(s[j + 1]));
                }
            }
        }
        assert forall|i: int, j: int| 0 <= i < j < r.len() implies r[i].0.lt_spec(r[j].0) by {
            if i == 0 {
                assert(r[j] == ru[j - 1]);
                if u.contains(ru[j - 1]) {
                    let k = choose|k: int| 0 <= k < u.len() && u[k] == ru[j - 1];
                    assert(s[0].0.lt_spec(u[k].0));
                }
            } else {
                assert(r[i] == ru[i - 1] && r[j] == ru[j - 1]);
            }
        }
    } else {
        assert(forall|i: int| 0 <= i < s.len() ==> s.contains(#[trigger] s[i]));
        if s[0].0 == t {
        } else {
            assert(t.lt_spec(s[0].0));
            assert forall|j: int| 0 <= j < s.len() implies t.lt_spec((#[trigger] s[j]).0) by {
                if j > 0 {
                    assert(s[0].0.lt_spec(s[j].0));
                }
            }
        }
    }
}

/// Ordered delivery state for one timestamped origin: the timestamp of the
/// last delivery, the number of in-flight queries targeting this origin, the
/// buffered out-of-order samples, and (as ghost history) every timestamp
/// delivered so far, in delivery order.
pub struct TimestampedState<P> {
    pub last_delivered: Option<Timestamp>,
    pub pending_queries: u64,
    pub pending_samples: TsBuffer<P>,
    pub delivered: Ghost<Seq<Timestamp>>,
}

impl<P> TimestampedState<P> {
    /// One buffered entry carries its own key as timestamp, stamped with this
    /// origin's node id, and is newer than the last delivery.
    pub open spec fn entry_ok(self, e: (Timestamp, Sample<P>), node: u128) -> bool {
        &&& e.1.timestamp == Some(e.0)
        &&& e.0.id == node
        &&& self.last_delivered is Some ==> self.last_delivered->Some_0.lt_spec(e.0)
    }

    /// Well-formedness: sorted buffer of correctly stamped samples newer than
    /// the last delivery, and a strictly increasing ghost delivery history
    /// that ends at the last delivery.
    pub open spec fn wf(self, node: u128) -> bool {
        &&& self.pending_samples.wf()
        &&& forall|i: int|
            0 <= i < self.pending_samples@.len() ==> self.entry_ok(
                #[trigger] self.pending_samples@[i],
                node,
            )
        &&& ts_strictly_inc(self.delivered@)
        &&& match self.last_delivered {
            Some(t) => self.delivered@.len() > 0 && self.delivered@.last() == t,
            None => self.delivered@.len() == 0,
        }
    }

    /// A fresh origin: nothing delivered, nothing buffered, no query.
    pub fn new() -> (r: Self)
        ensures
            forall|node: u128| r.wf(node),
            r.last_delivered is None,
            r.pending_queries == 0,
            r.pending_samples@ =~= Seq::<(Timestamp, Sample<P>)>::empty(),
            r.delivered@ =~= Seq::<Timestamp>::empty(),
    {
        TimestampedState {
            last_delivered: None,
            pending_queries: 0,
            pending_samples: TsBuffer::new(),
            delivered: Ghost(Seq::empty()),
        }
    }

    /// Ingest one timestamped sample; `gating` tells whether any query is in
    /// flight, globally or for this origin.
    pub fn ingest(&mut self, s: Sample<P>, gating: bool, node: u128) -> (out: Vec<Emission<P>>)
        requires
            old(self).wf(node),
            s.timestamp is Some,
            s.timestamp->Some_0.id == node,
            !gating ==> old(self).pending_samples@.len() == 0,
        ensures
            final(self).wf(node),
            final(self).pending_queries == old(self).pending_queries,
            ({
                let st = ts_ingest_spec(
                    old(self).last_delivered,
                    old(self).pending_samples@,
                    s,
                    gating,
                );
                &&& final(self).last_delivered == st.last
                &&& final(self).pending_samples@ == st.pending
                &&& out@ == st.emits
                &&& final(self).delivered@ == old(self).delivered@ + st.keys
            }),
    {
        let t = s.timestamp.unwrap();
        let fresh = match self.last_delivered {
            None => true,
            Some(l) => l.lt(&t),
        };
        if !fresh {
            return Vec::new();
        }
        if gating {
            proof {
                lemma_ts_insert_props(self.pending_samples@, t, s);
            }
            self.pending_samples.insert(t, s);
            return Vec::new();
        }
        let mut out: Vec<Emission<P>> = Vec::new();
        self.last_delivered = Some(t);
        out.push(Emission::Deliver(s));
        self.delivered = Ghost(old(self).delivered@ + seq![t]);
        proof {
            let d = self.delivered@;
            let d0 = old(self).delivered@;
            assert forall|i: int, j: int| 0 <= i < j < d.len() implies d[i].lt_spec(d[j]) by {
                if j == d.len() - 1 {
                    let l = old(self).last_delivered->Some_0;
                    assert(d[i] == d0[i]);
                    if i < d0.len() - 1 {
                        assert(d0[i].lt_spec(d0.last()));
                    }
                    assert(l.lt_spec(t));
                } else {
                    assert(d[i] == d0[i] && d[j] == d0[j]);
                }
            }
        }
        out
    }

    /// Flush the whole buffer in ascending order, exactly when no query
    /// targeting this origin is still in flight.
    pub fn flush(&mut self) -> (out: Vec<Emission<P>>)
        requires
            ({
                // well-formed for some node id
                exists|node: u128| old(self).wf(node)
            }),
        ensures
            forall|node: u128| old(self).wf(node) ==> final(self).wf(node),
            final(self).pending_queries == old(self).pending_queries,
            old(self).pending_queries == 0 ==> ({
                let f = ts_flush_split(old(self).pending_samples@, old(self).last_delivered);
                &&& out@ == f.emits
                &&& final(self).last_delivered == f.last
                &&& final(self).pending_samples@ == Seq::<(Timestamp, Sample<P>)>::empty()
                &&& final(self).delivered@ == old(self).delivered@ + f.keys
            }),
            old(self).pending_queries != 0 ==> ({
                &&& final(self).last_delivered == old(self).last_delivered
                &&& final(self).pending_samples@ == old(self).pending_samples@
                &&& final(self).delivered@ == old(self).delivered@
                &&& out@ == Seq::<Emission<P>>::empty()
            }),
    {
        if self.pending_queries != 0 {
            return Vec::new();
        }
        let ghost node = choose|node: u128| old(self).wf(node);
        let entries = self.pending_samples.take_all();
        proof {
            lemma_ts_flush_split(entries@, self.last_delivered);
        }
        let (lastf, out) = ts_flush_entries(entries, self.last_delivered);
        self.last_delivered = lastf;
        self.delivered = Ghost(
            old(self).delivered@ + ts_flush_split(
                old(self).pending_samples@,
                old(self).last_delivered,
            ).keys,
        );
        proof {
            let s0 = old(self).pending_samples@;
            let f = ts_flush_split(s0, old(self).last_delivered);
            let d = self.delivered@;
            assert(f.keys =~= ts_keys_of(s0));
            assert forall|i: int, j: int| 0 <= i < j < d.len() implies d[i].lt_spec(d[j]) by {
                let n0 = old(self).delivered@.len();
                if i < n0 && j >= n0 {
                    assert(d[j] == s0[j - n0].0);
                    if old(self).last_delivered is Some {
                        assert(d[i] == old(self).delivered@[i]);
                        if i < n0 - 1 {
                            assert(old(self).delivered@[i].lt_spec(old(self).delivered@.last()));
                        }
                    }
                }
                if i >= n0 {
                    assert(d[i] == s0[i - n0].0 && d[j] == s0[j - n0].0);
                }
            }
            if f.keys.len() > 0 {
                assert(d.last() == s0.last().0);
            }
        }
        out
    }
}

/// Run the timestamped flush algorithm over a detached, ascending buffer.
fn ts_flush_entries<P>(entries: Vec<(Timestamp, Sample<P>)>, last: Option<Timestamp>) -> (r: (
    Option<Timestamp>,
    Vec<Emission<P>>,
))
    ensures
        ({
            let f = ts_flush_split(entries@, last);
            &&& r.0 == f.last
            &&& r.1@ == f.emits
        }),
    decreases entries@.len(),
{
    let mut entries = entries;
    if entries.len() == 0 {
        return (last, Vec::new());
    }
    let ghost s0 = entries@;
    let (t, smp) = entries.remove(0);
    proof {
        assert(entries@ =~= s0.drop_first());
    }
    let deliver = match last {
        None => true,
        Some(l) => l.lt(&t),
    };
    if deliver {
        let mut out: Vec<Emission<P>> = Vec::new();
        out.push(Emission::Deliver(smp));
        let (lastf, mut rest) = ts_flush_entries(entries, Some(t));
        out.append(&mut rest);
        (lastf, out)
    } else {
        ts_flush_entries(entries, last)
    }
}

} // verus!
