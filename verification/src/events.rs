use vstd::prelude::*;

use crate::keformat::{
    history_ke_seq, history_params, history_params_seq, history_query_ke, liveliness_sub_ke,
    liveliness_sub_ke_seq, parse_liveliness_token, range_ke_seq, range_query_ke, seq_num_range,
    sn_range_seq, split_slash, token_ke, token_ke_seq, token_parse_spec, TokenParse,
};
use crate::sample::{Sample, SampleKind, SourceId, Timestamp};
use crate::state::{
    handle_sample_post, has_seq_source, has_ts_source, ke_intersects, seq_views, sview, ts_views,
    tsview, QueryGuard, QueryRequest, SeqView, SubscriberState, TsView,
};
use crate::tracker::{flush_split, Emission, SequencedState};
use crate::ts_tracker::{ts_flush_split, TimestampedState};

verus! {

/// What arrives with one live sample: what to deliver or report, the
/// retransmission query to issue for a detected gap, and the source whose
/// periodic probing should start.
pub struct LiveSampleOutput<P> {
    pub new_source: bool,
    pub emissions: Vec<Emission<P>>,
    pub retransmit: Option<QueryRequest>,
    pub arm_periodic: Option<SourceId>,
}

/// What one liveliness token asks for: the history query to issue, the
/// source whose periodic probing should start, and whether the token was
/// malformed (to be logged and dropped).
pub struct LivelinessOutput {
    pub query: Option<QueryRequest>,
    pub arm_periodic: Option<SourceId>,
    pub malformed: bool,
}

/// A query request carries this selector, this guard class, and the
/// configured annotations.
pub open spec fn query_ok<P>(
    st: SubscriberState<P>,
    q: QueryRequest,
    ke: Seq<char>,
    params: Seq<char>,
    guard: QueryGuard,
) -> bool {
    &&& q.key_expr@ == ke
    &&& q.parameters@ == params
    &&& q.guard == guard
    &&& q.target == st.query_target
    &&& q.timeout_ms == st.query_timeout_ms
}

/// The selector parameters of every history-style query.
pub open spec fn hist_params_of<P>(st: SubscriberState<P>) -> Seq<char> {
    history_params_seq(st.history->Some_0.sample_depth, st.history->Some_0.age_secs)
}

/// Emissions of flushing one sequenced source (nothing while a query still
/// targets it).
pub open spec fn seq_flush_one_emits<P>(e: (SourceId, SequencedState<P>)) -> Seq<Emission<P>> {
    if e.1.pending_queries == 0 {
        flush_split(e.1.pending_samples@, e.1.last_delivered, e.0).emits
    } else {
        Seq::empty()
    }
}

/// The view of one sequenced source after a flush.
pub open spec fn seq_flush_one_view<P>(e: (SourceId, SequencedState<P>)) -> SeqView<P> {
    if e.1.pending_queries == 0 {
        let f = flush_split(e.1.pending_samples@, e.1.last_delivered, e.0);
        SeqView {
            last: f.last,
            pending: Seq::empty(),
            pq: e.1.pending_queries,
            delivered: e.1.delivered@ + f.keys,
        }
    } else {
        sview(e.1)
    }
}

/// Emissions of flushing every sequenced source in order.
pub open spec fn seq_flush_all_emits<P>(s: Seq<(SourceId, SequencedState<P>)>) -> Seq<Emission<P>>
    decreases s.len(),
{
    if s.len() == 0 {
        Seq::empty()
    } else {
        seq_flush_one_emits(s[0]) + seq_flush_all_emits(s.drop_first())
    }
}

pub open spec fn ts_flush_one_emits<P>(e: (u128, TimestampedState<P>)) -> Seq<Emission<P>> {
    if e.1.pending_queries == 0 {
        ts_flush_split(e.1.pending_samples@, e.1.last_delivered).emits
    } else {
        Seq::empty()
    }
}

pub open spec fn ts_flush_one_view<P>(e: (u128, TimestampedState<P>)) -> TsView<P> {
    if e.1.pending_queries == 0 {
        let f = ts_flush_split(e.1.pending_samples@, e.1.last_delivered);
        TsView {
            last: f.last,
            pending: Seq::empty(),
            pq: e.1.pending_queries,
            delivered: e.1.delivered@ + f.keys,
        }
    } else {
        tsview(e.1)
    }
}

pub open spec fn ts_flush_all_emits<P>(s: Seq<(u128, TimestampedState<P>)>) -> Seq<Emission<P>>
    decreases s.len(),
{
    if s.len() == 0 {
        Seq::empty()
    } else {
        ts_flush_one_emits(s[0]) + ts_flush_all_emits(s.drop_first())
    }
}

/// The source ids of the sequenced entries, in order.
pub open spec fn seq_source_ids<P>(s: Seq<(SourceId, SequencedState<P>)>) -> Seq<SourceId> {
    s.map_values(|e: (SourceId, SequencedState<P>)| e.0)
}

impl<P> SubscriberState<P> {
    /// Hand out the initial history query, when history is configured: the
    /// query whose in-flight status the global pending-query counter was
    /// pre-set to one for.
    pub fn initial_history_query(&self) -> (r: Option<QueryRequest>)
        ensures
            r is Some <==> self.history is Some,
            r is Some ==> query_ok(
                *self,
                r->Some_0,
                history_ke_seq(self.key_expr@),
                hist_params_of(*self),
                QueryGuard::Initial,
            ),
    {
        match &self.history {
            Some(h) => Some(
                QueryRequest {
                    key_expr: history_query_ke(self.key_expr.as_str()),
                    parameters: history_params(h.sample_depth, h.age_secs),
                    guard: QueryGuard::Initial,
                    target: self.query_target,
                    timeout_ms: self.query_timeout_ms,
                },
            ),
            None => None,
        }
    }

    /// The key expression to watch for publisher liveliness tokens, when
    /// late-publisher detection is configured.
    pub fn liveliness_subscriber_ke(&self) -> (r: Option<String>)
        ensures
            r is Some <==> (self.history is Some && self.history->Some_0.liveliness),
            r is Some ==> r->Some_0@ == liveliness_sub_ke_seq(self.key_expr@),
    {
        match &self.history {
            Some(h) => {
                if h.liveliness {
                    Some(liveliness_sub_ke(self.key_expr.as_str()))
                } else {
                    None
                }
            }
            None => None,
        }
    }

    /// The subscriber's own liveliness token, when subscriber detection is
    /// configured; `self_id` is the identity the bus assigned this
    /// subscriber.
    pub fn liveliness_token_ke(&self, self_id: SourceId) -> (r: Option<String>)
        ensures
            r is Some <==> self.subscriber_detection,
            r is Some ==> r->Some_0@ == token_ke_seq(
                self_id,
                match self.meta_key_expr {
                    Some(m) => Some(m@),
                    None => None,
                },
                self.key_expr@,
            ),
    {
        if self.subscriber_detection {
            Some(token_ke(self_id, self.meta_key_expr.as_ref(), self.key_expr.as_str()))
        } else {
            None
        }
    }

    /// Route one live sample, then ask for retransmission if it left a gap:
    /// when retransmission is configured, the source has buffered samples,
    /// and no query already targets it, one range query from the next needed
    /// sequence number is issued under that source's guard.
    pub fn handle_live_sample(&mut self, s: Sample<P>) -> (r: LiveSampleOutput<P>)
        requires
            old(self).wf(),
        ensures
            final(self).wf(),
            final(self).same_config(*old(self)),
            final(self).closed == old(self).closed,
            final(self).global_pending_queries == old(self).global_pending_queries,
            final(self).next_id == old(self).next_id,
            final(self).miss_handlers@ == old(self).miss_handlers@,
            old(self).closed ==> !r.new_source && r.emissions@ == Seq::<Emission<P>>::empty()
                && r.retransmit is None && r.arm_periodic is None
                && final(self).sequenced_states@ == old(self).sequenced_states@
                && final(self).timestamped_states@ == old(self).timestamped_states@,
            !old(self).closed ==> exists|mid: SubscriberState<P>|
                {
                    &&& #[trigger] handle_sample_post(
                        *old(self),
                        mid,
                        s,
                        r.new_source,
                        r.emissions@,
                    )
                    &&& mid.same_config(*old(self))
                    &&& retransmit_post(mid, *final(self), s, r.retransmit)
                },
            !old(self).closed ==> r.arm_periodic == if r.new_source && old(self).periodic_queries
                is Some && s.source_id is Some && s.source_sn is Some {
                s.source_id
            } else {
                None::<SourceId>
            },
    {
        if self.closed {
            return LiveSampleOutput {
                new_source: false,
                emissions: Vec::new(),
                retransmit: None,
                arm_periodic: None,
            };
        }
        let has_seq = s.source_id.is_some() && s.source_sn.is_some();
        let sid_opt = s.source_id;
        let (new_source, emissions) = self.handle_sample(s);
        let ghost mid = *self;
        let mut retransmit: Option<QueryRequest> = None;
        if has_seq && self.retransmission {
            let sid = sid_opt.unwrap();
            if let Some(i) = self.find_sequenced(sid) {
                let ghost olds = self.sequenced_states@;
                let mut entry = self.sequenced_states.remove(i);
                if entry.1.pending_queries == 0 && !entry.1.pending_samples.is_empty() {
                    entry.1.pending_queries = entry.1.pending_queries.saturating_add(1);
                    let start: Option<u32> = match entry.1.last_delivered {
                        Some(k) => {
                            proof {
                                assert(entry.1.pending_samples@[0].0 > k);
                            }
                            Some(k + 1)
                        }
                        None => None,
                    };
                    retransmit = Some(
                        QueryRequest {
                            key_expr: range_query_ke(sid, self.key_expr.as_str()),
                            parameters: seq_num_range(start, None),
                            guard: QueryGuard::Sequenced(sid),
                            target: self.query_target,
                            timeout_ms: self.query_timeout_ms,
                        },
                    );
                }
                self.sequenced_states.insert(i, entry);
                proof {
                    assert(self.sequenced_states@ =~= olds.update(
                        i as int,
                        self.sequenced_states@[i as int],
                    ));
                    assert(seq_views(self.sequenced_states@) =~= seq_views(olds).update(
                        i as int,
                        (sid, sview(self.sequenced_states@[i as int].1)),
                    ));
                    if retransmit is None {
                        assert(self.sequenced_states@ =~= olds);
                    }
                    assert(retransmit_post(mid, *self, s, retransmit));
                }
            }
        }
        let arm_periodic: Option<SourceId> = if new_source && self.periodic_queries.is_some()
            && has_seq {
            Some(sid_opt.unwrap())
        } else {
            None
        };
        let r = LiveSampleOutput { new_source, emissions, retransmit, arm_periodic };
        proof {
            assert(handle_sample_post(*old(self), mid, s, r.new_source, r.emissions@));
            assert(retransmit_post(mid, *self, s, r.retransmit));
        }
        r
    }

    /// Route one reply of a history or retransmission query, after checking
    /// that its key expression intersects the subscriber's (a cache may
    /// answer with a more general key expression than was asked for).
    pub fn handle_reply_sample(&mut self, s: Sample<P>) -> (out: Vec<Emission<P>>)
        requires
            old(self).wf(),
        ensures
            final(self).wf(),
            final(self).same_config(*old(self)),
            final(self).closed == old(self).closed,
            final(self).global_pending_queries == old(self).global_pending_queries,
            final(self).next_id == old(self).next_id,
            final(self).miss_handlers@ == old(self).miss_handlers@,
            (old(self).closed || !ke_intersects(old(self).key_expr@, s.key_expr@)) ==> out@
                == Seq::<Emission<P>>::empty() && final(self).sequenced_states@ == old(self).sequenced_states@ && final(self).timestamped_states@ == old(self).timestamped_states@,
            (!old(self).closed && ke_intersects(old(self).key_expr@, s.key_expr@)) ==> exists|
                b: bool,
            |
                #[trigger] handle_sample_post(*old(self), *final(self), s, b, out@),
    {
        if self.closed {
            return Vec::new();
        }
        let intersects = crate::state::ke_intersects_exec(self.key_expr.as_str(), s.key_expr.as_str());
        if !intersects {
            return Vec::new();
        }
        let (b, out) = self.handle_sample(s);
        proof {
            assert(handle_sample_post(*old(self), *self, s, b, out@));
        }
        out
    }

    /// Release of the initial-replies guard: the global pending-query counter
    /// goes down by one, and when it reaches zero every source is flushed, in
    /// order, and periodic probing is owed for every known sequenced source.
    pub fn initial_replies_done(&mut self) -> (r: (Vec<Emission<P>>, Vec<SourceId>))
        requires
            old(self).wf(),
        ensures
            final(self).wf(),
            final(self).same_config(*old(self)),
            final(self).closed == old(self).closed,
            final(self).next_id == old(self).next_id,
            final(self).miss_handlers@ == old(self).miss_handlers@,
            old(self).closed ==> r.0@ == Seq::<Emission<P>>::empty() && r.1@ == Seq::<
                SourceId,
            >::empty() && final(self).sequenced_states@ == old(self).sequenced_states@ && final(self).timestamped_states@ == old(self).timestamped_states@ && final(self).global_pending_queries == old(self).global_pending_queries,
            !old(self).closed ==> ({
                let gp2 = if old(self).global_pending_queries > 0 {
                    (old(self).global_pending_queries - 1) as u64
                } else {
                    0u64
                };
                &&& final(self).global_pending_queries == gp2
                &&& gp2 != 0 ==> r.0@ == Seq::<Emission<P>>::empty() && r.1@ == Seq::<
                    SourceId,
                >::empty() && final(self).sequenced_states@ == old(self).sequenced_states@
                    && final(self).timestamped_states@ == old(self).timestamped_states@
                &&& gp2 == 0 ==> ({
                    &&& r.0@ == seq_flush_all_emits(old(self).sequenced_states@)
                        + ts_flush_all_emits(old(self).timestamped_states@)
                    &&& seq_views(final(self).sequenced_states@) == old(self).sequenced_states@.map_values(
                        |e: (SourceId, SequencedState<P>)| (e.0, seq_flush_one_view(e)),
                    )
                    &&& ts_views(final(self).timestamped_states@) == old(self).timestamped_states@.map_values(
                        |e: (u128, TimestampedState<P>)| (e.0, ts_flush_one_view(e)),
                    )
                    &&& r.1@ == if old(self).periodic_queries is Some {
                        seq_source_ids(old(self).sequenced_states@)
                    } else {
                        Seq::<SourceId>::empty()
                    }
                })
            }),
    {
        if self.closed {
            return (Vec::new(), Vec::new());
        }
        self.global_pending_queries = self.global_pending_queries.saturating_sub(1);
        if self.global_pending_queries != 0 {
            return (Vec::new(), Vec::new());
        }
        let ghost olds = self.sequenced_states@;
        let ghost oldt = self.timestamped_states@;
        // collect the sources owed periodic probing before flushing
        let mut arm: Vec<SourceId> = Vec::new();
        if self.periodic_queries.is_some() {
            proof {
                assert(seq_source_ids(olds).take(0) =~= Seq::<SourceId>::empty());
            }
            let mut m: usize = 0;
            while m < self.sequenced_states.len()
                invariant
                    0 <= m <= olds.len(),
                    self.sequenced_states@ == olds,
                    arm@ =~= seq_source_ids(olds).take(m as int),
                decreases olds.len() - m,
            {
                arm.push(self.sequenced_states[m].0);
                proof {
                    assert(arm@ =~= seq_source_ids(olds).take(m as int + 1));
                }
                m = m + 1;
            }
            proof {
                assert(seq_source_ids(olds).take(olds.len() as int) =~= seq_source_ids(olds));
            }
        }
        let mut out: Vec<Emission<P>> = Vec::new();
        proof {
            assert(olds.skip(0) =~= olds);
            assert(out@ =~= Seq::<Emission<P>>::empty());
            assert(out@ + seq_flush_all_emits(olds) =~= seq_flush_all_emits(olds));
        }
        let mut i: usize = 0;
        while i < self.sequenced_states.len()
            invariant
                0 <= i <= olds.len(),
                self.sequenced_states@.len() == olds.len(),
                self.timestamped_states@ == oldt,
                self.same_config(*old(self)),
                self.closed == old(self).closed,
                self.next_id == old(self).next_id,
                self.miss_handlers@ == old(self).miss_handlers@,
                self.global_pending_queries == 0,
                forall|j: int| i <= j < olds.len() ==> self.sequenced_states@[j] == olds[j],
                forall|j: int|
                    0 <= j < i ==> (#[trigger] self.sequenced_states@[j]).0 == olds[j].0 && sview(
                        self.sequenced_states@[j].1,
                    ) == seq_flush_one_view(olds[j]) && self.sequenced_states@[j].1.wf(olds[j].0),
                forall|j: int|
                    0 <= j < olds.len() ==> (#[trigger] olds[j]).1.wf(olds[j].0),
                out@ + seq_flush_all_emits(olds.skip(i as int)) == seq_flush_all_emits(olds),
            decreases olds.len() - i,
        {
            let mut entry = self.sequenced_states.remove(i);
            let ghost pre_entry = olds[i as int];
            let mut ems = entry.1.flush(entry.0);
            let ghost out0 = out@;
            out.append(&mut ems);
            self.sequenced_states.insert(i, entry);
            proof {
                assert(olds.skip(i as int).drop_first() =~= olds.skip(i as int + 1));
                assert(olds.skip(i as int)[0] == olds[i as int]);
                assert(seq_flush_all_emits(olds.skip(i as int)) == seq_flush_one_emits(
                    olds[i as int],
                ) + seq_flush_all_emits(olds.skip(i as int + 1)));
                assert(out@ =~= out0 + seq_flush_one_emits(olds[i as int]));
                assert((out0 + seq_flush_one_emits(olds[i as int])) + seq_flush_all_emits(
                    olds.skip(i as int + 1),
                ) =~= out0 + (seq_flush_one_emits(olds[i as int]) + seq_flush_all_emits(
                    olds.skip(i as int + 1),
                )));
            }
            i = i + 1;
        }
        let ghost seqafter = self.sequenced_states@;
        proof {
            assert(olds.skip(olds.len() as int) =~= Seq::<(SourceId, SequencedState<P>)>::empty());
            assert(out@ =~= seq_flush_all_emits(olds));
            assert(seq_views(seqafter) =~= olds.map_values(
                |e: (SourceId, SequencedState<P>)| (e.0, seq_flush_one_view(e)),
            ));
            assert(forall|j: int|
                0 <= j < seqafter.len() ==> (#[trigger] seqafter[j]).1.wf(seqafter[j].0));
            assert(forall|j: int|
                0 <= j < seqafter.len() ==> (#[trigger] seqafter[j]).0 == olds[j].0);
            assert(oldt.skip(0) =~= oldt);
            assert(out@ + ts_flush_all_emits(oldt) =~= seq_flush_all_emits(olds)
                + ts_flush_all_emits(oldt));
        }
        let mut k: usize = 0;
        while k < self.timestamped_states.len()
            invariant
                0 <= k <= oldt.len(),
                self.timestamped_states@.len() == oldt.len(),
                self.sequenced_states@ == seqafter,
                self.same_config(*old(self)),
                self.closed == old(self).closed,
                self.next_id == old(self).next_id,
                self.miss_handlers@ == old(self).miss_handlers@,
                self.global_pending_queries == 0,
                forall|j: int| k <= j < oldt.len() ==> self.timestamped_states@[j] == oldt[j],
                forall|j: int|
                    0 <= j < k ==> (#[trigger] self.timestamped_states@[j]).0 == oldt[j].0
                        && tsview(self.timestamped_states@[j].1) == ts_flush_one_view(oldt[j])
                        && self.timestamped_states@[j].1.wf(oldt[j].0)
                        && (self.timestamped_states@[j].1.pending_queries == 0
                        ==> self.timestamped_states@[j].1.pending_samples@.len() == 0),
                forall|j: int| 0 <= j < oldt.len() ==> (#[trigger] oldt[j]).1.wf(oldt[j].0),
                out@ + ts_flush_all_emits(oldt.skip(k as int)) == seq_flush_all_emits(olds)
                    + ts_flush_all_emits(oldt),
            decreases oldt.len() - k,
        {
            let mut entry = self.timestamped_states.remove(k);
            let ghost pre_entry = oldt[k as int];
            proof {
                assert(entry.1.wf(pre_entry.0));
            }
            let mut ems = entry.1.flush();
            let ghost out0 = out@;
            out.append(&mut ems);
            self.timestamped_states.insert(k, entry);
            proof {
                assert(oldt.skip(k as int).drop_first() =~= oldt.skip(k as int + 1));
                assert(oldt.skip(k as int)[0] == oldt[k as int]);
                assert(ts_flush_all_emits(oldt.skip(k as int)) == ts_flush_one_emits(
                    oldt[k as int],
                ) + ts_flush_all_emits(oldt.skip(k as int + 1)));
                assert(out@ =~= out0 + ts_flush_one_emits(oldt[k as int]));
                assert((out0 + ts_flush_one_emits(oldt[k as int])) + ts_flush_all_emits(
                    oldt.skip(k as int + 1),
                ) =~= out0 + (ts_flush_one_emits(oldt[k as int]) + ts_flush_all_emits(
                    oldt.skip(k as int + 1),
                )));
            }
            k = k + 1;
        }
        proof {
            assert(oldt.skip(oldt.len() as int) =~= Seq::<(u128, TimestampedState<P>)>::empty());
            assert(out@ =~= seq_flush_all_emits(olds) + ts_flush_all_emits(oldt));
            assert(ts_views(self.timestamped_states@) =~= oldt.map_values(
                |e: (u128, TimestampedState<P>)| (e.0, ts_flush_one_view(e)),
            ));
        }
        (out, arm)
    }

    /// Release of one sequenced source's replies guard: that source's
    /// pending-query counter goes down by one, and the source is flushed
    /// unless a history-style query is still in flight.
    pub fn sequenced_replies_done(&mut self, source: SourceId) -> (out: Vec<Emission<P>>)
        requires
            old(self).wf(),
        ensures
            final(self).wf(),
            final(self).same_config(*old(self)),
            final(self).closed == old(self).closed,
            final(self).global_pending_queries == old(self).global_pending_queries,
            final(self).next_id == old(self).next_id,
            final(self).miss_handlers@ == old(self).miss_handlers@,
            final(self).timestamped_states@ == old(self).timestamped_states@,
            (old(self).closed || !has_seq_source(old(self).sequenced_states@, source)) ==> out@
                == Seq::<Emission<P>>::empty() && final(self).sequenced_states@ == old(self).sequenced_states@,
            (!old(self).closed && has_seq_source(old(self).sequenced_states@, source)) ==> exists|
                i: int,
            |
                {
                    &&& 0 <= i < old(self).sequenced_states@.len()
                    &&& (#[trigger] old(self).sequenced_states@[i]).0 == source
                    &&& ({
                        let v = sview(old(self).sequenced_states@[i].1);
                        let pq2 = if v.pq > 0 {
                            (v.pq - 1) as u64
                        } else {
                            0u64
                        };
                        let flushing = old(self).global_pending_queries == 0 && pq2 == 0;
                        let f = flush_split(v.pending, v.last, source);
                        &&& seq_views(final(self).sequenced_states@) == seq_views(
                            old(self).sequenced_states@,
                        ).update(
                            i,
                            (
                                source,
                                if flushing {
                                    SeqView {
                                        last: f.last,
                                        pending: Seq::empty(),
                                        pq: pq2,
                                        delivered: v.delivered + f.keys,
                                    }
                                } else {
                                    SeqView { last: v.last, pending: v.pending, pq: pq2, delivered: v.delivered }
                                },
                            ),
                        )
                        &&& out@ == if flushing {
                            f.emits
                        } else {
                            Seq::<Emission<P>>::empty()
                        }
                    })
                },
    {
        if self.closed {
            return Vec::new();
        }
        match self.find_sequenced(source) {
            None => Vec::new(),
            Some(i) => {
                let ghost olds = self.sequenced_states@;
                let mut entry = self.sequenced_states.remove(i);
                entry.1.pending_queries = entry.1.pending_queries.saturating_sub(1);
                let out: Vec<Emission<P>> = if self.global_pending_queries == 0 {
                    entry.1.flush(source)
                } else {
                    Vec::new()
                };
                self.sequenced_states.insert(i, entry);
                proof {
                    assert(self.sequenced_states@ =~= olds.update(
                        i as int,
                        self.sequenced_states@[i as int],
                    ));
                    assert(seq_views(self.sequenced_states@) =~= seq_views(olds).update(
                        i as int,
                        (source, sview(self.sequenced_states@[i as int].1)),
                    ));
                }
                out
            }
        }
    }

    /// Release of one timestamped origin's replies guard.
    pub fn timestamped_replies_done(&mut self, node: u128) -> (out: Vec<Emission<P>>)
        requires
            old(self).wf(),
        ensures
            final(self).wf(),
            final(self).same_config(*old(self)),
            final(self).closed == old(self).closed,
            final(self).global_pending_queries == old(self).global_pending_queries,
            final(self).next_id == old(self).next_id,
            final(self).miss_handlers@ == old(self).miss_handlers@,
            final(self).sequenced_states@ == old(self).sequenced_states@,
            (old(self).closed || !has_ts_source(old(self).timestamped_states@, node)) ==> out@
                == Seq::<Emission<P>>::empty() && final(self).timestamped_states@ == old(self).timestamped_states@,
            (!old(self).closed && has_ts_source(old(self).timestamped_states@, node)) ==> exists|
                i: int,
            |
                {
                    &&& 0 <= i < old(self).timestamped_states@.len()
                    &&& (#[trigger] old(self).timestamped_states@[i]).0 == node
                    &&& ({
                        let v = tsview(old(self).timestamped_states@[i].1);
                        let pq2 = if v.pq > 0 {
                            (v.pq - 1) as u64
                        } else {
                            0u64
                        };
                        let flushing = old(self).global_pending_queries == 0 && pq2 == 0;
                        let f = ts_flush_split(v.pending, v.last);
                        &&& ts_views(final(self).timestamped_states@) == ts_views(
                            old(self).timestamped_states@,
                        ).update(
                            i,
                            (
                                node,
                                if flushing {
                                    TsView {
                                        last: f.last,
                                        pending: Seq::empty(),
                                        pq: pq2,
                                        delivered: v.delivered + f.keys,
                                    }
                                } else {
                                    TsView { last: v.last, pending: v.pending, pq: pq2, delivered: v.delivered }
                                },
                            ),
                        )
                        &&& out@ == if flushing {
                            f.emits
                        } else {
                            Seq::<Emission<P>>::empty()
                        }
                    })
                },
    {
        if self.closed {
            return Vec::new();
        }
        match self.find_timestamped(node) {
            None => Vec::new(),
            Some(i) => {
                let ghost olds = self.timestamped_states@;
                let mut entry = self.timestamped_states.remove(i);
                proof {
                    assert(entry.1.wf(olds[i as int].0));
                }
                entry.1.pending_queries = entry.1.pending_queries.saturating_sub(1);
                proof {
                    assert(entry.1.wf(olds[i as int].0));
                }
                let out: Vec<Emission<P>> = if self.global_pending_queries == 0 {
                    entry.1.flush()
                } else {
                    Vec::new()
                };
                self.timestamped_states.insert(i, entry);
                proof {
                    assert(self.timestamped_states@ =~= olds.update(
                        i as int,
                        self.timestamped_states@[i as int],
                    ));
                    assert(ts_views(self.timestamped_states@) =~= ts_views(olds).update(
                        i as int,
                        (node, tsview(self.timestamped_states@[i as int].1)),
                    ));
                }
                out
            }
        }
    }

    /// A periodic probe for one sequenced source: when the source is still
    /// known and its last delivery is not the final sequence number, bump its
    /// pending-query counter and ask its cache for everything after the last
    /// delivery.
    pub fn periodic_query(&mut self, source: SourceId) -> (r: Option<QueryRequest>)
        requires
            old(self).wf(),
        ensures
            final(self).wf(),
            final(self).same_config(*old(self)),
            final(self).closed == old(self).closed,
            final(self).global_pending_queries == old(self).global_pending_queries,
            final(self).next_id == old(self).next_id,
            final(self).miss_handlers@ == old(self).miss_handlers@,
            final(self).timestamped_states@ == old(self).timestamped_states@,
            (old(self).closed || !has_seq_source(old(self).sequenced_states@, source)) ==> r
                is None && final(self).sequenced_states@ == old(self).sequenced_states@,
            (!old(self).closed && has_seq_source(old(self).sequenced_states@, source)) ==> exists|
                i: int,
            |
                {
                    &&& 0 <= i < old(self).sequenced_states@.len()
                    &&& (#[trigger] old(self).sequenced_states@[i]).0 == source
                    &&& ({
                        let v = sview(old(self).sequenced_states@[i].1);
                        if v.last == Some(u32::MAX) {
                            r is None && final(self).sequenced_states@ == old(self).sequenced_states@
                        } else {
                            &&& seq_views(final(self).sequenced_states@) == seq_views(
                                old(self).sequenced_states@,
                            ).update(
                                i,
                                (
                                    source,
                                    SeqView {
                                        last: v.last,
                                        pending: v.pending,
                                        pq: if v.pq < u64::MAX {
                                            (v.pq + 1) as u64
                                        } else {
                                            v.pq
                                        },
                                        delivered: v.delivered,
                                    },
                                ),
                            )
                            &&& r is Some
                            &&& query_ok(
                                *old(self),
                                r->Some_0,
                                range_ke_seq(source, old(self).key_expr@),
                                sn_range_seq(
                                    if v.last is Some {
                                        Some((v.last->Some_0 + 1) as u32)
                                    } else {
                                        None
                                    },
                                    None,
                                ),
                                QueryGuard::Sequenced(source),
                            )
                        }
                    })
                },
    {
        if self.closed {
            return None;
        }
        match self.find_sequenced(source) {
            None => None,
            Some(i) => {
                let ghost olds = self.sequenced_states@;
                let mut entry = self.sequenced_states.remove(i);
                let start: Option<u32> = match entry.1.last_delivered {
                    Some(k) => {
                        if k == u32::MAX {
                            self.sequenced_states.insert(i, entry);
                            proof {
                                assert(self.sequenced_states@ =~= olds);
                            }
                            return None;
                        }
                        Some(k + 1)
                    }
                    None => None,
                };
                entry.1.pending_queries = entry.1.pending_queries.saturating_add(1);
                self.sequenced_states.insert(i, entry);
                proof {
                    assert(self.sequenced_states@ =~= olds.update(
                        i as int,
                        self.sequenced_states@[i as int],
                    ));
                    assert(seq_views(self.sequenced_states@) =~= seq_views(olds).update(
                        i as int,
                        (source, sview(self.sequenced_states@[i as int].1)),
                    ));
                }
                Some(
                    QueryRequest {
                        key_expr: range_query_ke(source, self.key_expr.as_str()),
                        parameters: seq_num_range(start, None),
                        guard: QueryGuard::Sequenced(source),
                        target: self.query_target,
                        timeout_ms: self.query_timeout_ms,
                    },
                )
            }
        }
    }

    /// Register a miss listener; the returned id stands for the listener in
    /// the registry, and every miss notification is owed to every registered
    /// listener.
    pub fn register_miss_callback(&mut self) -> (id: u64)
        requires
            old(self).wf(),
            old(self).next_id < u64::MAX,
        ensures
            final(self).wf(),
            final(self).same_config(*old(self)),
            final(self).closed == old(self).closed,
            final(self).global_pending_queries == old(self).global_pending_queries,
            final(self).sequenced_states@ == old(self).sequenced_states@,
            final(self).timestamped_states@ == old(self).timestamped_states@,
            id == old(self).next_id,
            final(self).next_id == old(self).next_id + 1,
            final(self).miss_handlers@ == old(self).miss_handlers@.push(id),
    {
        let id = self.next_id;
        self.next_id = self.next_id + 1;
        self.miss_handlers.push(id);
        id
    }

    /// Unregister a miss listener; unknown ids are ignored, so the operation
    /// is idempotent.
    pub fn unregister_miss_callback(&mut self, id: u64)
        requires
            old(self).wf(),
        ensures
            final(self).wf(),
            final(self).same_config(*old(self)),
            final(self).closed == old(self).closed,
            final(self).global_pending_queries == old(self).global_pending_queries,
            final(self).next_id == old(self).next_id,
            final(self).sequenced_states@ == old(self).sequenced_states@,
            final(self).timestamped_states@ == old(self).timestamped_states@,
            !old(self).miss_handlers@.contains(id) ==> final(self).miss_handlers@ == old(self).miss_handlers@,
            old(self).miss_handlers@.contains(id) ==> exists|i: int|
                {
                    &&& 0 <= i < old(self).miss_handlers@.len()
                    &&& old(self).miss_handlers@[i] == id
                    &&& final(self).miss_handlers@ == old(self).miss_handlers@.remove(i)
                },
    {
        let n = self.miss_handlers.len();
        let mut i: usize = 0;
        while i < n && self.miss_handlers[i] != id
            invariant
                0 <= i <= n,
                n == self.miss_handlers@.len(),
                forall|j: int| 0 <= j < i ==> (#[trigger] self.miss_handlers@[j]) != id,
            decreases n - i,
        {
            i = i + 1;
        }
        if i < n {
            self.miss_handlers.remove(i);
            proof {
                assert(self.miss_handlers@ == old(self).miss_handlers@.remove(i as int));
            }
        }
    }

    /// Tear the subscriber down: every later event is ignored, so no further
    /// delivery or miss notification is ever emitted.
    pub fn undeclare(&mut self)
        requires
            old(self).wf(),
        ensures
            final(self).wf(),
            final(self).same_config(*old(self)),
            final(self).closed,
            final(self).global_pending_queries == old(self).global_pending_queries,
            final(self).next_id == old(self).next_id,
            final(self).miss_handlers@ == old(self).miss_handlers@,
            final(self).sequenced_states@ == old(self).sequenced_states@,
            final(self).timestamped_states@ == old(self).timestamped_states@,
    {
        self.closed = true;
    }

    /// The key expression this subscriber subscribes to.
    pub fn key_expr(&self) -> (r: &String)
        ensures
            r@ == self.key_expr@,
    {
        &self.key_expr
    }
    /// One liveliness token seen by the publisher-discovery subscriber: on a
    /// `Put` announcing a sequenced publisher or a timestamped origin, gate
    /// that source and ask its cache for history under the matching guard;
    /// on an unparsable node id, fall back to gating every source through
    /// the global counter; drop malformed tokens (to be logged) and unknown
    /// entity chunks.
    pub fn handle_liveliness_token(&mut self, kind: SampleKind, token: &str) -> (r:
        LivelinessOutput)
        requires
            old(self).wf(),
        ensures
            final(self).wf(),
            final(self).same_config(*old(self)),
            final(self).closed == old(self).closed,
            final(self).next_id == old(self).next_id,
            final(self).miss_handlers@ == old(self).miss_handlers@,
            (old(self).closed || kind != SampleKind::Put || old(self).history is None) ==> ({
                &&& final(self).global_pending_queries == old(self).global_pending_queries
                &&& final(self).sequenced_states@ == old(self).sequenced_states@
                &&& final(self).timestamped_states@ == old(self).timestamped_states@
                &&& r.query is None
                &&& r.arm_periodic is None
                &&& !r.malformed
            }),
            (!old(self).closed && kind == SampleKind::Put && old(self).history is Some)
                ==> liveliness_post(*old(self), *final(self), token@, r),
    {
        if self.closed {
            return LivelinessOutput { query: None, arm_periodic: None, malformed: false };
        }
        match kind {
            SampleKind::Delete => {
                return LivelinessOutput { query: None, arm_periodic: None, malformed: false };
            }
            SampleKind::Put => {}
        }
        let (depth, age) = match &self.history {
            Some(h) => (h.sample_depth, h.age_secs),
            None => {
                return LivelinessOutput { query: None, arm_periodic: None, malformed: false };
            }
        };
        match parse_liveliness_token(token) {
            TokenParse::Malformed => LivelinessOutput {
                query: None,
                arm_periodic: None,
                malformed: true,
            },
            TokenParse::BadEid => LivelinessOutput {
                query: None,
                arm_periodic: None,
                malformed: false,
            },
            TokenParse::Fallback => {
                self.global_pending_queries = self.global_pending_queries.saturating_add(1);
                LivelinessOutput {
                    query: Some(
                        QueryRequest {
                            key_expr: token.to_owned(),
                            parameters: history_params(depth, age),
                            guard: QueryGuard::Initial,
                            target: self.query_target,
                            timeout_ms: self.query_timeout_ms,
                        },
                    ),
                    arm_periodic: None,
                    malformed: false,
                }
            }
            TokenParse::Timestamped(node) => {
                match self.find_timestamped(node) {
                    Some(i) => {
                        let ghost olds = self.timestamped_states@;
                        let mut entry = self.timestamped_states.remove(i);
                        entry.1.pending_queries = entry.1.pending_queries.saturating_add(1);
                        self.timestamped_states.insert(i, entry);
                        proof {
                            assert(self.timestamped_states@ =~= olds.update(
                                i as int,
                                self.timestamped_states@[i as int],
                            ));
                            assert(ts_views(self.timestamped_states@) =~= ts_views(olds).update(
                                i as int,
                                (node, tsview(self.timestamped_states@[i as int].1)),
                            ));
                        }
                    }
                    None => {
                        let mut st = TimestampedState::new();
                        st.pending_queries = 1;
                        self.timestamped_states.push((node, st));
                        proof {
                            assert(ts_views(self.timestamped_states@) =~= ts_views(
                                old(self).timestamped_states@,
                            ).push((node, tsview(self.timestamped_states@.last().1))));
                        }
                    }
                }
                LivelinessOutput {
                    query: Some(
                        QueryRequest {
                            key_expr: token.to_owned(),
                            parameters: history_params(depth, age),
                            guard: QueryGuard::Timestamped(node),
                            target: self.query_target,
                            timeout_ms: self.query_timeout_ms,
                        },
                    ),
                    arm_periodic: None,
                    malformed: false,
                }
            }
            TokenParse::Sequenced(sid) => {
                let mut is_new = false;
                match self.find_sequenced(sid) {
                    Some(i) => {
                        let ghost olds = self.sequenced_states@;
                        let mut entry = self.sequenced_states.remove(i);
                        entry.1.pending_queries = entry.1.pending_queries.saturating_add(1);
                        self.sequenced_states.insert(i, entry);
                        proof {
                            assert(self.sequenced_states@ =~= olds.update(
                                i as int,
                                self.sequenced_states@[i as int],
                            ));
                            assert(seq_views(self.sequenced_states@) =~= seq_views(olds).update(
                                i as int,
                                (sid, sview(self.sequenced_states@[i as int].1)),
                            ));
                        }
                    }
                    None => {
                        is_new = true;
                        let mut st = SequencedState::new();
                        st.pending_queries = 1;
                        self.sequenced_states.push((sid, st));
                        proof {
                            assert(seq_views(self.sequenced_states@) =~= seq_views(
                                old(self).sequenced_states@,
                            ).push((sid, sview(self.sequenced_states@.last().1))));
                        }
                    }
                }
                let arm_periodic: Option<SourceId> = if is_new && self.periodic_queries.is_some() {
                    Some(sid)
                } else {
                    None
                };
                LivelinessOutput {
                    query: Some(
                        QueryRequest {
                            key_expr: token.to_owned(),
                            parameters: history_params(depth, age),
                            guard: QueryGuard::Sequenced(sid),
                            target: self.query_target,
                            timeout_ms: self.query_timeout_ms,
                        },
                    ),
                    arm_periodic,
                    malformed: false,
                }
            }
        }
    }
}

/// What one publisher-liveliness token does to the state, by what it parses
/// to.
pub open spec fn liveliness_post<P>(
    pre: SubscriberState<P>,
    post: SubscriberState<P>,
    ke: Seq<char>,
    r: LivelinessOutput,
) -> bool {
    match token_parse_spec(split_slash(ke)) {
        TokenParse::Malformed => {
            &&& post.global_pending_queries == pre.global_pending_queries
            &&& post.sequenced_states@ == pre.sequenced_states@
            &&& post.timestamped_states@ == pre.timestamped_states@
            &&& r.query is None
            &&& r.arm_periodic is None
            &&& r.malformed
        },
        TokenParse::BadEid => {
            &&& post.global_pending_queries == pre.global_pending_queries
            &&& post.sequenced_states@ == pre.sequenced_states@
            &&& post.timestamped_states@ == pre.timestamped_states@
            &&& r.query is None
            &&& r.arm_periodic is None
            &&& !r.malformed
        },
        TokenParse::Fallback => {
            &&& post.global_pending_queries == if pre.global_pending_queries < u64::MAX {
                (pre.global_pending_queries + 1) as u64
            } else {
                pre.global_pending_queries
            }
            &&& post.sequenced_states@ == pre.sequenced_states@
            &&& post.timestamped_states@ == pre.timestamped_states@
            &&& r.query is Some
            &&& query_ok(pre, r.query->Some_0, ke, hist_params_of(pre), QueryGuard::Initial)
            &&& r.arm_periodic is None
            &&& !r.malformed
        },
        TokenParse::Timestamped(node) => {
            &&& post.global_pending_queries == pre.global_pending_queries
            &&& post.sequenced_states@ == pre.sequenced_states@
            &&& if has_ts_source(pre.timestamped_states@, node) {
                exists|i: int|
                    {
                        &&& 0 <= i < pre.timestamped_states@.len()
                        &&& (#[trigger] pre.timestamped_states@[i]).0 == node
                        &&& ts_views(post.timestamped_states@) == ts_views(
                            pre.timestamped_states@,
                        ).update(
                            i,
                            (
                                node,
                                TsView {
                                    last: pre.timestamped_states@[i].1.last_delivered,
                                    pending: pre.timestamped_states@[i].1.pending_samples@,
                                    pq: if pre.timestamped_states@[i].1.pending_queries
                                        < u64::MAX {
                                        (pre.timestamped_states@[i].1.pending_queries + 1) as u64
                                    } else {
                                        pre.timestamped_states@[i].1.pending_queries
                                    },
                                    delivered: pre.timestamped_states@[i].1.delivered@,
                                },
                            ),
                        )
                    }
            } else {
                ts_views(post.timestamped_states@) == ts_views(pre.timestamped_states@).push(
                    (
                        node,
                        TsView {
                            last: None,
                            pending: Seq::empty(),
                            pq: 1u64,
                            delivered: Seq::empty(),
                        },
                    ),
                )
            }
            &&& r.query is Some
            &&& query_ok(
                pre,
                r.query->Some_0,
                ke,
                hist_params_of(pre),
                QueryGuard::Timestamped(node),
            )
            &&& r.arm_periodic is None
            &&& !r.malformed
        },
        TokenParse::Sequenced(sid) => {
            &&& post.global_pending_queries == pre.global_pending_queries
            &&& post.timestamped_states@ == pre.timestamped_states@
            &&& if has_seq_source(pre.sequenced_states@, sid) {
                exists|i: int|
                    {
                        &&& 0 <= i < pre.sequenced_states@.len()
                        &&& (#[trigger] pre.sequenced_states@[i]).0 == sid
                        &&& seq_views(post.sequenced_states@) == seq_views(
                            pre.sequenced_states@,
                        ).update(
                            i,
                            (
                                sid,
                                SeqView {
                                    last: pre.sequenced_states@[i].1.last_delivered,
                                    pending: pre.sequenced_states@[i].1.pending_samples@,
                                    pq: if pre.sequenced_states@[i].1.pending_queries < u64::MAX {
                                        (pre.sequenced_states@[i].1.pending_queries + 1) as u64
                                    } else {
                                        pre.sequenced_states@[i].1.pending_queries
                                    },
                                    delivered: pre.sequenced_states@[i].1.delivered@,
                                },
                            ),
                        )
                    }
            } else {
                seq_views(post.sequenced_states@) == seq_views(pre.sequenced_states@).push(
                    (
                        sid,
                        SeqView {
                            last: None,
                            pending: Seq::empty(),
                            pq: 1u64,
                            delivered: Seq::empty(),
                        },
                    ),
                )
            }
            &&& r.query is Some
            &&& query_ok(pre, r.query->Some_0, ke, hist_params_of(pre), QueryGuard::Sequenced(sid))
            &&& r.arm_periodic == if !has_seq_source(pre.sequenced_states@, sid)
                && pre.periodic_queries is Some {
                Some(sid)
            } else {
                None::<SourceId>
            }
            &&& !r.malformed
        },
    }
}


/// Whether the retransmission trigger fired between `mid` (the state right
/// after the sample was routed) and `post`: exactly when retransmission is
/// configured and the sample's source sits on buffered samples with no query
/// in flight, its counter is bumped and one range query is owed.
pub open spec fn retransmit_post<P>(
    mid: SubscriberState<P>,
    post: SubscriberState<P>,
    s: Sample<P>,
    q: Option<QueryRequest>,
) -> bool {
    let sid = s.source_id->Some_0;
    if s.source_id is Some && s.source_sn is Some && mid.retransmission && has_seq_source(
        mid.sequenced_states@,
        sid,
    ) {
        exists|i: int|
            {
                &&& 0 <= i < mid.sequenced_states@.len()
                &&& (#[trigger] mid.sequenced_states@[i]).0 == sid
                &&& ({
                    let v = sview(mid.sequenced_states@[i].1);
                    if v.pq == 0 && v.pending.len() > 0 {
                        &&& seq_views(post.sequenced_states@) == seq_views(
                            mid.sequenced_states@,
                        ).update(
                            i,
                            (sid, SeqView { last: v.last, pending: v.pending, pq: 1u64, delivered: v.delivered }),
                        )
                        &&& post.timestamped_states@ == mid.timestamped_states@
                        &&& q is Some
                        &&& query_ok(
                            mid,
                            q->Some_0,
                            range_ke_seq(sid, mid.key_expr@),
                            sn_range_seq(
                                if v.last is Some {
                                    Some((v.last->Some_0 + 1) as u32)
                                } else {
                                    None
                                },
                                None,
                            ),
                            QueryGuard::Sequenced(sid),
                        )
                    } else {
                        &&& post.sequenced_states@ == mid.sequenced_states@
                        &&& post.timestamped_states@ == mid.timestamped_states@
                        &&& q is None
                    }
                })
            }
    } else {
        &&& post.sequenced_states@ == mid.sequenced_states@
        &&& post.timestamped_states@ == mid.timestamped_states@
        &&& q is None
    }
}
} // verus!
