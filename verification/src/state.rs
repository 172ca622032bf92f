use vstd::prelude::*;

use crate::sample::{Sample, SourceId, Timestamp};
use crate::tracker::{seq_ingest, Emission, SeqStep, SequencedState};
use crate::ts_tracker::{ts_ingest_spec, TimestampedState, TsStep};

verus! {

/// Mirror of the bus's query target choice.
#[derive(Clone, Copy, PartialEq, Eq, Structural, Debug)]
pub enum QueryTarget {
    BestMatching,
    All,
    AllComplete,
}

/// Configure query for historical data.
#[derive(Clone)]
pub struct HistoryConfig {
    pub liveliness: bool,
    pub sample_depth: Option<u64>,
    pub age_secs: Option<u64>,
}

impl Default for HistoryConfig {
    /// No late-publisher detection, no depth cap, no age cap.
    fn default() -> (r: Self)
        ensures
            !r.liveliness,
            r.sample_depth is None,
            r.age_secs is None,
    {
        HistoryConfig { liveliness: false, sample_depth: None, age_secs: None }
    }
}

impl HistoryConfig {
    /// Enable detection of late joiner publishers and query for their
    /// historical data.
    pub fn detect_late_publishers(self) -> (r: Self)
        ensures
            r.liveliness,
            r.sample_depth == self.sample_depth,
            r.age_secs == self.age_secs,
    {
        HistoryConfig { liveliness: true, sample_depth: self.sample_depth, age_secs: self.age_secs }
    }

    /// Specify how many samples to query for each resource.
    pub fn max_samples(self, depth: u64) -> (r: Self)
        ensures
            r.liveliness == self.liveliness,
            r.sample_depth == Some(depth),
            r.age_secs == self.age_secs,
    {
        HistoryConfig { liveliness: self.liveliness, sample_depth: Some(depth), age_secs: self.age_secs }
    }

    /// Specify the maximum age, in whole seconds, of samples to query.
    pub fn max_age(self, seconds: u64) -> (r: Self)
        ensures
            r.liveliness == self.liveliness,
            r.sample_depth == self.sample_depth,
            r.age_secs == Some(seconds),
    {
        HistoryConfig { liveliness: self.liveliness, sample_depth: self.sample_depth, age_secs: Some(seconds) }
    }
}

/// Configure retransmission.
#[derive(Clone)]
pub struct RecoveryConfig {
    pub periodic_queries: Option<u64>,
}

impl Default for RecoveryConfig {
    /// Retransmission on live-sample gaps only, no periodic queries.
    fn default() -> (r: Self)
        ensures
            r.periodic_queries is None,
    {
        RecoveryConfig { periodic_queries: None }
    }
}

impl RecoveryConfig {
    /// Enable periodic queries for not yet received samples and specify
    /// their period, in milliseconds.
    pub fn periodic_queries(self, period: Option<u64>) -> (r: Self)
        ensures
            r.periodic_queries == period,
    {
        RecoveryConfig { periodic_queries: period }
    }
}

/// Everything the subscriber core is configured with.
pub struct Config {
    pub retransmission: Option<RecoveryConfig>,
    pub query_target: QueryTarget,
    pub query_timeout_ms: u64,
    pub history: Option<HistoryConfig>,
    pub subscriber_detection: bool,
    pub meta_key_expr: Option<String>,
}

impl Default for Config {
    /// No recovery, no history, no liveliness token; query every cache with
    /// a ten second timeout.
    fn default() -> (r: Self)
        ensures
            r.retransmission is None,
            r.query_target == QueryTarget::All,
            r.query_timeout_ms == 10000,
            r.history is None,
            !r.subscriber_detection,
            r.meta_key_expr is None,
    {
        Config {
            retransmission: None,
            query_target: QueryTarget::All,
            query_timeout_ms: 10000,
            history: None,
            subscriber_detection: false,
            meta_key_expr: None,
        }
    }
}

/// The reply-barrier class a query's guard belongs to: release decrements
/// the global counter, one sequenced source's counter, or one timestamped
/// origin's counter.
#[derive(Clone, Copy, PartialEq, Eq, Structural, Debug)]
pub enum QueryGuard {
    Initial,
    Sequenced(SourceId),
    Timestamped(u128),
}

/// A query the surroundings must issue on the bus: selector key expression
/// and parameters, the guard class its reply stream must release, and the
/// configured annotations. Replies are routed back through
/// `handle_reply_sample`; the guard release through the matching
/// `*_replies_done` event.
pub struct QueryRequest {
    pub key_expr: String,
    pub parameters: String,
    pub guard: QueryGuard,
    pub target: QueryTarget,
    pub timeout_ms: u64,
}

/// Whether two key expressions intersect: whether some concrete key belongs
/// to both sets. A deterministic function of the two strings, computed by the
/// bus's key-expression engine.
pub uninterp spec fn ke_intersects(a: Seq<char>, b: Seq<char>) -> bool;

/// Relies on zenoh's `keyexpr::new` and `keyexpr::intersects`: intersection
/// of two key expressions is a pure function of the two strings; a string
/// that is not a valid canon key expression intersects nothing.
#[verifier::external_body]
pub(crate) fn ke_intersects_exec(a: &str, b: &str) -> (r: bool)
    ensures
        r == ke_intersects(a@, b@),
{
    match (zenoh::key_expr::keyexpr::new(a), zenoh::key_expr::keyexpr::new(b)) {
        (Ok(x), Ok(y)) => x.intersects(y),
        _ => false,
    }
}

/// The ghost image of one sequenced source's tracking state.
pub struct SeqView<P> {
    pub last: Option<u32>,
    pub pending: Seq<(u32, Sample<P>)>,
    pub pq: u64,
    pub delivered: Seq<u32>,
}

pub open spec fn sview<P>(st: SequencedState<P>) -> SeqView<P> {
    SeqView {
        last: st.last_delivered,
        pending: st.pending_samples@,
        pq: st.pending_queries,
        delivered: st.delivered@,
    }
}

pub open spec fn fresh_seq_view<P>() -> SeqView<P> {
    SeqView { last: None, pending: Seq::empty(), pq: 0, delivered: Seq::empty() }
}

pub open spec fn seq_views<P>(s: Seq<(SourceId, SequencedState<P>)>) -> Seq<(SourceId, SeqView<P>)> {
    s.map_values(|e: (SourceId, SequencedState<P>)| (e.0, sview(e.1)))
}

/// The view of one sequenced source after one ingested sample.
pub open spec fn seq_view_after<P>(
    v: SeqView<P>,
    st: SeqStep<P>,
) -> SeqView<P> {
    SeqView { last: st.last, pending: st.pending, pq: v.pq, delivered: v.delivered + st.keys }
}

/// The ghost image of one timestamped origin's tracking state.
pub struct TsView<P> {
    pub last: Option<Timestamp>,
    pub pending: Seq<(Timestamp, Sample<P>)>,
    pub pq: u64,
    pub delivered: Seq<Timestamp>,
}

pub open spec fn tsview<P>(st: TimestampedState<P>) -> TsView<P> {
    TsView {
        last: st.last_delivered,
        pending: st.pending_samples@,
        pq: st.pending_queries,
        delivered: st.delivered@,
    }
}

pub open spec fn fresh_ts_view<P>() -> TsView<P> {
    TsView { last: None, pending: Seq::empty(), pq: 0, delivered: Seq::empty() }
}

pub open spec fn ts_views<P>(s: Seq<(u128, TimestampedState<P>)>) -> Seq<(u128, TsView<P>)> {
    s.map_values(|e: (u128, TimestampedState<P>)| (e.0, tsview(e.1)))
}

pub open spec fn ts_view_after<P>(v: TsView<P>, st: TsStep<P>) -> TsView<P> {
    TsView { last: st.last, pending: st.pending, pq: v.pq, delivered: v.delivered + st.keys }
}

/// Whether some sequenced entry carries `sid`.
pub open spec fn has_seq_source<P>(s: Seq<(SourceId, SequencedState<P>)>, sid: SourceId) -> bool {
    exists|i: int| 0 <= i < s.len() && s[i].0 == sid
}

pub open spec fn has_ts_source<P>(s: Seq<(u128, TimestampedState<P>)>, node: u128) -> bool {
    exists|i: int| 0 <= i < s.len() && s[i].0 == node
}

/// The shared state of one subscriber: configuration, the per-source
/// tracking states, the global pending-query counter that gates delivery
/// while history-style queries are in flight, and the miss-listener registry.
pub struct SubscriberState<P> {
    pub key_expr: String,
    pub retransmission: bool,
    pub periodic_queries: Option<u64>,
    pub query_target: QueryTarget,
    pub query_timeout_ms: u64,
    pub history: Option<HistoryConfig>,
    pub subscriber_detection: bool,
    pub meta_key_expr: Option<String>,
    pub global_pending_queries: u64,
    pub sequenced_states: Vec<(SourceId, SequencedState<P>)>,
    pub timestamped_states: Vec<(u128, TimestampedState<P>)>,
    pub next_id: u64,
    pub miss_handlers: Vec<u64>,
    pub closed: bool,
}

impl<P> SubscriberState<P> {
    /// Every per-source state is well formed under its own key, keys are not
    /// repeated, a timestamped origin holds no buffered sample outside a
    /// gating period, and registered miss-listener ids are unique and below
    /// the next id.
    pub open spec fn wf(self) -> bool {
        &&& forall|i: int|
            0 <= i < self.sequenced_states@.len() ==> (#[trigger] self.sequenced_states@[i]).1.wf(
                self.sequenced_states@[i].0,
            )
        &&& forall|i: int, j: int|
            0 <= i < j < self.sequenced_states@.len() ==> (#[trigger] self.sequenced_states@[i]).0
                != (#[trigger] self.sequenced_states@[j]).0
        &&& forall|i: int|
            0 <= i < self.timestamped_states@.len() ==> (
            #[trigger] self.timestamped_states@[i]).1.wf(self.timestamped_states@[i].0)
        &&& forall|i: int, j: int|
            0 <= i < j < self.timestamped_states@.len() ==> (
            #[trigger] self.timestamped_states@[i]).0 != (
            #[trigger] self.timestamped_states@[j]).0
        &&& forall|i: int|
            0 <= i < self.timestamped_states@.len() ==> ((self.global_pending_queries == 0 && (
            #[trigger] self.timestamped_states@[i]).1.pending_queries == 0)
                ==> self.timestamped_states@[i].1.pending_samples@.len() == 0)
        &&& forall|i: int|
            0 <= i < self.miss_handlers@.len() ==> (#[trigger] self.miss_handlers@[i])
                < self.next_id
        &&& forall|i: int, j: int|
            0 <= i < j < self.miss_handlers@.len() ==> (#[trigger] self.miss_handlers@[i]) != (
            #[trigger] self.miss_handlers@[j])
    }

    /// Configuration and identity never change after construction.
    pub open spec fn same_config(self, other: Self) -> bool {
        &&& self.key_expr@ == other.key_expr@
        &&& self.retransmission == other.retransmission
        &&& self.periodic_queries == other.periodic_queries
        &&& self.query_target == other.query_target
        &&& self.query_timeout_ms == other.query_timeout_ms
        &&& self.history == other.history
        &&& self.subscriber_detection == other.subscriber_detection
        &&& self.meta_key_expr == other.meta_key_expr
    }

    /// Build the core state for a subscriber on `key_expr`. The global
    /// pending-query counter starts at one exactly when history is
    /// configured: it stands for the initial history query, which
    /// `initial_history_query` hands out and whose completion
    /// `initial_replies_done` signals.
    pub fn new(key_expr: String, config: Config) -> (r: Self)
        ensures
            r.wf(),
            r.key_expr@ == key_expr@,
            r.retransmission == config.retransmission is Some,
            r.periodic_queries == if config.retransmission is Some {
                config.retransmission->Some_0.periodic_queries
            } else {
                None::<u64>
            },
            r.query_target == config.query_target,
            r.query_timeout_ms == config.query_timeout_ms,
            r.history == config.history,
            r.subscriber_detection == config.subscriber_detection,
            r.meta_key_expr == config.meta_key_expr,
            r.global_pending_queries == if config.history is Some {
                1u64
            } else {
                0u64
            },
            r.sequenced_states@.len() == 0,
            r.timestamped_states@.len() == 0,
            r.next_id == 0,
            r.miss_handlers@.len() == 0,
            !r.closed,
    {
        let retransmission = config.retransmission.is_some();
        let periodic_queries = match config.retransmission {
            Some(rc) => rc.periodic_queries,
            None => None,
        };
        let global_pending_queries: u64 = if config.history.is_some() {
            1
        } else {
            0
        };
        SubscriberState {
            key_expr,
            retransmission,
            periodic_queries,
            query_target: config.query_target,
            query_timeout_ms: config.query_timeout_ms,
            history: config.history,
            subscriber_detection: config.subscriber_detection,
            meta_key_expr: config.meta_key_expr,
            global_pending_queries,
            sequenced_states: Vec::new(),
            timestamped_states: Vec::new(),
            next_id: 0,
            miss_handlers: Vec::new(),
            closed: false,
        }
    }

    /// Find the position of a sequenced source.
    pub(crate) fn find_sequenced(&self, sid: SourceId) -> (r: Option<usize>)
        ensures
            r is Some ==> 0 <= r->Some_0 < self.sequenced_states@.len()
                && self.sequenced_states@[r->Some_0 as int].0 == sid,
            r is None ==> !has_seq_source(self.sequenced_states@, sid),
    {
        let mut i: usize = 0;
        while i < self.sequenced_states.len()
            invariant
                0 <= i <= self.sequenced_states@.len(),
                forall|j: int| 0 <= j < i ==> (#[trigger] self.sequenced_states@[j]).0 != sid,
            decreases self.sequenced_states@.len() - i,
        {
            let e = &self.sequenced_states[i];
            if e.0.zid == sid.zid && e.0.eid == sid.eid {
                return Some(i);
            }
            i = i + 1;
        }
        None
    }

    /// Find the position of a timestamped origin.
    pub(crate) fn find_timestamped(&self, node: u128) -> (r: Option<usize>)
        ensures
            r is Some ==> 0 <= r->Some_0 < self.timestamped_states@.len()
                && self.timestamped_states@[r->Some_0 as int].0 == node,
            r is None ==> !has_ts_source(self.timestamped_states@, node),
    {
        let mut i: usize = 0;
        while i < self.timestamped_states.len()
            invariant
                0 <= i <= self.timestamped_states@.len(),
                forall|j: int| 0 <= j < i ==> (#[trigger] self.timestamped_states@[j]).0 != node,
            decreases self.timestamped_states@.len() - i,
        {
            if self.timestamped_states[i].0 == node {
                return Some(i);
            }
            i = i + 1;
        }
        None
    }

    /// Route one inbound sample to its source's tracker, as every inbound
    /// path does: by sequence number when the publisher numbers its samples,
    /// else by timestamp, else deliver immediately. Returns whether a new
    /// sequenced source was observed, and what is emitted, in order.
    pub fn handle_sample(&mut self, s: Sample<P>) -> (r: (bool, Vec<Emission<P>>))
        requires
            old(self).wf(),
        ensures
            final(self).wf(),
            final(self).same_config(*old(self)),
            final(self).closed == old(self).closed,
            final(self).global_pending_queries == old(self).global_pending_queries,
            final(self).next_id == old(self).next_id,
            final(self).miss_handlers@ == old(self).miss_handlers@,
            old(self).closed ==> !r.0 && r.1@ == Seq::<Emission<P>>::empty()
                && final(self).sequenced_states@ == old(self).sequenced_states@
                && final(self).timestamped_states@ == old(self).timestamped_states@,
            !old(self).closed ==> handle_sample_post(*old(self), *final(self), s, r.0, r.1@),
    {
        if self.closed {
            return (false, Vec::new());
        }
        if s.source_id.is_some() && s.source_sn.is_some() {
            let sid = s.source_id.unwrap();
            let gating = self.global_pending_queries != 0;
            match self.find_sequenced(sid) {
                Some(i) => {
                    let ghost olds = self.sequenced_states@;
                    let mut entry = self.sequenced_states.remove(i);
                    let ems = entry.1.ingest(s, gating, self.retransmission, sid);
                    self.sequenced_states.insert(i, entry);
                    proof {
                        assert(self.sequenced_states@ =~= olds.update(
                            i as int,
                            self.sequenced_states@[i as int],
                        ));
                        assert(seq_views(self.sequenced_states@) =~= seq_views(olds).update(
                            i as int,
                            (sid, sview(self.sequenced_states@[i as int].1)),
                        ));
                    }
                    (false, ems)
                }
                None => {
                    let mut st = SequencedState::new();
                    let ems = st.ingest(s, gating, self.retransmission, sid);
                    self.sequenced_states.push((sid, st));
                    proof {
                        assert(seq_views(self.sequenced_states@) =~= seq_views(
                            old(self).sequenced_states@,
                        ).push((sid, sview(self.sequenced_states@.last().1))));
                    }
                    (true, ems)
                }
            }
        } else if s.timestamp.is_some() {
            let node = s.timestamp.unwrap().id;
            match self.find_timestamped(node) {
                Some(i) => {
                    let ghost olds = self.timestamped_states@;
                    let mut entry = self.timestamped_states.remove(i);
                    let gating = self.global_pending_queries != 0 || entry.1.pending_queries != 0;
                    let ems = entry.1.ingest(s, gating, node);
                    self.timestamped_states.insert(i, entry);
                    proof {
                        assert(self.timestamped_states@ =~= olds.update(
                            i as int,
                            self.timestamped_states@[i as int],
                        ));
                        assert(ts_views(self.timestamped_states@) =~= ts_views(olds).update(
                            i as int,
                            (node, tsview(self.timestamped_states@[i as int].1)),
                        ));
                    }
                    (false, ems)
                }
                None => {
                    let mut st = TimestampedState::new();
                    let gating = self.global_pending_queries != 0;
                    let ems = st.ingest(s, gating, node);
                    self.timestamped_states.push((node, st));
                    proof {
                        assert(ts_views(self.timestamped_states@) =~= ts_views(
                            old(self).timestamped_states@,
                        ).push((node, tsview(self.timestamped_states@.last().1))));
                    }
                    (false, ems)
                }
            }
        } else {
            let mut out: Vec<Emission<P>> = Vec::new();
            out.push(Emission::Deliver(s));
            (false, out)
        }
    }
}

/// What one routed sample does to the state: the matching source's view
/// advances by its ingest step (a fresh source appears at the back), every
/// other source is untouched, and the emissions are the step's.
pub open spec fn handle_sample_post<P>(
    pre: SubscriberState<P>,
    post: SubscriberState<P>,
    s: Sample<P>,
    new_source: bool,
    emits: Seq<Emission<P>>,
) -> bool {
    if s.source_id is Some && s.source_sn is Some {
        let sid = s.source_id->Some_0;
        let gating = pre.global_pending_queries != 0;
        &&& post.timestamped_states@ == pre.timestamped_states@
        &&& new_source == !has_seq_source(pre.sequenced_states@, sid)
        &&& if has_seq_source(pre.sequenced_states@, sid) {
            exists|i: int|
                {
                    &&& 0 <= i < pre.sequenced_states@.len()
                    &&& (#[trigger] pre.sequenced_states@[i]).0 == sid
                    &&& seq_views(post.sequenced_states@) == seq_views(
                        pre.sequenced_states@,
                    ).update(
                        i,
                        (
                            sid,
                            seq_view_after(
                                sview(pre.sequenced_states@[i].1),
                                seq_ingest(
                                    pre.sequenced_states@[i].1.last_delivered,
                                    pre.sequenced_states@[i].1.pending_samples@,
                                    s,
                                    gating,
                                    pre.retransmission,
                                    sid,
                                ),
                            ),
                        ),
                    )
                    &&& emits == seq_ingest(
                        pre.sequenced_states@[i].1.last_delivered,
                        pre.sequenced_states@[i].1.pending_samples@,
                        s,
                        gating,
                        pre.retransmission,
                        sid,
                    ).emits
                }
        } else {
            let st = seq_ingest(
                None,
                Seq::<(u32, Sample<P>)>::empty(),
                s,
                gating,
                pre.retransmission,
                sid,
            );
            &&& seq_views(post.sequenced_states@) == seq_views(pre.sequenced_states@).push(
                (sid, seq_view_after(fresh_seq_view::<P>(), st)),
            )
            &&& emits == st.emits
        }
    } else if s.timestamp is Some {
        let node = s.timestamp->Some_0.id;
        &&& post.sequenced_states@ == pre.sequenced_states@
        &&& !new_source
        &&& if has_ts_source(pre.timestamped_states@, node) {
            exists|i: int|
                {
                    &&& 0 <= i < pre.timestamped_states@.len()
                    &&& (#[trigger] pre.timestamped_states@[i]).0 == node
                    &&& seq_views(post.sequenced_states@) == seq_views(pre.sequenced_states@)
                    &&& ts_views(post.timestamped_states@) == ts_views(
                        pre.timestamped_states@,
                    ).update(
                        i,
                        (
                            node,
                            ts_view_after(
                                tsview(pre.timestamped_states@[i].1),
                                ts_ingest_spec(
                                    pre.timestamped_states@[i].1.last_delivered,
                                    pre.timestamped_states@[i].1.pending_samples@,
                                    s,
                                    pre.global_pending_queries != 0
                                        || pre.timestamped_states@[i].1.pending_queries != 0,
                                ),
                            ),
                        ),
                    )
                    &&& emits == ts_ingest_spec(
                        pre.timestamped_states@[i].1.last_delivered,
                        pre.timestamped_states@[i].1.pending_samples@,
                        s,
                        pre.global_pending_queries != 0 || pre.timestamped_states@[i].1.pending_queries
                            != 0,
                    ).emits
                }
        } else {
            let st = ts_ingest_spec(
                None,
                Seq::<(Timestamp, Sample<P>)>::empty(),
                s,
                pre.global_pending_queries != 0,
            );
            &&& ts_views(post.timestamped_states@) == ts_views(pre.timestamped_states@).push(
                (node, ts_view_after(fresh_ts_view::<P>(), st)),
            )
            &&& emits == st.emits
        }
    } else {
        &&& post.sequenced_states@ == pre.sequenced_states@
        &&& post.timestamped_states@ == pre.timestamped_states@
        &&& !new_source
        &&& emits == seq![Emission::Deliver(s)]
    }
}

} // verus!
