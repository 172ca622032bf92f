use advanced_subscriber::events::LiveSampleOutput;
use advanced_subscriber::sample::{Sample, SampleKind, SourceId, Timestamp};
use advanced_subscriber::state::{
    Config, HistoryConfig, QueryGuard, RecoveryConfig, SubscriberState,
};
use advanced_subscriber::tracker::Emission;

fn seq_sample(sid: SourceId, sn: u32, payload: i32) -> Sample<i32> {
    Sample {
        key_expr: String::from("demo/a"),
        source_id: Some(sid),
        source_sn: Some(sn),
        timestamp: None,
        payload,
    }
}

fn ts_sample(node: u128, time: u64, payload: i32) -> Sample<i32> {
    Sample {
        key_expr: String::from("demo/a"),
        source_id: None,
        source_sn: None,
        timestamp: Some(Timestamp { time, id: node }),
        payload,
    }
}

fn delivered_sns(ems: &[Emission<i32>]) -> Vec<u32> {
    let mut out = Vec::new();
    for e in ems {
        if let Emission::Deliver(s) = e {
            out.push(s.source_sn.unwrap());
        }
    }
    out
}

fn delivered_payloads(ems: &[Emission<i32>]) -> Vec<i32> {
    let mut out = Vec::new();
    for e in ems {
        if let Emission::Deliver(s) = e {
            out.push(s.payload);
        }
    }
    out
}

fn miss_counts(ems: &[Emission<i32>]) -> Vec<u32> {
    let mut out = Vec::new();
    for e in ems {
        if let Emission::MissDetected(m) = e {
            out.push(m.nb());
        }
    }
    out
}

fn sid() -> SourceId {
    SourceId { zid: 0x1a2b, eid: 7 }
}

#[test]
fn in_order_steady_state() {
    let mut st: SubscriberState<i32> = SubscriberState::new(String::from("demo/a"), Config::default());
    let mut all = Vec::new();
    for sn in 1..=4u32 {
        let out = st.handle_live_sample(seq_sample(sid(), sn, sn as i32));
        assert!(out.retransmit.is_none());
        assert!(miss_counts(&out.emissions).is_empty());
        all.extend(delivered_sns(&out.emissions));
    }
    assert_eq!(all, vec![1, 2, 3, 4]);
}

#[test]
fn reorder_with_retransmission() {
    let mut cfg = Config::default();
    cfg.retransmission = Some(RecoveryConfig::default());
    let mut st: SubscriberState<i32> = SubscriberState::new(String::from("demo/a"), cfg);
    let o1 = st.handle_live_sample(seq_sample(sid(), 1, 1));
    assert_eq!(delivered_sns(&o1.emissions), vec![1]);
    let o3 = st.handle_live_sample(seq_sample(sid(), 3, 3));
    assert!(o3.emissions.is_empty());
    let q = o3.retransmit.expect("gap must trigger a retransmission query");
    assert_eq!(q.parameters, "_sn=2..");
    assert_eq!(q.key_expr, "@adv/*/1a2b/7/**/@/demo/a");
    assert_eq!(q.guard, QueryGuard::Sequenced(sid()));
    let o4 = st.handle_live_sample(seq_sample(sid(), 4, 4));
    assert!(o4.emissions.is_empty());
    assert!(o4.retransmit.is_none(), "a query is already in flight");
    // the retransmit query returns sample 2; the reply intersects demo/a
    let r2 = st.handle_reply_sample(seq_sample(sid(), 2, 2));
    assert_eq!(delivered_sns(&r2), vec![2, 3, 4]);
    assert!(miss_counts(&r2).is_empty());
    let done = st.sequenced_replies_done(sid());
    assert!(done.is_empty());
}

#[test]
fn unrecoverable_gap_without_retransmission() {
    let mut st: SubscriberState<i32> = SubscriberState::new(String::from("demo/a"), Config::default());
    let o1 = st.handle_live_sample(seq_sample(sid(), 1, 1));
    assert_eq!(delivered_sns(&o1.emissions), vec![1]);
    let o4 = st.handle_live_sample(seq_sample(sid(), 4, 4));
    // one miss for sequence numbers 2 and 3, emitted before 4 is delivered
    assert_eq!(o4.emissions.len(), 2);
    match &o4.emissions[0] {
        Emission::MissDetected(m) => {
            assert_eq!(m.source(), sid());
            assert_eq!(m.nb(), 2);
        }
        _ => panic!("first emission must be the miss"),
    }
    match &o4.emissions[1] {
        Emission::Deliver(s) => assert_eq!(s.source_sn, Some(4)),
        _ => panic!("second emission must deliver sample 4"),
    }
    // last_delivered is now 4: the successor is delivered directly
    let o5 = st.handle_live_sample(seq_sample(sid(), 5, 5));
    assert_eq!(delivered_sns(&o5.emissions), vec![5]);
}

#[test]
fn history_backfill_late_joiner() {
    let mut cfg = Config::default();
    cfg.history = Some(HistoryConfig::default().detect_late_publishers().max_samples(10));
    let mut st: SubscriberState<i32> = SubscriberState::new(String::from("demo/a"), cfg);
    let q0 = st.initial_history_query().expect("history is configured");
    assert_eq!(q0.key_expr, "@adv/**/@/demo/a");
    assert_eq!(q0.parameters, "_max=10");
    assert_eq!(q0.guard, QueryGuard::Initial);
    assert_eq!(
        st.liveliness_subscriber_ke().as_deref(),
        Some("@adv/pub/**/@/demo/a")
    );
    // the publisher appears: its token triggers a per-source history query
    let lv = st.handle_liveliness_token(SampleKind::Put, "@adv/pub/1a2b/7/_/@/demo/a");
    assert!(!lv.malformed);
    let lq = lv.query.expect("a per-source history query is owed");
    assert_eq!(lq.key_expr, "@adv/pub/1a2b/7/_/@/demo/a");
    assert_eq!(lq.parameters, "_max=10");
    assert_eq!(lq.guard, QueryGuard::Sequenced(sid()));
    // history replies and the same samples live, concurrently
    for sn in 1..=3u32 {
        assert!(st.handle_reply_sample(seq_sample(sid(), sn, sn as i32)).is_empty());
    }
    for sn in 1..=3u32 {
        let o = st.handle_live_sample(seq_sample(sid(), sn, (10 + sn) as i32));
        assert!(o.emissions.is_empty(), "gated while history is in flight");
    }
    assert!(st.sequenced_replies_done(sid()).is_empty(), "still globally gated");
    let (ems, _) = st.initial_replies_done();
    // each sample exactly once, in order, and the first copy won
    assert_eq!(delivered_sns(&ems), vec![1, 2, 3]);
    assert_eq!(delivered_payloads(&ems), vec![1, 2, 3]);
    assert!(miss_counts(&ems).is_empty());
}

#[test]
fn periodic_tail_recovery() {
    let mut cfg = Config::default();
    cfg.retransmission = Some(RecoveryConfig::default().periodic_queries(Some(100)));
    let mut st: SubscriberState<i32> = SubscriberState::new(String::from("demo/a"), cfg);
    let o1 = st.handle_live_sample(seq_sample(sid(), 1, 1));
    assert_eq!(delivered_sns(&o1.emissions), vec![1]);
    assert_eq!(o1.arm_periodic, Some(sid()), "new source arms the prober");
    // the source goes silent; one timer tick probes its cache
    let q = st.periodic_query(sid()).expect("known source is probed");
    assert_eq!(q.parameters, "_sn=2..");
    assert_eq!(q.key_expr, "@adv/*/1a2b/7/**/@/demo/a");
    let r2 = st.handle_reply_sample(seq_sample(sid(), 2, 2));
    assert_eq!(delivered_sns(&r2), vec![2]);
    assert!(st.sequenced_replies_done(sid()).is_empty());
}

#[test]
fn timestamped_merge() {
    let mut st: SubscriberState<i32> = SubscriberState::new(String::from("demo/a"), Config::default());
    let mut a = Vec::new();
    let mut b = Vec::new();
    for (node, time) in [(1u128, 10u64), (2, 15), (2, 25), (1, 20)] {
        let out = st.handle_live_sample(ts_sample(node, time, time as i32));
        for e in &out.emissions {
            if let Emission::Deliver(s) = e {
                let t = s.timestamp.unwrap();
                if t.id == 1 {
                    a.push(t.time);
                } else {
                    b.push(t.time);
                }
            }
        }
    }
    assert_eq!(a, vec![10, 20]);
    assert_eq!(b, vec![15, 25]);
}

#[test]
fn duplicate_injection_delivers_once() {
    let mut st: SubscriberState<i32> = SubscriberState::new(String::from("demo/a"), Config::default());
    let o1 = st.handle_live_sample(seq_sample(sid(), 1, 1));
    assert_eq!(delivered_sns(&o1.emissions), vec![1]);
    let o1b = st.handle_live_sample(seq_sample(sid(), 1, 1));
    assert!(o1b.emissions.is_empty(), "second copy is dropped");
    let o2 = st.handle_live_sample(seq_sample(sid(), 2, 2));
    assert_eq!(delivered_sns(&o2.emissions), vec![2]);
}

#[test]
fn buffered_duplicates_first_insertion_wins() {
    let mut cfg = Config::default();
    cfg.history = Some(HistoryConfig::default());
    let mut st: SubscriberState<i32> = SubscriberState::new(String::from("demo/a"), cfg);
    // globally gated: both copies of sequence 5 buffer, the first wins
    assert!(st.handle_reply_sample(seq_sample(sid(), 5, 50)).is_empty());
    assert!(st.handle_reply_sample(seq_sample(sid(), 5, 99)).is_empty());
    let (ems, _) = st.initial_replies_done();
    assert_eq!(delivered_sns(&ems), vec![5]);
    assert_eq!(delivered_payloads(&ems), vec![50]);
}

#[test]
fn flush_on_counter_reaching_zero() {
    let mut cfg = Config::default();
    cfg.history = Some(HistoryConfig::default());
    let mut st: SubscriberState<i32> = SubscriberState::new(String::from("demo/a"), cfg);
    // buffered out of order while the initial history query is in flight
    for sn in [3u32, 1, 2] {
        let o = st.handle_live_sample(seq_sample(sid(), sn, sn as i32));
        assert!(o.emissions.is_empty());
    }
    let (ems, _) = st.initial_replies_done();
    assert_eq!(delivered_sns(&ems), vec![1, 2, 3]);
    assert!(miss_counts(&ems).is_empty());
}

#[test]
fn flush_reports_gap_left_by_timeout() {
    let mut cfg = Config::default();
    cfg.history = Some(HistoryConfig::default());
    let mut st: SubscriberState<i32> = SubscriberState::new(String::from("demo/a"), cfg);
    // the cache only returned 1 and 4: the flush reports the hole
    assert!(st.handle_reply_sample(seq_sample(sid(), 1, 1)).is_empty());
    assert!(st.handle_reply_sample(seq_sample(sid(), 4, 4)).is_empty());
    let (ems, _) = st.initial_replies_done();
    assert_eq!(delivered_sns(&ems), vec![1, 4]);
    assert_eq!(miss_counts(&ems), vec![2]);
}

#[test]
fn teardown_silences_late_replies() {
    let mut cfg = Config::default();
    cfg.retransmission = Some(RecoveryConfig::default());
    let mut st: SubscriberState<i32> = SubscriberState::new(String::from("demo/a"), cfg);
    let o1 = st.handle_live_sample(seq_sample(sid(), 1, 1));
    assert_eq!(delivered_sns(&o1.emissions), vec![1]);
    st.undeclare();
    let late_live = st.handle_live_sample(seq_sample(sid(), 2, 2));
    assert!(late_live.emissions.is_empty());
    assert!(late_live.retransmit.is_none());
    let late_reply = st.handle_reply_sample(seq_sample(sid(), 3, 3));
    assert!(late_reply.is_empty());
    let (ems, arm) = st.initial_replies_done();
    assert!(ems.is_empty() && arm.is_empty());
    assert!(st.periodic_query(sid()).is_none());
}

#[test]
fn reply_outside_subscription_is_dropped() {
    let mut cfg = Config::default();
    cfg.history = Some(HistoryConfig::default());
    let mut st: SubscriberState<i32> = SubscriberState::new(String::from("demo/a"), cfg);
    // a cache answering with a foreign key expression is filtered out
    let mut foreign = seq_sample(sid(), 1, 1);
    foreign.key_expr = String::from("other/b");
    assert!(st.handle_reply_sample(foreign).is_empty());
    // a wildcard reply intersecting the subscription is kept
    let mut wild = seq_sample(sid(), 1, 1);
    wild.key_expr = String::from("demo/*");
    assert!(st.handle_reply_sample(wild).is_empty());
    let (ems, _) = st.initial_replies_done();
    assert_eq!(delivered_sns(&ems), vec![1], "only the intersecting reply was kept");
}

#[test]
fn liveliness_fallback_and_malformed_tokens() {
    let mut cfg = Config::default();
    cfg.history = Some(HistoryConfig::default().detect_late_publishers());
    let mut st: SubscriberState<i32> = SubscriberState::new(String::from("demo/a"), cfg);
    // a token whose node id cannot be parsed re-gates everything globally
    let fb = st.handle_liveliness_token(SampleKind::Put, "@adv/pub/*/7/_/@/demo/a");
    assert!(!fb.malformed);
    let q = fb.query.expect("fallback still queries history");
    assert_eq!(q.guard, QueryGuard::Initial);
    // a malformed token is dropped, to be logged
    let bad = st.handle_liveliness_token(SampleKind::Put, "not/a/token");
    assert!(bad.malformed);
    assert!(bad.query.is_none());
    // an unknown entity chunk is ignored silently
    let ig = st.handle_liveliness_token(SampleKind::Put, "@adv/pub/1a2b/what/_/@/demo/a");
    assert!(!ig.malformed);
    assert!(ig.query.is_none());
    // a token for a timestamped origin gates that origin
    let ts = st.handle_liveliness_token(SampleKind::Put, "@adv/pub/1a2b/uhlc/_/@/demo/a");
    assert_eq!(ts.query.expect("timestamped history query").guard, QueryGuard::Timestamped(0x1a2b));
    // a Delete token does nothing
    let del = st.handle_liveliness_token(SampleKind::Delete, "@adv/pub/1a2b/7/_/@/demo/a");
    assert!(del.query.is_none() && !del.malformed);
}

#[test]
fn timestamped_gating_and_flush() {
    let mut cfg = Config::default();
    cfg.history = Some(HistoryConfig::default().detect_late_publishers());
    let mut st: SubscriberState<i32> = SubscriberState::new(String::from("demo/a"), cfg);
    let lv = st.handle_liveliness_token(SampleKind::Put, "@adv/pub/9/uhlc/_/@/demo/a");
    assert!(lv.query.is_some());
    // gated by both the global counter and the origin's own counter
    assert!(st.handle_reply_sample(ts_sample(9, 20, 20)).is_empty());
    assert!(st.handle_reply_sample(ts_sample(9, 10, 10)).is_empty());
    assert!(st.timestamped_replies_done(9).is_empty(), "still globally gated");
    let (ems, _) = st.initial_replies_done();
    let times: Vec<u64> = ems
        .iter()
        .filter_map(|e| match e {
            Emission::Deliver(s) => Some(s.timestamp.unwrap().time),
            _ => None,
        })
        .collect();
    assert_eq!(times, vec![10, 20]);
    // anything at or before the last delivery is now stale
    let stale = st.handle_live_sample(ts_sample(9, 20, 20));
    assert!(stale.emissions.is_empty());
}

#[test]
fn orderless_samples_bypass_ordering() {
    let mut st: SubscriberState<i32> = SubscriberState::new(String::from("demo/a"), Config::default());
    let s = Sample {
        key_expr: String::from("demo/a"),
        source_id: None,
        source_sn: None,
        timestamp: None,
        payload: 5,
    };
    let out = st.handle_live_sample(s);
    assert_eq!(delivered_payloads(&out.emissions), vec![5]);
}

#[test]
fn largest_sequence_number() {
    let mut cfg = Config::default();
    cfg.retransmission = Some(RecoveryConfig::default().periodic_queries(Some(100)));
    let mut st: SubscriberState<i32> = SubscriberState::new(String::from("demo/a"), cfg);
    let o = st.handle_live_sample(seq_sample(sid(), u32::MAX, 1));
    assert_eq!(delivered_sns(&o.emissions), vec![u32::MAX]);
    // nothing can follow the final sequence number: no probe is issued
    assert!(st.periodic_query(sid()).is_none());
}

#[test]
fn miss_listener_registry() {
    let mut st: SubscriberState<i32> = SubscriberState::new(String::from("demo/a"), Config::default());
    let a = st.register_miss_callback();
    let b = st.register_miss_callback();
    assert_ne!(a, b);
    st.unregister_miss_callback(a);
    // unregistering twice is idempotent
    st.unregister_miss_callback(a);
    st.unregister_miss_callback(b);
}

#[test]
fn subscriber_token_and_accessors() {
    let mut cfg = Config::default();
    cfg.subscriber_detection = true;
    cfg.meta_key_expr = Some(String::from("meta"));
    let st: SubscriberState<i32> = SubscriberState::new(String::from("demo/a"), cfg);
    assert_eq!(st.key_expr(), "demo/a");
    let tok = st
        .liveliness_token_ke(SourceId { zid: 0xbeef, eid: 3 })
        .expect("subscriber detection is on");
    assert_eq!(tok, "@adv/sub/beef/3/meta/@/demo/a");
    let mut cfg2 = Config::default();
    cfg2.subscriber_detection = true;
    let st2: SubscriberState<i32> = SubscriberState::new(String::from("demo/a"), cfg2);
    let tok2 = st2.liveliness_token_ke(SourceId { zid: 0xbeef, eid: 3 }).unwrap();
    assert_eq!(tok2, "@adv/sub/beef/3/_/@/demo/a");
}

#[test]
fn live_output_shape_for_new_sources() {
    let cfg = Config::default();
    let mut st: SubscriberState<i32> = SubscriberState::new(String::from("demo/a"), cfg);
    let out: LiveSampleOutput<i32> = st.handle_live_sample(seq_sample(sid(), 1, 1));
    assert!(out.new_source);
    assert!(out.arm_periodic.is_none(), "no periodic prober configured");
    let again = st.handle_live_sample(seq_sample(sid(), 2, 2));
    assert!(!again.new_source);
}
