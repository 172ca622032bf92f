use vstd::prelude::*;

verus! {

/// Identity of a sequenced publisher: the publisher's node id together with
/// the entity id it publishes under.
#[derive(Clone, Copy, PartialEq, Eq, Structural, Debug)]
pub struct SourceId {
    pub zid: u128,
    pub eid: u32,
}

/// A hybrid-logical-clock timestamp: a node-local time value and the node's
/// id, totally ordered lexicographically by `(time, id)`.
#[derive(Clone, Copy, PartialEq, Eq, Structural, Debug)]
pub struct Timestamp {
    pub time: u64,
    pub id: u128,
}

impl Timestamp {
    /// The total order on timestamps: lexicographic on `(time, id)`.
    pub open spec fn lt_spec(self, other: Timestamp) -> bool {
        self.time < other.time || (self.time == other.time && self.id < other.id)
    }

    pub fn lt(&self, other: &Timestamp) -> (r: bool)
        ensures
            r == self.lt_spec(*other),
    {
        self.time < other.time || (self.time == other.time && self.id < other.id)
    }
}

/// A sample as the ordering core sees it: the fields the delivery logic reads,
/// plus an opaque payload `P` that is carried through untouched.
pub struct Sample<P> {
    /// The key expression the sample was published on.
    pub key_expr: String,
    /// Identity of the publisher, when the publisher stamps one.
    pub source_id: Option<SourceId>,
    /// Per-source monotonic sequence number, when the publisher stamps one.
    pub source_sn: Option<u32>,
    /// Distributed timestamp, when the sample carries one.
    pub timestamp: Option<Timestamp>,
    /// Everything else about the sample, opaque to the core.
    pub payload: P,
}

/// What kind of event a liveliness token carries: a token appearing or a
/// token going away.
#[derive(Clone, Copy, PartialEq, Eq, Structural, Debug)]
pub enum SampleKind {
    Put,
    Delete,
}

/// A contiguous range of sequence numbers from one source that was determined
/// to be unrecoverable.
#[derive(Clone, Copy, PartialEq, Eq, Structural, Debug)]
pub struct Miss {
    pub source: SourceId,
    pub nb: u32,
}

impl Miss {
    /// The source of the missed samples.
    pub fn source(&self) -> (r: SourceId)
        ensures
            r == self.source,
    {
        self.source
    }

    /// The number of missed samples.
    pub fn nb(&self) -> (r: u32)
        ensures
            r == self.nb,
    {
        self.nb
    }
}

} // verus!
