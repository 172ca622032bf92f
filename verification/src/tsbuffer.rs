use vstd::prelude::*;

use crate::sample::{Sample, Timestamp};

verus! {

/// An ordered buffer of out-of-order samples, keyed by timestamp.
/// Entries are kept sorted by strictly increasing timestamp; inserting a
/// timestamp that is already present keeps the first insertion and drops the
/// new sample.
pub struct TsBuffer<P> {
    pub entries: Vec<(Timestamp, Sample<P>)>,
}

/// Strictly ascending timestamps.
pub open spec fn ts_sorted<P>(s: Seq<(Timestamp, Sample<P>)>) -> bool {
    forall|i: int, j: int| 0 <= i < j < s.len() ==> s[i].0.lt_spec(s[j].0)
}

/// The buffer after a first-insertion-wins insert of `(t, x)`, keeping the
/// entries sorted.
pub open spec fn ts_insert<P>(s: Seq<(Timestamp, Sample<P>)>, t: Timestamp, x: Sample<P>) -> Seq<
    (Timestamp, Sample<P>),
>
    decreases s.len(),
{
    if s.len() == 0 {
        seq![(t, x)]
    } else if s[0].0.lt_spec(t) {
        seq![s[0]] + ts_insert(s.drop_first(), t, x)
    } else if s[0].0 == t {
        s
    } else {
        seq![(t, x)] + s
    }
}

impl<P> TsBuffer<P> {
    pub open spec fn view(self) -> Seq<(Timestamp, Sample<P>)> {
        self.entries@
    }

    pub open spec fn wf(self) -> bool {
        ts_sorted(self@)
    }

    pub fn new() -> (r: Self)
        ensures
            r@ =~= Seq::<(Timestamp, Sample<P>)>::empty(),
            r.wf(),
    {
        TsBuffer { entries: Vec::new() }
    }

    pub fn is_empty(&self) -> (b: bool)
        ensures
            b == (self@.len() == 0),
    {
        self.entries.len() == 0
    }

    /// First-insertion-wins sorted insert.
    pub fn insert(&mut self, t: Timestamp, x: Sample<P>)
        requires
            old(self).wf(),
        ensures
            final(self).wf(),
            final(self)@ == ts_insert(old(self)@, t, x),
    {
        let mut i: usize = 0;
        while i < self.entries.len() && self.entries[i].0.lt(&t)
            invariant
                0 <= i <= self.entries@.len(),
                forall|j: int| 0 <= j < i ==> self.entries@[j].0.lt_spec(t),
                self.entries@ == old(self).entries@,
            decreases self.entries@.len() - i,
        {
            i = i + 1;
        }
        proof {
            lemma_ts_insert_at(old(self)@, t, x, i as int);
        }
        if i < self.entries.len() && self.entries[i].0.time == t.time
            && self.entries[i].0.id == t.id {
            return ;
        }
        proof {
            let s = old(self)@;
            if (i as int) < s.len() {
                assert(s[i as int].0.time != t.time || s[i as int].0.id != t.id);
                assert forall|j: int| i <= j < s.len() implies t.lt_spec(s[j].0) by {
                    if j > i {
                        assert(s[i as int].0.lt_spec(s[j].0));
                    }
                }
            }
        }
        self.entries.insert(i, (t, x));
    }

    /// Detach the whole buffer, leaving this one empty.
    pub fn take_all(&mut self) -> (r: Vec<(Timestamp, Sample<P>)>)
        requires
            old(self).wf(),
        ensures
            final(self).wf(),
            final(self)@ =~= Seq::<(Timestamp, Sample<P>)>::empty(),
            r@ == old(self)@,
    {
        let mut out: Vec<(Timestamp, Sample<P>)> = Vec::new();
        core::mem::swap(&mut self.entries, &mut out);
        out
    }
}

/// Where the scan for the insertion point of `t` stops, `ts_insert` either
/// keeps the sequence (timestamp present) or inserts there.
proof fn lemma_ts_insert_at<P>(s: Seq<(Timestamp, Sample<P>)>, t: Timestamp, x: Sample<P>, i: int)
    requires
        ts_sorted(s),
        0 <= i <= s.len(),
        forall|j: int| 0 <= j < i ==> s[j].0.lt_spec(t),
        i < s.len() ==> !s[i].0.lt_spec(t),
    ensures
        ts_insert(s, t, x) == if i < s.len() && s[i].0 == t {
            s
        } else {
            s.insert(i, (t, x))
        },
    decreases i,
{
    if i == 0 {
        if s.len() == 0 {
            assert(ts_insert(s, t, x) =~= s.insert(0, (t, x)));
        } else if s[0].0 == t {
        } else {
            assert(ts_insert(s, t, x) =~= s.insert(0, (t, x)));
        }
    } else {
        let u = s.drop_first();
        assert(forall|j: int| 0 <= j < i - 1 ==> u[j].0.lt_spec(t));
        lemma_ts_insert_at(u, t, x, i - 1);
        assert(s[0].0.lt_spec(t));
        if i < s.len() && s[i].0 == t {
            assert(u[i - 1].0 == t);
            assert(ts_insert(s, t, x) =~= s);
        } else {
            assert(ts_insert(s, t, x) =~= seq![s[0]] + u.insert(i - 1, (t, x)));
            assert(seq![s[0]] + u.insert(i - 1, (t, x)) =~= s.insert(i, (t, x)));
        }
    }
}

} // verus!
