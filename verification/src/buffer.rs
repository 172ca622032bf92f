use vstd::prelude::*;

use crate::sample::Sample;

verus! {

/// An ordered buffer of out-of-order samples, keyed by sequence number.
/// Entries are kept sorted by strictly increasing key; inserting a key that
/// is already present keeps the first insertion and drops the new sample.
pub struct SampleBuffer<P> {
    pub entries: Vec<(u32, Sample<P>)>,
}

/// Strictly ascending keys.
pub open spec fn buf_sorted<P>(s: Seq<(u32, Sample<P>)>) -> bool {
    forall|i: int, j: int| 0 <= i < j < s.len() ==> s[i].0 < s[j].0
}

/// The buffer after a first-insertion-wins insert of `(sn, x)`, keeping the
/// entries sorted.
pub open spec fn buf_insert<P>(s: Seq<(u32, Sample<P>)>, sn: u32, x: Sample<P>) -> Seq<
    (u32, Sample<P>),
>
    decreases s.len(),
{
    if s.len() == 0 {
        seq![(sn, x)]
    } else if s[0].0 < sn {
        seq![s[0]] + buf_insert(s.drop_first(), sn, x)
    } else if s[0].0 == sn {
        s
    } else {
        seq![(sn, x)] + s
    }
}

/// The buffer with every entry whose key is at most `v` removed.
pub open spec fn buf_prune_le<P>(s: Seq<(u32, Sample<P>)>, v: u32) -> Seq<(u32, Sample<P>)>
    decreases s.len(),
{
    if s.len() == 0 {
        s
    } else if s[0].0 <= v {
        buf_prune_le(s.drop_first(), v)
    } else {
        s
    }
}

impl<P> SampleBuffer<P> {
    pub open spec fn view(self) -> Seq<(u32, Sample<P>)> {
        self.entries@
    }

    pub open spec fn wf(self) -> bool {
        buf_sorted(self@)
    }

    pub fn new() -> (r: Self)
        ensures
            r@ =~= Seq::<(u32, Sample<P>)>::empty(),
            r.wf(),
    {
        SampleBuffer { entries: Vec::new() }
    }

    pub fn is_empty(&self) -> (b: bool)
        ensures
            b == (self@.len() == 0),
    {
        self.entries.len() == 0
    }

    /// First-insertion-wins sorted insert.
    pub fn insert(&mut self, sn: u32, x: Sample<P>)
        requires
            old(self).wf(),
        ensures
            final(self).wf(),
            final(self)@ == buf_insert(old(self)@, sn, x),
    {
        let mut i: usize = 0;
        while i < self.entries.len() && self.entries[i].0 < sn
            invariant
                0 <= i <= self.entries@.len(),
                forall|j: int| 0 <= j < i ==> self.entries@[j].0 < sn,
                self.entries@ == old(self).entries@,
            decreases self.entries@.len() - i,
        {
            i = i + 1;
        }
        proof {
            lemma_buf_insert_at(old(self)@, sn, x, i as int);
        }
        if i < self.entries.len() && self.entries[i].0 == sn {
            return ;
        }
        self.entries.insert(i, (sn, x));
    }

    /// Remove every entry whose key is at most `v`.
    pub fn prune_le(&mut self, v: u32)
        requires
            old(self).wf(),
        ensures
            final(self).wf(),
            final(self)@ == buf_prune_le(old(self)@, v),
    {
        while self.entries.len() > 0 && self.entries[0].0 <= v
            invariant
                buf_sorted(self.entries@),
                buf_prune_le(self.entries@, v) == buf_prune_le(old(self).entries@, v),
            decreases self.entries@.len(),
        {
            self.entries.remove(0);
        }
    }

    /// The least key in the buffer, when the buffer is not empty.
    pub fn first_key(&self) -> (r: Option<u32>)
        ensures
            self@.len() == 0 ==> r is None,
            self@.len() > 0 ==> r == Some(self@[0].0),
    {
        if self.entries.len() > 0 {
            Some(self.entries[0].0)
        } else {
            None
        }
    }

    /// Remove and return the first entry.
    pub fn pop_first(&mut self) -> (r: (u32, Sample<P>))
        requires
            old(self).wf(),
            old(self)@.len() > 0,
        ensures
            final(self).wf(),
            r == old(self)@[0],
            final(self)@ == old(self)@.drop_first(),
    {
        self.entries.remove(0)
    }

    /// Detach the whole buffer, leaving this one empty.
    pub fn take_all(&mut self) -> (r: Vec<(u32, Sample<P>)>)
        requires
            old(self).wf(),
        ensures
            final(self).wf(),
            final(self)@ =~= Seq::<(u32, Sample<P>)>::empty(),
            r@ == old(self)@,
    {
        let mut out: Vec<(u32, Sample<P>)> = Vec::new();
        core::mem::swap(&mut self.entries, &mut out);
        out
    }
}

/// Where the scan for the insertion point of `sn` stops, `buf_insert` either
/// keeps the sequence (key present) or inserts there.
proof fn lemma_buf_insert_at<P>(s: Seq<(u32, Sample<P>)>, sn: u32, x: Sample<P>, i: int)
    requires
        buf_sorted(s),
        0 <= i <= s.len(),
        forall|j: int| 0 <= j < i ==> s[j].0 < sn,
        i < s.len() ==> s[i].0 >= sn,
    ensures
        buf_insert(s, sn, x) == if i < s.len() && s[i].0 == sn {
            s
        } else {
            s.insert(i, (sn, x))
        },
    decreases i,
{
    if i == 0 {
        if s.len() == 0 {
            assert(buf_insert(s, sn, x) =~= s.insert(0, (sn, x)));
        } else if s[0].0 == sn {
        } else {
            assert(s[0].0 > sn);
            assert(buf_insert(s, sn, x) =~= s.insert(0, (sn, x)));
        }
    } else {
        let t = s.drop_first();
        assert(forall|j: int| 0 <= j < i - 1 ==> t[j].0 < sn);
        lemma_buf_insert_at(t, sn, x, i - 1);
        assert(s[0].0 < sn);
        if i < s.len() && s[i].0 == sn {
            assert(t[i - 1].0 == sn);
            assert(buf_insert(s, sn, x) =~= s);
        } else {
            assert(buf_insert(s, sn, x) =~= seq![s[0]] + t.insert(i - 1, (sn, x)));
            assert(seq![s[0]] + t.insert(i - 1, (sn, x)) =~= s.insert(i, (sn, x)));
        }
    }
}

/// Pruning keeps exactly the entries whose key exceeds `v`, in order.
pub proof fn lemma_buf_prune_le<P>(s: Seq<(u32, Sample<P>)>, v: u32)
    requires
        buf_sorted(s),
    ensures
        buf_sorted(buf_prune_le(s, v)),
        forall|i: int|
            0 <= i < buf_prune_le(s, v).len() ==> #[trigger] buf_prune_le(s, v)[i].0 > v,
        forall|i: int|
            0 <= i < s.len() && s[i].0 > v ==> buf_prune_le(s, v).contains(#[trigger] s[i]),
        forall|i: int|
            0 <= i < buf_prune_le(s, v).len() ==> s.contains(#[trigger] buf_prune_le(s, v)[i]),
    decreases s.len(),
{
    if s.len() > 0 && s[0].0 <= v {
        lemma_buf_prune_le(s.drop_first(), v);
        assert(forall|i: int|
            0 <= i < s.len() && s[i].0 > v ==> i >= 1 && s.drop_first()[i - 1] == s[i]);
    } else {
    }
}

} // verus!
