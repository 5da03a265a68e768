//! The timeline of one entity.

use super::version_controller::VersionId;
use vstd::prelude::*;

verus! {

/// Whether the recorded versions rise strictly along the sequence.
pub open spec fn ascending<E>(s: Seq<(VersionId, Option<E>)>) -> bool {
    forall|i: int, j: int| 0 <= i < j < s.len() ==> (#[trigger] s[i]).0.0 < (#[trigger] s[j]).0.0
}

/// What a timeline says of the time `t`: the value of its last entry at or
/// before `t`. The result is `None` where there is no such entry, and where
/// that entry records an absence.
pub open spec fn at_or_before<E>(s: Seq<(VersionId, Option<E>)>, t: VersionId) -> Option<E>
    decreases s.len(),
{
    if s.len() == 0 {
        None
    } else if s.last().0.0 <= t.0 {
        s.last().1
    } else {
        at_or_before(s.drop_last(), t)
    }
}

/// The timeline with `value` recorded at `t`: an entry already at `t` is
/// replaced, otherwise a new one takes its place in the order of versions.
pub open spec fn record<E>(s: Seq<(VersionId, Option<E>)>, t: VersionId, value: Option<E>) -> Seq<
    (VersionId, Option<E>),
>
    decreases s.len(),
{
    if s.len() == 0 {
        seq![(t, value)]
    } else if s.last().0.0 < t.0 {
        s.push((t, value))
    } else if s.last().0.0 == t.0 {
        s.drop_last().push((t, value))
    } else {
        record(s.drop_last(), t, value).push(s.last())
    }
}

/// What a timeline holds at exactly `t`: `None` where nothing is recorded
/// there or an absence is.
pub open spec fn held_at<E>(s: Seq<(VersionId, Option<E>)>, t: VersionId) -> Option<E>
    decreases s.len(),
{
    if s.len() == 0 {
        None
    } else if s.last().0 == t {
        s.last().1
    } else {
        held_at(s.drop_last(), t)
    }
}

/// The versions at which a timeline has an entry.
pub open spec fn recorded<E>(s: Seq<(VersionId, Option<E>)>) -> Set<VersionId> {
    Set::new(|v: VersionId| exists|i: int| 0 <= i < s.len() && (#[trigger] s[i]).0 == v)
}

/// Where an ascending timeline splits around `t` at `k`, the answer for `t`
/// is the value just before the split.
pub proof fn lemma_at_or_before_split<E>(s: Seq<(VersionId, Option<E>)>, t: VersionId, k: int)
    requires
        ascending(s),
        0 <= k <= s.len(),
        forall|i: int| k <= i < s.len() ==> (#[trigger] s[i]).0.0 > t.0,
        k > 0 ==> s[k - 1].0.0 <= t.0,
    ensures
        at_or_before(s, t) == if k == 0 {
            None
        } else {
            s[k - 1].1
        },
    decreases s.len() - k,
{
    if s.len() > k {
        let d = s.drop_last();
        assert(s.last() == s[s.len() - 1]);
        assert forall|i: int, j: int| 0 <= i < j < d.len() implies (#[trigger] d[i]).0.0 < (
        #[trigger] d[j]).0.0 by {
            assert(d[i] == s[i] && d[j] == s[j]);
        }
        assert forall|i: int| k <= i < d.len() implies (#[trigger] d[i]).0.0 > t.0 by {
            assert(d[i] == s[i]);
        }
        if k > 0 {
            assert(d[k - 1] == s[k - 1]);
        }
        lemma_at_or_before_split(d, t, k);
    } else if k > 0 {
        assert(s.last() == s[k - 1]);
    }
}

/// Where an ascending timeline splits around `t` at `k`, recording at `t`
/// puts the new entry at the split, in place of an entry already at `t`.
pub proof fn lemma_record_split<E>(
    s: Seq<(VersionId, Option<E>)>,
    t: VersionId,
    value: Option<E>,
    k: int,
)
    requires
        0 <= k <= s.len(),
        forall|i: int| k <= i < s.len() ==> (#[trigger] s[i]).0.0 > t.0,
        k > 0 ==> s[k - 1].0.0 <= t.0,
    ensures
        record(s, t, value) =~= if k > 0 && s[k - 1].0.0 == t.0 {
            s.subrange(0, k - 1).push((t, value)) + s.subrange(k, s.len() as int)
        } else {
            s.subrange(0, k).push((t, value)) + s.subrange(k, s.len() as int)
        },
    decreases s.len() - k,
{
    if s.len() > k {
        let d = s.drop_last();
        assert(s.last() == s[s.len() - 1]);
        assert forall|i: int| k <= i < d.len() implies (#[trigger] d[i]).0.0 > t.0 by {
            assert(d[i] == s[i]);
        }
        if k > 0 {
            assert(d[k - 1] == s[k - 1]);
        }
        lemma_record_split(d, t, value, k);
        assert(d.subrange(0, k) =~= s.subrange(0, k));
        if k > 0 {
            assert(d.subrange(0, k - 1) =~= s.subrange(0, k - 1));
        }
        assert(d.subrange(k, d.len() as int).push(s.last()) =~= s.subrange(k, s.len() as int));
    } else if k > 0 {
        assert(s.last() == s[k - 1]);
        assert(s.subrange(0, k) =~= s);
        assert(s.subrange(0, k - 1) =~= s.drop_last());
    } else {
        assert(s.subrange(0, 0) =~= Seq::<(VersionId, Option<E>)>::empty());
    }
}

/// Recording keeps an ascending timeline ascending.
pub proof fn lemma_record_ascending<E>(
    s: Seq<(VersionId, Option<E>)>,
    t: VersionId,
    value: Option<E>,
)
    requires
        ascending(s),
    ensures
        ascending(record(s, t, value)),
        record(s, t, value).len() > 0,
        forall|i: int|
            0 <= i < record(s, t, value).len() ==> (#[trigger] record(s, t, value)[i]).0 == t || (
            exists|j: int| 0 <= j < s.len() && s[j] == record(s, t, value)[i]),
    decreases s.len(),
{
    let r = record(s, t, value);
    if s.len() == 0 {
    } else if s.last().0.0 < t.0 {
        assert forall|i: int, j: int| 0 <= i < j < r.len() implies (#[trigger] r[i]).0.0 < (
        #[trigger] r[j]).0.0 by {
            assert(r[i] == s[i]);
            if j < s.len() {
                assert(r[j] == s[j]);
            } else {
                assert(s.last() == s[s.len() - 1]);
            }
        }
        assert forall|i: int| 0 <= i < r.len() implies (#[trigger] r[i]).0 == t || (exists|j: int|
            0 <= j < s.len() && s[j] == r[i]) by {
            if i < s.len() {
                assert(s[i] == r[i]);
            }
        }
    } else if s.last().0.0 == t.0 {
        assert forall|i: int, j: int| 0 <= i < j < r.len() implies (#[trigger] r[i]).0.0 < (
        #[trigger] r[j]).0.0 by {
            assert(r[i] == s[i]);
            if j < s.len() - 1 {
                assert(r[j] == s[j]);
            } else {
                assert(s.last() == s[s.len() - 1]);
            }
        }
        assert forall|i: int| 0 <= i < r.len() implies (#[trigger] r[i]).0 == t || (exists|j: int|
            0 <= j < s.len() && s[j] == r[i]) by {
            if i < s.len() - 1 {
                assert(s[i] == r[i]);
            }
        }
    } else {
        let d = s.drop_last();
        let rd = record(d, t, value);
        assert forall|i: int, j: int| 0 <= i < j < d.len() implies (#[trigger] d[i]).0.0 < (
        #[trigger] d[j]).0.0 by {
            assert(d[i] == s[i] && d[j] == s[j]);
        }
        lemma_record_ascending(d, t, value);
        assert(s.last() == s[s.len() - 1]);
        assert forall|i: int, j: int| 0 <= i < j < r.len() implies (#[trigger] r[i]).0.0 < (
        #[trigger] r[j]).0.0 by {
            assert(r[i] == rd[i]);
            if j < rd.len() {
                assert(r[j] == rd[j]);
            } else {
                assert(r[j] == s.last());
                if rd[i].0 != t {
                    let w = choose|w: int| 0 <= w < d.len() && d[w] == rd[i];
                    assert(d[w] == s[w]);
                }
            }
        }
        assert forall|i: int| 0 <= i < r.len() implies (#[trigger] r[i]).0 == t || (exists|j: int|
            0 <= j < s.len() && s[j] == r[i]) by {
            if i < rd.len() {
                assert(r[i] == rd[i]);
                if rd[i].0 != t {
                    let w = choose|w: int| 0 <= w < d.len() && d[w] == rd[i];
                    assert(s[w] == r[i]);
                }
            } else {
                assert(s[s.len() - 1] == r[i]);
            }
        }
    }
}

/// The timeline of one entity: what it was, or that it was absent, from each
/// of the versions at which something was recorded.
#[derive(Debug)]
pub struct History<T: Clone> {
    entries: Vec<(VersionId, Option<T>)>,
}

impl<T: Clone> View for History<T> {
    type V = Seq<(VersionId, Option<T>)>;

    closed spec fn view(&self) -> Seq<(VersionId, Option<T>)> {
        self.entries@
    }
}

impl<T: Clone> History<T> {
    /// The entries are held in the order of their versions, none of which
    /// occurs twice.
    pub open spec fn wf(&self) -> bool {
        ascending(self@)
    }

    /// The timeline of an entity that came to be, as `rect`, at `create_time`.
    pub fn new(create_time: VersionId, rect: T) -> (r: Self)
        ensures
            r.wf(),
            r@ == seq![(create_time, Some(rect))],
    {
        let mut entries: Vec<(VersionId, Option<T>)> = Vec::new();
        entries.push((create_time, Some(rect)));
        assert(entries@ =~= seq![(create_time, Some(rect))]);
        Self { entries }
    }

    fn put(&mut self, time: VersionId, value: Option<T>) -> (r: Option<T>)
        requires
            old(self).wf(),
        ensures
            final(self).wf(),
            final(self)@ == record(old(self)@, time, value),
            r == held_at(old(self)@, time),
    {
        let ghost s = self.entries@;
        let mut k: usize = self.entries.len();
        while k > 0 && self.entries[k - 1].0.0 > time.0
            invariant
                self.entries@ == s,
                k <= s.len(),
                forall|i: int| k <= i < s.len() ==> (#[trigger] s[i]).0.0 > time.0,
            decreases k,
        {
            k -= 1;
        }
        proof {
            lemma_record_split(s, time, value, k as int);
            lemma_record_ascending(s, time, value);
            lemma_held_at_split(s, time, k as int);
        }
        if k > 0 && self.entries[k - 1].0.0 == time.0 {
            self.entries.push((time, value));
            let was = self.entries.swap_remove(k - 1);
            assert(self.entries@ =~= s.subrange(0, k - 1).push((time, value)) + s.subrange(
                k as int,
                s.len() as int,
            ));
            was.1
        } else {
            self.entries.insert(k, (time, value));
            assert(self.entries@ =~= s.subrange(0, k as int).push((time, value)) + s.subrange(
                k as int,
                s.len() as int,
            ));
            None
        }
    }

    /// Records that the entity is `rect` from `update_time` on. Returns what
    /// was recorded at exactly that time before, if it was a value.
    pub fn update(&mut self, update_time: VersionId, rect: T) -> (r: Option<T>)
        requires
            old(self).wf(),
        ensures
            final(self).wf(),
            final(self)@ == record(old(self)@, update_time, Some(rect)),
            r == held_at(old(self)@, update_time),
    {
        self.put(update_time, Some(rect))
    }

    /// Records that the entity is absent from `update_time` on.
    pub fn del(&mut self, update_time: VersionId)
        requires
            old(self).wf(),
        ensures
            final(self).wf(),
            final(self)@ == record(old(self)@, update_time, None),
    {
        let _ = self.put(update_time, None);
    }

    /// What the entity was at `time`, by reference: the value of the last
    /// entry at or before `time`.
    pub fn latest(&self, time: VersionId) -> (r: Option<&T>)
        requires
            self.wf(),
        ensures
            match r {
                Some(x) => at_or_before(self@, time) == Some(*x),
                None => at_or_before(self@, time) is None,
            },
    {
        let ghost s = self.entries@;
        let mut lo: usize = 0;
        let mut hi: usize = self.entries.len();
        while lo < hi
            invariant
                self.entries@ == s,
                ascending(s),
                lo <= hi <= s.len(),
                forall|i: int| 0 <= i < lo ==> (#[trigger] s[i]).0.0 <= time.0,
                forall|i: int| hi <= i < s.len() ==> (#[trigger] s[i]).0.0 > time.0,
            decreases hi - lo,
        {
            let mid: usize = lo + (hi - lo) / 2;
            if self.entries[mid].0.0 <= time.0 {
                assert forall|i: int| 0 <= i < mid + 1 implies (#[trigger] s[i]).0.0 <= time.0 by {
                    if i < mid {
                        assert(s[i].0.0 < s[mid as int].0.0);
                    }
                }
                lo = mid + 1;
            } else {
                assert forall|i: int| mid <= i < s.len() implies (#[trigger] s[i]).0.0 > time.0 by {
                    if i > mid {
                        assert(s[mid as int].0.0 < s[i].0.0);
                    }
                }
                hi = mid;
            }
        }
        proof {
            lemma_at_or_before_split(s, time, lo as int);
        }
        if lo == 0 {
            None
        } else {
            match &self.entries[lo - 1].1 {
                Some(x) => Some(x),
                None => None,
            }
        }
    }

    /// What the entity was at `time`: a copy of the value of the last entry
    /// at or before `time`. `None` where the entity did not exist yet, and
    /// where it was absent.
    pub fn query(&self, time: VersionId) -> (r: Option<T>)
        requires
            self.wf(),
        ensures
            match at_or_before(self@, time) {
                Some(x) => r is Some && cloned(x, r.unwrap()),
                None => r is None,
            },
    {
        match self.latest(time) {
            Some(x) => Some(x.clone()),
            None => None,
        }
    }

    /// The versions at which something is recorded, in rising order.
    pub fn versions(&self) -> (r: Vec<VersionId>)
        ensures
            r@ == self@.map_values(|e: (VersionId, Option<T>)| e.0),
    {
        let mut out: Vec<VersionId> = Vec::new();
        let mut i: usize = 0;
        while i < self.entries.len()
            invariant
                i <= self.entries.len(),
                out@ == self.entries@.subrange(0, i as int).map_values(
                    |e: (VersionId, Option<T>)| e.0,
                ),
            decreases self.entries.len() - i,
        {
            out.push(self.entries[i].0);
            assert(self.entries@.subrange(0, i + 1).map_values(|e: (VersionId, Option<T>)| e.0)
                =~= self.entries@.subrange(0, i as int).map_values(
                |e: (VersionId, Option<T>)| e.0,
            ).push(self.entries@[i as int].0));
            i += 1;
        }
        assert(self.entries@.subrange(0, i as int) =~= self.entries@);
        out
    }
}

/// Where a timeline splits around `t` at `k`, what it holds at `t` is the
/// value just before the split, if that entry is at `t`.
pub proof fn lemma_held_at_split<E>(s: Seq<(VersionId, Option<E>)>, t: VersionId, k: int)
    requires
        ascending(s),
        0 <= k <= s.len(),
        forall|i: int| k <= i < s.len() ==> (#[trigger] s[i]).0.0 > t.0,
        k > 0 ==> s[k - 1].0.0 <= t.0,
    ensures
        held_at(s, t) == if k > 0 && s[k - 1].0.0 == t.0 {
            s[k - 1].1
        } else {
            None
        },
    decreases s.len(),
{
    if s.len() > 0 {
        let d = s.drop_last();
        assert(s.last() == s[s.len() - 1]);
        assert forall|i: int, j: int| 0 <= i < j < d.len() implies (#[trigger] d[i]).0.0 < (
        #[trigger] d[j]).0.0 by {
            assert(d[i] == s[i] && d[j] == s[j]);
        }
        if s.len() > k {
            assert forall|i: int| k <= i < d.len() implies (#[trigger] d[i]).0.0 > t.0 by {
                assert(d[i] == s[i]);
            }
            if k > 0 {
                assert(d[k - 1] == s[k - 1]);
            }
            lemma_held_at_split(d, t, k);
        } else {
            // k == s.len(): the last entry is at or before t
            if s.last().0 == t {
            } else {
                // every entry of d is strictly below s.last(), hence below t
                if d.len() > 0 {
                    assert(d[d.len() - 1] == s[d.len() - 1]);
                    assert(s[d.len() - 1].0.0 < s[s.len() - 1].0.0);
                }
                lemma_held_at_split(d, t, d.len() as int);
            }
        }
    }
}

} // verus!
