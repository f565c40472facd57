//! Letting samples age out.

use vstd::prelude::*;

use crate::config::RetentionPolicy;
use crate::metric::MetricSample;
use crate::time::Nanos;
use crate::timeline::{InFlightSample, RttSample, SeqSample, StateSample, ThroughputSample};

verus! {

/// A sample of some moment.
pub trait Dated: Sized + Copy {
    /// When it was taken.
    spec fn taken_at(self) -> Nanos;

    /// When it was taken.
    fn taken(&self) -> (res: Nanos)
        ensures
            res == self.taken_at(),
    ;
}

impl Dated for MetricSample {
    open spec fn taken_at(self) -> Nanos {
        self.t
    }

    fn taken(&self) -> (res: Nanos) {
        self.t
    }
}

impl Dated for StateSample {
    open spec fn taken_at(self) -> Nanos {
        self.t
    }

    fn taken(&self) -> (res: Nanos) {
        self.t
    }
}

impl Dated for SeqSample {
    open spec fn taken_at(self) -> Nanos {
        self.t
    }

    fn taken(&self) -> (res: Nanos) {
        self.t
    }
}

impl Dated for InFlightSample {
    open spec fn taken_at(self) -> Nanos {
        self.t
    }

    fn taken(&self) -> (res: Nanos) {
        self.t
    }
}

impl Dated for RttSample {
    open spec fn taken_at(self) -> Nanos {
        self.t
    }

    fn taken(&self) -> (res: Nanos) {
        self.t
    }
}

impl Dated for ThroughputSample {
    open spec fn taken_at(self) -> Nanos {
        self.t
    }

    fn taken(&self) -> (res: Nanos) {
        self.t
    }
}

impl RetentionPolicy {
    /// The time before which samples age out once it is `now`; none where they never do.
    pub open spec fn horizon_spec(self, now: Nanos) -> Option<Nanos> {
        match self {
            RetentionPolicy::FailFast => None,
            RetentionPolicy::Evict { window } => Some(crate::time::elapsed(now, window)),
        }
    }

    /// The time before which samples age out once it is `now`; none where they never do.
    #[must_use]
    pub fn horizon(self, now: Nanos) -> (res: Option<Nanos>)
        ensures
            res == self.horizon_spec(now),
    {
        match self {
            RetentionPolicy::FailFast => None,
            RetentionPolicy::Evict { window } => Some(now.since(window)),
        }
    }
}

/// The samples of `list` from `horizon` on, in their order.
pub open spec fn recent<T: Dated>(list: Seq<T>, horizon: Nanos) -> Seq<T> {
    list.filter(|s: T| s.taken_at().0 >= horizon.0)
}

/// What ages out is what lies before the horizon and nothing else: every sample left was taken from
/// it on, and every sample taken from it on is left.
pub proof fn law_only_old_samples_age_out<T: Dated>(list: Seq<T>, horizon: Nanos)
    ensures
        recent(list, horizon).len() <= list.len(),
        forall|k: int|
            0 <= k < recent(list, horizon).len() ==> (#[trigger] recent(
                list,
                horizon,
            )[k]).taken_at().0 >= horizon.0 && list.contains(recent(list, horizon)[k]),
        forall|k: int|
            0 <= k < list.len() && list[k].taken_at().0 >= horizon.0 ==> recent(
                list,
                horizon,
            ).contains(#[trigger] list[k]),
    decreases list.len(),
{
    reveal(Seq::filter);
    if list.len() > 0 {
        let front = list.drop_last();
        law_only_old_samples_age_out(front, horizon);
        assert forall|k: int| 0 <= k < recent(list, horizon).len() implies (#[trigger] recent(
            list,
            horizon,
        )[k]).taken_at().0 >= horizon.0 && list.contains(recent(list, horizon)[k]) by {
            if k < recent(front, horizon).len() {
                assert(recent(list, horizon)[k] == recent(front, horizon)[k]);
                let j = choose|j: int|
                    0 <= j < front.len() && front[j] == recent(front, horizon)[k];
                assert(list[j] == recent(list, horizon)[k]);
            } else {
                assert(recent(list, horizon)[k] == list[list.len() - 1]);
            }
        }
        assert forall|k: int|
            0 <= k < list.len() && list[k].taken_at().0 >= horizon.0 implies recent(
            list,
            horizon,
        ).contains(#[trigger] list[k]) by {
            if k < front.len() {
                assert(front[k] == list[k]);
                let j = choose|j: int|
                    0 <= j < recent(front, horizon).len() && recent(front, horizon)[j] == front[k];
                assert(recent(list, horizon)[j] == list[k]);
            } else {
                assert(recent(list, horizon)[recent(list, horizon).len() - 1] == list[k]);
            }
        }
    }
}

/// No sample of `list` was taken before `t`.
pub open spec fn all_since<T: Dated>(list: Seq<T>, t: Nanos) -> bool {
    forall|k: int| 0 <= k < list.len() ==> (#[trigger] list[k]).taken_at().0 >= t.0
}

/// A list with no sample before the horizon stays as it is.
pub proof fn law_recent_lists_stay<T: Dated>(list: Seq<T>, horizon: Nanos)
    requires
        all_since(list, horizon),
    ensures
        recent(list, horizon) == list,
    decreases list.len(),
{
    reveal(Seq::filter);
    if list.len() > 0 {
        let front = list.drop_last();
        assert forall|k: int| 0 <= k < front.len() implies (#[trigger] front[k]).taken_at().0
            >= horizon.0 by {
            assert(list[k].taken_at().0 >= horizon.0);
        }
        law_recent_lists_stay(front, horizon);
        assert(list[list.len() - 1].taken_at().0 >= horizon.0);
        assert(recent(list, horizon) =~= list);
    }
}

/// Letting samples age out up to one horizon and then up to a later one leaves what letting them
/// age out up to the later one leaves.
pub proof fn law_ageing_adds_up<T: Dated>(list: Seq<T>, first: Nanos, later: Nanos)
    requires
        first.0 <= later.0,
    ensures
        recent(recent(list, first), later) == recent(list, later),
    decreases list.len(),
{
    reveal(Seq::filter);
    if list.len() > 0 {
        let front = list.drop_last();
        law_ageing_adds_up(front, first, later);
        if list.last().taken_at().0 >= first.0 {
            assert(recent(list, first).drop_last() =~= recent(front, first));
        }
    }
}

/// A time that is no later than `bound` and before which no sample of `list` was taken: that of its
/// earliest sample, or `bound` where that is earlier.
pub fn earliest<T: Dated>(list: &Vec<T>, bound: Nanos) -> (res: Nanos)
    ensures
        res.0 <= bound.0,
        all_since(list@, res),
        res == bound || exists|k: int|
            0 <= k < list@.len() && (#[trigger] list@[k]).taken_at() == res,
{
    let mut res = bound;
    let mut i: usize = 0;
    while i < list.len()
        invariant
            i <= list@.len(),
            res.0 <= bound.0,
            forall|k: int| 0 <= k < i ==> (#[trigger] list@[k]).taken_at().0 >= res.0,
            res == bound || exists|k: int|
                0 <= k < list@.len() && (#[trigger] list@[k]).taken_at() == res,
        decreases list@.len() - i,
    {
        let taken = list[i].taken();
        if taken.0 < res.0 {
            res = taken;
        }
        i = i + 1;
    }
    res
}

/// Drops the samples before `horizon`; tells how many there were.
pub fn keep_recent<T: Dated>(list: &mut Vec<T>, horizon: Nanos) -> (dropped: usize)
    ensures
        final(list)@ == recent(old(list)@, horizon),
        dropped == old(list)@.len() - recent(old(list)@, horizon).len(),
{
    let ghost all = list@;
    let mut i: usize = 0;
    let mut left: usize = 0;
    proof {
        reveal(Seq::filter);
        assert(all.take(0) =~= Seq::empty());
        assert(list@.take(0) =~= recent(all.take(0), horizon));
    }
    while i < list.len()
        invariant
            left <= i <= list@.len() == all.len(),
            list@.take(left as int) == recent(all.take(i as int), horizon),
            list@.skip(i as int) == all.skip(i as int),
        decreases list@.len() - i,
    {
        let sample = list[i];
        proof {
            reveal(Seq::filter);
            assert(sample == list@.skip(i as int)[0]);
            assert(sample == all.skip(i as int)[0]);
            assert(all.take(i + 1).drop_last() =~= all.take(i as int));
            assert(all.skip(i + 1) =~= all.skip(i as int).skip(1));
        }
        let ghost before = list@;
        if sample.taken().0 >= horizon.0 {
            list.set(left, sample);
            left = left + 1;
            proof {
                assert(list@.take(left as int) =~= before.take(left - 1).push(sample));
            }
        }
        i = i + 1;
        proof {
            assert(list@.skip(i as int) =~= before.skip(i - 1).skip(1));
        }
    }
    proof {
        assert(all.take(i as int) =~= all);
    }
    let dropped: usize = list.len() - left;
    list.truncate(left);
    proof {
        assert(list@ =~= recent(all, horizon));
    }
    dropped
}

} // verus!
