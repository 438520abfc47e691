//! Bounds-clipping sampler structure.
//!
//! A plot of a function over a domain split into `n` intervals evaluates the
//! function at `n + 1` evenly indexed candidate positions and keeps only the
//! candidates whose value lies inside the display range; the decision for
//! each candidate is a range verdict. This module fixes the candidate index
//! sequence and proves what the verdict filter retains, and in what order.

use vstd::prelude::*;

verus! {

/// The indices of the candidates whose verdict is `true`, in increasing
/// order.
pub open spec fn retained_of(verdicts: Seq<bool>) -> Seq<int>
    decreases verdicts.len(),
{
    if verdicts.len() == 0 {
        Seq::empty()
    } else if verdicts.last() {
        retained_of(verdicts.drop_last()).push(verdicts.len() - 1)
    } else {
        retained_of(verdicts.drop_last())
    }
}

/// The subsequence of `points` whose verdicts are `true`, in the original
/// order. Meaningful when `points` and `verdicts` have the same length.
pub open spec fn selected<P>(points: Seq<P>, verdicts: Seq<bool>) -> Seq<P> {
    retained_of(verdicts).map_values(|i: int| points[i])
}

/// Every retained index is a valid candidate index whose verdict is `true`:
/// a retained point lies inside the display range.
pub proof fn lemma_retained_sound(verdicts: Seq<bool>)
    ensures
        forall|k: int| 0 <= k < retained_of(verdicts).len()
            ==> 0 <= #[trigger] retained_of(verdicts)[k] < verdicts.len()
                && verdicts[retained_of(verdicts)[k]],
    decreases verdicts.len(),
{
    if verdicts.len() > 0 {
        lemma_retained_sound(verdicts.drop_last());
        let pre = retained_of(verdicts.drop_last());
        assert forall|k: int| 0 <= k < retained_of(verdicts).len() implies
            0 <= #[trigger] retained_of(verdicts)[k] < verdicts.len()
                && verdicts[retained_of(verdicts)[k]] by {
            if !verdicts.last() || k < pre.len() {
                assert(retained_of(verdicts)[k] == pre[k]);
                assert(verdicts.drop_last()[pre[k]] == verdicts[pre[k]]);
            } else {
                assert(retained_of(verdicts)[k] == verdicts.len() - 1);
            }
        }
    }
}

/// Every candidate whose verdict is `true` is retained: a dropped point's
/// verdict was `false`, so its underlying value violated the display range.
pub proof fn lemma_retained_complete(verdicts: Seq<bool>)
    ensures
        forall|i: int| 0 <= i < verdicts.len() && verdicts[i]
            ==> retained_of(verdicts).contains(i),
    decreases verdicts.len(),
{
    if verdicts.len() > 0 {
        lemma_retained_complete(verdicts.drop_last());
        assert forall|i: int| 0 <= i < verdicts.len() && verdicts[i] implies
            retained_of(verdicts).contains(i) by {
            if i == verdicts.len() - 1 {
                assert(retained_of(verdicts).last() == i);
            } else {
                assert(verdicts.drop_last()[i] == verdicts[i]);
                assert(retained_of(verdicts.drop_last()).contains(i));
                let k = choose|k: int| 0 <= k < retained_of(verdicts.drop_last()).len()
                    && retained_of(verdicts.drop_last())[k] == i;
                assert(retained_of(verdicts)[k] == i);
            }
        }
    }
}

/// The retained indices are strictly increasing: filtering preserves the
/// relative order of the candidates.
pub proof fn lemma_retained_increasing(verdicts: Seq<bool>)
    ensures
        forall|j: int, k: int| 0 <= j < k < retained_of(verdicts).len()
            ==> #[trigger] retained_of(verdicts)[j] < #[trigger] retained_of(verdicts)[k],
    decreases verdicts.len(),
{
    if verdicts.len() > 0 {
        lemma_retained_increasing(verdicts.drop_last());
        lemma_retained_sound(verdicts.drop_last());
        let pre = retained_of(verdicts.drop_last());
        assert forall|j: int, k: int| 0 <= j < k < retained_of(verdicts).len() implies
            #[trigger] retained_of(verdicts)[j] < #[trigger] retained_of(verdicts)[k] by {
            assert(retained_of(verdicts)[j] == pre[j]);
            if verdicts.last() && k == pre.len() {
                assert(retained_of(verdicts)[k] == verdicts.len() - 1);
                assert(pre[j] < verdicts.drop_last().len());
            } else {
                assert(retained_of(verdicts)[k] == pre[k]);
            }
        }
    }
}

/// The candidate indices for a domain split into `intervals` pieces:
/// `0, 1, ..., intervals` — exactly `intervals + 1` evenly spaced positions,
/// strictly increasing.
pub fn candidate_indices(intervals: usize) -> (r: Vec<usize>)
    requires
        intervals < usize::MAX,
    ensures
        r@.len() == intervals + 1,
        forall|k: int| 0 <= k < r@.len() ==> r@[k] == k,
{
    let mut r: Vec<usize> = Vec::new();
    let mut i: usize = 0;
    while i <= intervals
        invariant
            intervals < usize::MAX,
            i <= intervals + 1,
            r@.len() == i,
            forall|k: int| 0 <= k < i ==> r@[k] == k,
        decreases intervals + 1 - i,
    {
        r.push(i);
        i = i + 1;
    }
    r
}

/// Keep exactly the points whose range verdict is `true`, in their original
/// order; the others are omitted, not clamped.
pub fn filter_points<P: Copy>(points: &Vec<P>, verdicts: &Vec<bool>) -> (r: Vec<P>)
    requires
        points@.len() == verdicts@.len(),
    ensures
        r@ == selected(points@, verdicts@),
{
    let mut r: Vec<P> = Vec::new();
    let mut i: usize = 0;
    proof {
        assert(r@ =~= selected(points@, verdicts@.take(0)));
    }
    while i < verdicts.len()
        invariant
            points@.len() == verdicts@.len(),
            i <= verdicts@.len(),
            r@ == selected(points@, verdicts@.take(i as int)),
        decreases verdicts@.len() - i,
    {
        let keep = verdicts[i];
        if keep {
            r.push(points[i]);
        }
        proof {
            let pre = verdicts@.take(i as int);
            let cur = verdicts@.take(i + 1);
            assert(cur.drop_last() =~= pre);
            assert(cur.last() == verdicts@[i as int]);
            lemma_retained_sound(pre);
            if keep {
                assert(retained_of(cur) == retained_of(pre).push(i as int));
            }
            assert(r@ =~= selected(points@, cur));
        }
        i = i + 1;
    }
    proof {
        assert(verdicts@.take(verdicts@.len() as int) =~= verdicts@);
    }
    r
}

/// One sampling pass over a domain split into `intervals` pieces.
///
/// The caller evaluates the plotted function at the candidate position whose
/// index `next_index` names, decides the range verdict for the resulting
/// point, and records both; the sampler keeps exactly the points whose
/// verdict is `true`, in candidate order. After `intervals + 1` recordings
/// `next_index` reports that no candidate is left.
pub struct Sampler<P> {
    intervals: usize,
    evaluated: usize,
    retained: Vec<P>,
    points: Ghost<Seq<P>>,
    verdicts: Ghost<Seq<bool>>,
}

impl<P> Sampler<P> {
    /// The number of sampling intervals; there is one more candidate.
    pub closed spec fn intervals(&self) -> nat {
        self.intervals as nat
    }

    /// The points recorded so far, one per candidate, in candidate order.
    pub closed spec fn points(&self) -> Seq<P> {
        self.points@
    }

    /// The range verdicts recorded so far, one per candidate, in candidate
    /// order.
    pub closed spec fn verdicts(&self) -> Seq<bool> {
        self.verdicts@
    }

    pub closed spec fn well_formed(&self) -> bool {
        &&& 1 <= self.intervals < usize::MAX
        &&& self.evaluated == self.verdicts@.len()
        &&& self.points@.len() == self.verdicts@.len()
        &&& self.verdicts@.len() <= self.intervals + 1
        &&& self.retained@ == selected(self.points@, self.verdicts@)
    }

    /// Start a sampling pass with `intervals` sampling intervals.
    pub fn new(intervals: usize) -> (s: Sampler<P>)
        requires
            1 <= intervals < usize::MAX,
        ensures
            s.well_formed(),
            s.intervals() == intervals,
            s.points() == Seq::<P>::empty(),
            s.verdicts() == Seq::<bool>::empty(),
    {
        let s = Sampler {
            intervals,
            evaluated: 0,
            retained: Vec::new(),
            points: Ghost(Seq::empty()),
            verdicts: Ghost(Seq::empty()),
        };
        proof {
            assert(s.retained@ =~= selected(s.points@, s.verdicts@));
        }
        s
    }

    /// The index of the next candidate to evaluate, or `None` when all
    /// `intervals + 1` candidates have been recorded.
    pub fn next_index(&self) -> (r: Option<usize>)
        requires
            self.well_formed(),
        ensures
            self.verdicts().len() <= self.intervals()
                ==> r == Some(self.verdicts().len() as usize),
            self.verdicts().len() > self.intervals() ==> r is None,
    {
        if self.evaluated <= self.intervals {
            Some(self.evaluated)
        } else {
            None
        }
    }

    /// Record the point computed for the current candidate together with its
    /// range verdict; the point is kept exactly when the verdict is `true`.
    pub fn record(&mut self, point: P, in_range: bool)
        requires
            old(self).well_formed(),
            old(self).verdicts().len() <= old(self).intervals(),
        ensures
            final(self).well_formed(),
            final(self).intervals() == old(self).intervals(),
            final(self).points() == old(self).points().push(point),
            final(self).verdicts() == old(self).verdicts().push(in_range),
    {
        let ghost old_points = self.points@;
        let ghost old_verdicts = self.verdicts@;
        proof {
            self.points@ = self.points@.push(point);
            self.verdicts@ = self.verdicts@.push(in_range);
        }
        if in_range {
            self.retained.push(point);
        }
        self.evaluated = self.evaluated + 1;
        proof {
            assert(self.verdicts@.drop_last() =~= old_verdicts);
            assert(self.points@.drop_last() =~= old_points);
            lemma_retained_sound(old_verdicts);
            if in_range {
                assert(retained_of(self.verdicts@)
                    == retained_of(old_verdicts).push(old_verdicts.len() as int));
            }
            assert(self.retained@ =~= selected(self.points@, self.verdicts@));
        }
    }

    /// The points retained so far: those recorded with a `true` verdict, in
    /// candidate order.
    pub fn retained(&self) -> (r: &Vec<P>)
        requires
            self.well_formed(),
        ensures
            r@ == selected(self.points(), self.verdicts()),
    {
        &self.retained
    }
}

} // verus!
