use vstd::prelude::*;

verus! {

/// Running statistics of one key, in tenths.
pub struct Agg {
    pub min: int,
    pub max: int,
    pub sum: int,
    pub count: nat,
}

/// The statistics of a single observation.
pub open spec fn single(v: int) -> Agg {
    Agg { min: v, max: v, sum: v, count: 1 }
}

/// Combines the statistics of two disjoint groups of observations.
pub open spec fn combine(a: Agg, b: Agg) -> Agg {
    Agg {
        min: if a.min <= b.min { a.min } else { b.min },
        max: if a.max >= b.max { a.max } else { b.max },
        sum: a.sum + b.sum,
        count: a.count + b.count,
    }
}

/// Statistics that observations within `-99.9 ..= 99.9` can produce.
pub open spec fn agg_bounded(a: Agg) -> bool {
    &&& a.count >= 1
    &&& -999 <= a.min <= a.max <= 999
    &&& -999 * a.count <= a.sum <= 999 * a.count
}

/// Combining is commutative.
pub proof fn lemma_combine_commutative(a: Agg, b: Agg)
    ensures
        combine(a, b) == combine(b, a),
{
}

/// Combining is associative.
pub proof fn lemma_combine_associative(a: Agg, b: Agg, c: Agg)
    ensures
        combine(combine(a, b), c) == combine(a, combine(b, c)),
{
}

/// Folding one observation into a single one: the extremes, the sum and the
/// count are those of the two observations taken together.
pub proof fn lemma_two_observations(v: int, w: int)
    ensures
        combine(single(v), single(w)).min == if v <= w { v } else { w },
        combine(single(v), single(w)).max == if v >= w { v } else { w },
        combine(single(v), single(w)).sum == v + w,
        combine(single(v), single(w)).count == 2,
{
}

/// A fresh vector holding `b`.
pub fn copy_bytes(b: &[u8]) -> (r: Vec<u8>)
    ensures
        r@ == b@,
{
    let mut r: Vec<u8> = Vec::new();
    let mut i: usize = 0;
    while i < b.len()
        invariant
            i <= b.len(),
            r@ == b@.subrange(0, i as int),
        decreases b.len() - i,
    {
        r.push(b[i]);
        i = i + 1;
        assert(r@ =~= b@.subrange(0, i as int));
    }
    assert(r@ =~= b@);
    r
}

/// The aggregate of one key: name, extremes, sum and count of its values in tenths.
pub struct ProcessedStation {
    name: Vec<u8>,
    min: i16,
    avg_tmp: i128,
    avg_count: usize,
    max: i16,
}

impl ProcessedStation {
    pub closed spec fn name_view(&self) -> Seq<u8> {
        self.name@
    }

    pub closed spec fn agg(&self) -> Agg {
        Agg {
            min: self.min as int,
            max: self.max as int,
            sum: self.avg_tmp as int,
            count: self.avg_count as nat,
        }
    }

    pub open spec fn wf(&self) -> bool {
        agg_bounded(self.agg())
    }

    /// A station that has seen the single value `t`.
    pub fn new(name: Vec<u8>, t: i16) -> (r: Self)
        requires
            -999 <= t <= 999,
        ensures
            r.name_view() == name@,
            r.agg() == single(t as int),
            r.wf(),
    {
        ProcessedStation { name, min: t, avg_tmp: t as i128, avg_count: 1, max: t }
    }

    /// Folds one more value into the statistics.
    pub fn add(&mut self, t: i16)
        requires
            old(self).wf(),
            old(self).agg().count < usize::MAX,
            -999 <= t <= 999,
        ensures
            final(self).name_view() == old(self).name_view(),
            final(self).agg() == combine(old(self).agg(), single(t as int)),
            final(self).wf(),
    {
        if t < self.min {
            self.min = t;
        }
        if t > self.max {
            self.max = t;
        }
        self.avg_tmp = self.avg_tmp + t as i128;
        self.avg_count = self.avg_count + 1;
    }

    /// Folds the statistics of `other` into these.
    pub fn absorb(&mut self, other: &ProcessedStation)
        requires
            old(self).wf(),
            other.wf(),
            old(self).agg().count + other.agg().count <= usize::MAX,
        ensures
            final(self).name_view() == old(self).name_view(),
            final(self).agg() == combine(old(self).agg(), other.agg()),
            final(self).wf(),
    {
        if other.min < self.min {
            self.min = other.min;
        }
        if other.max > self.max {
            self.max = other.max;
        }
        self.avg_tmp = self.avg_tmp + other.avg_tmp;
        self.avg_count = self.avg_count + other.avg_count;
    }

    /// A station with a copy of this one's name and the same statistics.
    pub fn duplicate(&self) -> (r: Self)
        ensures
            r.name_view() == self.name_view(),
            r.agg() == self.agg(),
    {
        ProcessedStation {
            name: copy_bytes(self.name.as_slice()),
            min: self.min,
            avg_tmp: self.avg_tmp,
            avg_count: self.avg_count,
            max: self.max,
        }
    }

    pub fn name(&self) -> (r: &[u8])
        ensures
            r@ == self.name_view(),
    {
        self.name.as_slice()
    }

    /// The smallest value seen, in tenths.
    pub fn min(&self) -> (r: i16)
        ensures
            r as int == self.agg().min,
    {
        self.min
    }

    /// The largest value seen, in tenths.
    pub fn max(&self) -> (r: i16)
        ensures
            r as int == self.agg().max,
    {
        self.max
    }

    /// The sum of the values seen, in tenths.
    pub fn sum(&self) -> (r: i128)
        ensures
            r as int == self.agg().sum,
    {
        self.avg_tmp
    }

    /// How many values were seen.
    pub fn count(&self) -> (r: usize)
        ensures
            r as int == self.agg().count,
    {
        self.avg_count
    }
}

} // verus!
