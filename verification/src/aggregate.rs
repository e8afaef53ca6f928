//! The running aggregate of one station: least and greatest temperature, their
//! sum and their number.

use vstd::prelude::*;
use crate::temperature::MAX_TENTHS;

verus! {

/// What is known of one station after some readings, as plain numbers.
/// Temperatures are in tenths of a degree.
pub struct Tally {
    pub min: int,
    pub max: int,
    pub total: int,
    pub count: nat,
}

/// The lesser of two numbers.
pub open spec fn min_of(a: int, b: int) -> int {
    if a <= b {
        a
    } else {
        b
    }
}

/// The greater of two numbers.
pub open spec fn max_of(a: int, b: int) -> int {
    if a >= b {
        a
    } else {
        b
    }
}

impl Tally {
    /// The tally of no reading at all: every temperature lowers its minimum
    /// and raises its maximum.
    pub open spec fn identity() -> Tally {
        Tally { min: i64::MAX as int, max: i64::MIN as int, total: 0, count: 0 }
    }

    /// The tally after one more reading.
    pub open spec fn observe(self, tenths: int) -> Tally {
        Tally {
            min: min_of(self.min, tenths),
            max: max_of(self.max, tenths),
            total: self.total + tenths,
            count: self.count + 1,
        }
    }

    /// The tally of the readings of both.
    pub open spec fn merge(self, other: Tally) -> Tally {
        Tally {
            min: min_of(self.min, other.min),
            max: max_of(self.max, other.max),
            total: self.total + other.total,
            count: self.count + other.count,
        }
    }

    /// The tally is the identity, or that of readings which all lie within
    /// `MAX_TENTHS` of zero.
    pub open spec fn wf(self) -> bool {
        &&& self.count == 0 ==> self == Tally::identity()
        &&& self.count > 0 ==> -MAX_TENTHS <= self.min <= self.max <= MAX_TENTHS
        &&& -self.count * MAX_TENTHS <= self.total <= self.count * MAX_TENTHS
    }

    /// The extremes lie within what 64 bits hold.
    pub open spec fn within_limits(self) -> bool {
        self.min <= i64::MAX && self.max >= i64::MIN
    }
}

/// Merging two tallies gives the same whichever comes first.
pub proof fn lemma_merge_commutative(a: Tally, b: Tally)
    ensures
        a.merge(b) == b.merge(a),
{
}

/// Merging three tallies gives the same however they are grouped.
pub proof fn lemma_merge_associative(a: Tally, b: Tally, c: Tally)
    ensures
        a.merge(b).merge(c) == a.merge(b.merge(c)),
{
}

/// Merging with the identity changes nothing.
pub proof fn lemma_merge_identity(a: Tally)
    requires
        a.within_limits(),
    ensures
        a.merge(Tally::identity()) == a,
        Tally::identity().merge(a) == a,
{
}

/// Observing a reading is merging with the tally of that reading alone.
pub proof fn lemma_observe_is_merge(a: Tally, tenths: int)
    requires
        i64::MIN <= tenths <= i64::MAX,
    ensures
        a.observe(tenths) == a.merge(Tally::identity().observe(tenths)),
{
}

/// Merging keeps tallies well formed.
pub proof fn lemma_merge_wf(a: Tally, b: Tally)
    requires
        a.wf(),
        b.wf(),
    ensures
        a.merge(b).wf(),
        a.merge(b).count == 0 <==> a.count == 0 && b.count == 0,
{
}

/// The running aggregate of one station.
#[derive(Clone, Copy, Debug)]
pub struct StationAggregateTmp {
    min: i64,
    max: i64,
    total: i128,
    count: u64,
}

impl View for StationAggregateTmp {
    type V = Tally;

    /// The aggregate as plain numbers.
    closed spec fn view(&self) -> Tally {
        Tally {
            min: self.min as int,
            max: self.max as int,
            total: self.total as int,
            count: self.count as nat,
        }
    }
}

impl Default for StationAggregateTmp {
    /// The aggregate of no reading.
    fn default() -> (out: Self)
        ensures
            out@ == Tally::identity(),
    {
        Self { min: i64::MAX, max: i64::MIN, total: 0, count: 0 }
    }
}

impl StationAggregateTmp {
    /// Every aggregate lies within what its fields hold.
    pub proof fn lemma_view_limits(self)
        ensures
            self@.within_limits(),
            self@.count <= u64::MAX,
    {
    }

    /// The least temperature seen, in tenths.
    pub fn min(&self) -> (out: i64)
        ensures
            out == self@.min,
    {
        self.min
    }

    /// The greatest temperature seen, in tenths.
    pub fn max(&self) -> (out: i64)
        ensures
            out == self@.max,
    {
        self.max
    }

    /// The sum of the temperatures seen, in tenths.
    pub fn total(&self) -> (out: i128)
        ensures
            out == self@.total,
    {
        self.total
    }

    /// The number of readings seen.
    pub fn count(&self) -> (out: u64)
        ensures
            out == self@.count,
    {
        self.count
    }

    /// Takes one more reading in.
    pub fn observe(&mut self, tenths: i64)
        requires
            old(self)@.wf(),
            old(self)@.count < u64::MAX,
            -MAX_TENTHS <= tenths <= MAX_TENTHS,
        ensures
            final(self)@ == old(self)@.observe(tenths as int),
            final(self)@.wf(),
    {
        if tenths < self.min {
            self.min = tenths;
        }
        if tenths > self.max {
            self.max = tenths;
        }
        self.total += tenths as i128;
        self.count += 1;
    }

    /// Takes in all the readings of `other`.
    pub fn merge(&mut self, other: &StationAggregateTmp)
        requires
            old(self)@.wf(),
            other@.wf(),
            old(self)@.count + other@.count <= u64::MAX,
        ensures
            final(self)@ == old(self)@.merge(other@),
            final(self)@.wf(),
    {
        if other.min < self.min {
            self.min = other.min;
        }
        if other.max > self.max {
            self.max = other.max;
        }
        self.total += other.total;
        self.count += other.count;
    }
}

} // verus!
