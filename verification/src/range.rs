//! Optimistic range primitive.
//!
//! A `ValueRange` tracks a numeric quantity under in-flight two-phase
//! operations as a pair `(lo, hi)`: `lo` is the value the quantity takes if
//! every outstanding operation rolls back, `hi` the value if every one
//! commits.  An addition in flight raises `hi` on prepare and either raises
//! `lo` (commit) or lowers `hi` back (rollback); a subtraction is symmetric
//! on `lo`.  The invariant `lo <= hi` holds at every observable point.

use vstd::prelude::*;

verus! {

/// Error returned by the checked `prepare_*` operations.
#[derive(Debug, Clone, Copy, PartialEq, Eq, Structural)]
pub enum RangeError {
    /// The range would drop below the enforced minimum.
    Underflow,
    /// The range would exceed the enforced maximum.
    Overflow,
}

/// Pair `(lo, hi)` of the pessimistic and optimistic value of a quantity.
#[derive(Debug, Clone, Copy, PartialEq, Eq, Structural)]
pub struct ValueRange(pub u64, pub u64);

/// What `prepare_add` does to a range: only the optimistic end moves up.
pub open spec fn spec_prepare_add(r: ValueRange, value: u64) -> ValueRange {
    ValueRange(r.0, (r.1 + value) as u64)
}

/// What `commit_add` does to a range: the pessimistic end catches up.
pub open spec fn spec_commit_add(r: ValueRange, value: u64) -> ValueRange {
    ValueRange((r.0 + value) as u64, r.1)
}

/// What `rollback_add` does to a range: the optimistic end moves back down.
pub open spec fn spec_rollback_add(r: ValueRange, value: u64) -> ValueRange {
    ValueRange(r.0, (r.1 - value) as u64)
}

/// What `prepare_sub` does to a range: only the pessimistic end moves down.
pub open spec fn spec_prepare_sub(r: ValueRange, value: u64) -> ValueRange {
    ValueRange((r.0 - value) as u64, r.1)
}

/// What `commit_sub` does to a range: the optimistic end catches down.
pub open spec fn spec_commit_sub(r: ValueRange, value: u64) -> ValueRange {
    ValueRange(r.0, (r.1 - value) as u64)
}

/// What `rollback_sub` does to a range: the pessimistic end moves back up.
pub open spec fn spec_rollback_sub(r: ValueRange, value: u64) -> ValueRange {
    ValueRange((r.0 + value) as u64, r.1)
}

impl ValueRange {
    /// The internal invariant: the pessimistic end never exceeds the
    /// optimistic one.
    pub open spec fn wf(self) -> bool {
        self.0 <= self.1
    }

    /// A range collapsed to a single point.
    pub open spec fn spec_new(value: u64) -> ValueRange {
        ValueRange(value, value)
    }

    /// Builds the point range `(value, value)`.
    pub fn new(value: u64) -> (r: ValueRange)
        ensures
            r == ValueRange(value, value),
    {
        ValueRange(value, value)
    }

    /// Builds the point range `(value, value)`; alias kept for call sites
    /// that distinguish a point from a constructed pair.
    pub fn new_val(value: u64) -> (r: ValueRange)
        ensures
            r == ValueRange(value, value),
    {
        ValueRange(value, value)
    }

    /// The pessimistic end.
    pub fn min(&self) -> (m: u64)
        ensures
            m == self.0,
    {
        self.0
    }

    /// The optimistic end.
    pub fn max(&self) -> (m: u64)
        ensures
            m == self.1,
    {
        self.1
    }

    /// Whether `value` lies between the two ends, inclusive.
    pub fn contains(&self, value: u64) -> (b: bool)
        ensures
            b == (self.0 <= value && value <= self.1),
    {
        self.0 <= value && value <= self.1
    }

    /// Whether the whole range stays at or below `new_max`: holds exactly
    /// when every possible resolution of the in-flight operations does.
    pub fn valid_max(&self, new_max: u64) -> (b: bool)
        ensures
            b == (self.1 <= new_max),
    {
        self.1 <= new_max
    }

    /// Whether the whole range stays at or above `new_min`.
    pub fn valid_min(&self, new_min: u64) -> (b: bool)
        ensures
            b == (self.0 >= new_min),
    {
        self.0 >= new_min
    }

    /// Reserves an addition: raises the optimistic end, to be resolved later
    /// by `commit_add` or `rollback_add`.  No maximum is enforced; use
    /// `prepare_add_max` for that.
    pub fn prepare_add(&mut self, value: u64) -> (r: Result<(), RangeError>)
        requires
            old(self).1 + value <= u64::MAX,
        ensures
            r == Ok::<(), RangeError>(()),
            *final(self) == spec_prepare_add(*old(self), value),
    {
        self.1 = self.1 + value;
        Ok(())
    }

    /// Reserves an addition while enforcing that even the optimistic end
    /// stays at or below `max`; fails with `Overflow` otherwise, leaving the
    /// range unchanged.
    pub fn prepare_add_max(&mut self, value: u64, max: u64) -> (r: Result<(), RangeError>)
        ensures
            old(self).1 + value > max ==> r == Err::<(), RangeError>(RangeError::Overflow)
                && *final(self) == *old(self),
            old(self).1 + value <= max ==> r == Ok::<(), RangeError>(())
                && *final(self) == spec_prepare_add(*old(self), value),
    {
        if value > max || self.1 > max - value {
            return Err(RangeError::Overflow);
        }
        self.1 = self.1 + value;
        Ok(())
    }

    /// Withdraws a reservation made by `prepare_add` with the same value.
    pub fn rollback_add(&mut self, value: u64)
        requires
            old(self).0 + value <= old(self).1,
        ensures
            *final(self) == spec_rollback_add(*old(self), value),
            final(self).wf(),
    {
        self.1 = self.1 - value;
        self.assert_valid_range();
    }

    /// Makes a reservation made by `prepare_add` permanent: the pessimistic
    /// end rises by the same value.
    pub fn commit_add(&mut self, value: u64)
        requires
            old(self).0 + value <= old(self).1,
        ensures
            *final(self) == spec_commit_add(*old(self), value),
            final(self).wf(),
    {
        self.0 = self.0 + value;
        self.assert_valid_range();
    }

    /// Reserves a subtraction, enforcing a minimum of zero: fails with
    /// `Underflow` when even the pessimistic end cannot give up `value`.
    pub fn prepare_sub(&mut self, value: u64) -> (r: Result<(), RangeError>)
        ensures
            old(self).0 < value ==> r == Err::<(), RangeError>(RangeError::Underflow)
                && *final(self) == *old(self),
            old(self).0 >= value ==> r == Ok::<(), RangeError>(())
                && *final(self) == spec_prepare_sub(*old(self), value),
    {
        if self.0 < value {
            return Err(RangeError::Underflow);
        }
        self.0 = self.0 - value;
        Ok(())
    }

    /// Reserves a subtraction with an explicit floor: with `Some(min)` the
    /// pessimistic end must stay at or above `min`; with `None` no floor is
    /// enforced at all (the caller must know the subtraction fits).
    pub fn prepare_sub_min(&mut self, value: u64, min: Option<u64>) -> (r: Result<(), RangeError>)
        requires
            min is None ==> value <= old(self).0,
        ensures
            (match min {
                Some(m) => old(self).0 < m + value,
                None => false,
            }) ==> r == Err::<(), RangeError>(RangeError::Underflow) && *final(self) == *old(self),
            (match min {
                Some(m) => old(self).0 >= m + value,
                None => true,
            }) ==> r == Ok::<(), RangeError>(())
                && *final(self) == spec_prepare_sub(*old(self), value),
    {
        if let Some(m) = min {
            match m.checked_add(value) {
                None => {
                    return Err(RangeError::Underflow);
                }
                Some(floor) => {
                    if self.0 < floor {
                        return Err(RangeError::Underflow);
                    }
                }
            }
        }
        self.0 = self.0 - value;
        Ok(())
    }

    /// Withdraws a reservation made by `prepare_sub` with the same value.
    pub fn rollback_sub(&mut self, value: u64)
        requires
            old(self).0 + value <= old(self).1,
        ensures
            *final(self) == spec_rollback_sub(*old(self), value),
            final(self).wf(),
    {
        self.0 = self.0 + value;
        self.assert_valid_range();
    }

    /// Makes a reservation made by `prepare_sub` permanent: the optimistic
    /// end drops by the same value.
    pub fn commit_sub(&mut self, value: u64)
        requires
            old(self).0 + value <= old(self).1,
        ensures
            *final(self) == spec_commit_sub(*old(self), value),
            final(self).wf(),
    {
        self.1 = self.1 - value;
        self.assert_valid_range();
    }

    /// Componentwise addition of two ranges.
    pub fn add(self, rhs: ValueRange) -> (r: ValueRange)
        requires
            self.0 + rhs.0 <= u64::MAX,
            self.1 + rhs.1 <= u64::MAX,
        ensures
            r == ValueRange((self.0 + rhs.0) as u64, (self.1 + rhs.1) as u64),
    {
        ValueRange(self.0 + rhs.0, self.1 + rhs.1)
    }

    /// Run-time guard for the internal invariant; a failure here is a bug in
    /// the caller, never a user error.
    fn assert_valid_range(&self)
        requires
            self.0 <= self.1,
    {
    }
}

/// The largest optimistic end among `rs`, or zero when empty.
pub open spec fn spec_max_val(rs: Seq<ValueRange>) -> int
    decreases rs.len(),
{
    if rs.len() == 0 {
        0
    } else {
        let rest = spec_max_val(rs.drop_last());
        if rs.last().1 > rest {
            rs.last().1 as int
        } else {
            rest
        }
    }
}

/// The smallest pessimistic end among `rs`, or zero when empty.
pub open spec fn spec_min_val(rs: Seq<ValueRange>) -> int
    decreases rs.len(),
{
    if rs.len() == 0 {
        0
    } else {
        let rest = spec_min_val(rs.drop_last());
        if rs.len() == 1 || rs.last().0 < rest {
            rs.last().0 as int
        } else {
            rest
        }
    }
}

/// The largest optimistic end among the ranges, or zero when there are none.
pub fn max_val(rs: &Vec<ValueRange>) -> (m: u64)
    ensures
        m == spec_max_val(rs@),
{
    let mut m: u64 = 0;
    let mut i: usize = 0;
    while i < rs.len()
        invariant
            i <= rs.len(),
            m == spec_max_val(rs@.take(i as int)),
        decreases rs.len() - i,
    {
        proof {
            assert(rs@.take(i + 1).drop_last() =~= rs@.take(i as int));
        }
        if rs[i].1 > m {
            m = rs[i].1;
        }
        i = i + 1;
    }
    proof {
        assert(rs@.take(rs@.len() as int) =~= rs@);
    }
    m
}

/// The smallest pessimistic end among the ranges, or zero when there are none.
pub fn min_val(rs: &Vec<ValueRange>) -> (m: u64)
    ensures
        m == spec_min_val(rs@),
{
    let mut m: u64 = 0;
    let mut i: usize = 0;
    while i < rs.len()
        invariant
            i <= rs.len(),
            m == spec_min_val(rs@.take(i as int)),
        decreases rs.len() - i,
    {
        proof {
            assert(rs@.take(i + 1).drop_last() =~= rs@.take(i as int));
        }
        if i == 0 || rs[i].0 < m {
            m = rs[i].0;
        }
        i = i + 1;
    }
    proof {
        assert(rs@.take(rs@.len() as int) =~= rs@);
    }
    m
}

/// The spread from the lowest pessimistic end to the highest optimistic end,
/// or the zero point range when there are none.
pub fn spread(rs: &Vec<ValueRange>) -> (r: ValueRange)
    ensures
        r == ValueRange(spec_min_val(rs@) as u64, spec_max_val(rs@) as u64),
        rs@.len() > 0 && (forall|i: int| 0 <= i < rs@.len() ==> (#[trigger] rs@[i]).wf())
            ==> r.wf(),
{
    let lo = min_val(rs);
    let hi = max_val(rs);
    proof {
        if rs@.len() > 0 && (forall|i: int| 0 <= i < rs@.len() ==> (#[trigger] rs@[i]).wf()) {
            lemma_spread_wf(rs@);
        }
    }
    ValueRange(lo, hi)
}

/// With at least one well-formed range present, the lowest pessimistic end
/// cannot exceed the highest optimistic end.
proof fn lemma_spread_wf(rs: Seq<ValueRange>)
    requires
        rs.len() > 0,
        forall|i: int| 0 <= i < rs.len() ==> (#[trigger] rs[i]).wf(),
    ensures
        spec_min_val(rs) <= spec_max_val(rs),
    decreases rs.len(),
{
    if rs.len() > 1 {
        assert forall|i: int| 0 <= i < rs.drop_last().len() implies (#[trigger] rs.drop_last()[i]).wf() by {
            assert(rs.drop_last()[i] == rs[i]);
        }
        lemma_spread_wf(rs.drop_last());
    }
}

/// Componentwise sum of all the ranges, or the zero point range when empty.
pub open spec fn spec_sum_ranges(rs: Seq<ValueRange>) -> (int, int)
    decreases rs.len(),
{
    if rs.len() == 0 {
        (0, 0)
    } else {
        let rest = spec_sum_ranges(rs.drop_last());
        (rest.0 + rs.last().0, rest.1 + rs.last().1)
    }
}

/// Componentwise sum of all the ranges, or the zero point range when empty.
pub fn sum_ranges(rs: &Vec<ValueRange>) -> (r: ValueRange)
    requires
        spec_sum_ranges(rs@).1 <= u64::MAX,
        forall|i: int| 0 <= i < rs@.len() ==> (#[trigger] rs@[i]).wf(),
    ensures
        r == ValueRange(spec_sum_ranges(rs@).0 as u64, spec_sum_ranges(rs@).1 as u64),
{
    proof {
        lemma_sum_ranges_bounds(rs@);
    }
    let mut lo: u64 = 0;
    let mut hi: u64 = 0;
    let mut i: usize = 0;
    while i < rs.len()
        invariant
            i <= rs.len(),
            lo == spec_sum_ranges(rs@.take(i as int)).0,
            hi == spec_sum_ranges(rs@.take(i as int)).1,
            spec_sum_ranges(rs@).1 <= u64::MAX,
            forall|j: int| 0 <= j < rs@.len() ==> (#[trigger] rs@[j]).wf(),
        decreases rs.len() - i,
    {
        proof {
            assert(rs@.take(i + 1).drop_last() =~= rs@.take(i as int));
            lemma_sum_ranges_prefix(rs@, i + 1);
            lemma_sum_ranges_bounds(rs@);
            lemma_sum_ranges_bounds(rs@.take(i + 1));
        }
        lo = lo + rs[i].0;
        hi = hi + rs[i].1;
        i = i + 1;
    }
    proof {
        assert(rs@.take(rs@.len() as int) =~= rs@);
    }
    ValueRange(lo, hi)
}

/// Both components of a range sum are nonnegative, and the pessimistic sum
/// never exceeds the optimistic one when every range is well formed.
proof fn lemma_sum_ranges_bounds(rs: Seq<ValueRange>)
    requires
        forall|i: int| 0 <= i < rs.len() ==> (#[trigger] rs[i]).wf(),
    ensures
        0 <= spec_sum_ranges(rs).0 <= spec_sum_ranges(rs).1,
    decreases rs.len(),
{
    if rs.len() > 0 {
        lemma_sum_ranges_bounds(rs.drop_last());
    }
}

/// A prefix sum never exceeds the whole sum, in either component.
proof fn lemma_sum_ranges_prefix(rs: Seq<ValueRange>, n: int)
    requires
        0 <= n <= rs.len(),
        forall|i: int| 0 <= i < rs.len() ==> (#[trigger] rs[i]).wf(),
    ensures
        spec_sum_ranges(rs.take(n)).0 <= spec_sum_ranges(rs).0,
        spec_sum_ranges(rs.take(n)).1 <= spec_sum_ranges(rs).1,
    decreases rs.len() - n,
{
    if n < rs.len() {
        assert(rs.take(n + 1).drop_last() =~= rs.take(n));
        lemma_sum_ranges_prefix(rs, n + 1);
        let r = rs.take(n + 1).last();
        assert(r == rs[n]);
    } else {
        assert(rs.take(n) =~= rs);
    }
}

/// Reserving an addition and then rolling it back restores the range
/// bitwise.
pub proof fn lemma_prepare_rollback_add(r: ValueRange, value: u64)
    requires
        r.wf(),
        r.1 + value <= u64::MAX,
    ensures
        spec_rollback_add(spec_prepare_add(r, value), value) == r,
{
}

/// Reserving an addition and then committing it moves both ends up by
/// exactly the added value.
pub proof fn lemma_prepare_commit_add(r: ValueRange, value: u64)
    requires
        r.wf(),
        r.1 + value <= u64::MAX,
    ensures
        spec_commit_add(spec_prepare_add(r, value), value)
            == ValueRange((r.0 + value) as u64, (r.1 + value) as u64),
{
}

/// Reserving a subtraction and then rolling it back restores the range
/// bitwise.
pub proof fn lemma_prepare_rollback_sub(r: ValueRange, value: u64)
    requires
        r.wf(),
        value <= r.0,
    ensures
        spec_rollback_sub(spec_prepare_sub(r, value), value) == r,
{
}

/// Reserving a subtraction and then committing it moves both ends down by
/// exactly the subtracted value.
pub proof fn lemma_prepare_commit_sub(r: ValueRange, value: u64)
    requires
        r.wf(),
        value <= r.0,
    ensures
        spec_commit_sub(spec_prepare_sub(r, value), value)
            == ValueRange((r.0 - value) as u64, (r.1 - value) as u64),
{
}

} // verus!
