//! The interval domain: a closed interval of `i64` bounds tagged with its state.
//!
//! A bound equal to `MIN` (lower) or `MAX` (upper) stands for "no bound": such a
//! range reaches to minus or plus infinity. The values a range stands for are
//! mathematical integers, which keeps bound arithmetic sound by saturation.
use vstd::prelude::*;

verus! {

/// The smallest bound; as a lower bound it means "unbounded below".
pub const MIN: i64 = i64::MIN;

/// The largest bound; as an upper bound it means "unbounded above".
pub const MAX: i64 = i64::MAX;

/// The state of a range.
#[derive(Clone, Copy, Debug, PartialEq, Eq, Structural)]
pub enum RangeType {
    /// Not yet computed: distinct from the full interval.
    Unknown,
    /// An ordinary interval `[lower, upper]` with `lower <= upper`.
    Regular,
    /// No value at all.
    Empty,
}

/// An interval of integers.
#[derive(Clone, Copy, Debug, PartialEq, Eq, Structural)]
pub struct Range {
    pub rtype: RangeType,
    pub lower: i64,
    pub upper: i64,
}

/// Brings an integer back into the bounds of `i64`.
pub open spec fn clamp(v: int) -> int {
    if v < MIN {
        MIN as int
    } else if v > MAX {
        MAX as int
    } else {
        v
    }
}

/// Whether `v` lies outside `i64`.
pub open spec fn overflows(v: int) -> bool {
    v < MIN || v > MAX
}

/// The regular range with lower end `lo` (unbounded when `lo_inf`) and
/// upper end `hi` (unbounded when `hi_inf`); the full range when a bounded
/// end overflows.
pub open spec fn combine(lo_inf: bool, lo: int, hi_inf: bool, hi: int) -> Range {
    if (!lo_inf && overflows(lo)) || (!hi_inf && overflows(hi)) {
        full_range()
    } else {
        Range {
            rtype: RangeType::Regular,
            lower: if lo_inf { MIN } else { lo as i64 },
            upper: if hi_inf { MAX } else { hi as i64 },
        }
    }
}

pub open spec fn min_int(a: int, b: int) -> int {
    if a <= b {
        a
    } else {
        b
    }
}

pub open spec fn max_int(a: int, b: int) -> int {
    if a >= b {
        a
    } else {
        b
    }
}

/// The range that `[lo, hi]` makes: empty when `lo > hi`.
pub open spec fn bounded(lo: int, hi: int) -> Range {
    if lo <= hi {
        Range { rtype: RangeType::Regular, lower: lo as i64, upper: hi as i64 }
    } else {
        Range { rtype: RangeType::Empty, lower: lo as i64, upper: hi as i64 }
    }
}

/// The interval `[MIN, MAX]`: every value.
pub open spec fn full_range() -> Range {
    Range { rtype: RangeType::Regular, lower: MIN, upper: MAX }
}

impl Range {
    /// Crossed bounds make a range empty.
    pub open spec fn wf(self) -> bool {
        self.lower > self.upper ==> self.rtype == RangeType::Empty
    }

    /// Whether the integer `v` lies in the range.
    pub open spec fn contains(self, v: int) -> bool {
        &&& self.rtype == RangeType::Regular
        &&& (self.lower == MIN || self.lower <= v)
        &&& (self.upper == MAX || v <= self.upper)
    }

    /// Whether every value of `self` lies in `other`.
    pub open spec fn within(self, other: Range) -> bool {
        forall|v: int| #[trigger] self.contains(v) ==> other.contains(v)
    }

    pub open spec fn is_regular_spec(self) -> bool {
        self.rtype == RangeType::Regular
    }

    /// Sum of two ranges, bound by bound. A bound at `MIN` (lower) or `MAX`
    /// (upper) stays unbounded; a sum of finite bounds that leaves `i64`
    /// overflows, and an overflow gives the full range.
    pub open spec fn add_spec(self, other: Range) -> Range {
        if self.rtype == RangeType::Empty || other.rtype == RangeType::Empty {
            Range { rtype: RangeType::Empty, ..self }
        } else if self.rtype == RangeType::Unknown || other.rtype == RangeType::Unknown {
            Range { rtype: RangeType::Unknown, ..self }
        } else {
            combine(
                self.lower == MIN || other.lower == MIN,
                self.lower + other.lower,
                self.upper == MAX || other.upper == MAX,
                self.upper + other.upper,
            )
        }
    }

    /// Difference of two ranges, with the same rule for unbounded ends and
    /// overflow as `add_spec`.
    pub open spec fn sub_spec(self, other: Range) -> Range {
        if self.rtype == RangeType::Empty || other.rtype == RangeType::Empty {
            Range { rtype: RangeType::Empty, ..self }
        } else if self.rtype == RangeType::Unknown || other.rtype == RangeType::Unknown {
            Range { rtype: RangeType::Unknown, ..self }
        } else {
            combine(
                self.lower == MIN || other.upper == MAX,
                self.lower - other.upper,
                self.upper == MAX || other.lower == MIN,
                self.upper - other.lower,
            )
        }
    }

    /// Negation of a range.
    pub open spec fn neg_spec(self) -> Range {
        if self.rtype != RangeType::Regular {
            self
        } else {
            Range {
                rtype: RangeType::Regular,
                lower: if self.upper == MAX { MIN } else { clamp(-self.upper) as i64 },
                upper: if self.lower == MIN { MAX } else { clamp(-self.lower) as i64 },
            }
        }
    }

    /// Intersection: the values in both ranges.
    pub open spec fn intersect_spec(self, other: Range) -> Range {
        if self.rtype == RangeType::Empty || other.rtype == RangeType::Empty {
            Range { rtype: RangeType::Empty, ..self }
        } else if self.rtype == RangeType::Unknown || other.rtype == RangeType::Unknown {
            Range { rtype: RangeType::Unknown, ..self }
        } else {
            bounded(
                max_int(self.lower as int, other.lower as int),
                min_int(self.upper as int, other.upper as int),
            )
        }
    }

    /// Join: the smallest interval holding both ranges. A range that is not
    /// regular adds nothing to a regular one.
    pub open spec fn union_spec(self, other: Range) -> Range {
        if self.rtype == RangeType::Regular && other.rtype == RangeType::Regular {
            Range {
                rtype: RangeType::Regular,
                lower: min_int(self.lower as int, other.lower as int) as i64,
                upper: max_int(self.upper as int, other.upper as int) as i64,
            }
        } else if self.rtype == RangeType::Regular {
            self
        } else if other.rtype == RangeType::Regular {
            other
        } else if self.rtype == RangeType::Empty || other.rtype == RangeType::Empty {
            Range { rtype: RangeType::Empty, ..self }
        } else {
            self
        }
    }

    /// Widening of `self` (the old value) by `next` (a new evaluation): a bound
    /// that would move outward jumps to infinity.
    pub open spec fn widen_spec(self, next: Range) -> Range {
        if next.rtype != RangeType::Regular && !(next.rtype == RangeType::Empty
            && self.rtype == RangeType::Unknown) {
            self
        } else if self.rtype != RangeType::Regular {
            next
        } else {
            Range {
                rtype: RangeType::Regular,
                lower: if next.lower < self.lower { MIN } else { self.lower },
                upper: if next.upper > self.upper { MAX } else { self.upper },
            }
        }
    }

    /// Narrowing of `self` (the old value) by `next`: only an infinite bound
    /// may be replaced, and only by a finite one.
    pub open spec fn narrow_spec(self, next: Range) -> Range {
        if self.rtype == RangeType::Regular && next.rtype == RangeType::Regular {
            bounded(
                if self.lower == MIN && next.lower > MIN { next.lower as int } else { self.lower as int },
                if self.upper == MAX && next.upper < MAX { next.upper as int } else { self.upper as int },
            )
        } else {
            self
        }
    }

    /// How many more times widening may still change the range.
    pub open spec fn widen_potential(self) -> nat {
        match self.rtype {
            RangeType::Unknown => 4,
            RangeType::Empty => 3,
            RangeType::Regular => (if self.lower == MIN { 0nat } else { 1nat }) + (if self.upper
                == MAX {
                0nat
            } else {
                1nat
            }),
        }
    }

    /// How many more times narrowing may still change the range.
    pub open spec fn narrow_potential(self) -> nat {
        match self.rtype {
            RangeType::Regular => 1 + (if self.lower == MIN { 1nat } else { 0nat }) + (if self.upper
                == MAX {
                1nat
            } else {
                0nat
            }),
            _ => 0,
        }
    }

    /// The single value `value`.
    pub fn new(value: i64) -> (r: Range)
        ensures
            r == (Range { rtype: RangeType::Regular, lower: value, upper: value }),
    {
        Range { rtype: RangeType::Regular, lower: value, upper: value }
    }

    /// The single value zero.
    pub fn default() -> (r: Range)
        ensures
            r == (Range { rtype: RangeType::Regular, lower: 0, upper: 0 }),
    {
        Range::new(0)
    }

    /// A range not yet computed.
    pub fn unknown() -> (r: Range)
        ensures
            r == (Range { rtype: RangeType::Unknown, lower: MIN, upper: MAX }),
    {
        Range { rtype: RangeType::Unknown, lower: MIN, upper: MAX }
    }

    /// The full interval `[MIN, MAX]`.
    pub fn full() -> (r: Range)
        ensures
            r == full_range(),
    {
        Range { rtype: RangeType::Regular, lower: MIN, upper: MAX }
    }

    /// The range with no value.
    pub fn empty() -> (r: Range)
        ensures
            r == (Range { rtype: RangeType::Empty, lower: MAX, upper: MIN }),
            forall|v: int| !r.contains(v),
    {
        Range { rtype: RangeType::Empty, lower: MAX, upper: MIN }
    }

    /// `[lb, ub]` with the state `rtype`; crossed bounds make it empty.
    pub fn with_bounds(lb: i64, ub: i64, rtype: RangeType) -> (r: Range)
        ensures
            r.lower == lb,
            r.upper == ub,
            r.rtype == (if lb > ub {
                RangeType::Empty
            } else {
                rtype
            }),
            r.wf(),
    {
        if lb > ub {
            Range { rtype: RangeType::Empty, lower: lb, upper: ub }
        } else {
            Range { rtype, lower: lb, upper: ub }
        }
    }

    pub fn get_lower(&self) -> (r: i64)
        ensures
            r == self.lower,
    {
        self.lower
    }

    pub fn get_upper(&self) -> (r: i64)
        ensures
            r == self.upper,
    {
        self.upper
    }

    /// Sets the lower bound; a regular range whose bounds cross becomes empty.
    pub fn set_lower(&mut self, newl: i64)
        ensures
            final(self).lower == newl,
            final(self).upper == old(self).upper,
            final(self).rtype == (if old(self).rtype == RangeType::Regular && newl
                > old(self).upper {
                RangeType::Empty
            } else {
                old(self).rtype
            }),
    {
        self.lower = newl;
        if self.rtype == RangeType::Regular && newl > self.upper {
            self.rtype = RangeType::Empty;
        }
    }

    /// Sets the upper bound; a regular range whose bounds cross becomes empty.
    pub fn set_upper(&mut self, newu: i64)
        ensures
            final(self).upper == newu,
            final(self).lower == old(self).lower,
            final(self).rtype == (if old(self).rtype == RangeType::Regular && old(self).lower
                > newu {
                RangeType::Empty
            } else {
                old(self).rtype
            }),
    {
        self.upper = newu;
        if self.rtype == RangeType::Regular && self.lower > newu {
            self.rtype = RangeType::Empty;
        }
    }

    pub fn is_unknown(&self) -> (r: bool)
        ensures
            r == (self.rtype == RangeType::Unknown),
    {
        self.rtype == RangeType::Unknown
    }

    pub fn set_unknown(&mut self)
        ensures
            *final(self) == (Range { rtype: RangeType::Unknown, ..*old(self) }),
    {
        self.rtype = RangeType::Unknown;
    }

    pub fn is_regular(&self) -> (r: bool)
        ensures
            r == (self.rtype == RangeType::Regular),
    {
        self.rtype == RangeType::Regular
    }

    /// Marks the range regular; crossed bounds leave it empty instead.
    pub fn set_regular(&mut self)
        ensures
            final(self).lower == old(self).lower,
            final(self).upper == old(self).upper,
            final(self).rtype == (if old(self).lower <= old(self).upper {
                RangeType::Regular
            } else {
                RangeType::Empty
            }),
    {
        if self.lower <= self.upper {
            self.rtype = RangeType::Regular;
        } else {
            self.rtype = RangeType::Empty;
        }
    }

    pub fn is_empty(&self) -> (r: bool)
        ensures
            r == (self.rtype == RangeType::Empty),
    {
        self.rtype == RangeType::Empty
    }

    pub fn set_empty(&mut self)
        ensures
            *final(self) == (Range { rtype: RangeType::Empty, ..*old(self) }),
    {
        self.rtype = RangeType::Empty;
    }

    /// Whether the range is `[MIN, MAX]`.
    pub fn is_max_range(&self) -> (r: bool)
        ensures
            r == (self.lower == MIN && self.upper == MAX),
    {
        self.lower == MIN && self.upper == MAX
    }
    /// Sum of two ranges; an overflow of bounded ends gives the full range.
    pub fn add(&self, other: &Range) -> (r: Range)
        requires
            self.wf(),
            other.wf(),
        ensures
            r == self.add_spec(*other),
            r.wf(),
            forall|x: int, y: int|
                self.contains(x) && other.contains(y) ==> #[trigger] r.contains(x + y),
    {
        if self.rtype == RangeType::Empty || other.rtype == RangeType::Empty {
            return Range { rtype: RangeType::Empty, ..*self };
        }
        if self.rtype == RangeType::Unknown || other.rtype == RangeType::Unknown {
            return Range { rtype: RangeType::Unknown, ..*self };
        }
        combine_wide(
            self.lower == MIN || other.lower == MIN,
            self.lower as i128 + other.lower as i128,
            self.upper == MAX || other.upper == MAX,
            self.upper as i128 + other.upper as i128,
        )
    }

    /// Difference of two ranges; an overflow of bounded ends gives the full
    /// range.
    pub fn sub(&self, other: &Range) -> (r: Range)
        requires
            self.wf(),
            other.wf(),
        ensures
            r == self.sub_spec(*other),
            r.wf(),
            forall|x: int, y: int|
                self.contains(x) && other.contains(y) ==> #[trigger] r.contains(x - y),
    {
        if self.rtype == RangeType::Empty || other.rtype == RangeType::Empty {
            return Range { rtype: RangeType::Empty, ..*self };
        }
        if self.rtype == RangeType::Unknown || other.rtype == RangeType::Unknown {
            return Range { rtype: RangeType::Unknown, ..*self };
        }
        combine_wide(
            self.lower == MIN || other.upper == MAX,
            self.lower as i128 - other.upper as i128,
            self.upper == MAX || other.lower == MIN,
            self.upper as i128 - other.lower as i128,
        )
    }

    /// Negation of a range.
    pub fn neg(&self) -> (r: Range)
        requires
            self.wf(),
        ensures
            r == self.neg_spec(),
            r.wf(),
            forall|x: int| self.contains(x) ==> #[trigger] r.contains(-x),
    {
        if self.rtype != RangeType::Regular {
            return *self;
        }
        let lower = if self.upper == MAX { MIN } else { clamp_wide(-(self.upper as i128)) };
        let upper = if self.lower == MIN { MAX } else { clamp_wide(-(self.lower as i128)) };
        Range { rtype: RangeType::Regular, lower, upper }
    }

    /// The values that lie in both ranges.
    pub fn intersect(&self, other: &Range) -> (r: Range)
        requires
            self.wf(),
            other.wf(),
        ensures
            r == self.intersect_spec(*other),
            r.wf(),
            self.is_regular_spec() && other.is_regular_spec() ==> forall|v: int|
                #[trigger] r.contains(v) <==> self.contains(v) && other.contains(v),
            r.within(*self),
    {
        if self.rtype == RangeType::Empty || other.rtype == RangeType::Empty {
            return Range { rtype: RangeType::Empty, ..*self };
        }
        if self.rtype == RangeType::Unknown || other.rtype == RangeType::Unknown {
            return Range { rtype: RangeType::Unknown, ..*self };
        }
        let lo = if self.lower >= other.lower { self.lower } else { other.lower };
        let hi = if self.upper <= other.upper { self.upper } else { other.upper };
        Range::with_bounds(lo, hi, RangeType::Regular)
    }

    /// The smallest interval that holds both ranges.
    pub fn union(&self, other: &Range) -> (r: Range)
        requires
            self.wf(),
            other.wf(),
        ensures
            r == self.union_spec(*other),
            r.wf(),
            self.within(r),
            other.within(r),
    {
        if self.rtype == RangeType::Regular && other.rtype == RangeType::Regular {
            let lo = if self.lower <= other.lower { self.lower } else { other.lower };
            let hi = if self.upper >= other.upper { self.upper } else { other.upper };
            Range { rtype: RangeType::Regular, lower: lo, upper: hi }
        } else if self.rtype == RangeType::Regular {
            *self
        } else if other.rtype == RangeType::Regular {
            *other
        } else if self.rtype == RangeType::Empty || other.rtype == RangeType::Empty {
            Range { rtype: RangeType::Empty, ..*self }
        } else {
            *self
        }
    }

    /// Widens the old value `self` by a new evaluation `next`. The result holds
    /// both, and differs from `self` only by moving closer to the full range.
    pub fn widen(&self, next: &Range) -> (r: Range)
        requires
            self.wf(),
            next.wf(),
        ensures
            r == self.widen_spec(*next),
            r.wf(),
            self.within(r),
            next.within(r),
            r != *self ==> r.widen_potential() < self.widen_potential(),
    {
        if next.rtype != RangeType::Regular && !(next.rtype == RangeType::Empty && self.rtype
            == RangeType::Unknown) {
            *self
        } else if self.rtype != RangeType::Regular {
            *next
        } else {
            let lower = if next.lower < self.lower { MIN } else { self.lower };
            let upper = if next.upper > self.upper { MAX } else { self.upper };
            Range { rtype: RangeType::Regular, lower, upper }
        }
    }

    /// Narrows the old value `self` by a new evaluation `next`: the result lies
    /// within `self`, and differs from it only by losing an infinite bound.
    pub fn narrow(&self, next: &Range) -> (r: Range)
        requires
            self.wf(),
            next.wf(),
        ensures
            r == self.narrow_spec(*next),
            r.wf(),
            r.within(*self),
            r != *self ==> r.narrow_potential() < self.narrow_potential(),
    {
        if self.rtype == RangeType::Regular && next.rtype == RangeType::Regular {
            let lo = if self.lower == MIN && next.lower > MIN { next.lower } else { self.lower };
            let hi = if self.upper == MAX && next.upper < MAX { next.upper } else { self.upper };
            Range::with_bounds(lo, hi, RangeType::Regular)
        } else {
            *self
        }
    }
}

impl Range {
    /// The test of inclusion that `is_within` makes, bound by bound.
    pub open spec fn within_test(self, other: Range) -> bool {
        self.rtype != RangeType::Regular || (other.rtype == RangeType::Regular
            && (other.lower == MIN || (self.lower != MIN && other.lower <= self.lower))
            && (other.upper == MAX || (self.upper != MAX && self.upper <= other.upper)))
    }

    /// A test of inclusion: when it answers true, every value of `self` lies
    /// in `other`.
    pub fn is_within(&self, other: &Range) -> (r: bool)
        requires
            self.wf(),
        ensures
            r == self.within_test(*other),
            r ==> self.within(*other),
            other.rtype == RangeType::Regular && other.lower == MIN && other.upper == MAX ==> r,
            self.rtype != RangeType::Regular ==> r,
    {
        if self.rtype != RangeType::Regular {
            return true;
        }
        if other.rtype != RangeType::Regular {
            return false;
        }
        let lo_ok = other.lower == MIN || (self.lower != MIN && other.lower <= self.lower);
        let hi_ok = other.upper == MAX || (self.upper != MAX && self.upper <= other.upper);
        lo_ok && hi_ok
    }
}

/// The range that `combine` gives.
fn combine_wide(lo_inf: bool, lo: i128, hi_inf: bool, hi: i128) -> (r: Range)
    requires
        lo_inf || hi_inf || lo <= hi,
    ensures
        r == combine(lo_inf, lo as int, hi_inf, hi as int),
        r.wf(),
{
    let lo_over = lo < MIN as i128 || lo > MAX as i128;
    let hi_over = hi < MIN as i128 || hi > MAX as i128;
    if (!lo_inf && lo_over) || (!hi_inf && hi_over) {
        Range::full()
    } else {
        Range {
            rtype: RangeType::Regular,
            lower: if lo_inf { MIN } else { lo as i64 },
            upper: if hi_inf { MAX } else { hi as i64 },
        }
    }
}

/// Brings a wide integer back into the bounds of `i64`.
fn clamp_wide(v: i128) -> (r: i64)
    ensures
        r == clamp(v as int),
{
    if v < MIN as i128 {
        MIN
    } else if v > MAX as i128 {
        MAX
    } else {
        v as i64
    }
}

} // verus!
