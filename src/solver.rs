//! The fixpoint solver: each component of the constraint graph is widened
//! to a stable state, its symbolic bounds are resolved, and it is narrowed.
use vstd::prelude::*;
use crate::cfg::BinOp;
use crate::graph::{ConstraintGraph, Intersect, OpKind, SymbInterval, BasicOp, VarNode, eval_spec, kind_ok, reads, lemma_eval_frame};
use crate::scc::depends;
use crate::range::{Range, RangeType, MAX, MIN, bounded, full_range};
use crate::scc::Nuutila;

verus! {

/// The constraint that `x pred y` puts on `x` once `y` is known to lie in
/// `[l, u]`: `[MIN, u-1]` for `<`, `[MIN, u]` for `<=`, `[l+1, MAX]` for `>`,
/// `[l, MAX]` for `>=` and `[l, u]` for `==`. A bound that is not regular, or
/// another predicate, puts none.
pub open spec fn symb_range(pred: BinOp, b: Range) -> Range {
    if b.rtype != RangeType::Regular {
        Range { rtype: RangeType::Unknown, lower: MIN, upper: MAX }
    } else {
        match pred {
            BinOp::Lt => if b.upper == MIN {
                Range { rtype: RangeType::Empty, lower: MIN, upper: MIN }
            } else {
                bounded(MIN as int, b.upper - 1)
            },
            BinOp::Le => bounded(MIN as int, b.upper as int),
            BinOp::Gt => if b.lower == MAX {
                Range { rtype: RangeType::Empty, lower: MAX, upper: MAX }
            } else {
                bounded(b.lower + 1, MAX as int)
            },
            BinOp::Ge => bounded(b.lower as int, MAX as int),
            BinOp::Eq => b,
            _ => Range { rtype: RangeType::Unknown, lower: MIN, upper: MAX },
        }
    }
}

/// The range that `symb_range` gives.
pub fn symb_range_of(pred: BinOp, b: Range) -> (r: Range)
    requires
        b.wf(),
    ensures
        r == symb_range(pred, b),
        r.wf(),
{
    if !b.is_regular() {
        return Range::unknown();
    }
    match pred {
        BinOp::Lt => {
            if b.upper == MIN {
                Range { rtype: RangeType::Empty, lower: MIN, upper: MIN }
            } else {
                Range::with_bounds(MIN, b.upper - 1, RangeType::Regular)
            }
        },
        BinOp::Le => Range::with_bounds(MIN, b.upper, RangeType::Regular),
        BinOp::Gt => {
            if b.lower == MAX {
                Range { rtype: RangeType::Empty, lower: MAX, upper: MAX }
            } else {
                Range::with_bounds(b.lower + 1, MAX, RangeType::Regular)
            }
        },
        BinOp::Ge => Range::with_bounds(b.lower, MAX, RangeType::Regular),
        BinOp::Eq => b,
        _ => Range::unknown(),
    }
}

/// Counts that describe the components: how many there are, how many hold
/// a single variable, and the size of the largest.
#[derive(Clone, Copy, Debug, PartialEq, Eq, Structural)]
pub struct SccStats {
    pub num_sccs: usize,
    pub num_alone_sccs: usize,
    pub size_max_scc: usize,
}

/// Whether `v` is the sink of one of the operations listed in `ops`.
pub open spec fn is_sink_of(g: ConstraintGraph, ops: Seq<usize>, v: int) -> bool {
    exists|j: int| 0 <= j < ops.len() && #[trigger] g.oprs@[ops[j] as int].sink == v
}

/// The operations listed in `ops` are operations of `g`.
pub open spec fn ops_ok(g: ConstraintGraph, ops: Seq<usize>) -> bool {
    forall|j: int| 0 <= j < ops.len() ==> #[trigger] ops[j] < g.oprs@.len()
}

impl ConstraintGraph {
    /// Sets the range of variable `v`, leaving everything else as it is.
    pub fn set_range(&mut self, v: usize, r: Range)
        requires
            old(self).wf(),
            v < old(self).vars@.len(),
            r.wf(),
        ensures
            final(self).wf(),
            final(self).vars@ == old(self).vars@.update(v as int, node_with_interval(old(self).vars@[v as int], r)),
            final(self).oprs@ == old(self).oprs@,
            final(self).defmap@ == old(self).defmap@,
            final(self).usemap@ == old(self).usemap@,
            final(self).symbmap@ == old(self).symbmap@,
    {
        let mut node = self.vars[v];
        node.interval = r;
        self.vars.set(v, node);
    }

    /// One widening round over `ops`: each sink is widened by its
    /// operation's value. Returns whether some range changed; a round with
    /// no change leaves every operation's value within its sink's range.
    fn widen_round(&mut self, ops: &Vec<usize>) -> (changed: bool)
        requires
            old(self).wf(),
            ops_ok(*old(self), ops@),
        ensures
            same_nodes(old(self).vars@, final(self).vars@),
            final(self).vars@ == widen_steps(old(self).oprs@, old(self).vars@, ops@, ops@.len() as int),
            final(self).defmap@ == old(self).defmap@,
            final(self).usemap@ == old(self).usemap@,
            final(self).symbmap@ == old(self).symbmap@,
            final(self).wf(),
            final(self).vars@.len() == old(self).vars@.len(),
            final(self).oprs@ == old(self).oprs@,
            forall|v: int| 0 <= v < final(self).vars@.len() ==> (#[trigger] old(self).vars@[v]).interval.within(final(self).vars@[v].interval),
            forall|v: int| 0 <= v < final(self).vars@.len() && !is_sink_of(*old(self), ops@, v) ==> #[trigger] final(self).vars@[v] == old(self).vars@[v],
            !changed ==> final(self).vars@ == old(self).vars@,
            !changed ==> forall|j: int| 0 <= j < ops@.len() ==> eval_spec(final(self).oprs@[#[trigger] ops@[j] as int].kind, final(self).vars@).within(
                final(self).vars@[final(self).oprs@[ops@[j] as int].sink as int].interval),
            forall|v: int| 0 <= v < final(self).vars@.len() ==> (#[trigger] final(self).vars@[v]).interval.widen_potential()
                <= old(self).vars@[v].interval.widen_potential(),
            changed ==> exists|j: int| 0 <= j < ops@.len() && (#[trigger] final(self).vars@[final(self).oprs@[ops@[j] as int].sink as int]).interval.widen_potential()
                < old(self).vars@[final(self).oprs@[ops@[j] as int].sink as int].interval.widen_potential(),
    {
        let ghost start = self.vars@;
        let mut changed = false;
        let mut j: usize = 0;
        while j < ops.len()
            invariant
                same_nodes(old(self).vars@, self.vars@),
                self.vars@ == widen_steps(old(self).oprs@, start, ops@, j as int),
                self.defmap@ == old(self).defmap@,
                self.usemap@ == old(self).usemap@,
                self.symbmap@ == old(self).symbmap@,
                self.wf(),
                self.vars@.len() == start.len(),
                self.oprs@ == old(self).oprs@,
                start == old(self).vars@,
                ops_ok(*self, ops@),
                j <= ops@.len(),
                forall|v: int| 0 <= v < start.len() ==> (#[trigger] start[v]).interval.within(self.vars@[v].interval),
                forall|v: int| 0 <= v < start.len() && !is_sink_of(*old(self), ops@, v) ==> #[trigger] self.vars@[v] == start[v],
                !changed ==> self.vars@ == start,
                !changed ==> forall|i: int| 0 <= i < j ==> eval_spec(self.oprs@[#[trigger] ops@[i] as int].kind, self.vars@).within(
                    self.vars@[self.oprs@[ops@[i] as int].sink as int].interval),
                forall|v: int| 0 <= v < start.len() ==> (#[trigger] self.vars@[v]).interval.widen_potential()
                    <= start[v].interval.widen_potential(),
                changed ==> exists|i: int| 0 <= i < ops@.len() && (#[trigger] self.vars@[self.oprs@[ops@[i] as int].sink as int]).interval.widen_potential()
                    < start[self.oprs@[ops@[i] as int].sink as int].interval.widen_potential(),
            decreases ops@.len() - j,
        {
            let ghost pre = self.vars@;
            let k = ops[j];
            let next = self.eval(k);
            let v = self.oprs[k].sink;
            let cur = self.vars[v].interval;
            let w = cur.widen(&next);
            if w != cur {
                let ghost before = self.vars@;
                self.set_range(v, w);
                changed = true;
                proof {
                    assert forall|x: int| 0 <= x < start.len() implies (#[trigger] start[x]).interval.within(self.vars@[x].interval) by {
                        if x == v as int {
                            assert(start[x].interval.within(before[x].interval));
                        } else {
                            assert(self.vars@[x] == before[x]);
                        }
                    }
                    assert forall|x: int| 0 <= x < start.len() implies (#[trigger] self.vars@[x]).interval.widen_potential()
                        <= start[x].interval.widen_potential() by {
                        if x != v as int {
                            assert(self.vars@[x] == before[x]);
                        }
                    }
                    assert(self.oprs@[ops@[j as int] as int].sink == v);
                    assert(self.vars@[v as int].interval.widen_potential() < before[v as int].interval.widen_potential());
                    assert(self.vars@[self.oprs@[ops@[j as int] as int].sink as int].interval.widen_potential()
                        < start[self.oprs@[ops@[j as int] as int].sink as int].interval.widen_potential());
                    assert forall|x: int| 0 <= x < start.len() && !is_sink_of(*old(self), ops@, x) implies #[trigger] self.vars@[x] == start[x] by {
                        if x == v as int {
                            assert(old(self).oprs@[ops@[j as int] as int].sink == x);
                        }
                    }
                }
            }
            proof {
                assert(self.vars@ =~= widen_step(old(self).oprs@, widen_steps(old(self).oprs@, start, ops@, j as int), k as int));
            }
            j += 1;
        }
        changed
    }

    /// Widening: repeats widening rounds over `ops` until none changes a
    /// range, at most four times as many rounds as there are operations,
    /// and one more. Ranges only grow. Returns whether a stable round was
    /// reached, in which case each operation's value lies within its sink's
    /// range.
    pub fn pre_update(&mut self, ops: &Vec<usize>) -> (stable: bool)
        requires
            old(self).wf(),
            ops_ok(*old(self), ops@),
        ensures
            same_nodes(old(self).vars@, final(self).vars@),
            final(self).vars@ == widen_steps(old(self).oprs@, final(self).vars@, ops@, ops@.len() as int),
            exists|n: nat| n <= 4 * ops@.len() + 1 && #[trigger] widen_rounds(old(self).oprs@, old(self).vars@, ops@, n) == final(self).vars@,
            final(self).defmap@ == old(self).defmap@,
            final(self).usemap@ == old(self).usemap@,
            final(self).symbmap@ == old(self).symbmap@,
            final(self).wf(),
            final(self).vars@.len() == old(self).vars@.len(),
            final(self).oprs@ == old(self).oprs@,
            forall|v: int| 0 <= v < final(self).vars@.len() ==> (#[trigger] old(self).vars@[v]).interval.within(final(self).vars@[v].interval),
            forall|v: int| 0 <= v < final(self).vars@.len() && !is_sink_of(*old(self), ops@, v) ==> #[trigger] final(self).vars@[v] == old(self).vars@[v],
            stable,
            forall|j: int| 0 <= j < ops@.len() ==> eval_spec(final(self).oprs@[#[trigger] ops@[j] as int].kind, final(self).vars@).within(
                final(self).vars@[final(self).oprs@[ops@[j] as int].sink as int].interval),
    {
        let limit: u128 = 4 * (ops.len() as u128) + 1;
        proof {
            assert forall|j: int| 0 <= j < ops@.len() implies 0 <= #[trigger] self.oprs@[ops@[j] as int].sink < self.vars@.len() by {
                assert(ops@[j] < self.oprs@.len());
            }
            lemma_widen_sum(*self, self.vars@, self.vars@, ops@, ops@.len() as int);
        }
        let mut round: u128 = 0;
        let mut stable = false;
        while round < limit && !stable
            invariant
                same_nodes(old(self).vars@, self.vars@),
                self.vars@ == widen_rounds(old(self).oprs@, old(self).vars@, ops@, round as nat),
                stable ==> self.vars@ == widen_steps(old(self).oprs@, self.vars@, ops@, ops@.len() as int),
                self.defmap@ == old(self).defmap@,
                self.usemap@ == old(self).usemap@,
                self.symbmap@ == old(self).symbmap@,
                self.wf(),
                self.vars@.len() == old(self).vars@.len(),
                self.oprs@ == old(self).oprs@,
                ops_ok(*self, ops@),
                forall|v: int| 0 <= v < self.vars@.len() ==> (#[trigger] old(self).vars@[v]).interval.within(self.vars@[v].interval),
                forall|v: int| 0 <= v < self.vars@.len() && !is_sink_of(*old(self), ops@, v) ==> #[trigger] self.vars@[v] == old(self).vars@[v],
                stable ==> forall|j: int| 0 <= j < ops@.len() ==> eval_spec(self.oprs@[#[trigger] ops@[j] as int].kind, self.vars@).within(
                    self.vars@[self.oprs@[ops@[j] as int].sink as int].interval),
                limit == 4 * ops@.len() + 1,
                round <= limit,
                stable || widen_sum(*self, self.vars@, ops@, ops@.len() as int) + round <= 4 * ops@.len(),
            decreases limit - round,
        {
            let ghost mid = self.vars@;
            let ghost before = *self;
            let changed = self.widen_round(ops);
            proof {
                assert forall|j: int| 0 <= j < ops@.len() implies 0 <= #[trigger] before.oprs@[ops@[j] as int].sink < mid.len() by {
                    assert(ops@[j] < before.oprs@.len());
                }
                lemma_widen_sum(before, mid, self.vars@, ops@, ops@.len() as int);
                assert(widen_sum(*self, self.vars@, ops@, ops@.len() as int) == widen_sum(before, self.vars@, ops@, ops@.len() as int)) by {
                    lemma_widen_sum_same_ops(before, *self, self.vars@, ops@, ops@.len() as int);
                }
                assert(widen_sum(*self, mid, ops@, ops@.len() as int) == widen_sum(before, mid, ops@, ops@.len() as int)) by {
                    lemma_widen_sum_same_ops(before, *self, mid, ops@, ops@.len() as int);
                }
                assert forall|v: int| 0 <= v < self.vars@.len() implies (#[trigger] old(self).vars@[v]).interval.within(self.vars@[v].interval) by {
                    assert(old(self).vars@[v].interval.within(mid[v].interval));
                    assert(mid[v].interval.within(self.vars@[v].interval));
                }
            }
            stable = !changed;
            round += 1;
        }
        proof {
            assert(widen_rounds(old(self).oprs@, old(self).vars@, ops@, round as nat) == self.vars@);
        }
        stable
    }

    /// One narrowing round over `ops`.
    fn narrow_round(&mut self, ops: &Vec<usize>) -> (changed: bool)
        requires
            old(self).wf(),
            ops_ok(*old(self), ops@),
        ensures
            same_nodes(old(self).vars@, final(self).vars@),
            final(self).vars@ == narrow_steps(old(self).oprs@, old(self).vars@, ops@, ops@.len() as int),
            forall|v: int| 0 <= v < final(self).vars@.len() && old(self).vars@[v].interval.rtype != RangeType::Unknown ==> (#[trigger] final(self).vars@[v]).interval.rtype != RangeType::Unknown,
            final(self).defmap@ == old(self).defmap@,
            final(self).usemap@ == old(self).usemap@,
            final(self).symbmap@ == old(self).symbmap@,
            final(self).wf(),
            final(self).vars@.len() == old(self).vars@.len(),
            final(self).oprs@ == old(self).oprs@,
            forall|v: int| 0 <= v < final(self).vars@.len() ==> (#[trigger] final(self).vars@[v]).interval.within(old(self).vars@[v].interval),
            forall|v: int| 0 <= v < final(self).vars@.len() && !is_sink_of(*old(self), ops@, v) ==> #[trigger] final(self).vars@[v] == old(self).vars@[v],
            !changed ==> final(self).vars@ == old(self).vars@,
            !changed ==> forall|j: int| 0 <= j < ops@.len() ==> (#[trigger] final(self).vars@[final(self).oprs@[ops@[j] as int].sink as int]).interval
                == final(self).vars@[final(self).oprs@[ops@[j] as int].sink as int].interval.narrow_spec(eval_spec(final(self).oprs@[ops@[j] as int].kind, final(self).vars@)),
            forall|v: int| 0 <= v < final(self).vars@.len() ==> (#[trigger] final(self).vars@[v]).interval.narrow_potential()
                <= old(self).vars@[v].interval.narrow_potential(),
            changed ==> exists|j: int| 0 <= j < ops@.len() && (#[trigger] final(self).vars@[final(self).oprs@[ops@[j] as int].sink as int]).interval.narrow_potential()
                < old(self).vars@[final(self).oprs@[ops@[j] as int].sink as int].interval.narrow_potential(),
    {
        let ghost start = self.vars@;
        let mut changed = false;
        let mut j: usize = 0;
        while j < ops.len()
            invariant
                same_nodes(old(self).vars@, self.vars@),
                self.vars@ == narrow_steps(old(self).oprs@, start, ops@, j as int),
                forall|v: int| 0 <= v < self.vars@.len() && old(self).vars@[v].interval.rtype != RangeType::Unknown ==> (#[trigger] self.vars@[v]).interval.rtype != RangeType::Unknown,
                self.defmap@ == old(self).defmap@,
                self.usemap@ == old(self).usemap@,
                self.symbmap@ == old(self).symbmap@,
                self.wf(),
                self.vars@.len() == start.len(),
                self.oprs@ == old(self).oprs@,
                start == old(self).vars@,
                ops_ok(*self, ops@),
                j <= ops@.len(),
                forall|v: int| 0 <= v < start.len() ==> (#[trigger] self.vars@[v]).interval.within(start[v].interval),
                forall|v: int| 0 <= v < start.len() && !is_sink_of(*old(self), ops@, v) ==> #[trigger] self.vars@[v] == start[v],
                !changed ==> self.vars@ == start,
                !changed ==> forall|i: int| 0 <= i < j ==> (#[trigger] self.vars@[self.oprs@[ops@[i] as int].sink as int]).interval
                    == self.vars@[self.oprs@[ops@[i] as int].sink as int].interval.narrow_spec(eval_spec(self.oprs@[ops@[i] as int].kind, self.vars@)),
                forall|v: int| 0 <= v < start.len() ==> (#[trigger] self.vars@[v]).interval.narrow_potential()
                    <= start[v].interval.narrow_potential(),
                changed ==> exists|i: int| 0 <= i < ops@.len() && (#[trigger] self.vars@[self.oprs@[ops@[i] as int].sink as int]).interval.narrow_potential()
                    < start[self.oprs@[ops@[i] as int].sink as int].interval.narrow_potential(),
            decreases ops@.len() - j,
        {
            let ghost pre = self.vars@;
            let k = ops[j];
            let next = self.eval(k);
            let v = self.oprs[k].sink;
            let cur = self.vars[v].interval;
            let w = cur.narrow(&next);
            if w != cur {
                let ghost before = self.vars@;
                self.set_range(v, w);
                changed = true;
                proof {
                    assert forall|x: int| 0 <= x < start.len() implies (#[trigger] self.vars@[x]).interval.within(start[x].interval) by {
                        if x == v as int {
                            assert(before[x].interval.within(start[x].interval));
                        } else {
                            assert(self.vars@[x] == before[x]);
                        }
                    }
                    assert forall|x: int| 0 <= x < start.len() implies (#[trigger] self.vars@[x]).interval.narrow_potential()
                        <= start[x].interval.narrow_potential() by {
                        if x != v as int {
                            assert(self.vars@[x] == before[x]);
                        }
                    }
                    assert(self.oprs@[ops@[j as int] as int].sink == v);
                    assert(self.vars@[v as int].interval.narrow_potential() < before[v as int].interval.narrow_potential());
                    assert(self.vars@[self.oprs@[ops@[j as int] as int].sink as int].interval.narrow_potential()
                        < start[self.oprs@[ops@[j as int] as int].sink as int].interval.narrow_potential());
                    assert forall|x: int| 0 <= x < start.len() && !is_sink_of(*old(self), ops@, x) implies #[trigger] self.vars@[x] == start[x] by {
                        if x == v as int {
                            assert(old(self).oprs@[ops@[j as int] as int].sink == x);
                        }
                    }
                }
            }
            proof {
                assert(self.vars@ =~= narrow_step(old(self).oprs@, narrow_steps(old(self).oprs@, start, ops@, j as int), k as int));
            }
            j += 1;
        }
        changed
    }

    /// Narrowing: repeats narrowing rounds over `ops` until none changes a
    /// range, at most three times as many rounds as there are operations,
    /// and one more. Ranges only shrink.
    pub fn pos_update(&mut self, ops: &Vec<usize>)
        requires
            old(self).wf(),
            ops_ok(*old(self), ops@),
        ensures
            same_nodes(old(self).vars@, final(self).vars@),
            final(self).vars@ == narrow_steps(old(self).oprs@, final(self).vars@, ops@, ops@.len() as int),
            exists|n: nat| n <= 3 * ops@.len() + 1 && #[trigger] narrow_rounds(old(self).oprs@, old(self).vars@, ops@, n) == final(self).vars@,
            forall|v: int| 0 <= v < final(self).vars@.len() && old(self).vars@[v].interval.rtype != RangeType::Unknown ==> (#[trigger] final(self).vars@[v]).interval.rtype != RangeType::Unknown,
            final(self).defmap@ == old(self).defmap@,
            final(self).usemap@ == old(self).usemap@,
            final(self).symbmap@ == old(self).symbmap@,
            final(self).wf(),
            final(self).vars@.len() == old(self).vars@.len(),
            final(self).oprs@ == old(self).oprs@,
            forall|v: int| 0 <= v < final(self).vars@.len() ==> (#[trigger] final(self).vars@[v]).interval.within(old(self).vars@[v].interval),
            forall|v: int| 0 <= v < final(self).vars@.len() && !is_sink_of(*old(self), ops@, v) ==> #[trigger] final(self).vars@[v] == old(self).vars@[v],
            forall|j: int| 0 <= j < ops@.len() ==> (#[trigger] final(self).vars@[final(self).oprs@[ops@[j] as int].sink as int]).interval
                == final(self).vars@[final(self).oprs@[ops@[j] as int].sink as int].interval.narrow_spec(eval_spec(final(self).oprs@[ops@[j] as int].kind, final(self).vars@)),
    {
        let limit: u128 = 3 * (ops.len() as u128) + 1;
        proof {
            assert forall|j: int| 0 <= j < ops@.len() implies 0 <= #[trigger] self.oprs@[ops@[j] as int].sink < self.vars@.len() by {
                assert(ops@[j] < self.oprs@.len());
            }
            lemma_narrow_sum(*self, self.vars@, self.vars@, ops@, ops@.len() as int);
        }
        let mut round: u128 = 0;
        let mut stable = false;
        while round < limit && !stable
            invariant
                same_nodes(old(self).vars@, self.vars@),
                self.vars@ == narrow_rounds(old(self).oprs@, old(self).vars@, ops@, round as nat),
                stable ==> self.vars@ == narrow_steps(old(self).oprs@, self.vars@, ops@, ops@.len() as int),
                forall|v: int| 0 <= v < self.vars@.len() && old(self).vars@[v].interval.rtype != RangeType::Unknown ==> (#[trigger] self.vars@[v]).interval.rtype != RangeType::Unknown,
                self.defmap@ == old(self).defmap@,
                self.usemap@ == old(self).usemap@,
                self.symbmap@ == old(self).symbmap@,
                self.wf(),
                self.vars@.len() == old(self).vars@.len(),
                self.oprs@ == old(self).oprs@,
                ops_ok(*self, ops@),
                forall|v: int| 0 <= v < self.vars@.len() ==> (#[trigger] self.vars@[v]).interval.within(old(self).vars@[v].interval),
                forall|v: int| 0 <= v < self.vars@.len() && !is_sink_of(*old(self), ops@, v) ==> #[trigger] self.vars@[v] == old(self).vars@[v],
                limit == 3 * ops@.len() + 1,
                round <= limit,
                stable || narrow_sum(*self, self.vars@, ops@, ops@.len() as int) + round <= 3 * ops@.len(),
                stable ==> forall|j: int| 0 <= j < ops@.len() ==> (#[trigger] self.vars@[self.oprs@[ops@[j] as int].sink as int]).interval
                    == self.vars@[self.oprs@[ops@[j] as int].sink as int].interval.narrow_spec(eval_spec(self.oprs@[ops@[j] as int].kind, self.vars@)),
            decreases limit - round,
        {
            let ghost mid = self.vars@;
            let ghost before = *self;
            let changed = self.narrow_round(ops);
            proof {
                assert forall|j: int| 0 <= j < ops@.len() implies 0 <= #[trigger] before.oprs@[ops@[j] as int].sink < mid.len() by {
                    assert(ops@[j] < before.oprs@.len());
                }
                lemma_narrow_sum(before, mid, self.vars@, ops@, ops@.len() as int);
                lemma_narrow_sum_same_ops(before, *self, self.vars@, ops@, ops@.len() as int);
                lemma_narrow_sum_same_ops(before, *self, mid, ops@, ops@.len() as int);
                assert forall|v: int| 0 <= v < self.vars@.len() implies (#[trigger] self.vars@[v]).interval.within(old(self).vars@[v].interval) by {
                    assert(self.vars@[v].interval.within(mid[v].interval));
                    assert(mid[v].interval.within(old(self).vars@[v].interval));
                }
            }
            stable = !changed;
            round += 1;
        }
        proof {
            assert(narrow_rounds(old(self).oprs@, old(self).vars@, ops@, round as nat) == self.vars@);
        }
    }
}

/// A node with another range.
pub open spec fn node_with_interval(n: VarNode, r: Range) -> VarNode {
    VarNode { interval: r, ..n }
}

impl ConstraintGraph {
    /// Resolves the symbolic intervals of the operations in `ops`: each takes
    /// the range that its predicate gives against the current range of its
    /// bound. Ranges of variables stay as they are.
    pub fn fix_intersects(&mut self, ops: &Vec<usize>)
        requires
            old(self).wf(),
            ops_ok(*old(self), ops@),
        ensures
            final(self).wf(),
            final(self).vars@ == old(self).vars@,
            final(self).oprs@.len() == old(self).oprs@.len(),
            forall|k: int| 0 <= k < final(self).oprs@.len() ==> (#[trigger] final(self).oprs@[k]).sink == old(self).oprs@[k].sink
                && final(self).oprs@[k].inst == old(self).oprs@[k].inst,
            forall|k: int| 0 <= k < final(self).oprs@.len() ==> resolved_from(#[trigger] old(self).oprs@[k].kind, final(self).oprs@[k].kind, old(self).vars@),
            forall|k: int| 0 <= k < final(self).oprs@.len() && !ops@.contains(k as usize) ==> #[trigger] final(self).oprs@[k] == old(self).oprs@[k],
            final(self).defmap@ == old(self).defmap@,
            final(self).usemap@ == old(self).usemap@,
            final(self).symbmap@ == old(self).symbmap@,
            forall|j: int| 0 <= j < ops@.len() ==> symb_resolved(#[trigger] final(self).oprs@[ops@[j] as int].kind, old(self).vars@),
            final(self).oprs@ == fix_spec(old(self).oprs@, ops@, old(self).vars@),
    {
        let ghost o0 = self.oprs@;
        let mut j: usize = 0;
        while j < ops.len()
            invariant
                self.wf(),
                self.vars@ == old(self).vars@,
                self.oprs@.len() == o0.len(),
                o0 == old(self).oprs@,
                ops_ok(*old(self), ops@),
                j <= ops@.len(),
                forall|k: int| 0 <= k < self.oprs@.len() ==> (#[trigger] self.oprs@[k]).sink == o0[k].sink && self.oprs@[k].inst == o0[k].inst,
                forall|k: int| 0 <= k < self.oprs@.len() ==> resolved_from(#[trigger] o0[k].kind, self.oprs@[k].kind, old(self).vars@),
                forall|k: int| 0 <= k < self.oprs@.len() && !ops@.contains(k as usize) ==> #[trigger] self.oprs@[k] == o0[k],
                self.defmap@ == old(self).defmap@,
                self.usemap@ == old(self).usemap@,
                self.symbmap@ == old(self).symbmap@,
                forall|i: int| 0 <= i < j ==> symb_resolved(#[trigger] self.oprs@[ops@[i] as int].kind, old(self).vars@),
            decreases ops@.len() - j,
        {
            let k = ops[j];
            let found = match &self.oprs[k].kind {
                OpKind::Sigma(a, Intersect::Symb(si)) => Some((*a, *si)),
                _ => None,
            };
            if let Some((a, si)) = found {
                let n = self.vars.len();
                let bound_range = self.vars[si.bound].interval;
                let r = symb_range_of(si.predicate, bound_range);
                let sink = self.oprs[k].sink;
                let inst = self.oprs[k].inst;
                let ghost before = self.oprs@;
                let op = BasicOp {
                    kind: OpKind::Sigma(a, Intersect::Symb(SymbInterval { range: r, bound: si.bound, predicate: si.predicate })),
                    sink,
                    inst,
                };
                self.oprs.set(k, op);
                proof {
                    assert(ops@[j as int] == k);
                    assert forall|kk: int| 0 <= kk < self.oprs@.len() && !ops@.contains(kk as usize) implies #[trigger] self.oprs@[kk] == o0[kk] by {
                        if kk == k as int {
                            assert(ops@.contains(k));
                        } else {
                            assert(self.oprs@[kk] == before[kk]);
                        }
                    }
                    assert forall|kk: int| 0 <= kk < self.oprs@.len() implies resolved_from(#[trigger] o0[kk].kind, self.oprs@[kk].kind, old(self).vars@) by {
                        if kk != k as int {
                            assert(self.oprs@[kk] == before[kk]);
                        }
                    }
                    assert forall|i: int| 0 <= i < j + 1 implies symb_resolved(#[trigger] self.oprs@[ops@[i] as int].kind, old(self).vars@) by {
                        if ops@[i] != k {
                            assert(self.oprs@[ops@[i] as int] == before[ops@[i] as int]);
                        }
                    }
                    assert forall|kk: int| 0 <= kk < self.oprs@.len() implies (#[trigger] self.oprs@[kk]).sink < self.vars@.len() && kind_ok(self.oprs@[kk].kind, self.vars@.len()) by {
                        if kk != k as int {
                            assert(self.oprs@[kk] == before[kk]);
                        }
                    }
                    assert forall|v: int, kk: int|
                        0 <= v < self.vars@.len() && 0 <= kk < self.oprs@.len() implies ((#[trigger] self.usemap@[v]@.contains(kk as usize))
                            <==> crate::graph::reads(self.oprs@[kk].kind, v)) by {
                        if kk != k as int {
                            assert(self.oprs@[kk] == before[kk]);
                        }
                    }
                    assert forall|v: int, kk: int|
                        0 <= v < self.vars@.len() && 0 <= kk < self.oprs@.len() implies ((#[trigger] self.symbmap@[v]@.contains(kk as usize))
                            <==> crate::graph::bound_of(self.oprs@[kk].kind) == Some(v as usize)) by {
                        if kk != k as int {
                            assert(self.oprs@[kk] == before[kk]);
                        }
                    }
                    assert forall|v: int, kk: int|
                        0 <= v < self.vars@.len() && 0 <= kk < self.oprs@.len() implies (#[trigger] self.defmap@[v] == Some(kk as usize)
                            <==> #[trigger] self.oprs@[kk].sink == v) by {
                        if kk != k as int {
                            assert(self.oprs@[kk] == before[kk]);
                        }
                    }
                }
            }
            j += 1;
        }
        proof {
            assert(self.oprs@.len() == self.oprs.len());
            assert forall|k: int| 0 <= k < self.oprs@.len() implies #[trigger] self.oprs@[k] == fix_spec(o0, ops@, old(self).vars@)[k] by {
                if ops@.contains(k as usize) {
                    let j = choose|j: int| 0 <= j < ops@.len() && ops@[j] == k as usize;
                    assert(symb_resolved(self.oprs@[ops@[j] as int].kind, old(self).vars@));
                    assert(resolved_from(o0[k].kind, self.oprs@[k].kind, old(self).vars@));
                }
            }
            assert(self.oprs@ =~= fix_spec(o0, ops@, old(self).vars@));
        }
    }
}

/// A symbolic interval of `k`, if any, has the range its predicate gives
/// against `vars`.
pub open spec fn symb_resolved(k: OpKind, vars: Seq<VarNode>) -> bool {
    match k {
        OpKind::Sigma(_, Intersect::Symb(si)) => si.range == symb_range(si.predicate, vars[si.bound as int].interval),
        _ => true,
    }
}

/// `after` is `before` with at most the range of a symbolic interval
/// replaced, by the one its predicate gives against `vars`.
pub open spec fn resolved_from(before: OpKind, after: OpKind, vars: Seq<VarNode>) -> bool {
    match before {
        OpKind::Sigma(a, Intersect::Symb(si)) => after == before || after == OpKind::Sigma(
            a,
            Intersect::Symb(SymbInterval { range: symb_range(si.predicate, vars[si.bound as int].interval), ..si }),
        ),
        _ => after == before,
    }
}

impl ConstraintGraph {
    /// The operations that define the variables of `comp`, in the order of
    /// `comp`.
    pub fn comp_ops(&self, comp: &Vec<usize>) -> (ops: Vec<usize>)
        requires
            self.wf(),
            forall|j: int| 0 <= j < comp@.len() ==> #[trigger] comp@[j] < self.vars@.len(),
        ensures
            ops@ == comp_ops_spec(self.defmap@, comp@, comp@.len() as int),
            ops_ok(*self, ops@),
            forall|j: int| 0 <= j < ops@.len() ==> comp@.contains(#[trigger] self.oprs@[ops@[j] as int].sink),
            forall|k: int| 0 <= k < self.oprs@.len() && comp@.contains(#[trigger] self.oprs@[k].sink) ==> ops@.contains(k as usize),
    {
        let mut ops: Vec<usize> = Vec::new();
        let mut j: usize = 0;
        while j < comp.len()
            invariant
                self.wf(),
                forall|i: int| 0 <= i < comp@.len() ==> #[trigger] comp@[i] < self.vars@.len(),
                j <= comp@.len(),
                ops@ == comp_ops_spec(self.defmap@, comp@, j as int),
                ops_ok(*self, ops@),
                forall|i: int| 0 <= i < ops@.len() ==> comp@.contains(#[trigger] self.oprs@[ops@[i] as int].sink),
                forall|k: int| 0 <= k < self.oprs@.len() && comp@.subrange(0, j as int).contains(#[trigger] self.oprs@[k].sink) ==> ops@.contains(k as usize),
            decreases comp@.len() - j,
        {
            let v = comp[j];
            let ghost ops0 = ops@;
            if let Some(k) = self.defmap[v] {
                ops.push(k);
                proof {
                    assert(self.oprs@[k as int].sink == v);
                    assert(comp@[j as int] == v);
                    assert forall|i: int| 0 <= i < ops@.len() implies comp@.contains(#[trigger] self.oprs@[ops@[i] as int].sink) by {
                        if i < ops0.len() {
                            assert(ops@[i] == ops0[i]);
                        }
                    }
                }
            }
            proof {
                assert forall|k: int| 0 <= k < self.oprs@.len() && comp@.subrange(0, j + 1).contains(#[trigger] self.oprs@[k].sink) implies ops@.contains(k as usize) by {
                    let sub = comp@.subrange(0, j + 1);
                    let i = choose|i: int| 0 <= i < j + 1 && #[trigger] sub[i] == self.oprs@[k].sink;
                    if i < j {
                        assert(comp@.subrange(0, j as int)[i] == self.oprs@[k].sink);
                        assert(comp@.subrange(0, j as int).contains(self.oprs@[k].sink));
                        let q = choose|q: int| 0 <= q < ops0.len() && ops0[q] == k as usize;
                        assert(ops@[q] == k as usize);
                    } else {
                        assert(self.oprs@[k].sink == v);
                        assert(self.defmap@[v as int] == Some(k as usize));
                        assert(ops@[ops@.len() - 1] == k as usize);
                    }
                }
            }
            j += 1;
        }
        proof {
            assert(comp@.subrange(0, comp@.len() as int) =~= comp@);
        }
        ops
    }

    /// Gives every variable of `comp` whose range is still unknown the full
    /// range.
    fn default_unknown(&mut self, comp: &Vec<usize>)
        requires
            old(self).wf(),
            forall|j: int| 0 <= j < comp@.len() ==> #[trigger] comp@[j] < old(self).vars@.len(),
        ensures
            final(self).wf(),
            final(self).vars@ == default_spec(old(self).vars@, comp@),
            final(self).oprs@ == old(self).oprs@,
            final(self).defmap@ == old(self).defmap@,
            final(self).usemap@ == old(self).usemap@,
            final(self).symbmap@ == old(self).symbmap@,
    {
        let ghost v0 = self.vars@;
        let mut j: usize = 0;
        while j < comp.len()
            invariant
                self.wf(),
                self.vars@.len() == v0.len(),
                v0 == old(self).vars@,
                self.oprs@ == old(self).oprs@,
                self.defmap@ == old(self).defmap@,
                self.usemap@ == old(self).usemap@,
                self.symbmap@ == old(self).symbmap@,
                forall|i: int| 0 <= i < comp@.len() ==> #[trigger] comp@[i] < self.vars@.len(),
                j <= comp@.len(),
                self.vars@ == default_spec(v0, comp@.subrange(0, j as int)),
            decreases comp@.len() - j,
        {
            let v = comp[j];
            let ghost pre = self.vars@;
            if self.vars[v].interval.is_unknown() {
                self.set_range(v, Range::full());
            }
            proof {
                assert(self.vars@.len() == self.vars.len());
                let sub = comp@.subrange(0, j + 1);
                assert forall|w: int| 0 <= w < v0.len() implies (#[trigger] sub.contains(w as usize) <==> (comp@.subrange(0, j as int).contains(w as usize) || w == v as int)) by {
                    if sub.contains(w as usize) {
                        let i = choose|i: int| 0 <= i < j + 1 && sub[i] == w as usize;
                        if i < j {
                            assert(comp@.subrange(0, j as int)[i] == w as usize);
                        }
                    }
                    if comp@.subrange(0, j as int).contains(w as usize) {
                        let i = choose|i: int| 0 <= i < j && comp@.subrange(0, j as int)[i] == w as usize;
                        assert(sub[i] == w as usize);
                    }
                    if w == v as int {
                        assert(sub[j as int] == v);
                    }
                }
                assert(self.vars@ =~= default_spec(v0, sub));
            }
            j += 1;
        }
        proof {
            assert(comp@.subrange(0, comp@.len() as int) =~= comp@);
        }
    }

    /// Whether one of `ops` is a sigma operation.
    fn has_sigma(&self, ops: &Vec<usize>) -> (r: bool)
        requires
            ops_ok(*self, ops@),
        ensures
            r == exists|j: int| 0 <= j < ops@.len() && (#[trigger] self.oprs@[ops@[j] as int].kind) is Sigma,
    {
        let mut j: usize = 0;
        while j < ops.len()
            invariant
                ops_ok(*self, ops@),
                j <= ops@.len(),
                forall|i: int| 0 <= i < j ==> !((#[trigger] self.oprs@[ops@[i] as int].kind) is Sigma),
            decreases ops@.len() - j,
        {
            if let OpKind::Sigma(_, _) = &self.oprs[ops[j]].kind {
                return true;
            }
            j += 1;
        }
        false
    }

    /// Whether each operation of `ops` passes the inclusion test of its value
    /// in its sink's range; a true answer is sound.
    fn post_check(&self, ops: &Vec<usize>) -> (r: bool)
        requires
            self.wf(),
            ops_ok(*self, ops@),
        ensures
            r == check_spec(self.oprs@, self.vars@, ops@),
            r ==> forall|j: int| 0 <= j < ops@.len() ==> #[trigger] post_holds(*self, ops@[j] as int),
    {
        let mut j: usize = 0;
        while j < ops.len()
            invariant
                self.wf(),
                ops_ok(*self, ops@),
                j <= ops@.len(),
                forall|i: int| 0 <= i < j ==> #[trigger] post_holds(*self, ops@[i] as int),
                forall|i: int| 0 <= i < j ==> #[trigger] passes(self.oprs@, self.vars@, ops@[i] as int),
            decreases ops@.len() - j,
        {
            let k = ops[j];
            let e = self.eval(k);
            let v = self.oprs[k].sink;
            if !e.is_within(&self.vars[v].interval) {
                proof {
                    assert(!passes(self.oprs@, self.vars@, ops@[j as int] as int));
                }
                return false;
            }
            j += 1;
        }
        true
    }

    /// Gives every variable of `comp` the full range.
    fn saturate(&mut self, comp: &Vec<usize>)
        requires
            old(self).wf(),
            forall|j: int| 0 <= j < comp@.len() ==> #[trigger] comp@[j] < old(self).vars@.len(),
        ensures
            final(self).wf(),
            final(self).vars@ == saturate_spec(old(self).vars@, comp@),
            final(self).oprs@ == old(self).oprs@,
            final(self).defmap@ == old(self).defmap@,
            final(self).usemap@ == old(self).usemap@,
            final(self).symbmap@ == old(self).symbmap@,
    {
        let ghost v0 = self.vars@;
        let mut j: usize = 0;
        while j < comp.len()
            invariant
                self.wf(),
                self.vars@.len() == v0.len(),
                v0 == old(self).vars@,
                self.oprs@ == old(self).oprs@,
                self.defmap@ == old(self).defmap@,
                self.usemap@ == old(self).usemap@,
                self.symbmap@ == old(self).symbmap@,
                forall|i: int| 0 <= i < comp@.len() ==> #[trigger] comp@[i] < self.vars@.len(),
                j <= comp@.len(),
                self.vars@ == saturate_spec(v0, comp@.subrange(0, j as int)),
            decreases comp@.len() - j,
        {
            let v = comp[j];
            self.set_range(v, Range::full());
            proof {
                assert(self.vars@.len() == self.vars.len());
                let sub = comp@.subrange(0, j + 1);
                assert forall|w: int| 0 <= w < v0.len() implies (#[trigger] sub.contains(w as usize) <==> (comp@.subrange(0, j as int).contains(w as usize) || w == v as int)) by {
                    if sub.contains(w as usize) {
                        let i = choose|i: int| 0 <= i < j + 1 && sub[i] == w as usize;
                        if i < j {
                            assert(comp@.subrange(0, j as int)[i] == w as usize);
                        }
                    }
                    if comp@.subrange(0, j as int).contains(w as usize) {
                        let i = choose|i: int| 0 <= i < j && comp@.subrange(0, j as int)[i] == w as usize;
                        assert(sub[i] == w as usize);
                    }
                    if w == v as int {
                        assert(sub[j as int] == v);
                    }
                }
                assert(self.vars@ =~= saturate_spec(v0, sub));
            }
            j += 1;
        }
        proof {
            assert(comp@.subrange(0, comp@.len() as int) =~= comp@);
        }
    }

    /// The solving of `solve_component` before its final check.
    #[verifier::rlimit(60)]
    fn solve_inner(&mut self, comp: &Vec<usize>, ops: &Vec<usize>)
        requires
            old(self).wf(),
            ops_ok(*old(self), ops@),
            forall|j: int| 0 <= j < comp@.len() ==> #[trigger] comp@[j] < old(self).vars@.len(),
            forall|j: int| 0 <= j < ops@.len() ==> comp@.contains(#[trigger] old(self).oprs@[ops@[j] as int].sink),
        ensures
            same_nodes(old(self).vars@, final(self).vars@),
            solved_before_check(old(self).oprs@, old(self).vars@, comp@, ops@, final(self).oprs@, final(self).vars@),
            final(self).wf(),
            final(self).vars@.len() == old(self).vars@.len(),
            final(self).oprs@.len() == old(self).oprs@.len(),
            final(self).defmap@ == old(self).defmap@,
            final(self).usemap@ == old(self).usemap@,
            final(self).symbmap@ == old(self).symbmap@,
            forall|k: int| 0 <= k < final(self).oprs@.len() ==> (#[trigger] final(self).oprs@[k]).sink == old(self).oprs@[k].sink
                && final(self).oprs@[k].inst == old(self).oprs@[k].inst
                && same_shape(old(self).oprs@[k].kind, final(self).oprs@[k].kind),
            forall|k: int| 0 <= k < final(self).oprs@.len() && !ops@.contains(k as usize) ==> #[trigger] final(self).oprs@[k] == old(self).oprs@[k],
            forall|v: int| 0 <= v < final(self).vars@.len() && !comp@.contains(v as usize) ==> #[trigger] final(self).vars@[v] == old(self).vars@[v],
            forall|j: int| 0 <= j < comp@.len() ==> (#[trigger] final(self).vars@[comp@[j] as int]).interval.rtype != RangeType::Unknown,
    {
        let ghost g0 = *self;
        self.fix_intersects(ops);
        let ghost g1 = *self;
        let mut acyclic = false;
        if comp.len() == 1 && ops.len() == 1 {
            let v = comp[0];
            let k = ops[0];
            let bound_self = match &self.oprs[k].kind {
                OpKind::Sigma(_, Intersect::Symb(si)) => si.bound == v,
                _ => false,
            };
            let rd = crate::graph::op_reads(&self.oprs[k].kind, v);
            proof {
                assert(bound_self == (crate::graph::bound_of(self.oprs@[k as int].kind) == Some(v)));
                assert((!rd && !bound_self) == acyclic_single(self.oprs@, comp@, ops@));
            }
            if !rd && !bound_self {
                acyclic = true;
                let r = self.eval(k);
                let sink = self.oprs[k].sink;
                proof {
                    assert(comp@.contains(g0.oprs@[ops@[0] as int].sink));
                    assert(comp@[0] == v);
                }
                self.set_range(sink, r);
                self.default_unknown(comp);
                proof {
                    assert(same_nodes(g0.vars@, self.vars@));
                }
            }
        }
        proof {
            assert(self.oprs@ == fix_spec(g0.oprs@, ops@, g0.vars@));
            assert(acyclic == acyclic_single(self.oprs@, comp@, ops@));
        }
        if !acyclic {
            self.solve_cyclic(comp, ops);
        }
    }

    /// Widens `ops`, resolves their symbolic bounds, gives unknown ranges of
    /// `comp` the full range, and narrows when a sigma is among `ops`. The
    /// variables reachable from a branch-derived constraint are, within one
    /// component, all of its variables when it holds a sigma and none
    /// otherwise, so narrowing re-evaluates exactly those.
    #[verifier::rlimit(60)]
    fn solve_cyclic(&mut self, comp: &Vec<usize>, ops: &Vec<usize>)
        requires
            old(self).wf(),
            ops_ok(*old(self), ops@),
            forall|j: int| 0 <= j < comp@.len() ==> #[trigger] comp@[j] < old(self).vars@.len(),
            forall|j: int| 0 <= j < ops@.len() ==> comp@.contains(#[trigger] old(self).oprs@[ops@[j] as int].sink),
        ensures
            same_nodes(old(self).vars@, final(self).vars@),
            exists|w: Seq<VarNode>| #[trigger] widened(old(self).oprs@, old(self).vars@, ops@, w)
                && final(self).oprs@ == fix_spec(old(self).oprs@, ops@, w) && (if has_sigma_spec(final(self).oprs@, ops@) {
                    narrowed(final(self).oprs@, default_spec(w, comp@), ops@, final(self).vars@)
                } else {
                    final(self).vars@ == default_spec(w, comp@)
                }),
            final(self).wf(),
            final(self).vars@.len() == old(self).vars@.len(),
            final(self).oprs@.len() == old(self).oprs@.len(),
            final(self).defmap@ == old(self).defmap@,
            final(self).usemap@ == old(self).usemap@,
            final(self).symbmap@ == old(self).symbmap@,
            forall|k: int| 0 <= k < final(self).oprs@.len() ==> (#[trigger] final(self).oprs@[k]).sink == old(self).oprs@[k].sink
                && final(self).oprs@[k].inst == old(self).oprs@[k].inst
                && same_shape(old(self).oprs@[k].kind, final(self).oprs@[k].kind),
            forall|k: int| 0 <= k < final(self).oprs@.len() && !ops@.contains(k as usize) ==> #[trigger] final(self).oprs@[k] == old(self).oprs@[k],
            forall|v: int| 0 <= v < final(self).vars@.len() && !comp@.contains(v as usize) ==> #[trigger] final(self).vars@[v] == old(self).vars@[v],
            forall|j: int| 0 <= j < comp@.len() ==> (#[trigger] final(self).vars@[comp@[j] as int]).interval.rtype != RangeType::Unknown,
    {
        let ghost g0 = *self;
        let _ = self.pre_update(ops);
        proof {
            assert forall|v: int| 0 <= v < self.vars@.len() && !comp@.contains(v as usize) implies #[trigger] self.vars@[v] == g0.vars@[v] by {
                if is_sink_of(g0, ops@, v) {
                    let j = choose|j: int| 0 <= j < ops@.len() && #[trigger] g0.oprs@[ops@[j] as int].sink == v;
                    assert(comp@.contains(g0.oprs@[ops@[j] as int].sink));
                }
            }
        }
        let ghost w = self.vars@;
        proof {
            assert(widened(g0.oprs@, g0.vars@, ops@, w));
        }
        self.fix_intersects(ops);
        self.default_unknown(comp);
        proof {
            assert(same_nodes(g0.vars@, self.vars@));
        }
        let sig = self.has_sigma(ops);
        proof {
            assert(sig == has_sigma_spec(self.oprs@, ops@));
        }
        if sig {
            let ghost g3 = *self;
            self.pos_update(ops);
            proof {
                assert forall|v: int| 0 <= v < self.vars@.len() && !comp@.contains(v as usize) implies #[trigger] self.vars@[v] == g3.vars@[v] by {
                    if is_sink_of(g3, ops@, v) {
                        let j = choose|j: int| 0 <= j < ops@.len() && #[trigger] g3.oprs@[ops@[j] as int].sink == v;
                        assert(g3.oprs@[ops@[j] as int].sink == g0.oprs@[ops@[j] as int].sink);
                        assert(comp@.contains(g0.oprs@[ops@[j] as int].sink));
                    }
                }
            }
        }
        proof {
            assert(widened(g0.oprs@, g0.vars@, ops@, w) && self.oprs@ == fix_spec(g0.oprs@, ops@, w));
        }
    }

    /// Solves one component `comp`, whose defining operations are `ops`. A
    /// component of one variable that does not depend on itself is evaluated
    /// once; any other is widened, has its symbolic bounds resolved, and, when
    /// it holds a sigma operation, is narrowed. A range still unknown becomes
    /// the full range. If some operation then does not evaluate within its
    /// sink's range, the component's ranges become the full range.
    fn solve_component(&mut self, comp: &Vec<usize>, ops: &Vec<usize>)
        requires
            old(self).wf(),
            ops_ok(*old(self), ops@),
            forall|j: int| 0 <= j < comp@.len() ==> #[trigger] comp@[j] < old(self).vars@.len(),
            forall|j: int| 0 <= j < ops@.len() ==> comp@.contains(#[trigger] old(self).oprs@[ops@[j] as int].sink),
        ensures
            same_nodes(old(self).vars@, final(self).vars@),
            component_solved(old(self).oprs@, old(self).vars@, comp@, ops@, final(self).oprs@, final(self).vars@),
            final(self).wf(),
            final(self).vars@.len() == old(self).vars@.len(),
            final(self).oprs@.len() == old(self).oprs@.len(),
            final(self).defmap@ == old(self).defmap@,
            final(self).usemap@ == old(self).usemap@,
            final(self).symbmap@ == old(self).symbmap@,
            forall|k: int| 0 <= k < final(self).oprs@.len() ==> (#[trigger] final(self).oprs@[k]).sink == old(self).oprs@[k].sink
                && final(self).oprs@[k].inst == old(self).oprs@[k].inst
                && same_shape(old(self).oprs@[k].kind, final(self).oprs@[k].kind),
            forall|k: int| 0 <= k < final(self).oprs@.len() && !ops@.contains(k as usize) ==> #[trigger] final(self).oprs@[k] == old(self).oprs@[k],
            forall|v: int| 0 <= v < final(self).vars@.len() && !comp@.contains(v as usize) ==> #[trigger] final(self).vars@[v] == old(self).vars@[v],
            forall|j: int| 0 <= j < ops@.len() ==> #[trigger] post_holds(*final(self), ops@[j] as int),
            forall|j: int| 0 <= j < comp@.len() ==> (#[trigger] final(self).vars@[comp@[j] as int]).interval.rtype != RangeType::Unknown,
    {
        let ghost g0 = *self;
        self.solve_inner(comp, ops);
        let ghost vm = self.vars@;
        proof {
            assert(ops_ok(*self, ops@));
        }
        let ok = self.post_check(ops);
        if !ok {
            let ghost g4 = *self;
            self.saturate(comp);
            proof {
                assert forall|j: int| 0 <= j < ops@.len() implies #[trigger] post_holds(*self, ops@[j] as int) by {
                    let k = ops@[j] as int;
                    let sink = self.oprs@[k].sink;
                    assert(sink == g0.oprs@[k].sink);
                    assert(comp@.contains(g0.oprs@[k].sink));
                    let i = choose|i: int| 0 <= i < comp@.len() && comp@[i] == sink;
                    assert(self.vars@[comp@[i] as int].interval == full_range());
                }
                assert forall|v: int| 0 <= v < self.vars@.len() && !comp@.contains(v as usize) implies #[trigger] self.vars@[v] == g0.vars@[v] by {
                    assert(self.vars@[v] == g4.vars@[v]);
                }
            }
        }
        proof {
            assert(solved_before_check(g0.oprs@, g0.vars@, comp@, ops@, self.oprs@, vm));
            assert(same_nodes(g0.vars@, self.vars@));
        }
    }

    /// Solves the graph component by component, in an order where each
    /// component comes after those it depends on (see `solve_component`).
    /// Every variable ends with a known range, and every operation evaluates
    /// within the range of the variable it defines. The graph keeps its
    /// maps; an operation changes at most in the range of its symbolic
    /// interval.
    pub fn find_intervals(&mut self) -> (stats: SccStats)
        requires
            old(self).wf(),
        ensures
            final(self).wf(),
            final(self).vars@.len() == old(self).vars@.len(),
            forall|v: int| 0 <= v < final(self).vars@.len() ==> (#[trigger] final(self).vars@[v]).interval.rtype != RangeType::Unknown,
            final(self).oprs@.len() == old(self).oprs@.len(),
            final(self).defmap@ == old(self).defmap@,
            final(self).usemap@ == old(self).usemap@,
            final(self).symbmap@ == old(self).symbmap@,
            forall|k: int| 0 <= k < final(self).oprs@.len() ==> (#[trigger] final(self).oprs@[k]).sink == old(self).oprs@[k].sink
                && final(self).oprs@[k].inst == old(self).oprs@[k].inst
                && same_shape(old(self).oprs@[k].kind, final(self).oprs@[k].kind),
            forall|k: int| 0 <= k < final(self).oprs@.len() ==> #[trigger] post_holds(*final(self), k),
            same_nodes(old(self).vars@, final(self).vars@),
            solved_in_order(*old(self), *final(self), stats),
    {
        let scc = Nuutila::new(self);
        let n = self.vars.len();
        let ghost g0 = *self;
        let mut stats = SccStats { num_sccs: scc.components.len(), num_alone_sccs: 0, size_max_scc: 0 };
        let ghost mut states: Seq<(Seq<BasicOp>, Seq<VarNode>)> = seq![(self.oprs@, self.vars@)];
        let mut c: usize = 0;
        while c < scc.components.len()
            invariant
                self.wf(),
                scc.wf(g0),
                self.vars@.len() == n,
                n == g0.vars@.len(),
                n == old(self).vars@.len(),
                g0 == *old(self),
                c <= scc.components@.len(),
                stats.num_alone_sccs <= c,
                self.oprs@.len() == g0.oprs@.len(),
                self.defmap@ == g0.defmap@,
                self.usemap@ == g0.usemap@,
                self.symbmap@ == g0.symbmap@,
                forall|k: int| 0 <= k < self.oprs@.len() ==> (#[trigger] self.oprs@[k]).sink == g0.oprs@[k].sink
                    && self.oprs@[k].inst == g0.oprs@[k].inst
                    && same_shape(g0.oprs@[k].kind, self.oprs@[k].kind),
                forall|k: int| 0 <= k < self.oprs@.len() && scc.comp_of@[self.oprs@[k].sink as int] < c ==> #[trigger] post_holds(*self, k),
                forall|v: int| 0 <= v < n && scc.comp_of@[v] < c ==> (#[trigger] self.vars@[v]).interval.rtype != RangeType::Unknown,
                same_nodes(g0.vars@, self.vars@),
                stats.num_sccs == scc.components@.len(),
                stats.num_alone_sccs == count_single(scc.components@, c as int),
                stats.size_max_scc == max_size(scc.components@, c as int),
                states.len() == c + 1,
                states[0] == (g0.oprs@, g0.vars@),
                states[c as int] == (self.oprs@, self.vars@),
                forall|i: int| 0 <= i < c ==> #[trigger] component_solved(states[i].0, states[i].1, scc.components@[i]@,
                    comp_ops_spec(g0.defmap@, scc.components@[i]@, scc.components@[i]@.len() as int), states[i + 1].0, states[i + 1].1),
            decreases scc.components@.len() - c,
        {
            let comp = &scc.components[c];
            proof {
                assert forall|j: int| 0 <= j < comp@.len() implies #[trigger] comp@[j] < self.vars@.len() by {
                    assert(scc.components@[c as int]@[j] < n);
                }
            }
            let ops = self.comp_ops(comp);
            if comp.len() == 1 {
                stats.num_alone_sccs = stats.num_alone_sccs + 1;
            }
            if comp.len() > stats.size_max_scc {
                stats.size_max_scc = comp.len();
            }
            let ghost before = *self;
            self.solve_component(comp, &ops);
            proof {
                lemma_component_step(g0, before, *self, scc, c as int, ops@);
                let st0 = states;
                states = states.push((self.oprs@, self.vars@));
                assert forall|i: int| 0 <= i < c + 1 implies #[trigger] component_solved(states[i].0, states[i].1, scc.components@[i]@,
                    comp_ops_spec(g0.defmap@, scc.components@[i]@, scc.components@[i]@.len() as int), states[i + 1].0, states[i + 1].1) by {
                    if i < c {
                        assert(states[i] == st0[i] && states[i + 1] == st0[i + 1]);
                    } else {
                        assert(states[i] == (before.oprs@, before.vars@));
                    }
                }
            }
            c += 1;
        }
        proof {
            assert forall|v: int| 0 <= v < n implies (#[trigger] self.vars@[v]).interval.rtype != RangeType::Unknown by {
                assert(scc.comp_of@[v] < scc.components@.len());
            }
            assert forall|k: int| 0 <= k < self.oprs@.len() implies #[trigger] post_holds(*self, k) by {
                assert(g0.oprs@[k].sink < n);
                assert(scc.comp_of@[self.oprs@[k].sink as int] < scc.components@.len());
            }
            assert(solved_by(g0, *self, stats, scc, states));
        }
        stats
    }
}

/// The sum of the widening potentials of the sinks of the first `m`
/// operations of `ops`.
pub open spec fn widen_sum(g: ConstraintGraph, vars: Seq<VarNode>, ops: Seq<usize>, m: int) -> nat
    decreases m,
{
    if m <= 0 {
        0
    } else {
        widen_sum(g, vars, ops, m - 1) + vars[g.oprs@[ops[m - 1] as int].sink as int].interval.widen_potential()
    }
}

/// The sum of the narrowing potentials of the sinks of the first `m`
/// operations of `ops`.
pub open spec fn narrow_sum(g: ConstraintGraph, vars: Seq<VarNode>, ops: Seq<usize>, m: int) -> nat
    decreases m,
{
    if m <= 0 {
        0
    } else {
        narrow_sum(g, vars, ops, m - 1) + vars[g.oprs@[ops[m - 1] as int].sink as int].interval.narrow_potential()
    }
}

proof fn lemma_widen_sum(g: ConstraintGraph, a: Seq<VarNode>, b: Seq<VarNode>, ops: Seq<usize>, m: int)
    requires
        0 <= m <= ops.len(),
        forall|v: int| 0 <= v < a.len() ==> (#[trigger] b[v]).interval.widen_potential() <= a[v].interval.widen_potential(),
        forall|j: int| 0 <= j < ops.len() ==> 0 <= #[trigger] g.oprs@[ops[j] as int].sink < a.len(),
    ensures
        widen_sum(g, b, ops, m) <= widen_sum(g, a, ops, m),
        widen_sum(g, a, ops, m) <= 4 * m,
        (exists|j: int| 0 <= j < m && (#[trigger] b[g.oprs@[ops[j] as int].sink as int]).interval.widen_potential()
            < a[g.oprs@[ops[j] as int].sink as int].interval.widen_potential()) ==> widen_sum(g, b, ops, m) < widen_sum(g, a, ops, m),
    decreases m,
{
    if m > 0 {
        lemma_widen_sum(g, a, b, ops, m - 1);
        let v = g.oprs@[ops[m - 1] as int].sink as int;
        assert(b[v].interval.widen_potential() <= a[v].interval.widen_potential());
    }
}

proof fn lemma_narrow_sum(g: ConstraintGraph, a: Seq<VarNode>, b: Seq<VarNode>, ops: Seq<usize>, m: int)
    requires
        0 <= m <= ops.len(),
        forall|v: int| 0 <= v < a.len() ==> (#[trigger] b[v]).interval.narrow_potential() <= a[v].interval.narrow_potential(),
        forall|j: int| 0 <= j < ops.len() ==> 0 <= #[trigger] g.oprs@[ops[j] as int].sink < a.len(),
    ensures
        narrow_sum(g, b, ops, m) <= narrow_sum(g, a, ops, m),
        narrow_sum(g, a, ops, m) <= 3 * m,
        (exists|j: int| 0 <= j < m && (#[trigger] b[g.oprs@[ops[j] as int].sink as int]).interval.narrow_potential()
            < a[g.oprs@[ops[j] as int].sink as int].interval.narrow_potential()) ==> narrow_sum(g, b, ops, m) < narrow_sum(g, a, ops, m),
    decreases m,
{
    if m > 0 {
        lemma_narrow_sum(g, a, b, ops, m - 1);
        let v = g.oprs@[ops[m - 1] as int].sink as int;
        assert(b[v].interval.narrow_potential() <= a[v].interval.narrow_potential());
    }
}

proof fn lemma_widen_sum_same_ops(g: ConstraintGraph, h: ConstraintGraph, vars: Seq<VarNode>, ops: Seq<usize>, m: int)
    requires
        g.oprs@ == h.oprs@,
    ensures
        widen_sum(g, vars, ops, m) == widen_sum(h, vars, ops, m),
    decreases m,
{
    if m > 0 {
        lemma_widen_sum_same_ops(g, h, vars, ops, m - 1);
    }
}

proof fn lemma_narrow_sum_same_ops(g: ConstraintGraph, h: ConstraintGraph, vars: Seq<VarNode>, ops: Seq<usize>, m: int)
    requires
        g.oprs@ == h.oprs@,
    ensures
        narrow_sum(g, vars, ops, m) == narrow_sum(h, vars, ops, m),
    decreases m,
{
    if m > 0 {
        lemma_narrow_sum_same_ops(g, h, vars, ops, m - 1);
    }
}

/// Operation `k` evaluates within the range of the variable it defines.
pub open spec fn post_holds(g: ConstraintGraph, k: int) -> bool {
    eval_spec(g.oprs@[k].kind, g.vars@).within(g.vars@[g.oprs@[k].sink as int].interval)
}

/// Two operation kinds differ at most in the range of a symbolic interval.
pub open spec fn same_shape(a: OpKind, b: OpKind) -> bool {
    a == b || (a matches OpKind::Sigma(x, Intersect::Symb(s)) && b matches OpKind::Sigma(y, Intersect::Symb(t))
        && x == y && s.bound == t.bound && s.predicate == t.predicate)
}

/// Solving component `c` keeps the post-fixpoint of the operations of the
/// earlier components: they read only variables of components up to their
/// own, which solving `c` leaves as they are.
proof fn lemma_component_step(g0: ConstraintGraph, before: ConstraintGraph, after: ConstraintGraph, scc: Nuutila, c: int, ops: Seq<usize>)
    requires
        scc.wf(g0),
        0 <= c < scc.components@.len(),
        before.wf(),
        after.wf(),
        before.vars@.len() == g0.vars@.len(),
        after.vars@.len() == g0.vars@.len(),
        before.oprs@.len() == g0.oprs@.len(),
        after.oprs@.len() == g0.oprs@.len(),
        before.defmap@ == g0.defmap@,
        before.usemap@ == g0.usemap@,
        before.symbmap@ == g0.symbmap@,
        after.defmap@ == before.defmap@,
        after.usemap@ == before.usemap@,
        after.symbmap@ == before.symbmap@,
        forall|k: int| 0 <= k < before.oprs@.len() ==> (#[trigger] before.oprs@[k]).sink == g0.oprs@[k].sink
            && before.oprs@[k].inst == g0.oprs@[k].inst
            && same_shape(g0.oprs@[k].kind, before.oprs@[k].kind),
        forall|k: int| 0 <= k < after.oprs@.len() ==> (#[trigger] after.oprs@[k]).sink == before.oprs@[k].sink
            && after.oprs@[k].inst == before.oprs@[k].inst
            && same_shape(before.oprs@[k].kind, after.oprs@[k].kind),
        forall|k: int| 0 <= k < after.oprs@.len() && !ops.contains(k as usize) ==> #[trigger] after.oprs@[k] == before.oprs@[k],
        forall|v: int| 0 <= v < after.vars@.len() && !scc.components@[c]@.contains(v as usize) ==> #[trigger] after.vars@[v] == before.vars@[v],
        forall|j: int| 0 <= j < ops.len() ==> #[trigger] post_holds(after, ops[j] as int),
        forall|j: int| 0 <= j < scc.components@[c]@.len() ==> (#[trigger] after.vars@[scc.components@[c]@[j] as int]).interval.rtype != RangeType::Unknown,
        forall|k: int| 0 <= k < before.oprs@.len() && scc.components@[c]@.contains(#[trigger] before.oprs@[k].sink) ==> ops.contains(k as usize),
        forall|j: int| 0 <= j < ops.len() ==> scc.components@[c]@.contains(#[trigger] before.oprs@[ops[j] as int].sink),
        forall|k: int| 0 <= k < before.oprs@.len() && scc.comp_of@[before.oprs@[k].sink as int] < c ==> #[trigger] post_holds(before, k),
        forall|v: int| 0 <= v < g0.vars@.len() && scc.comp_of@[v] < c ==> (#[trigger] before.vars@[v]).interval.rtype != RangeType::Unknown,
    ensures
        forall|k: int| 0 <= k < after.oprs@.len() ==> (#[trigger] after.oprs@[k]).sink == g0.oprs@[k].sink
            && after.oprs@[k].inst == g0.oprs@[k].inst
            && same_shape(g0.oprs@[k].kind, after.oprs@[k].kind),
        forall|k: int| 0 <= k < after.oprs@.len() && scc.comp_of@[after.oprs@[k].sink as int] < c + 1 ==> #[trigger] post_holds(after, k),
        forall|v: int| 0 <= v < g0.vars@.len() && scc.comp_of@[v] < c + 1 ==> (#[trigger] after.vars@[v]).interval.rtype != RangeType::Unknown,
{
    let comp = scc.components@[c]@;
    assert(after.oprs@.len() <= usize::MAX) by {
        assert(after.oprs@.len() == after.oprs.len());
    }
    assert forall|v: int| 0 <= v < g0.vars@.len() && scc.comp_of@[v] != c implies !comp.contains(v as usize) by {
        if comp.contains(v as usize) {
            let j = choose|j: int| 0 <= j < comp.len() && comp[j] == v as usize;
            assert(scc.comp_of@[scc.components@[c]@[j] as int] == c);
        }
    }
    assert forall|v: int| 0 <= v < g0.vars@.len() && scc.comp_of@[v] == c implies comp.contains(v as usize) by {
        assert(scc.components@[scc.comp_of@[v] as int]@.contains(v as usize));
    }
    assert forall|k: int| 0 <= k < after.oprs@.len() && scc.comp_of@[after.oprs@[k].sink as int] < c + 1 implies #[trigger] post_holds(after, k) by {
        let sink = after.oprs@[k].sink as int;
        assert(sink < g0.vars@.len());
        assert(before.oprs@[k].sink == after.oprs@[k].sink);
        if scc.comp_of@[sink] == c {
            assert(comp.contains(sink as usize));
            assert(comp.contains(before.oprs@[k].sink));
            assert(ops.contains(k as usize));
            let j = choose|j: int| 0 <= j < ops.len() && ops[j] == k as usize;
            assert(ops[j] as int == k);
            assert(post_holds(after, ops[j] as int));
        } else {
            assert(before.oprs@[k].sink == after.oprs@[k].sink);
            assert(!comp.contains(sink as usize));
            assert(!ops.contains(k as usize)) by {
                if ops.contains(k as usize) {
                    let j = choose|j: int| 0 <= j < ops.len() && ops[j] == k as usize;
                    assert(ops[j] as int == k);
                    assert(comp.contains(before.oprs@[ops[j] as int].sink));
                }
            }
            assert(after.oprs@[k] == before.oprs@[k]);
            let kind = before.oprs@[k].kind;
            assert forall|u: int| 0 <= u < after.vars@.len() && reads(kind, u) implies #[trigger] after.vars@[u].interval == before.vars@[u].interval by {
                assert(g0.oprs@[k].sink == sink);
                assert(reads(g0.oprs@[k].kind, u)) by {
                    lemma_same_shape_reads(g0.oprs@[k].kind, kind, u);
                }
                assert(depends(g0, u, sink));
                assert(scc.comp_of@[u] <= scc.comp_of@[sink]);
                assert(!comp.contains(u as usize));
            }
            assert(!comp.contains(sink as usize));
            assert(kind_ok(kind, after.vars@.len()));
            assert(after.vars@[sink] == before.vars@[sink]);
            assert(post_holds(before, k));
            lemma_eval_frame(kind, after.vars@, before.vars@);
        }
    }
    assert forall|v: int| 0 <= v < g0.vars@.len() && scc.comp_of@[v] < c + 1 implies (#[trigger] after.vars@[v]).interval.rtype != RangeType::Unknown by {
        if scc.comp_of@[v] == c {
            assert(comp.contains(v as usize));
            let j = choose|j: int| 0 <= j < comp.len() && comp[j] == v as usize;
            assert(after.vars@[scc.components@[c]@[j] as int].interval.rtype != RangeType::Unknown);
        } else {
            assert(!comp.contains(v as usize));
        }
    }
}

/// Kinds of the same shape read the same variables.
proof fn lemma_same_shape_reads(a: OpKind, b: OpKind, u: int)
    requires
        same_shape(a, b),
    ensures
        reads(a, u) == reads(b, u),
{
}

/// One widening step: the sink of operation `k` becomes its range widened
/// by the operation's value.
pub open spec fn widen_step(oprs: Seq<BasicOp>, vars: Seq<VarNode>, k: int) -> Seq<VarNode> {
    let v = oprs[k].sink as int;
    vars.update(v, node_with_interval(vars[v], vars[v].interval.widen_spec(eval_spec(oprs[k].kind, vars))))
}

/// The widening steps of the first `j` operations of `ops`, in order.
pub open spec fn widen_steps(oprs: Seq<BasicOp>, vars: Seq<VarNode>, ops: Seq<usize>, j: int) -> Seq<VarNode>
    decreases j,
{
    if j <= 0 {
        vars
    } else {
        widen_step(oprs, widen_steps(oprs, vars, ops, j - 1), ops[j - 1] as int)
    }
}

/// `n` widening rounds over `ops`.
pub open spec fn widen_rounds(oprs: Seq<BasicOp>, vars: Seq<VarNode>, ops: Seq<usize>, n: nat) -> Seq<VarNode>
    decreases n,
{
    if n == 0 {
        vars
    } else {
        widen_steps(oprs, widen_rounds(oprs, vars, ops, (n - 1) as nat), ops, ops.len() as int)
    }
}

/// One narrowing step: the sink of operation `k` becomes its range narrowed
/// by the operation's value.
pub open spec fn narrow_step(oprs: Seq<BasicOp>, vars: Seq<VarNode>, k: int) -> Seq<VarNode> {
    let v = oprs[k].sink as int;
    vars.update(v, node_with_interval(vars[v], vars[v].interval.narrow_spec(eval_spec(oprs[k].kind, vars))))
}

/// The narrowing steps of the first `j` operations of `ops`, in order.
pub open spec fn narrow_steps(oprs: Seq<BasicOp>, vars: Seq<VarNode>, ops: Seq<usize>, j: int) -> Seq<VarNode>
    decreases j,
{
    if j <= 0 {
        vars
    } else {
        narrow_step(oprs, narrow_steps(oprs, vars, ops, j - 1), ops[j - 1] as int)
    }
}

/// `n` narrowing rounds over `ops`.
pub open spec fn narrow_rounds(oprs: Seq<BasicOp>, vars: Seq<VarNode>, ops: Seq<usize>, n: nat) -> Seq<VarNode>
    decreases n,
{
    if n == 0 {
        vars
    } else {
        narrow_steps(oprs, narrow_rounds(oprs, vars, ops, (n - 1) as nat), ops, ops.len() as int)
    }
}

/// The operations that define the variables of the first `j` entries of
/// `comp`, in order.
pub open spec fn comp_ops_spec(defmap: Seq<Option<usize>>, comp: Seq<usize>, j: int) -> Seq<usize>
    decreases j,
{
    if j <= 0 {
        Seq::empty()
    } else {
        let prev = comp_ops_spec(defmap, comp, j - 1);
        match defmap[comp[j - 1] as int] {
            Some(k) => prev.push(k),
            None => prev,
        }
    }
}

/// The variables of `comp` whose range is unknown take the full range.
pub open spec fn default_spec(vars: Seq<VarNode>, comp: Seq<usize>) -> Seq<VarNode> {
    Seq::new(vars.len(), |v: int| if comp.contains(v as usize) && vars[v].interval.rtype == RangeType::Unknown {
        node_with_interval(vars[v], full_range())
    } else {
        vars[v]
    })
}

/// The variables of `comp` take the full range.
pub open spec fn saturate_spec(vars: Seq<VarNode>, comp: Seq<usize>) -> Seq<VarNode> {
    Seq::new(vars.len(), |v: int| if comp.contains(v as usize) {
        node_with_interval(vars[v], full_range())
    } else {
        vars[v]
    })
}

/// Operation `k` passes the inclusion test of its value in its sink's range.
pub open spec fn passes(oprs: Seq<BasicOp>, vars: Seq<VarNode>, k: int) -> bool {
    eval_spec(oprs[k].kind, vars).within_test(vars[oprs[k].sink as int].interval)
}

/// Every operation of `ops` passes the inclusion test.
pub open spec fn check_spec(oprs: Seq<BasicOp>, vars: Seq<VarNode>, ops: Seq<usize>) -> bool {
    forall|j: int| 0 <= j < ops.len() ==> #[trigger] passes(oprs, vars, ops[j] as int)
}

/// A kind with its symbolic interval, if any, resolved against `vars`.
pub open spec fn resolve_kind(k: OpKind, vars: Seq<VarNode>) -> OpKind {
    match k {
        OpKind::Sigma(a, Intersect::Symb(si)) => OpKind::Sigma(
            a,
            Intersect::Symb(SymbInterval { range: symb_range(si.predicate, vars[si.bound as int].interval), ..si }),
        ),
        _ => k,
    }
}

/// The operations of `ops` with their symbolic intervals resolved against
/// `vars`; the others as they are.
pub open spec fn fix_spec(oprs: Seq<BasicOp>, ops: Seq<usize>, vars: Seq<VarNode>) -> Seq<BasicOp> {
    Seq::new(oprs.len(), |k: int| if ops.contains(k as usize) {
        BasicOp { kind: resolve_kind(oprs[k].kind, vars), ..oprs[k] }
    } else {
        oprs[k]
    })
}

/// The nodes of `b` are those of `a` with at most their ranges changed.
pub open spec fn same_nodes(a: Seq<VarNode>, b: Seq<VarNode>) -> bool {
    &&& a.len() == b.len()
    &&& forall|v: int| #![trigger b[v]] 0 <= v < a.len() ==> b[v].v == a[v].v && b[v].abstract_state == a[v].abstract_state
}

/// `w` is the stable widening iterate of `vars` over `ops`: reached within
/// the round bound, and left as it is by one more round.
pub open spec fn widened(oprs: Seq<BasicOp>, vars: Seq<VarNode>, ops: Seq<usize>, w: Seq<VarNode>) -> bool {
    &&& exists|n: nat| n <= 4 * ops.len() + 1 && #[trigger] widen_rounds(oprs, vars, ops, n) == w
    &&& widen_steps(oprs, w, ops, ops.len() as int) == w
}

/// `w` is the stable narrowing iterate of `vars` over `ops`.
pub open spec fn narrowed(oprs: Seq<BasicOp>, vars: Seq<VarNode>, ops: Seq<usize>, w: Seq<VarNode>) -> bool {
    &&& exists|n: nat| n <= 3 * ops.len() + 1 && #[trigger] narrow_rounds(oprs, vars, ops, n) == w
    &&& narrow_steps(oprs, w, ops, ops.len() as int) == w
}

/// The component `comp` is one variable whose single defining operation
/// neither reads it nor is bounded by it.
pub open spec fn acyclic_single(oprs: Seq<BasicOp>, comp: Seq<usize>, ops: Seq<usize>) -> bool {
    &&& comp.len() == 1
    &&& ops.len() == 1
    &&& !reads(oprs[ops[0] as int].kind, comp[0] as int)
    &&& crate::graph::bound_of(oprs[ops[0] as int].kind) != Some(comp[0])
}

/// One of `ops` is a sigma operation.
pub open spec fn has_sigma_spec(oprs: Seq<BasicOp>, ops: Seq<usize>) -> bool {
    exists|j: int| 0 <= j < ops.len() && (#[trigger] oprs[ops[j] as int].kind) is Sigma
}

/// What solving component `comp` (defined by `ops`) gives before the final
/// check, from operations `oprs0` and ranges `vars0`: symbolic intervals are
/// resolved; an acyclic single variable takes its operation's value; any
/// other component takes its stable widening iterate, has its symbolic
/// intervals resolved again, its unknown ranges made full, and, when it holds
/// a sigma, is narrowed to its stable narrowing iterate.
pub open spec fn solved_before_check(
    oprs0: Seq<BasicOp>,
    vars0: Seq<VarNode>,
    comp: Seq<usize>,
    ops: Seq<usize>,
    oprs_f: Seq<BasicOp>,
    vars_f: Seq<VarNode>,
) -> bool {
    let oprs1 = fix_spec(oprs0, ops, vars0);
    if acyclic_single(oprs1, comp, ops) {
        let k = ops[0] as int;
        let v = oprs1[k].sink as int;
        &&& oprs_f == oprs1
        &&& vars_f == default_spec(vars0.update(v, node_with_interval(vars0[v], eval_spec(oprs1[k].kind, vars0))), comp)
    } else {
        exists|w: Seq<VarNode>| #[trigger] widened(oprs1, vars0, ops, w) && oprs_f == fix_spec(oprs1, ops, w) && (if has_sigma_spec(oprs_f, ops) {
            narrowed(oprs_f, default_spec(w, comp), ops, vars_f)
        } else {
            vars_f == default_spec(w, comp)
        })
    }
}

/// What solving component `comp` gives: the result of
/// `solved_before_check`, kept when every operation passes the inclusion
/// test, else with the component's ranges made full.
pub open spec fn component_solved(
    oprs0: Seq<BasicOp>,
    vars0: Seq<VarNode>,
    comp: Seq<usize>,
    ops: Seq<usize>,
    oprs_f: Seq<BasicOp>,
    vars_f: Seq<VarNode>,
) -> bool {
    exists|vars_m: Seq<VarNode>| #[trigger] solved_before_check(oprs0, vars0, comp, ops, oprs_f, vars_m) && vars_f == (if check_spec(oprs_f, vars_m, ops) {
        vars_m
    } else {
        saturate_spec(vars_m, comp)
    })
}

/// How many of the first `n` components hold one variable.
pub open spec fn count_single(comps: Seq<Vec<usize>>, n: int) -> int
    decreases n,
{
    if n <= 0 {
        0
    } else {
        count_single(comps, n - 1) + (if comps[n - 1]@.len() == 1 { 1int } else { 0int })
    }
}

/// The size of the largest of the first `n` components.
pub open spec fn max_size(comps: Seq<Vec<usize>>, n: int) -> int
    decreases n,
{
    if n <= 0 {
        0
    } else if comps[n - 1]@.len() > max_size(comps, n - 1) {
        comps[n - 1]@.len() as int
    } else {
        max_size(comps, n - 1)
    }
}

/// `states` runs from `g0` to `g`, one component of `scc` after another in
/// its order, each step as `component_solved` says, and `stats` counts the
/// components of `scc`.
pub open spec fn solved_by(
    g0: ConstraintGraph,
    g: ConstraintGraph,
    stats: SccStats,
    scc: Nuutila,
    states: Seq<(Seq<BasicOp>, Seq<VarNode>)>,
) -> bool {
    let comps = scc.components@;
    &&& scc.wf(g0)
    &&& states.len() == comps.len() + 1
    &&& states[0] == (g0.oprs@, g0.vars@)
    &&& states[comps.len() as int] == (g.oprs@, g.vars@)
    &&& forall|i: int| 0 <= i < comps.len() ==> #[trigger] component_solved(states[i].0, states[i].1, comps[i]@,
        comp_ops_spec(g0.defmap@, comps[i]@, comps[i]@.len() as int), states[i + 1].0, states[i + 1].1)
    &&& stats.num_sccs == comps.len()
    &&& stats.num_alone_sccs == count_single(comps, comps.len() as int)
    &&& stats.size_max_scc == max_size(comps, comps.len() as int)
}

/// `g` is `g0` solved component by component in some order of its
/// components where dependencies come first (`Nuutila::wf`), as
/// `solved_by` says.
pub open spec fn solved_in_order(g0: ConstraintGraph, g: ConstraintGraph, stats: SccStats) -> bool {
    exists|scc: Nuutila, states: Seq<(Seq<BasicOp>, Seq<VarNode>)>| #[trigger] solved_by(g0, g, stats, scc, states)
}

/// A widening step leaves every range within the new one.
proof fn lemma_widen_step_grows(oprs: Seq<BasicOp>, vars: Seq<VarNode>, k: int)
    requires
        0 <= k < oprs.len(),
        oprs[k].sink < vars.len(),
    ensures
        widen_step(oprs, vars, k).len() == vars.len(),
        forall|v: int| 0 <= v < vars.len() ==> (#[trigger] vars[v]).interval.within(widen_step(oprs, vars, k)[v].interval),
{
    let w = widen_step(oprs, vars, k);
    assert forall|v: int| 0 <= v < vars.len() implies (#[trigger] vars[v]).interval.within(w[v].interval) by {
        if v == oprs[k].sink as int {
            let a = vars[v].interval;
            let r = a.widen_spec(eval_spec(oprs[k].kind, vars));
            assert forall|x: int| #[trigger] a.contains(x) implies r.contains(x) by {}
        }
    }
}

/// A narrowing step leaves every range within the old one.
proof fn lemma_narrow_step_shrinks(oprs: Seq<BasicOp>, vars: Seq<VarNode>, k: int)
    requires
        0 <= k < oprs.len(),
        oprs[k].sink < vars.len(),
    ensures
        narrow_step(oprs, vars, k).len() == vars.len(),
        forall|v: int| 0 <= v < vars.len() ==> (#[trigger] narrow_step(oprs, vars, k)[v]).interval.within(vars[v].interval),
{
    let w = narrow_step(oprs, vars, k);
    assert forall|v: int| 0 <= v < vars.len() implies (#[trigger] w[v]).interval.within(vars[v].interval) by {
        if v == oprs[k].sink as int {
            let a = vars[v].interval;
            let r = a.narrow_spec(eval_spec(oprs[k].kind, vars));
            assert forall|x: int| #[trigger] r.contains(x) implies a.contains(x) by {}
        }
    }
}

proof fn lemma_widen_steps_grow(oprs: Seq<BasicOp>, vars: Seq<VarNode>, ops: Seq<usize>, j: int)
    requires
        0 <= j <= ops.len(),
        forall|i: int| 0 <= i < ops.len() ==> #[trigger] ops[i] < oprs.len() && oprs[ops[i] as int].sink < vars.len(),
    ensures
        widen_steps(oprs, vars, ops, j).len() == vars.len(),
        forall|v: int| 0 <= v < vars.len() ==> (#[trigger] vars[v]).interval.within(widen_steps(oprs, vars, ops, j)[v].interval),
    decreases j,
{
    if j > 0 {
        lemma_widen_steps_grow(oprs, vars, ops, j - 1);
        let prev = widen_steps(oprs, vars, ops, j - 1);
        assert(ops[j - 1] < oprs.len());
        lemma_widen_step_grows(oprs, prev, ops[j - 1] as int);
        assert forall|v: int| 0 <= v < vars.len() implies (#[trigger] vars[v]).interval.within(widen_steps(oprs, vars, ops, j)[v].interval) by {
            assert(vars[v].interval.within(prev[v].interval));
            assert(prev[v].interval.within(widen_steps(oprs, vars, ops, j)[v].interval));
        }
    }
}

proof fn lemma_narrow_steps_shrink(oprs: Seq<BasicOp>, vars: Seq<VarNode>, ops: Seq<usize>, j: int)
    requires
        0 <= j <= ops.len(),
        forall|i: int| 0 <= i < ops.len() ==> #[trigger] ops[i] < oprs.len() && oprs[ops[i] as int].sink < vars.len(),
    ensures
        narrow_steps(oprs, vars, ops, j).len() == vars.len(),
        forall|v: int| 0 <= v < vars.len() ==> (#[trigger] narrow_steps(oprs, vars, ops, j)[v]).interval.within(vars[v].interval),
    decreases j,
{
    if j > 0 {
        lemma_narrow_steps_shrink(oprs, vars, ops, j - 1);
        let prev = narrow_steps(oprs, vars, ops, j - 1);
        assert(ops[j - 1] < oprs.len());
        lemma_narrow_step_shrinks(oprs, prev, ops[j - 1] as int);
        assert forall|v: int| 0 <= v < vars.len() implies (#[trigger] narrow_steps(oprs, vars, ops, j)[v]).interval.within(vars[v].interval) by {
            assert(narrow_steps(oprs, vars, ops, j)[v].interval.within(prev[v].interval));
            assert(prev[v].interval.within(vars[v].interval));
        }
    }
}

/// Monotone convergence, widening half: from one widening round to the
/// next, every variable's range only grows (each round's ranges lie within
/// the next round's).
pub proof fn lemma_widening_grows(oprs: Seq<BasicOp>, vars: Seq<VarNode>, ops: Seq<usize>, n: nat)
    requires
        forall|i: int| 0 <= i < ops.len() ==> #[trigger] ops[i] < oprs.len() && oprs[ops[i] as int].sink < vars.len(),
    ensures
        widen_rounds(oprs, vars, ops, n).len() == vars.len(),
        forall|v: int| 0 <= v < vars.len() ==> (#[trigger] widen_rounds(oprs, vars, ops, n)[v]).interval.within(
            widen_rounds(oprs, vars, ops, n + 1)[v].interval),
    decreases n,
{
    if n > 0 {
        lemma_widening_grows(oprs, vars, ops, (n - 1) as nat);
        lemma_widen_steps_grow(oprs, widen_rounds(oprs, vars, ops, (n - 1) as nat), ops, ops.len() as int);
    }
    let cur = widen_rounds(oprs, vars, ops, n);
    assert(cur.len() == vars.len());
    lemma_widen_steps_grow(oprs, cur, ops, ops.len() as int);
    assert(widen_rounds(oprs, vars, ops, n + 1) == widen_steps(oprs, cur, ops, ops.len() as int));
}

/// Monotone convergence, narrowing half: from one narrowing round to the
/// next, every variable's range only shrinks.
pub proof fn lemma_narrowing_shrinks(oprs: Seq<BasicOp>, vars: Seq<VarNode>, ops: Seq<usize>, n: nat)
    requires
        forall|i: int| 0 <= i < ops.len() ==> #[trigger] ops[i] < oprs.len() && oprs[ops[i] as int].sink < vars.len(),
    ensures
        narrow_rounds(oprs, vars, ops, n).len() == vars.len(),
        forall|v: int| 0 <= v < vars.len() ==> (#[trigger] narrow_rounds(oprs, vars, ops, n + 1)[v]).interval.within(
            narrow_rounds(oprs, vars, ops, n)[v].interval),
    decreases n,
{
    if n > 0 {
        lemma_narrowing_shrinks(oprs, vars, ops, (n - 1) as nat);
        lemma_narrow_steps_shrink(oprs, narrow_rounds(oprs, vars, ops, (n - 1) as nat), ops, ops.len() as int);
    }
    let cur = narrow_rounds(oprs, vars, ops, n);
    assert(cur.len() == vars.len());
    lemma_narrow_steps_shrink(oprs, cur, ops, ops.len() as int);
    assert(narrow_rounds(oprs, vars, ops, n + 1) == narrow_steps(oprs, cur, ops, ops.len() as int));
}

} // verus!
