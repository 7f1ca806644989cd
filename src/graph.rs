//! The constraint graph: one operation per assignment of an SSA body, linking
//! the variables it reads to the variable it defines.
use vstd::prelude::*;
use crate::cfg::{BinOp, Body, Expr, Instruction, Operand, Statement, UnOp, operand_ok, stmt_ok};
use crate::range::{Range, RangeType, MAX, MIN, bounded};
use crate::sigma::{flip, flip_spec, negate, negate_spec};

verus! {

/// A literal interval attached to an operation.
#[derive(Clone, Copy, Debug, PartialEq, Eq, Structural)]
pub struct BasicInterval {
    pub range: Range,
}

/// An interval known only through another variable: the sink stands in the
/// relation `predicate` to the variable `bound`. Its range is unknown until
/// the range of `bound` is.
#[derive(Clone, Copy, Debug, PartialEq, Eq, Structural)]
pub struct SymbInterval {
    pub range: Range,
    pub bound: usize,
    pub predicate: BinOp,
}

/// The constraint that a sigma operation carries.
#[derive(Clone, Copy, Debug, PartialEq, Eq, Structural)]
pub enum Intersect {
    Basic(BasicInterval),
    Symb(SymbInterval),
}

/// The kinds of operation.
#[derive(Clone, Debug)]
pub enum OpKind {
    /// A copy (no operator) or a unary operator applied to one source.
    Unary(Option<UnOp>, Operand),
    Binary(BinOp, Operand, Operand),
    Phi(Vec<Operand>),
    /// A copy of the source, cut down to the constraint.
    Sigma(Operand, Intersect),
}

/// An operation of the graph: what it computes, the variable it defines, and
/// the statement it comes from.
#[derive(Clone, Debug)]
pub struct BasicOp {
    pub kind: OpKind,
    pub sink: usize,
    pub inst: Instruction,
}

/// A variable with its current range and sign.
#[derive(Clone, Copy, Debug, PartialEq, Eq, Structural)]
pub struct VarNode {
    pub v: usize,
    pub interval: Range,
    /// One of '0', '+', '-' and '?'.
    pub abstract_state: char,
}

pub struct ConstraintGraph {
    /// One node per variable, indexed by the variable.
    pub vars: Vec<VarNode>,
    pub oprs: Vec<BasicOp>,
    /// `defmap[v]`: the operation that defines `v`.
    pub defmap: Vec<Option<usize>>,
    /// `usemap[v]`: the operations that read `v`.
    pub usemap: Vec<Vec<usize>>,
    /// `symbmap[v]`: the operations whose constraint is bound by `v`.
    pub symbmap: Vec<Vec<usize>>,
}

/// Why an SSA body does not give a constraint graph.
#[derive(Clone, Copy, Debug, PartialEq, Eq, Structural)]
pub enum GraphError {
    /// The variable is assigned twice.
    Redefined(usize),
}

/// The values `v` with `v op c`, where the relation can be held by an
/// interval; other relations give an unknown range (no constraint).
pub open spec fn constraint_range(op: BinOp, c: i64) -> Range {
    match op {
        BinOp::Lt => if c == MIN {
            Range { rtype: RangeType::Empty, lower: MIN, upper: MIN }
        } else {
            bounded(MIN as int, c - 1)
        },
        BinOp::Le => bounded(MIN as int, c as int),
        BinOp::Gt => if c == MAX {
            Range { rtype: RangeType::Empty, lower: MAX, upper: MAX }
        } else {
            bounded(c + 1, MAX as int)
        },
        BinOp::Ge => bounded(c as int, MAX as int),
        BinOp::Eq => bounded(c as int, c as int),
        _ => Range { rtype: RangeType::Unknown, lower: MIN, upper: MAX },
    }
}

/// Whether `x op y` holds, for a comparison.
pub open spec fn holds(op: BinOp, x: int, y: int) -> bool {
    match op {
        BinOp::Lt => x < y,
        BinOp::Le => x <= y,
        BinOp::Gt => x > y,
        BinOp::Ge => x >= y,
        BinOp::Eq => x == y,
        BinOp::Ne => x != y,
        _ => true,
    }
}

/// The relation that a branch outcome gives the variable side of a
/// comparison with a constant.
pub open spec fn branch_relation(cmp_op: BinOp, is_true_branch: bool, const_in_left: bool) -> BinOp {
    let op = if const_in_left { flip_spec(cmp_op) } else { cmp_op };
    if is_true_branch { op } else { negate_spec(op) }
}

/// The ranges that the two outcomes of `op1 cmp_op op2` give its variable
/// side when the other side is a constant; no range otherwise.
pub open spec fn branch_ranges(op1: Operand, op2: Operand, cmp_op: BinOp) -> (Range, Range) {
    match (op1, op2) {
        (Operand::Const(c), Operand::Var(_)) => (
            branch_constraint(cmp_op, true, true, c),
            branch_constraint(cmp_op, false, true, c),
        ),
        (Operand::Var(_), Operand::Const(c)) => (
            branch_constraint(cmp_op, true, false, c),
            branch_constraint(cmp_op, false, false, c),
        ),
        _ => (
            Range { rtype: RangeType::Unknown, lower: MIN, upper: MAX },
            Range { rtype: RangeType::Unknown, lower: MIN, upper: MAX },
        ),
    }
}

/// The range a branch outcome gives the variable side of `a cmp_op c`: the
/// one of `branch_relation` for `<`, `<=`, `>`, `>=` and `==`; no range for
/// any other operator.
pub open spec fn branch_constraint(cmp_op: BinOp, is_true_branch: bool, const_in_left: bool, c: i64) -> Range {
    if crate::sigma::is_comparison(cmp_op) {
        constraint_range(branch_relation(cmp_op, is_true_branch, const_in_left), c)
    } else {
        Range { rtype: RangeType::Unknown, lower: MIN, upper: MAX }
    }
}

/// The range of an operand when each variable has the range in `vars`.
pub open spec fn operand_range(o: Operand, vars: Seq<VarNode>) -> Range {
    match o {
        Operand::Const(c) => Range { rtype: RangeType::Regular, lower: c, upper: c },
        Operand::Var(v) => vars[v as int].interval,
    }
}

/// The operation that an assignment of expression `e` gives.
pub open spec fn op_of_expr(e: Expr, k: OpKind) -> bool {
    match e {
        Expr::Use(a) => k == OpKind::Unary(None, a),
        Expr::Unary(u, a) => k == OpKind::Unary(Some(u), a),
        Expr::Binary(b, x, y) => k == OpKind::Binary(b, x, y),
        Expr::Phi(v) => k matches OpKind::Phi(w) && w@ == v@,
        Expr::Sigma(a, rel, b) => match b {
            Operand::Const(c) => k == OpKind::Sigma(
                a,
                Intersect::Basic(BasicInterval { range: constraint_range(rel, c) }),
            ),
            Operand::Var(w) => k == OpKind::Sigma(
                a,
                Intersect::Symb(SymbInterval {
                    range: Range { rtype: RangeType::Unknown, lower: MIN, upper: MAX },
                    bound: w,
                    predicate: rel,
                }),
            ),
        },
    }
}

/// The variables an operation reads.
pub open spec fn reads(k: OpKind, v: int) -> bool {
    match k {
        OpKind::Unary(_, a) => a == Operand::Var(v as usize),
        OpKind::Binary(_, a, b) => a == Operand::Var(v as usize) || b == Operand::Var(v as usize),
        OpKind::Phi(w) => w@.contains(Operand::Var(v as usize)),
        OpKind::Sigma(a, _) => a == Operand::Var(v as usize),
    }
}

/// The variable that bounds an operation's constraint, if any.
pub open spec fn bound_of(k: OpKind) -> Option<usize> {
    match k {
        OpKind::Sigma(_, Intersect::Symb(s)) => Some(s.bound),
        _ => None,
    }
}

/// The range of a sigma's constraint.
pub open spec fn intersect_range(i: Intersect) -> Range {
    match i {
        Intersect::Basic(b) => b.range,
        Intersect::Symb(s) => s.range,
    }
}

impl ConstraintGraph {
    /// The range for the variable side of `a cmp_op c` on one branch
    /// outcome, where `c` is the constant side (on the left when
    /// `const_in_left`). Equality gives `[c, c]` when it holds and no
    /// constraint when it does not.
    pub fn apply_comparison(constant: i64, cmp_op: BinOp, is_true_branch: bool, const_in_left: bool) -> (r: Range)
        ensures
            r == branch_constraint(cmp_op, is_true_branch, const_in_left, constant),
            r.wf(),
    {
        match cmp_op {
            BinOp::Lt | BinOp::Le | BinOp::Gt | BinOp::Ge | BinOp::Eq => {},
            _ => {
                return Range::unknown();
            },
        }
        let op0 = if const_in_left { flip(cmp_op) } else { cmp_op };
        let op = if is_true_branch { op0 } else { negate(op0) };
        match op {
            BinOp::Lt => {
                if constant == MIN {
                    Range::with_bounds(MIN, MIN, RangeType::Empty)
                } else {
                    Range::with_bounds(MIN, constant - 1, RangeType::Regular)
                }
            },
            BinOp::Le => Range::with_bounds(MIN, constant, RangeType::Regular),
            BinOp::Gt => {
                if constant == MAX {
                    Range::with_bounds(MAX, MAX, RangeType::Empty)
                } else {
                    Range::with_bounds(constant + 1, MAX, RangeType::Regular)
                }
            },
            BinOp::Ge => Range::with_bounds(constant, MAX, RangeType::Regular),
            BinOp::Eq => Range::with_bounds(constant, constant, RangeType::Regular),
            _ => Range::unknown(),
        }
    }

    /// The ranges that the two outcomes of `op1 cmp_op op2` give the
    /// variable side of a comparison with a constant. A comparison of two
    /// constants gives no range, and neither does one of two variables: each
    /// of those gets a symbolic interval bound to the other, on the sigma
    /// copies that `insert_sigmas` places (`sigmas_spec`) and that
    /// `build_graph` turns into operations (`op_of_expr`).
    pub fn calculate_ranges(op1: Operand, op2: Operand, cmp_op: BinOp) -> (r: (Range, Range))
        ensures
            r == branch_ranges(op1, op2, cmp_op),
    {
        match (op1, op2) {
            (Operand::Const(c), Operand::Var(_)) => (
                Self::apply_comparison(c, cmp_op, true, true),
                Self::apply_comparison(c, cmp_op, false, true),
            ),
            (Operand::Var(_), Operand::Const(c)) => (
                Self::apply_comparison(c, cmp_op, true, false),
                Self::apply_comparison(c, cmp_op, false, false),
            ),
            _ => (Range::unknown(), Range::unknown()),
        }
    }
}

/// The ranges of a phi's operands joined together.
pub open spec fn join_operands(s: Seq<Operand>, vars: Seq<VarNode>, n: int) -> Range
    decreases n,
{
    if n <= 0 {
        Range { rtype: RangeType::Unknown, lower: MIN, upper: MAX }
    } else {
        join_operands(s, vars, n - 1).union_spec(operand_range(s[n - 1], vars))
    }
}

/// A binary operator on ranges: sums and differences bound by bound,
/// comparisons give `[0, 1]`, and other operators every value.
pub open spec fn binary_spec(op: BinOp, a: Range, b: Range) -> Range {
    if op == BinOp::Add {
        a.add_spec(b)
    } else if op == BinOp::Sub {
        a.sub_spec(b)
    } else if a.rtype == RangeType::Empty || b.rtype == RangeType::Empty {
        Range { rtype: RangeType::Empty, ..a }
    } else if a.rtype == RangeType::Unknown || b.rtype == RangeType::Unknown {
        Range { rtype: RangeType::Unknown, ..a }
    } else if op == BinOp::Mul || op == BinOp::Div || op == BinOp::Rem {
        Range { rtype: RangeType::Regular, lower: MIN, upper: MAX }
    } else {
        Range { rtype: RangeType::Regular, lower: 0, upper: 1 }
    }
}

/// What an operation evaluates to when each variable has the range in `vars`.
pub open spec fn eval_spec(k: OpKind, vars: Seq<VarNode>) -> Range {
    match k {
        OpKind::Unary(None, a) => operand_range(a, vars),
        OpKind::Unary(Some(_), a) => operand_range(a, vars).neg_spec(),
        OpKind::Binary(op, a, b) => binary_spec(op, operand_range(a, vars), operand_range(b, vars)),
        OpKind::Phi(w) => join_operands(w@, vars, w@.len() as int),
        OpKind::Sigma(a, i) => if intersect_range(i).rtype == RangeType::Unknown {
            operand_range(a, vars)
        } else {
            operand_range(a, vars).intersect_spec(intersect_range(i))
        },
    }
}

/// Every operand names a node.
pub open spec fn kind_ok(k: OpKind, n: nat) -> bool {
    match k {
        OpKind::Unary(_, a) => operand_ok(a, n),
        OpKind::Binary(_, a, b) => operand_ok(a, n) && operand_ok(b, n),
        OpKind::Phi(w) => crate::cfg::operands_ok(w@, n),
        OpKind::Sigma(a, i) => operand_ok(a, n) && intersect_range(i).wf() && match i {
            Intersect::Symb(s) => s.bound < n,
            Intersect::Basic(_) => true,
        },
    }
}

impl ConstraintGraph {
    /// The graph is consistent: one node per variable, each with a sound
    /// range; operations name nodes; `defmap` is the inverse of the sinks,
    /// and the use and bound maps list exactly the operations that read or
    /// are bound by each variable.
    pub open spec fn wf(self) -> bool {
        let n = self.vars@.len();
        &&& self.defmap@.len() == n
        &&& self.usemap@.len() == n
        &&& self.symbmap@.len() == n
        &&& forall|v: int| 0 <= v < n ==> (#[trigger] self.vars@[v]).v == v && self.vars@[v].interval.wf()
        &&& forall|k: int| 0 <= k < self.oprs@.len() ==> (#[trigger] self.oprs@[k]).sink < n && kind_ok(self.oprs@[k].kind, n)
        &&& forall|v: int, k: int|
            0 <= v < n && 0 <= k < self.oprs@.len() ==> (#[trigger] self.defmap@[v] == Some(k as usize)
                <==> #[trigger] self.oprs@[k].sink == v)
        &&& forall|v: int| 0 <= v < n && (#[trigger] self.defmap@[v]) is Some ==> self.defmap@[v]->0 < self.oprs@.len()
        &&& forall|v: int, j: int| 0 <= v < n && 0 <= j < self.usemap@[v]@.len() ==> #[trigger] self.usemap@[v]@[j] < self.oprs@.len()
        &&& forall|v: int, j: int| 0 <= v < n && 0 <= j < self.symbmap@[v]@.len() ==> #[trigger] self.symbmap@[v]@[j] < self.oprs@.len()
        &&& forall|v: int, k: int|
            0 <= v < n && 0 <= k < self.oprs@.len() ==> ((#[trigger] self.usemap@[v]@.contains(k as usize))
                <==> reads(self.oprs@[k].kind, v))
        &&& forall|v: int, k: int|
            0 <= v < n && 0 <= k < self.oprs@.len() ==> ((#[trigger] self.symbmap@[v]@.contains(k as usize))
                <==> bound_of(self.oprs@[k].kind) == Some(v as usize))
    }

    /// `self` is the graph of `body`: one operation for each assignment, in
    /// the order of the body, each made from its statement.
    pub open spec fn built_from(self, body: Body) -> bool {
        &&& self.vars@.len() == body.num_vars
        &&& forall|v: int| 0 <= v < body.num_vars ==> (#[trigger] self.vars@[v]).interval.rtype == RangeType::Unknown
        &&& forall|k: int| 0 <= k < self.oprs@.len() ==> {
            let op = #[trigger] self.oprs@[k];
            let t = op.inst.block as int;
            let i = op.inst.index as int;
            &&& 0 <= t < body.n()
            &&& 0 <= i < body.blocks@[t].statements@.len()
            &&& body.blocks@[t].statements@[i] matches Statement::Assign(d, e) && d == op.sink && op_of_expr(e, op.kind)
        }
        &&& forall|t: int, i: int|
            0 <= t < body.n() && 0 <= i < body.blocks@[t].statements@.len() && (#[trigger] body.blocks@[t].statements@[i]) is Assign
                ==> exists|k: int| 0 <= k < self.oprs@.len() && #[trigger] self.oprs@[k].inst == (Instruction { block: t as usize, index: i as usize })
    }
}

/// Variable `v` is assigned by two different statements of `body`.
pub open spec fn redefined(body: Body, v: int) -> bool {
    exists|t1: int, i1: int, t2: int, i2: int|
        (t1, i1) != (t2, i2) && 0 <= t1 < body.n() && 0 <= t2 < body.n()
            && 0 <= i1 < body.blocks@[t1].statements@.len() && 0 <= i2 < body.blocks@[t2].statements@.len()
            && #[trigger] crate::ssa::assigns(body.blocks@[t1].statements@[i1], v)
            && #[trigger] crate::ssa::assigns(body.blocks@[t2].statements@[i2], v)
}

/// The operation that an expression gives.
fn op_kind(e: &Expr) -> (k: OpKind)
    ensures
        op_of_expr(*e, k),
{
    match e {
        Expr::Use(a) => OpKind::Unary(None, *a),
        Expr::Unary(u, a) => OpKind::Unary(Some(*u), *a),
        Expr::Binary(b, x, y) => OpKind::Binary(*b, *x, *y),
        Expr::Phi(v) => {
            let mut w: Vec<Operand> = Vec::new();
            let mut k: usize = 0;
            while k < v.len()
                invariant
                    k <= v@.len(),
                    w@ == v@.subrange(0, k as int),
                decreases v@.len() - k,
            {
                w.push(v[k]);
                k += 1;
                proof {
                    assert(w@ =~= v@.subrange(0, k as int));
                }
            }
            proof {
                assert(v@.subrange(0, v@.len() as int) =~= v@);
            }
            OpKind::Phi(w)
        },
        Expr::Sigma(a, rel, b) => match b {
            Operand::Const(c) => OpKind::Sigma(
                *a,
                Intersect::Basic(BasicInterval { range: ConstraintGraph::apply_comparison(*c, *rel, true, false) }),
            ),
            Operand::Var(w) => OpKind::Sigma(
                *a,
                Intersect::Symb(SymbInterval { range: Range::unknown(), bound: *w, predicate: *rel }),
            ),
        },
    }
}

/// Whether operation kind `k` reads variable `v`.
pub(crate) fn op_reads(k: &OpKind, v: usize) -> (r: bool)
    ensures
        r == reads(*k, v as int),
{
    match k {
        OpKind::Unary(_, a) => *a == Operand::Var(v),
        OpKind::Binary(_, a, b) => *a == Operand::Var(v) || *b == Operand::Var(v),
        OpKind::Phi(w) => {
            let mut j: usize = 0;
            while j < w.len()
                invariant
                    *k == OpKind::Phi(*w),
                    j <= w@.len(),
                    forall|i: int| 0 <= i < j ==> w@[i] != Operand::Var(v),
                decreases w@.len() - j,
            {
                if w[j] == Operand::Var(v) {
                    return true;
                }
                j += 1;
            }
            false
        },
        OpKind::Sigma(a, _) => *a == Operand::Var(v),
    }
}

impl ConstraintGraph {
    /// A graph with no node and no operation.
    pub fn new() -> (g: ConstraintGraph)
        ensures
            g.wf(),
            g.vars@.len() == 0,
            g.oprs@.len() == 0,
    {
        ConstraintGraph { vars: Vec::new(), oprs: Vec::new(), defmap: Vec::new(), usemap: Vec::new(), symbmap: Vec::new() }
    }

    /// Builds the graph of an SSA body: a node for each variable, with its
    /// range unknown, and an operation for each assignment. A variable
    /// assigned twice is refused.
    pub fn build_graph(body: &Body) -> (r: Result<ConstraintGraph, GraphError>)
        requires
            body.vars_ok(),
        ensures
            r matches Ok(g) ==> g.wf() && g.built_from(*body),
            r matches Err(GraphError::Redefined(v)) ==> redefined(*body, v as int),
    {
        let n = body.blocks.len();
        let nv = body.num_vars;
        let mut vars: Vec<VarNode> = Vec::new();
        let mut defmap: Vec<Option<usize>> = Vec::new();
        let mut v: usize = 0;
        while v < nv
            invariant
                v <= nv,
                vars@.len() == v,
                defmap@.len() == v,
                forall|w: int| 0 <= w < v ==> (#[trigger] vars@[w]).v == w && vars@[w].interval.wf()
                    && vars@[w].interval.rtype == RangeType::Unknown,
                forall|w: int| 0 <= w < v ==> (#[trigger] defmap@[w]) is None,
            decreases nv - v,
        {
            vars.push(VarNode { v, interval: Range::unknown(), abstract_state: '?' });
            defmap.push(None);
            v += 1;
        }
        let mut oprs: Vec<BasicOp> = Vec::new();
        let mut t: usize = 0;
        while t < n
            invariant
                body.vars_ok(),
                n == body.n(),
                nv == body.num_vars,
                t <= n,
                defmap@.len() == nv,
                forall|k: int| 0 <= k < oprs@.len() ==> {
                    let op = #[trigger] oprs@[k];
                    let b = op.inst.block as int;
                    let i = op.inst.index as int;
                    &&& 0 <= b < t
                    &&& 0 <= i < body.blocks@[b].statements@.len()
                    &&& body.blocks@[b].statements@[i] matches Statement::Assign(d, e) && d == op.sink && op_of_expr(e, op.kind)
                    &&& op.sink < nv
                    &&& kind_ok(op.kind, nv as nat)
                },
                forall|b: int, i: int|
                    0 <= b < t && 0 <= i < body.blocks@[b].statements@.len() && (#[trigger] body.blocks@[b].statements@[i]) is Assign
                        ==> exists|k: int| 0 <= k < oprs@.len() && #[trigger] oprs@[k].inst == (Instruction { block: b as usize, index: i as usize }),
                forall|w: int, k: int|
                    0 <= w < nv && 0 <= k < oprs@.len() ==> (#[trigger] defmap@[w] == Some(k as usize)
                        <==> #[trigger] oprs@[k].sink == w),
                forall|w: int| 0 <= w < nv && (#[trigger] defmap@[w]) is Some ==> defmap@[w]->0 < oprs@.len(),
            decreases n - t,
        {
            let st = &body.blocks[t].statements;
            let mut i: usize = 0;
            while i < st.len()
                invariant
                    body.vars_ok(),
                    n == body.n(),
                    nv == body.num_vars,
                    t < n,
                    st@ == body.blocks@[t as int].statements@,
                    i <= st@.len(),
                    defmap@.len() == nv,
                    forall|k: int| 0 <= k < oprs@.len() ==> {
                        let op = #[trigger] oprs@[k];
                        let b = op.inst.block as int;
                        let j = op.inst.index as int;
                        &&& (0 <= b < t || (b == t && 0 <= j < i))
                        &&& 0 <= b < n
                        &&& 0 <= j < body.blocks@[b].statements@.len()
                        &&& body.blocks@[b].statements@[j] matches Statement::Assign(d, e) && d == op.sink && op_of_expr(e, op.kind)
                        &&& op.sink < nv
                        &&& kind_ok(op.kind, nv as nat)
                    },
                    forall|b: int, j: int|
                        ((0 <= b < t && 0 <= j < body.blocks@[b].statements@.len()) || (b == t && 0 <= j < i))
                            && (#[trigger] body.blocks@[b].statements@[j]) is Assign
                            ==> exists|k: int| 0 <= k < oprs@.len() && #[trigger] oprs@[k].inst == (Instruction { block: b as usize, index: j as usize }),
                    forall|w: int, k: int|
                        0 <= w < nv && 0 <= k < oprs@.len() ==> (#[trigger] defmap@[w] == Some(k as usize)
                            <==> #[trigger] oprs@[k].sink == w),
                    forall|w: int| 0 <= w < nv && (#[trigger] defmap@[w]) is Some ==> defmap@[w]->0 < oprs@.len(),
                decreases st@.len() - i,
            {
                if let Statement::Assign(d, e) = &st[i] {
                    proof {
                        assert(stmt_ok(st@[i as int], nv as nat));
                    }
                    if let Some(k0) = defmap[*d] {
                        proof {
                            let op = oprs@[k0 as int];
                            assert(op.sink == *d);
                            let b = op.inst.block as int;
                            let j = op.inst.index as int;
                            assert(crate::ssa::assigns(body.blocks@[b].statements@[j], *d as int));
                            assert(crate::ssa::assigns(body.blocks@[t as int].statements@[i as int], *d as int));
                            assert((b, j) != (t as int, i as int));
                            assert(redefined(*body, *d as int));
                        }
                        return Err(GraphError::Redefined(*d));
                    }
                    let kind = op_kind(e);
                    proof {
                        lemma_kind_ok(*e, kind, nv as nat);
                    }
                    let k = oprs.len();
                    let ghost oprs0 = oprs@;
                    let ghost defmap0 = defmap@;
                    oprs.push(BasicOp { kind, sink: *d, inst: Instruction { block: t, index: i } });
                    defmap.set(*d, Some(k));
                    proof {
                        assert forall|w: int, kk: int|
                            0 <= w < nv && 0 <= kk < oprs@.len() implies (#[trigger] defmap@[w] == Some(kk as usize)
                                <==> #[trigger] oprs@[kk].sink == w) by {
                            if kk < k {
                                assert(oprs@[kk] == oprs0[kk]);
                                if w == *d as int {
                                    assert(defmap0[w] is None);
                                }
                            }
                        }
                        assert forall|b: int, j: int|
                            ((0 <= b < t && 0 <= j < body.blocks@[b].statements@.len()) || (b == t && 0 <= j < i + 1))
                                && (#[trigger] body.blocks@[b].statements@[j]) is Assign
                                implies exists|kk: int| 0 <= kk < oprs@.len() && #[trigger] oprs@[kk].inst == (Instruction { block: b as usize, index: j as usize }) by {
                            if b == t && j == i {
                                assert(oprs@[k as int].inst == (Instruction { block: b as usize, index: j as usize }));
                            } else {
                                let kk = choose|kk: int| 0 <= kk < oprs0.len() && #[trigger] oprs0[kk].inst == (Instruction { block: b as usize, index: j as usize });
                                assert(oprs@[kk] == oprs0[kk]);
                            }
                        }
                    }
                }
                i += 1;
            }
            t += 1;
        }
        let usemap = Self::build_usemap(&oprs, nv);
        let symbmap = Self::build_symbmap(&oprs, nv);
        Ok(ConstraintGraph { vars, oprs, defmap, usemap, symbmap })
    }

    /// For each variable, the operations that read it.
    fn build_usemap(oprs: &Vec<BasicOp>, nv: usize) -> (m: Vec<Vec<usize>>)
        ensures
            m@.len() == nv,
            forall|v: int, j: int| 0 <= v < nv && 0 <= j < m@[v]@.len() ==> #[trigger] m@[v]@[j] < oprs@.len(),
            forall|v: int, k: int|
                0 <= v < nv && 0 <= k < oprs@.len() ==> ((#[trigger] m@[v]@.contains(k as usize))
                    <==> reads(oprs@[k].kind, v)),
    {
        let mut m: Vec<Vec<usize>> = Vec::new();
        let mut v: usize = 0;
        while v < nv
            invariant
                v <= nv,
                m@.len() == v,
                forall|w: int, j: int| 0 <= w < v && 0 <= j < m@[w]@.len() ==> #[trigger] m@[w]@[j] < oprs@.len(),
                forall|w: int, k: int|
                    0 <= w < v && 0 <= k < oprs@.len() ==> ((#[trigger] m@[w]@.contains(k as usize))
                        <==> reads(oprs@[k].kind, w)),
            decreases nv - v,
        {
            let mut row: Vec<usize> = Vec::new();
            let mut k: usize = 0;
            while k < oprs.len()
                invariant
                    v < nv,
                    k <= oprs@.len(),
                    forall|j: int| 0 <= j < row@.len() ==> #[trigger] row@[j] < k,
                    forall|kk: int| 0 <= kk < oprs@.len() ==> (row@.contains(kk as usize) <==> (kk < k && reads(#[trigger] oprs@[kk].kind, v as int))),
                decreases oprs@.len() - k,
            {
                let ghost row0 = row@;
                if op_reads(&oprs[k].kind, v) {
                    row.push(k);
                }
                k += 1;
                proof {
                    assert forall|kk: int| 0 <= kk < oprs@.len() implies (row@.contains(kk as usize) <==> (kk < k && reads(#[trigger] oprs@[kk].kind, v as int))) by {
                        if row@.contains(kk as usize) {
                            let j = choose|j: int| 0 <= j < row@.len() && row@[j] == kk as usize;
                            if j < row0.len() {
                                assert(row0[j] == kk as usize);
                                assert(row0.contains(kk as usize));
                            }
                        }
                        if kk < k - 1 && reads(oprs@[kk].kind, v as int) {
                            assert(row0.contains(kk as usize));
                            let j = choose|j: int| 0 <= j < row0.len() && row0[j] == kk as usize;
                            assert(row@[j] == kk as usize);
                        }
                        if kk == k - 1 && reads(oprs@[kk].kind, v as int) {
                            assert(row@[row@.len() - 1] == kk as usize);
                        }
                    }
                }
            }
            m.push(row);
            v += 1;
        }
        m
    }

    /// For each variable, the operations whose constraint it bounds.
    fn build_symbmap(oprs: &Vec<BasicOp>, nv: usize) -> (m: Vec<Vec<usize>>)
        ensures
            m@.len() == nv,
            forall|v: int, j: int| 0 <= v < nv && 0 <= j < m@[v]@.len() ==> #[trigger] m@[v]@[j] < oprs@.len(),
            forall|v: int, k: int|
                0 <= v < nv && 0 <= k < oprs@.len() ==> ((#[trigger] m@[v]@.contains(k as usize))
                    <==> bound_of(oprs@[k].kind) == Some(v as usize)),
    {
        let mut m: Vec<Vec<usize>> = Vec::new();
        let mut v: usize = 0;
        while v < nv
            invariant
                v <= nv,
                m@.len() == v,
                forall|w: int, j: int| 0 <= w < v && 0 <= j < m@[w]@.len() ==> #[trigger] m@[w]@[j] < oprs@.len(),
                forall|w: int, k: int|
                    0 <= w < v && 0 <= k < oprs@.len() ==> ((#[trigger] m@[w]@.contains(k as usize))
                        <==> bound_of(oprs@[k].kind) == Some(w as usize)),
            decreases nv - v,
        {
            let mut row: Vec<usize> = Vec::new();
            let mut k: usize = 0;
            while k < oprs.len()
                invariant
                    v < nv,
                    k <= oprs@.len(),
                    forall|j: int| 0 <= j < row@.len() ==> #[trigger] row@[j] < k,
                    forall|kk: int| 0 <= kk < oprs@.len() ==> (row@.contains(kk as usize) <==> (kk < k && bound_of(#[trigger] oprs@[kk].kind) == Some(v))),
                decreases oprs@.len() - k,
            {
                let ghost row0 = row@;
                let hit = match &oprs[k].kind {
                    OpKind::Sigma(_, Intersect::Symb(si)) => si.bound == v,
                    _ => false,
                };
                if hit {
                    row.push(k);
                }
                k += 1;
                proof {
                    assert forall|kk: int| 0 <= kk < oprs@.len() implies (row@.contains(kk as usize) <==> (kk < k && bound_of(#[trigger] oprs@[kk].kind) == Some(v))) by {
                        if row@.contains(kk as usize) {
                            let j = choose|j: int| 0 <= j < row@.len() && row@[j] == kk as usize;
                            if j < row0.len() {
                                assert(row0[j] == kk as usize);
                                assert(row0.contains(kk as usize));
                            }
                        }
                        if kk < k - 1 && bound_of(oprs@[kk].kind) == Some(v) {
                            assert(row0.contains(kk as usize));
                            let j = choose|j: int| 0 <= j < row0.len() && row0[j] == kk as usize;
                            assert(row@[j] == kk as usize);
                        }
                        if kk == k - 1 && bound_of(oprs@[kk].kind) == Some(v) {
                            assert(row@[row@.len() - 1] == kk as usize);
                        }
                    }
                }
            }
            m.push(row);
            v += 1;
        }
        m
    }
}

/// An operation made from a statement that names only nodes of the graph
/// names only nodes, and its constraint is a sound range.
proof fn lemma_kind_ok(e: Expr, k: OpKind, n: nat)
    requires
        crate::cfg::expr_ok(e, n),
        op_of_expr(e, k),
    ensures
        kind_ok(k, n),
{
    match e {
        Expr::Sigma(a, rel, b) => {
            match b {
                Operand::Const(c) => {
                    let r = constraint_range(rel, c);
                    assert(r.wf());
                },
                Operand::Var(_) => {},
            }
        },
        _ => {},
    }
}

impl ConstraintGraph {
    /// The range of an operand under the current ranges.
    pub fn operand_range(&self, o: &Operand) -> (r: Range)
        requires
            self.wf(),
            operand_ok(*o, self.vars@.len()),
        ensures
            r == operand_range(*o, self.vars@),
            r.wf(),
    {
        match o {
            Operand::Const(c) => Range::new(*c),
            Operand::Var(v) => self.vars[*v].interval,
        }
    }

    /// Evaluates operation `k` under the current ranges.
    pub fn eval(&self, k: usize) -> (r: Range)
        requires
            self.wf(),
            k < self.oprs@.len(),
        ensures
            r == eval_spec(self.oprs@[k as int].kind, self.vars@),
            r.wf(),
    {
        let n = self.vars.len();
        match &self.oprs[k].kind {
            OpKind::Unary(None, a) => self.operand_range(a),
            OpKind::Unary(Some(_), a) => self.operand_range(a).neg(),
            OpKind::Binary(op, a, b) => {
                let ra = self.operand_range(a);
                let rb = self.operand_range(b);
                match op {
                    BinOp::Add => ra.add(&rb),
                    BinOp::Sub => ra.sub(&rb),
                    _ => {
                        if ra.is_empty() || rb.is_empty() {
                            Range { rtype: RangeType::Empty, ..ra }
                        } else if ra.is_unknown() || rb.is_unknown() {
                            Range { rtype: RangeType::Unknown, ..ra }
                        } else {
                            match op {
                                BinOp::Mul | BinOp::Div | BinOp::Rem => Range::full(),
                                _ => Range::with_bounds(0, 1, RangeType::Regular),
                            }
                        }
                    },
                }
            },
            OpKind::Phi(w) => {
                let mut acc = Range::unknown();
                let mut j: usize = 0;
                while j < w.len()
                    invariant
                        self.wf(),
                        n == self.vars@.len(),
                        crate::cfg::operands_ok(w@, n as nat),
                        j <= w@.len(),
                        acc == join_operands(w@, self.vars@, j as int),
                        acc.wf(),
                    decreases w@.len() - j,
                {
                    proof {
                        assert(operand_ok(w@[j as int], n as nat));
                    }
                    let r = self.operand_range(&w[j]);
                    acc = acc.union(&r);
                    j += 1;
                }
                acc
            },
            OpKind::Sigma(a, i) => {
                let ra = self.operand_range(a);
                let ri = match i {
                    Intersect::Basic(b) => b.range,
                    Intersect::Symb(si) => si.range,
                };
                if ri.is_unknown() {
                    ra
                } else {
                    ra.intersect(&ri)
                }
            },
        }
    }
}

/// The value of an operand when each variable `v` holds `val[v]`.
pub open spec fn operand_value(o: Operand, val: Seq<int>) -> int {
    match o {
        Operand::Const(c) => c as int,
        Operand::Var(v) => val[v as int],
    }
}

/// What operation `k` computes when each variable `v` holds `val[v]`; a phi
/// takes its operand `choice`, the one of the edge that was taken, and a
/// sigma copies its source.
pub open spec fn concrete_value(k: OpKind, val: Seq<int>, choice: int) -> int {
    match k {
        OpKind::Unary(None, a) => operand_value(a, val),
        OpKind::Unary(Some(_), a) => -operand_value(a, val),
        OpKind::Binary(op, a, b) => {
            let x = operand_value(a, val);
            let y = operand_value(b, val);
            match op {
                BinOp::Add => x + y,
                BinOp::Sub => x - y,
                BinOp::Mul => x * y,
                BinOp::Div | BinOp::Rem => 0,
                _ => if holds(op, x, y) { 1 } else { 0 },
            }
        },
        OpKind::Phi(w) => operand_value(w@[choice], val),
        OpKind::Sigma(a, _) => operand_value(a, val),
    }
}

/// The values `val` lie in the ranges of `vars` for every variable that `k`
/// reads, a phi's `choice` names one of its operands, and a sigma's source
/// satisfies its constraint.
pub open spec fn inputs_within(k: OpKind, vars: Seq<VarNode>, val: Seq<int>, choice: int) -> bool {
    match k {
        OpKind::Unary(_, a) => operand_range(a, vars).contains(operand_value(a, val)),
        OpKind::Binary(_, a, b) => operand_range(a, vars).contains(operand_value(a, val))
            && operand_range(b, vars).contains(operand_value(b, val)),
        OpKind::Phi(w) => 0 <= choice < w@.len() && operand_range(w@[choice], vars).contains(operand_value(w@[choice], val)),
        OpKind::Sigma(a, i) => operand_range(a, vars).contains(operand_value(a, val))
            && (intersect_range(i).rtype == RangeType::Unknown || intersect_range(i).contains(operand_value(a, val))),
    }
}

/// The join of the first `n` operand ranges holds each of them.
proof fn lemma_join_holds(s: Seq<Operand>, vars: Seq<VarNode>, n: int, j: int, x: int)
    requires
        0 <= j < n <= s.len(),
        operand_range(s[j], vars).contains(x),
        forall|i: int| 0 <= i < s.len() ==> (#[trigger] operand_range(s[i], vars)).wf(),
    ensures
        join_operands(s, vars, n).contains(x),
        join_operands(s, vars, n).wf(),
    decreases n,
{
    lemma_join_wf(s, vars, n - 1);
    if j < n - 1 {
        lemma_join_holds(s, vars, n - 1, j, x);
    }
}

proof fn lemma_join_wf(s: Seq<Operand>, vars: Seq<VarNode>, n: int)
    requires
        n <= s.len(),
        forall|i: int| 0 <= i < s.len() ==> (#[trigger] operand_range(s[i], vars)).wf(),
    ensures
        join_operands(s, vars, n).wf(),
    decreases n,
{
    if n > 0 {
        lemma_join_wf(s, vars, n - 1);
    }
}

/// Soundness of evaluation: when the inputs of an operation lie in their
/// ranges, the value the operation computes lies in the range it evaluates
/// to.
pub proof fn lemma_eval_sound(k: OpKind, vars: Seq<VarNode>, val: Seq<int>, choice: int)
    requires
        forall|v: int| 0 <= v < vars.len() ==> (#[trigger] vars[v]).interval.wf(),
        kind_ok(k, vars.len()),
        inputs_within(k, vars, val, choice),
    ensures
        eval_spec(k, vars).contains(concrete_value(k, val, choice)),
{
    match k {
        OpKind::Unary(None, a) => {},
        OpKind::Unary(Some(_), a) => {
            let r = operand_range(a, vars);
            let x = operand_value(a, val);
            assert(r.neg_spec().contains(-x));
        },
        OpKind::Binary(op, a, b) => {
            let ra = operand_range(a, vars);
            let rb = operand_range(b, vars);
            let x = operand_value(a, val);
            let y = operand_value(b, val);
            if op == BinOp::Add {
                assert(ra.add_spec(rb).contains(x + y));
            } else if op == BinOp::Sub {
                assert(ra.sub_spec(rb).contains(x - y));
            }
        },
        OpKind::Phi(w) => {
            assert forall|i: int| 0 <= i < w@.len() implies (#[trigger] operand_range(w@[i], vars)).wf() by {
                assert(crate::cfg::operand_ok(w@[i], vars.len()));
            }
            lemma_join_holds(w@, vars, w@.len() as int, choice, operand_value(w@[choice], val));
        },
        OpKind::Sigma(a, i) => {},
    }
}

/// The sign of a range: '0' for exactly zero, '+' when every value is
/// positive, '-' when every value is negative, '?' otherwise.
pub open spec fn sign_of(r: Range) -> char {
    if r.rtype == RangeType::Regular && r.lower == 0 && r.upper == 0 {
        '0'
    } else if r.rtype == RangeType::Regular && r.lower > 0 {
        '+'
    } else if r.rtype == RangeType::Regular && r.upper < 0 {
        '-'
    } else {
        '?'
    }
}

impl VarNode {
    /// A node for variable `v`, its range not yet computed.
    pub fn new(v: usize) -> (n: VarNode)
        ensures
            n == (VarNode { v, interval: Range { rtype: RangeType::Unknown, lower: MIN, upper: MAX }, abstract_state: '?' }),
    {
        VarNode { v, interval: Range::unknown(), abstract_state: '?' }
    }

    /// Initializes the range: a variable defined outside the graph may hold
    /// any value; any other is not computed yet.
    pub fn init(&mut self, outside: bool)
        ensures
            final(self).v == old(self).v,
            final(self).abstract_state == old(self).abstract_state,
            final(self).interval == (if outside {
                Range { rtype: RangeType::Regular, lower: MIN, upper: MAX }
            } else {
                Range { rtype: RangeType::Unknown, lower: MIN, upper: MAX }
            }),
    {
        self.interval = if outside { Range::full() } else { Range::unknown() };
    }

    pub fn get_range(&self) -> (r: Range)
        ensures
            r == self.interval,
    {
        self.interval
    }

    pub fn get_value(&self) -> (r: usize)
        ensures
            r == self.v,
    {
        self.v
    }

    /// Changes the range; crossed bounds make it empty.
    pub fn set_range(&mut self, new_interval: Range)
        ensures
            final(self).v == old(self).v,
            final(self).abstract_state == old(self).abstract_state,
            final(self).interval.lower == new_interval.lower,
            final(self).interval.upper == new_interval.upper,
            final(self).interval.rtype == (if new_interval.lower > new_interval.upper {
                RangeType::Empty
            } else {
                new_interval.rtype
            }),
    {
        self.interval = new_interval;
        if self.interval.lower > self.interval.upper {
            self.interval.rtype = RangeType::Empty;
        }
    }

    pub fn get_abstract_state(&self) -> (r: char)
        ensures
            r == self.abstract_state,
    {
        self.abstract_state
    }

    /// Records the sign of the current range.
    pub fn store_abstract_state(&mut self)
        ensures
            final(self).v == old(self).v,
            final(self).interval == old(self).interval,
            final(self).abstract_state == sign_of(old(self).interval),
    {
        let r = self.interval;
        self.abstract_state = if r.is_regular() && r.lower == 0 && r.upper == 0 {
            '0'
        } else if r.is_regular() && r.lower > 0 {
            '+'
        } else if r.is_regular() && r.upper < 0 {
            '-'
        } else {
            '?'
        };
    }
}

impl BasicInterval {
    pub fn new(range: Range) -> (b: BasicInterval)
        ensures
            b.range == range,
    {
        BasicInterval { range }
    }

    pub fn get_range(&self) -> (r: Range)
        ensures
            r == self.range,
    {
        self.range
    }

    /// Changes the range; crossed bounds make it empty.
    pub fn set_range(&mut self, new_range: Range)
        ensures
            final(self).range.lower == new_range.lower,
            final(self).range.upper == new_range.upper,
            final(self).range.rtype == (if new_range.lower > new_range.upper {
                RangeType::Empty
            } else {
                new_range.rtype
            }),
    {
        self.range = new_range;
        if self.range.lower > self.range.upper {
            self.range.rtype = RangeType::Empty;
        }
    }
}

impl SymbInterval {
    pub fn new(range: Range, bound: usize, predicate: BinOp) -> (s: SymbInterval)
        ensures
            s == (SymbInterval { range, bound, predicate }),
    {
        SymbInterval { range, bound, predicate }
    }

    pub fn get_operation(&self) -> (r: BinOp)
        ensures
            r == self.predicate,
    {
        self.predicate
    }

    pub fn get_bound(&self) -> (r: usize)
        ensures
            r == self.bound,
    {
        self.bound
    }

    pub fn get_range(&self) -> (r: Range)
        ensures
            r == self.range,
    {
        self.range
    }

    pub fn set_range(&mut self, new_range: Range)
        ensures
            *final(self) == (SymbInterval { range: new_range, ..*old(self) }),
    {
        self.range = new_range;
    }

    /// The concrete range this interval stands for once its bound is known
    /// to lie in `bound_range`.
    pub fn fix_intersects(&self, bound_range: Range) -> (r: Range)
        requires
            bound_range.wf(),
        ensures
            r == crate::solver::symb_range(self.predicate, bound_range),
    {
        crate::solver::symb_range_of(self.predicate, bound_range)
    }
}

impl BasicOp {
    pub fn new(kind: OpKind, sink: usize, inst: Instruction) -> (o: BasicOp)
        ensures
            o.kind == kind,
            o.sink == sink,
            o.inst == inst,
    {
        BasicOp { kind, sink, inst }
    }

    pub fn get_instruction(&self) -> (r: Instruction)
        ensures
            r == self.inst,
    {
        self.inst
    }

    pub fn get_sink(&self) -> (r: usize)
        ensures
            r == self.sink,
    {
        self.sink
    }

    /// Replaces the range of a sigma's constraint; other operations have
    /// none and stay as they are.
    pub fn set_intersect(&mut self, new_intersect: Range)
        ensures
            final(self).sink == old(self).sink,
            final(self).inst == old(self).inst,
            final(self).kind == match old(self).kind {
                OpKind::Sigma(a, Intersect::Basic(_)) => OpKind::Sigma(a, Intersect::Basic(BasicInterval { range: new_intersect })),
                OpKind::Sigma(a, Intersect::Symb(si)) => OpKind::Sigma(a, Intersect::Symb(SymbInterval { range: new_intersect, ..si })),
                _ => old(self).kind,
            },
    {
        let updated = match &self.kind {
            OpKind::Sigma(a, Intersect::Basic(_)) => Some(OpKind::Sigma(*a, Intersect::Basic(BasicInterval { range: new_intersect }))),
            OpKind::Sigma(a, Intersect::Symb(si)) => Some(OpKind::Sigma(*a, Intersect::Symb(SymbInterval { range: new_intersect, bound: si.bound, predicate: si.predicate }))),
            _ => None,
        };
        if let Some(k) = updated {
            self.kind = k;
        }
    }
}

impl ConstraintGraph {
    /// Adds a node for a new variable, with no operation defining, reading or
    /// bounded by it, and returns the variable.
    pub fn add_varnode(&mut self) -> (v: usize)
        requires
            old(self).wf(),
            old(self).vars@.len() < usize::MAX,
        ensures
            final(self).wf(),
            v == old(self).vars@.len(),
            final(self).vars@ == old(self).vars@.push(VarNode { v, interval: Range { rtype: RangeType::Unknown, lower: MIN, upper: MAX }, abstract_state: '?' }),
            final(self).oprs@ == old(self).oprs@,
    {
        let v = self.vars.len();
        self.vars.push(VarNode::new(v));
        self.defmap.push(None);
        self.usemap.push(Vec::new());
        self.symbmap.push(Vec::new());
        proof {
            assert forall|w: int, k: int| 0 <= w < self.vars@.len() && 0 <= k < self.oprs@.len()
                implies (#[trigger] self.defmap@[w] == Some(k as usize) <==> #[trigger] self.oprs@[k].sink == w) by {
                if w == v as int {
                    assert(old(self).oprs@[k].sink < old(self).vars@.len());
                }
            }
            assert forall|w: int, k: int| 0 <= w < self.vars@.len() && 0 <= k < self.oprs@.len()
                implies ((#[trigger] self.usemap@[w]@.contains(k as usize)) <==> reads(self.oprs@[k].kind, w)) by {
                if w == v as int {
                    lemma_reads_in_range(self.oprs@[k].kind, old(self).vars@.len(), w);
                }
            }
        }
        v
    }

    pub fn get_oprs(&self) -> (r: &Vec<BasicOp>)
        ensures
            r == &self.oprs,
    {
        &self.oprs
    }

    pub fn get_defmap(&self) -> (r: &Vec<Option<usize>>)
        ensures
            r == &self.defmap,
    {
        &self.defmap
    }

    pub fn get_usemap(&self) -> (r: &Vec<Vec<usize>>)
        ensures
            r == &self.usemap,
    {
        &self.usemap
    }

    /// Initializes every node: a variable that no operation defines may hold
    /// any value; any other is not computed yet.
    pub fn build_varnodes(&mut self)
        requires
            old(self).wf(),
        ensures
            final(self).wf(),
            final(self).oprs@ == old(self).oprs@,
            final(self).vars@.len() == old(self).vars@.len(),
            forall|v: int| 0 <= v < final(self).vars@.len() ==> (#[trigger] final(self).vars@[v]).interval == (if old(self).defmap@[v] is None {
                Range { rtype: RangeType::Regular, lower: MIN, upper: MAX }
            } else {
                Range { rtype: RangeType::Unknown, lower: MIN, upper: MAX }
            }),
    {
        let n = self.vars.len();
        let mut v: usize = 0;
        while v < n
            invariant
                self.wf(),
                self.oprs@ == old(self).oprs@,
                self.defmap@ == old(self).defmap@,
                self.vars@.len() == n,
                n == old(self).vars@.len(),
                v <= n,
                forall|x: int| 0 <= x < v ==> (#[trigger] self.vars@[x]).interval == (if old(self).defmap@[x] is None {
                    Range { rtype: RangeType::Regular, lower: MIN, upper: MAX }
                } else {
                    Range { rtype: RangeType::Unknown, lower: MIN, upper: MAX }
                }),
            decreases n - v,
        {
            let outside = self.defmap[v].is_none();
            let mut node = self.vars[v];
            node.init(outside);
            self.vars.set(v, node);
            v += 1;
        }
    }
}

/// An operation whose operands name nodes below `n` reads no variable at or
/// above `n`.
proof fn lemma_reads_in_range(k: OpKind, n: nat, w: int)
    requires
        kind_ok(k, n),
        n <= w <= usize::MAX,
    ensures
        !reads(k, w),
{
    match k {
        OpKind::Phi(v) => {
            if v@.contains(Operand::Var(w as usize)) {
                let j = choose|j: int| 0 <= j < v@.len() && v@[j] == Operand::Var(w as usize);
                assert(operand_ok(v@[j], n));
            }
        },
        _ => {},
    }
}

/// What a two-way branch on a comparison tells about the compared
/// variable: the block each outcome leads to, and the interval it holds on
/// each edge.
#[derive(Clone, Copy, Debug, PartialEq, Eq, Structural)]
pub struct ValueBranchMap {
    pub v: usize,
    pub bb_true: usize,
    pub bb_false: usize,
    pub itv_t: BasicInterval,
    pub itv_f: BasicInterval,
}

/// The branch information of block `b`: for a two-way branch on a
/// comparison (`condition_of`) that names a variable, that variable (the left
/// one when both sides are variables) with the targets taken when the
/// comparison holds and when it does not, and their intervals.
pub open spec fn value_branch(body: Body, b: int) -> Option<ValueBranchMap> {
    match crate::sigma::condition_of(body, b) {
        Some((op, x, y)) => if body.targets(b).len() != 2 {
            None
        } else {
            let v = match x {
                Operand::Var(v) => Some(v),
                Operand::Const(_) => match y {
                    Operand::Var(w) => Some(w),
                    Operand::Const(_) => None,
                },
            };
            match v {
                Some(v) => Some(ValueBranchMap {
                    v,
                    bb_true: body.targets(b)[0],
                    bb_false: body.targets(b)[1],
                    itv_t: BasicInterval { range: branch_ranges(x, y, op).0 },
                    itv_f: BasicInterval { range: branch_ranges(x, y, op).1 },
                }),
                None => None,
            }
        },
        None => None,
    }
}

impl ValueBranchMap {
    pub fn new(v: usize, bb_true: usize, bb_false: usize, itv_t: BasicInterval, itv_f: BasicInterval) -> (m: ValueBranchMap)
        ensures
            m == (ValueBranchMap { v, bb_true, bb_false, itv_t, itv_f }),
    {
        ValueBranchMap { v, bb_true, bb_false, itv_t, itv_f }
    }

    pub fn get_bb_false(&self) -> (r: usize)
        ensures
            r == self.bb_false,
    {
        self.bb_false
    }

    pub fn get_bb_true(&self) -> (r: usize)
        ensures
            r == self.bb_true,
    {
        self.bb_true
    }

    pub fn get_itv_t(&self) -> (r: BasicInterval)
        ensures
            r == self.itv_t,
    {
        self.itv_t
    }

    pub fn get_itv_f(&self) -> (r: BasicInterval)
        ensures
            r == self.itv_f,
    {
        self.itv_f
    }

    pub fn get_v(&self) -> (r: usize)
        ensures
            r == self.v,
    {
        self.v
    }

    pub fn set_itv_t(&mut self, itv: BasicInterval)
        ensures
            *final(self) == (ValueBranchMap { itv_t: itv, ..*old(self) }),
    {
        self.itv_t = itv;
    }

    pub fn set_itv_f(&mut self, itv: BasicInterval)
        ensures
            *final(self) == (ValueBranchMap { itv_f: itv, ..*old(self) }),
    {
        self.itv_f = itv;
    }
}

impl ConstraintGraph {
    /// The branch information of block `b`.
    pub fn build_value_branch_map(body: &Body, b: usize) -> (r: Option<ValueBranchMap>)
        requires
            b < body.n(),
        ensures
            r == value_branch(*body, b as int),
    {
        match crate::sigma::extract_condition(body, b) {
            Some((op, x, y)) => {
                let v = match x {
                    Operand::Var(v) => v,
                    Operand::Const(_) => match y {
                        Operand::Var(w) => w,
                        Operand::Const(_) => {
                            return None;
                        },
                    },
                };
                let ts = match &body.blocks[b].terminator {
                    crate::cfg::Terminator::Branch(_, ts) => ts,
                    _ => {
                        return None;
                    },
                };
                if ts.len() != 2 {
                    return None;
                }
                let (rt, rf) = Self::calculate_ranges(x, y, op);
                Some(ValueBranchMap::new(v, ts[0], ts[1], BasicInterval::new(rt), BasicInterval::new(rf)))
            },
            None => None,
        }
    }

    /// The branch information of every block.
    pub fn build_value_maps(body: &Body) -> (r: Vec<Option<ValueBranchMap>>)
        ensures
            r@.len() == body.n(),
            forall|b: int| 0 <= b < body.n() ==> #[trigger] r@[b] == value_branch(*body, b),
    {
        let mut r: Vec<Option<ValueBranchMap>> = Vec::new();
        let mut b: usize = 0;
        while b < body.blocks.len()
            invariant
                b <= body.n(),
                r@.len() == b,
                forall|c: int| 0 <= c < b ==> #[trigger] r@[c] == value_branch(*body, c),
            decreases body.n() - b,
        {
            r.push(Self::build_value_branch_map(body, b));
            b += 1;
        }
        r
    }
}

/// The join of operand ranges depends only on the ranges of the variables
/// the operands name.
proof fn lemma_join_frame(s: Seq<Operand>, a: Seq<VarNode>, b: Seq<VarNode>, n: int)
    requires
        n <= s.len(),
        forall|j: int| 0 <= j < s.len() ==> #[trigger] operand_range(s[j], a) == operand_range(s[j], b),
    ensures
        join_operands(s, a, n) == join_operands(s, b, n),
    decreases n,
{
    if n > 0 {
        lemma_join_frame(s, a, b, n - 1);
    }
}

/// What an operation evaluates to depends only on the ranges of the
/// variables it reads.
pub proof fn lemma_eval_frame(k: OpKind, a: Seq<VarNode>, b: Seq<VarNode>)
    requires
        kind_ok(k, a.len()),
        a.len() == b.len(),
        forall|v: int| 0 <= v < a.len() && reads(k, v) ==> #[trigger] a[v].interval == b[v].interval,
    ensures
        eval_spec(k, a) == eval_spec(k, b),
{
    match k {
        OpKind::Unary(_, x) => {
            if let Operand::Var(v) = x {
                assert(reads(k, v as int));
            }
        },
        OpKind::Binary(_, x, y) => {
            if let Operand::Var(v) = x {
                assert(reads(k, v as int));
            }
            if let Operand::Var(v) = y {
                assert(reads(k, v as int));
            }
        },
        OpKind::Phi(w) => {
            assert forall|j: int| 0 <= j < w@.len() implies #[trigger] operand_range(w@[j], a) == operand_range(w@[j], b) by {
                assert(operand_ok(w@[j], a.len()));
                if let Operand::Var(v) = w@[j] {
                    assert(w@.contains(Operand::Var(v)));
                    assert(reads(k, v as int));
                }
            }
            lemma_join_frame(w@, a, b, w@.len() as int);
        },
        OpKind::Sigma(x, _) => {
            if let Operand::Var(v) = x {
                assert(reads(k, v as int));
            }
        },
    }
}

} // verus!
