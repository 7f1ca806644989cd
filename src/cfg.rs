//! The procedure body handed in by a front end, and its control-flow graph.
//!
//! Blocks are numbered from 0, and block 0 is the entry. Variables are numbered
//! from 0 below `num_vars`.
use vstd::prelude::*;

verus! {

/// Binary operators: arithmetic and comparisons.
#[derive(Clone, Copy, Debug, PartialEq, Eq, Structural)]
pub enum BinOp {
    Add,
    Sub,
    Mul,
    Div,
    Rem,
    Lt,
    Le,
    Gt,
    Ge,
    Eq,
    Ne,
}

/// Unary operators.
#[derive(Clone, Copy, Debug, PartialEq, Eq, Structural)]
pub enum UnOp {
    Neg,
}

/// A constant or a variable.
#[derive(Clone, Copy, Debug, PartialEq, Eq, Structural)]
pub enum Operand {
    Const(i64),
    Var(usize),
}

/// The right-hand side of an assignment.
#[derive(Clone, Debug)]
pub enum Expr {
    /// A constant or a copy of a variable.
    Use(Operand),
    Unary(UnOp, Operand),
    Binary(BinOp, Operand, Operand),
    /// One incoming value per predecessor, in the order of the block's
    /// predecessor list.
    Phi(Vec<Operand>),
    /// A copy of the first operand, known on this edge to stand in the
    /// relation to the last operand that the operator names.
    Sigma(Operand, BinOp, Operand),
}

#[derive(Clone, Debug)]
pub enum Statement {
    Assign(usize, Expr),
    Nop,
}

#[derive(Clone, Debug)]
pub enum Terminator {
    Goto(usize),
    /// A branch on a condition: the first target is taken when it holds, the
    /// second when it does not; further targets are taken on other values.
    Branch(Operand, Vec<usize>),
    Return,
}

#[derive(Clone, Debug)]
pub struct BasicBlock {
    pub statements: Vec<Statement>,
    pub terminator: Terminator,
}

#[derive(Clone, Debug)]
pub struct Body {
    pub blocks: Vec<BasicBlock>,
    pub num_vars: usize,
}

/// The statement an operation of the constraint graph comes from: its block
/// and its place in the block.
#[derive(Clone, Copy, Debug, PartialEq, Eq, Structural)]
pub struct Instruction {
    pub block: usize,
    pub index: usize,
}

/// The successors that a terminator names.
pub open spec fn term_targets(t: Terminator) -> Seq<usize> {
    match t {
        Terminator::Goto(b) => seq![b],
        Terminator::Branch(_, ts) => ts@,
        Terminator::Return => Seq::empty(),
    }
}

/// Successor and predecessor lists of a control-flow graph.
pub struct Cfg {
    pub succs: Vec<Vec<usize>>,
    pub preds: Vec<Vec<usize>>,
}

impl Cfg {
    pub open spec fn n(self) -> nat {
        self.succs@.len()
    }

    /// Whether there is an edge from `a` to `b`.
    pub open spec fn edge(self, a: int, b: int) -> bool {
        &&& 0 <= a < self.succs@.len()
        &&& 0 <= b < self.succs@.len()
        &&& self.succs@[a]@.contains(b as usize)
    }

    /// Successor lists name blocks of the graph, and predecessor lists are
    /// their exact inverse: each predecessor listed once, whatever number of
    /// edges it has into the block.
    pub open spec fn wf(self) -> bool {
        &&& self.succs@.len() > 0
        &&& self.succs@.len() <= usize::MAX
        &&& self.preds@.len() == self.succs@.len()
        &&& forall|a: int, j: int|
            0 <= a < self.succs@.len() && 0 <= j < self.succs@[a]@.len() ==> #[trigger] self.succs@[a]@[j]
                < self.succs@.len()
        &&& forall|b: int, j: int|
            0 <= b < self.preds@.len() && 0 <= j < self.preds@[b]@.len() ==> #[trigger] self.preds@[b]@[j]
                < self.preds@.len()
        &&& forall|a: int, b: int|
            0 <= a < self.n() && 0 <= b < self.n() ==> (#[trigger] self.edge(a, b)
                <==> self.preds@[b]@.contains(a as usize))
        &&& forall|b: int| 0 <= b < self.n() ==> (#[trigger] self.preds@[b])@.no_duplicates()
    }

    /// A path through the graph from the entry.
    pub open spec fn is_path(self, p: Seq<usize>) -> bool {
        &&& p.len() > 0
        &&& p[0] == 0
        &&& forall|i: int| 0 <= i < p.len() ==> #[trigger] p[i] < self.n()
        &&& forall|i: int| 0 <= i < p.len() - 1 ==> #[trigger] self.edge(p[i] as int, p[i + 1] as int)
    }

    /// Whether some path from the entry to `v` leaves out `d`.
    pub open spec fn reaches_avoiding(self, v: int, d: int) -> bool {
        exists|p: Seq<usize>| #[trigger] self.is_path(p) && p.last() == v && !p.contains(d as usize)
    }

    pub open spec fn reachable(self, v: int) -> bool {
        exists|p: Seq<usize>| #[trigger] self.is_path(p) && p.last() == v
    }

    /// Every block lies on some path from the entry.
    pub open spec fn all_reachable(self) -> bool {
        forall|v: int| 0 <= v < self.n() ==> #[trigger] self.reachable(v)
    }

    /// `d` dominates `v`: every path from the entry to `v` passes through `d`.
    pub open spec fn dominates(self, d: int, v: int) -> bool {
        forall|p: Seq<usize>| #[trigger] self.is_path(p) && p.last() == v ==> p.contains(d as usize)
    }

    pub open spec fn strictly_dominates(self, d: int, v: int) -> bool {
        d != v && self.dominates(d, v)
    }

    /// `d` is the immediate dominator of `v`: it strictly dominates `v`, and
    /// every other strict dominator of `v` dominates `d`.
    pub open spec fn is_idom(self, d: int, v: int) -> bool {
        &&& 0 <= d < self.n()
        &&& self.strictly_dominates(d, v)
        &&& forall|e: int| 0 <= e < self.n() && #[trigger] self.strictly_dominates(e, v) ==> self.dominates(e, d)
    }

    /// `v` is in the dominance frontier of `d`: `d` dominates a predecessor of
    /// `v` but does not strictly dominate `v`.
    pub open spec fn in_frontier(self, d: int, v: int) -> bool {
        &&& exists|p: int| 0 <= p < self.n() && #[trigger] self.edge(p, v) && self.dominates(d, p)
        &&& !self.strictly_dominates(d, v)
    }
}

impl Body {
    pub open spec fn n(self) -> nat {
        self.blocks@.len()
    }

    pub open spec fn targets(self, b: int) -> Seq<usize> {
        term_targets(self.blocks@[b].terminator)
    }

    /// Every target names a block, and there is an entry block.
    pub open spec fn targets_ok(self) -> bool {
        &&& self.blocks@.len() > 0
        &&& forall|b: int, j: int|
            0 <= b < self.n() && 0 <= j < self.targets(b).len() ==> #[trigger] self.targets(b)[j]
                < self.n()
    }
}

pub open spec fn operand_ok(o: Operand, nv: nat) -> bool {
    match o {
        Operand::Var(v) => v < nv,
        Operand::Const(_) => true,
    }
}

pub open spec fn operands_ok(v: Seq<Operand>, nv: nat) -> bool {
    forall|k: int| 0 <= k < v.len() ==> operand_ok(#[trigger] v[k], nv)
}

pub open spec fn expr_ok(e: Expr, nv: nat) -> bool {
    match e {
        Expr::Use(a) => operand_ok(a, nv),
        Expr::Unary(_, a) => operand_ok(a, nv),
        Expr::Binary(_, a, b) => operand_ok(a, nv) && operand_ok(b, nv),
        Expr::Phi(v) => operands_ok(v@, nv),
        Expr::Sigma(a, _, b) => operand_ok(a, nv) && operand_ok(b, nv),
    }
}

pub open spec fn stmt_ok(s: Statement, nv: nat) -> bool {
    match s {
        Statement::Assign(d, e) => d < nv && expr_ok(e, nv),
        Statement::Nop => true,
    }
}

pub open spec fn term_ok(t: Terminator, nv: nat) -> bool {
    match t {
        Terminator::Branch(c, _) => operand_ok(c, nv),
        _ => true,
    }
}

impl Body {
    /// Every variable that a statement or terminator names is below `num_vars`.
    pub open spec fn vars_ok(self) -> bool {
        &&& forall|b: int, i: int|
            0 <= b < self.n() && 0 <= i < self.blocks@[b].statements@.len() ==> stmt_ok(
                #[trigger] self.blocks@[b].statements@[i],
                self.num_vars as nat,
            )
        &&& forall|b: int| 0 <= b < self.n() ==> term_ok(#[trigger] self.blocks@[b].terminator, self.num_vars as nat)
    }
}

fn check_operand(o: &Operand, nv: usize) -> (r: bool)
    ensures
        r == operand_ok(*o, nv as nat),
{
    match o {
        Operand::Var(v) => *v < nv,
        Operand::Const(_) => true,
    }
}

fn check_expr(e: &Expr, nv: usize) -> (r: bool)
    ensures
        r == expr_ok(*e, nv as nat),
{
    match e {
        Expr::Use(a) => check_operand(a, nv),
        Expr::Unary(_, a) => check_operand(a, nv),
        Expr::Binary(_, a, b) => check_operand(a, nv) && check_operand(b, nv),
        Expr::Phi(v) => {
            let mut k: usize = 0;
            while k < v.len()
                invariant
                    *e == Expr::Phi(*v),
                    k <= v@.len(),
                    forall|j: int| 0 <= j < k ==> operand_ok(#[trigger] v@[j], nv as nat),
                decreases v@.len() - k,
            {
                if !check_operand(&v[k], nv) {
                    proof {
                        assert(!operand_ok(v@[k as int], nv as nat));
                        assert(!operands_ok(v@, nv as nat));
                    }
                    return false;
                }
                k += 1;
            }
            true
        },
        Expr::Sigma(a, _, b) => check_operand(a, nv) && check_operand(b, nv),
    }
}

impl Body {
    /// Whether every target names a block and there is an entry block.
    pub fn check_targets(&self) -> (r: bool)
        ensures
            r == self.targets_ok(),
    {
        let n = self.blocks.len();
        if n == 0 {
            return false;
        }
        let mut b: usize = 0;
        while b < n
            invariant
                n == self.n(),
                n > 0,
                b <= n,
                forall|x: int, j: int|
                    0 <= x < b && 0 <= j < self.targets(x).len() ==> #[trigger] self.targets(x)[j] < n,
            decreases n - b,
        {
            match &self.blocks[b].terminator {
                Terminator::Goto(t) => {
                    if *t >= n {
                        proof {
                            assert(self.targets(b as int)[0] == *t);
                        }
                        return false;
                    }
                },
                Terminator::Branch(_, ts) => {
                    let mut j: usize = 0;
                    while j < ts.len()
                        invariant
                            n == self.n(),
                            b < n,
                            ts@ == self.targets(b as int),
                            j <= ts@.len(),
                            forall|x: int, k: int|
                                0 <= x < b && 0 <= k < self.targets(x).len() ==> #[trigger] self.targets(x)[k] < n,
                            forall|k: int| 0 <= k < j ==> ts@[k] < n,
                        decreases ts@.len() - j,
                    {
                        if ts[j] >= n {
                            return false;
                        }
                        j += 1;
                    }
                },
                Terminator::Return => {},
            }
            b += 1;
        }
        true
    }

    /// Whether every variable named is below `num_vars`.
    pub fn check_vars(&self) -> (r: bool)
        ensures
            r == self.vars_ok(),
    {
        let n = self.blocks.len();
        let nv = self.num_vars;
        let mut b: usize = 0;
        while b < n
            invariant
                n == self.n(),
                nv == self.num_vars,
                b <= n,
                forall|x: int, i: int|
                    0 <= x < b && 0 <= i < self.blocks@[x].statements@.len() ==> stmt_ok(
                        #[trigger] self.blocks@[x].statements@[i],
                        nv as nat,
                    ),
                forall|x: int| 0 <= x < b ==> term_ok(#[trigger] self.blocks@[x].terminator, nv as nat),
            decreases n - b,
        {
            let st = &self.blocks[b].statements;
            let mut i: usize = 0;
            while i < st.len()
                invariant
                    n == self.n(),
                    nv == self.num_vars,
                    b < n,
                    st@ == self.blocks@[b as int].statements@,
                    i <= st@.len(),
                    forall|x: int, k: int|
                        0 <= x < b && 0 <= k < self.blocks@[x].statements@.len() ==> stmt_ok(
                            #[trigger] self.blocks@[x].statements@[k],
                            nv as nat,
                        ),
                    forall|x: int| 0 <= x < b ==> term_ok(#[trigger] self.blocks@[x].terminator, nv as nat),
                    forall|k: int| 0 <= k < i ==> stmt_ok(#[trigger] st@[k], nv as nat),
                decreases st@.len() - i,
            {
                let ok = match &st[i] {
                    Statement::Assign(d, e) => *d < nv && check_expr(e, nv),
                    Statement::Nop => true,
                };
                if !ok {
                    return false;
                }
                i += 1;
            }
            let ok = match &self.blocks[b].terminator {
                Terminator::Branch(c, _) => check_operand(c, nv),
                _ => true,
            };
            if !ok {
                return false;
            }
            b += 1;
        }
        true
    }
}

} // verus!
