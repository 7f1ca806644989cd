//! Branch-conditioned copies: before renaming, each variable compared by a
//! two-way branch is copied at the head of a successor that only that branch
//! enters, so that the copy can carry what the branch tells about it.
use vstd::prelude::*;
use crate::cfg::{BasicBlock, BinOp, Body, Cfg, Expr, Operand, Statement, Terminator};

verus! {

/// The comparisons whose outcome an interval can hold: `<`, `<=`, `>`, `>=`
/// and `==`.
pub open spec fn is_comparison(op: BinOp) -> bool {
    op == BinOp::Lt || op == BinOp::Le || op == BinOp::Gt || op == BinOp::Ge || op == BinOp::Eq
}

/// The relation seen from the other side: `a op b` is `b (flip op) a`.
pub open spec fn flip_spec(op: BinOp) -> BinOp {
    match op {
        BinOp::Lt => BinOp::Gt,
        BinOp::Le => BinOp::Ge,
        BinOp::Gt => BinOp::Lt,
        BinOp::Ge => BinOp::Le,
        _ => op,
    }
}

/// The relation that holds when `op` does not.
pub open spec fn negate_spec(op: BinOp) -> BinOp {
    match op {
        BinOp::Lt => BinOp::Ge,
        BinOp::Le => BinOp::Gt,
        BinOp::Gt => BinOp::Le,
        BinOp::Ge => BinOp::Lt,
        BinOp::Eq => BinOp::Ne,
        BinOp::Ne => BinOp::Eq,
        _ => op,
    }
}

/// The relation `op` seen from the other side.
pub fn flip(op: BinOp) -> (r: BinOp)
    ensures
        r == flip_spec(op),
{
    match op {
        BinOp::Lt => BinOp::Gt,
        BinOp::Le => BinOp::Ge,
        BinOp::Gt => BinOp::Lt,
        BinOp::Ge => BinOp::Le,
        _ => op,
    }
}

/// The relation that holds when `op` does not.
pub fn negate(op: BinOp) -> (r: BinOp)
    ensures
        r == negate_spec(op),
{
    match op {
        BinOp::Lt => BinOp::Ge,
        BinOp::Le => BinOp::Gt,
        BinOp::Gt => BinOp::Le,
        BinOp::Ge => BinOp::Lt,
        BinOp::Eq => BinOp::Ne,
        BinOp::Ne => BinOp::Eq,
        _ => op,
    }
}

/// The comparison that decides the branch ending block `b`: the block ends
/// by assigning the compared value to the variable the two-way branch tests.
pub open spec fn branch_test(body: Body, b: int) -> Option<(BinOp, Operand, Operand)> {
    let st = body.blocks@[b].statements@;
    match body.blocks@[b].terminator {
        Terminator::Branch(Operand::Var(c), ts) => {
            if ts@.len() == 2 && ts@[0] != ts@[1] && st.len() > 0 {
                match st.last() {
                    Statement::Assign(d, Expr::Binary(op, x, y)) => {
                        if d == c && is_comparison(op) {
                            Some((op, x, y))
                        } else {
                            None
                        }
                    },
                    _ => None,
                }
            } else {
                None
            }
        },
        _ => None,
    }
}

/// The copies made on the edge where `x op y` is `holds`.
pub open spec fn sigmas_spec(op: BinOp, x: Operand, y: Operand, holds: bool) -> Seq<Statement> {
    let rel = if holds { op } else { negate_spec(op) };
    let sx = match x {
        Operand::Var(v) => seq![Statement::Assign(v, Expr::Sigma(x, rel, y))],
        Operand::Const(_) => Seq::empty(),
    };
    let sy = match y {
        Operand::Var(v) => if x != y {
            seq![Statement::Assign(v, Expr::Sigma(y, flip_spec(rel), x))]
        } else {
            Seq::empty()
        },
        Operand::Const(_) => Seq::empty(),
    };
    sx + sy
}

/// The copies placed at the head of block `t`: only where `t` is not the
/// entry and has one predecessor, whose branch is decided by a comparison.
pub open spec fn edge_sigmas(body: Body, g: Cfg, t: int) -> Seq<Statement> {
    if t != 0 && g.preds@[t]@.len() == 1 {
        let b = g.preds@[t]@[0] as int;
        match branch_test(body, b) {
            Some((op, x, y)) => {
                if body.targets(b)[0] == t {
                    sigmas_spec(op, x, y, true)
                } else if body.targets(b)[1] == t {
                    sigmas_spec(op, x, y, false)
                } else {
                    Seq::empty()
                }
            },
            None => Seq::empty(),
        }
    } else {
        Seq::empty()
    }
}

/// The graph `g` is the control-flow graph of `body`.
pub open spec fn cfg_of(g: Cfg, body: Body) -> bool {
    &&& g.wf()
    &&& g.n() == body.n()
    &&& body.targets_ok()
    &&& forall|b: int| 0 <= b < g.n() ==> #[trigger] g.succs@[b]@ == body.targets(b)
}

fn sigmas(op: BinOp, x: Operand, y: Operand, holds: bool) -> (r: Vec<Statement>)
    ensures
        r@ == sigmas_spec(op, x, y, holds),
{
    let rel = if holds { op } else { negate(op) };
    let mut r: Vec<Statement> = Vec::new();
    if let Operand::Var(v) = x {
        r.push(Statement::Assign(v, Expr::Sigma(x, rel, y)));
    }
    if let Operand::Var(v) = y {
        if x != y {
            r.push(Statement::Assign(v, Expr::Sigma(y, flip(rel), x)));
        }
    }
    proof {
        assert(r@ =~= sigmas_spec(op, x, y, holds));
    }
    r
}

/// The comparison that decides the branch ending block `b` when it is the
/// block's last statement: only then do its operands still hold the
/// compared values on the outgoing edges.
fn sigma_condition(body: &Body, b: usize) -> (r: Option<(BinOp, Operand, Operand)>)
    requires
        b < body.n(),
    ensures
        r == branch_test(*body, b as int),
{
    let blk = &body.blocks[b];
    let n = blk.statements.len();
    match &blk.terminator {
        Terminator::Branch(Operand::Var(c), ts) => {
            if ts.len() == 2 && ts[0] != ts[1] && n > 0 {
                match &blk.statements[n - 1] {
                    Statement::Assign(d, Expr::Binary(op, x, y)) => {
                        let cmp = match op {
                            BinOp::Lt | BinOp::Le | BinOp::Gt | BinOp::Ge | BinOp::Eq => true,
                            _ => false,
                        };
                        if *d == *c && cmp {
                            Some((*op, *x, *y))
                        } else {
                            None
                        }
                    },
                    _ => None,
                }
            } else {
                None
            }
        },
        _ => None,
    }
}

/// The copies to place at the head of block `t`.
fn sigmas_for_block(body: &Body, g: &Cfg, t: usize) -> (r: Vec<Statement>)
    requires
        cfg_of(*g, *body),
        t < body.n(),
    ensures
        r@ == edge_sigmas(*body, *g, t as int),
{
    if t != 0 && g.preds[t].len() == 1 {
        let b = g.preds[t][0];
        proof {
            assert(g.preds@[t as int]@[0] < g.n());
        }
        match sigma_condition(body, b) {
            Some((op, x, y)) => {
                let ts = match &body.blocks[b].terminator {
                    Terminator::Branch(_, ts) => ts,
                    _ => {
                        return Vec::new();
                    },
                };
                if ts[0] == t {
                    sigmas(op, x, y, true)
                } else if ts[1] == t {
                    sigmas(op, x, y, false)
                } else {
                    Vec::new()
                }
            },
            None => Vec::new(),
        }
    } else {
        Vec::new()
    }
}

/// Places the branch-conditioned copies of every block at its head; the
/// terminators and the statements that were there stay as they are.
pub fn insert_sigmas(body: Body, g: &Cfg) -> (r: Body)
    requires
        cfg_of(*g, body),
    ensures
        r.num_vars == body.num_vars,
        r.n() == body.n(),
        forall|t: int|
            0 <= t < r.n() ==> (#[trigger] r.blocks@[t]).terminator == body.blocks@[t].terminator,
        forall|t: int|
            0 <= t < r.n() ==> (#[trigger] r.blocks@[t]).statements@ == edge_sigmas(body, *g, t)
                + body.blocks@[t].statements@,
{
    let n = body.blocks.len();
    let mut heads: Vec<Vec<Statement>> = Vec::new();
    let mut t: usize = 0;
    while t < n
        invariant
            cfg_of(*g, body),
            n == body.n(),
            t <= n,
            heads@.len() == t,
            forall|i: int| 0 <= i < t ==> (#[trigger] heads@[i])@ == edge_sigmas(body, *g, i),
        decreases n - t,
    {
        heads.push(sigmas_for_block(&body, g, t));
        t += 1;
    }
    let ghost old_body = body;
    let ghost all_heads = heads@;
    let num_vars = body.num_vars;
    let mut rest = body.blocks;
    let mut out: Vec<BasicBlock> = Vec::new();
    // Blocks come off the end; they are put back in order afterwards.
    while rest.len() > 0
        invariant
            n == old_body.n(),
            all_heads.len() == n,
            forall|i: int| 0 <= i < n ==> (#[trigger] all_heads[i])@ == edge_sigmas(old_body, *g, i),
            heads@ == all_heads.subrange(0, rest@.len() as int),
            rest@.len() + out@.len() == n,
            forall|i: int| 0 <= i < rest@.len() ==> #[trigger] rest@[i] == old_body.blocks@[i],
            forall|i: int|
                0 <= i < out@.len() ==> {
                    let k = n - 1 - i;
                    &&& (#[trigger] out@[i]).terminator == old_body.blocks@[k].terminator
                    &&& out@[i].statements@ == edge_sigmas(old_body, *g, k)
                        + old_body.blocks@[k].statements@
                },
        decreases rest@.len(),
    {
        let ghost k = rest@.len() - 1;
        let blk = rest.pop().unwrap();
        let mut head = heads.pop().unwrap();
        proof {
            assert(head == all_heads[k]);
        }
        let BasicBlock { statements, terminator } = blk;
        let mut stmts = statements;
        head.append(&mut stmts);
        out.push(BasicBlock { statements: head, terminator });
    }
    let mut blocks: Vec<BasicBlock> = Vec::new();
    while out.len() > 0
        invariant
            n == old_body.n(),
            out@.len() + blocks@.len() == n,
            forall|i: int|
                0 <= i < out@.len() ==> {
                    let k = n - 1 - i;
                    &&& (#[trigger] out@[i]).terminator == old_body.blocks@[k].terminator
                    &&& out@[i].statements@ == edge_sigmas(old_body, *g, k)
                        + old_body.blocks@[k].statements@
                },
            forall|i: int|
                0 <= i < blocks@.len() ==> {
                    &&& (#[trigger] blocks@[i]).terminator == old_body.blocks@[i].terminator
                    &&& blocks@[i].statements@ == edge_sigmas(old_body, *g, i)
                        + old_body.blocks@[i].statements@
                },
        decreases out@.len(),
    {
        let blk = out.pop().unwrap();
        blocks.push(blk);
    }
    Body { blocks, num_vars }
}

/// The first of the statements of `st` from place `i` on that assigns a
/// binary operation to variable `c`, with its operator and operands.
pub open spec fn first_condition(st: Seq<Statement>, c: usize, i: int) -> Option<(BinOp, Operand, Operand)>
    decreases st.len() - i,
{
    if i < 0 || i >= st.len() {
        None
    } else {
        match st[i] {
            Statement::Assign(d, Expr::Binary(op, x, y)) => if d == c {
                Some((op, x, y))
            } else {
                first_condition(st, c, i + 1)
            },
            _ => first_condition(st, c, i + 1),
        }
    }
}

/// The condition that the branch ending block `b` tests: the first
/// statement of the block that assigns a binary operation to the tested
/// variable.
pub open spec fn condition_of(body: Body, b: int) -> Option<(BinOp, Operand, Operand)> {
    match body.blocks@[b].terminator {
        Terminator::Branch(Operand::Var(c), _) => first_condition(body.blocks@[b].statements@, c, 0),
        _ => None,
    }
}

/// The condition that the branch ending block `b` tests, if any.
pub fn extract_condition(body: &Body, b: usize) -> (r: Option<(BinOp, Operand, Operand)>)
    requires
        b < body.n(),
    ensures
        r == condition_of(*body, b as int),
{
    let blk = &body.blocks[b];
    let c = match &blk.terminator {
        Terminator::Branch(Operand::Var(c), _) => *c,
        _ => {
            return None;
        },
    };
    let st = &blk.statements;
    let mut i: usize = 0;
    while i < st.len()
        invariant
            i <= st@.len(),
            st@ == body.blocks@[b as int].statements@,
            condition_of(*body, b as int) == first_condition(st@, c, 0),
            first_condition(st@, c, 0) == first_condition(st@, c, i as int),
        decreases st@.len() - i,
    {
        if let Statement::Assign(d, Expr::Binary(op, x, y)) = &st[i] {
            if *d == c {
                return Some((*op, *x, *y));
            }
        }
        i += 1;
    }
    None
}

} // verus!
