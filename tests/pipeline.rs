use rap_interval::analysis::{analyze, AnalysisError, RangeAnalysis};
use rap_interval::cfg::{BasicBlock, BinOp, Body, Expr, Operand, Statement, Terminator};
use rap_interval::graph::ConstraintGraph;
use rap_interval::range::{Range, RangeType, MAX, MIN};
use rap_interval::scc::Nuutila;
use rap_interval::transform::CfgError;

fn assign(d: usize, e: Expr) -> Statement {
    Statement::Assign(d, e)
}

fn var(v: usize) -> Operand {
    Operand::Var(v)
}

fn cst(c: i64) -> Operand {
    Operand::Const(c)
}

fn block(statements: Vec<Statement>, terminator: Terminator) -> BasicBlock {
    BasicBlock { statements, terminator }
}

/// `x = k; if (x < 10) { y = x + 1 } else { y = x - 1 }` with x = 0, y = 1, c = 2.
fn branch_program(k: i64) -> Body {
    Body {
        blocks: vec![
            block(
                vec![
                    assign(0, Expr::Use(cst(k))),
                    assign(2, Expr::Binary(BinOp::Lt, var(0), cst(10))),
                ],
                Terminator::Branch(var(2), vec![1, 2]),
            ),
            block(vec![assign(1, Expr::Binary(BinOp::Add, var(0), cst(1)))], Terminator::Goto(3)),
            block(vec![assign(1, Expr::Binary(BinOp::Sub, var(0), cst(1)))], Terminator::Goto(3)),
            block(vec![], Terminator::Return),
        ],
        num_vars: 3,
    }
}

/// `i = 0; n = bound; while (i < n) { i = i + 1 }` with i = 0, n = 1, c = 2.
fn loop_program(bound: i64) -> Body {
    Body {
        blocks: vec![
            block(
                vec![assign(0, Expr::Use(cst(0))), assign(1, Expr::Use(cst(bound)))],
                Terminator::Goto(1),
            ),
            block(
                vec![assign(2, Expr::Binary(BinOp::Lt, var(0), var(1)))],
                Terminator::Branch(var(2), vec![2, 3]),
            ),
            block(vec![assign(0, Expr::Binary(BinOp::Add, var(0), cst(1)))], Terminator::Goto(1)),
            block(vec![], Terminator::Return),
        ],
        num_vars: 3,
    }
}

fn regular(lower: i64, upper: i64) -> Range {
    Range { rtype: RangeType::Regular, lower, upper }
}

/// The variables of block `t` that stand for source variable `x`, with
/// the kind of statement defining each, in order.
fn defs_of(a: &RangeAnalysis, t: usize, x: usize) -> Vec<(usize, &'static str)> {
    let mut out = Vec::new();
    for s in a.ssa.body.blocks[t].statements.iter() {
        if let Statement::Assign(d, e) = s {
            if a.ssa.origin[*d] == x {
                let kind = match e {
                    Expr::Phi(_) => "phi",
                    Expr::Sigma(_, _, _) => "sigma",
                    _ => "assign",
                };
                out.push((*d, kind));
            }
        }
    }
    out
}

fn range(a: &RangeAnalysis, v: usize) -> Range {
    a.get_range(v).unwrap()
}

#[test]
fn branch_scenario_true_edge_and_merge() {
    let a = analyze(branch_program(5)).unwrap();
    // x on the true edge: [MIN, 9] met with [5, 5].
    let x_true = defs_of(&a, 1, 0);
    assert_eq!(x_true.len(), 1);
    assert_eq!(x_true[0].1, "sigma");
    assert_eq!(range(&a, x_true[0].0), regular(5, 5));
    // y on the true edge.
    let y_true = defs_of(&a, 1, 1);
    assert_eq!(range(&a, y_true[0].0), regular(6, 6));
    // The false edge cannot be taken.
    let x_false = defs_of(&a, 2, 0);
    assert!(range(&a, x_false[0].0).is_empty());
    let y_false = defs_of(&a, 2, 1);
    assert!(range(&a, y_false[0].0).is_empty());
    // The merged y.
    let y_merge = defs_of(&a, 3, 1);
    assert_eq!(y_merge.len(), 1);
    assert_eq!(y_merge[0].1, "phi");
    assert_eq!(range(&a, y_merge[0].0), regular(6, 6));
}

#[test]
fn loop_scenario_narrowed_by_symbolic_bound() {
    let a = analyze(loop_program(10)).unwrap();
    // The loop header merges i: [0, 10].
    let i_head: Vec<_> = defs_of(&a, 1, 0);
    assert_eq!(i_head.len(), 1);
    assert_eq!(i_head[0].1, "phi");
    assert_eq!(range(&a, i_head[0].0), regular(0, 10));
    // In the body, i < n: [0, n - 1].
    let i_body = defs_of(&a, 2, 0);
    assert_eq!(i_body[0].1, "sigma");
    assert_eq!(range(&a, i_body[0].0), regular(0, 9));
    assert_eq!(range(&a, i_body[1].0), regular(1, 10));
    // On exit, i >= n.
    let i_exit = defs_of(&a, 3, 0);
    assert_eq!(range(&a, i_exit[0].0), regular(10, 10));
    // The phi and the loop body form one component of several variables.
    assert!(a.stats.size_max_scc > 1);
}

#[test]
fn loop_with_unknown_bound_widens_to_max() {
    // n is never assigned: its range is the full range.
    let body = Body {
        blocks: vec![
            block(vec![assign(0, Expr::Use(cst(0)))], Terminator::Goto(1)),
            block(
                vec![assign(2, Expr::Binary(BinOp::Lt, var(0), var(1)))],
                Terminator::Branch(var(2), vec![2, 3]),
            ),
            block(vec![assign(0, Expr::Binary(BinOp::Add, var(0), cst(1)))], Terminator::Goto(1)),
            block(vec![], Terminator::Return),
        ],
        num_vars: 3,
    };
    let a = analyze(body).unwrap();
    let i_head = defs_of(&a, 1, 0);
    assert_eq!(range(&a, i_head[0].0), regular(0, MAX));
    assert_eq!(range(&a, 1), regular(MIN, MAX));
}

#[test]
fn unreachable_block_is_rejected() {
    let body = Body {
        blocks: vec![block(vec![], Terminator::Return), block(vec![], Terminator::Goto(0))],
        num_vars: 0,
    };
    assert!(matches!(analyze(body), Err(AnalysisError::Cfg(CfgError::UnreachableBlock))));
}

#[test]
fn bad_target_is_rejected() {
    let body = Body { blocks: vec![block(vec![], Terminator::Goto(4))], num_vars: 0 };
    assert!(matches!(analyze(body), Err(AnalysisError::Cfg(CfgError::BadTarget))));
    let empty = Body { blocks: vec![], num_vars: 0 };
    assert!(matches!(analyze(empty), Err(AnalysisError::Cfg(CfgError::BadTarget))));
}

#[test]
fn bad_variable_is_rejected() {
    let body = Body {
        blocks: vec![block(vec![assign(3, Expr::Use(cst(1)))], Terminator::Return)],
        num_vars: 2,
    };
    assert!(matches!(analyze(body), Err(AnalysisError::Cfg(CfgError::BadVariable))));
}

#[test]
fn ssa_single_definition() {
    for body in [branch_program(5), loop_program(10)] {
        let a = analyze(body).unwrap();
        let n = a.ssa.body.num_vars;
        let mut defs = vec![0usize; n];
        for b in a.ssa.body.blocks.iter() {
            for s in b.statements.iter() {
                if let Statement::Assign(d, _) = s {
                    defs[*d] += 1;
                }
            }
        }
        assert!(defs.iter().all(|&c| c <= 1));
        // Each operation of the graph is the only definition of its sink.
        for (k, op) in a.graph.oprs.iter().enumerate() {
            assert_eq!(a.graph.defmap[op.sink], Some(k));
        }
    }
}

#[test]
fn rerun_on_ssa_form_keeps_ranges() {
    let first = analyze(branch_program(5)).unwrap();
    let again = analyze(first.ssa.body.clone()).unwrap();
    for (t, b1) in first.ssa.body.blocks.iter().enumerate() {
        let b2 = &again.ssa.body.blocks[t];
        let shift = b2.statements.len() - b1.statements.len();
        for (j, s1) in b1.statements.iter().enumerate() {
            if let (Statement::Assign(d1, _), Statement::Assign(d2, _)) = (s1, &b2.statements[shift + j]) {
                assert_eq!(range(&first, *d1), range(&again, *d2));
                assert_eq!(again.ssa.origin[*d2], *d1);
            }
        }
    }
}

/// A concrete run of an SSA body, checking each value against its range.
fn run_and_check(a: &RangeAnalysis, inputs: &[i128]) {
    let body = &a.ssa.body;
    let mut env: Vec<i128> = vec![0; body.num_vars];
    for (v, x) in inputs.iter().enumerate() {
        env[v] = *x;
    }
    let value = |env: &Vec<i128>, o: &Operand| -> i128 {
        match o {
            Operand::Const(c) => *c as i128,
            Operand::Var(v) => env[*v],
        }
    };
    let mut prev: Option<usize> = None;
    let mut t = 0usize;
    for _step in 0..10_000 {
        for s in body.blocks[t].statements.iter() {
            if let Statement::Assign(d, e) = s {
                let x = match e {
                    Expr::Use(o) => value(&env, o),
                    Expr::Unary(_, o) => -value(&env, o),
                    Expr::Binary(op, p, q) => {
                        let (p, q) = (value(&env, p), value(&env, q));
                        match op {
                            BinOp::Add => p + q,
                            BinOp::Sub => p - q,
                            BinOp::Mul => p * q,
                            BinOp::Lt => (p < q) as i128,
                            BinOp::Le => (p <= q) as i128,
                            BinOp::Gt => (p > q) as i128,
                            BinOp::Ge => (p >= q) as i128,
                            BinOp::Eq => (p == q) as i128,
                            BinOp::Ne => (p != q) as i128,
                            BinOp::Div | BinOp::Rem => 0,
                        }
                    },
                    Expr::Phi(ops) => {
                        let p = prev.unwrap();
                        let k = rap_interval_preds(body, t).iter().position(|&b| b == p).unwrap();
                        value(&env, &ops[k])
                    },
                    Expr::Sigma(o, _, _) => value(&env, o),
                };
                let r = range(a, *d);
                let inside = r.rtype == RangeType::Regular
                    && (r.lower == MIN || r.lower as i128 <= x)
                    && (r.upper == MAX || x <= r.upper as i128);
                assert!(inside, "variable {} holds {} outside {:?}", d, x, r);
                env[*d] = x;
            }
        }
        let next = match &body.blocks[t].terminator {
            Terminator::Goto(b) => *b,
            Terminator::Branch(c, ts) => {
                if value(&env, c) != 0 {
                    ts[0]
                } else {
                    ts[1]
                }
            },
            Terminator::Return => return,
        };
        prev = Some(t);
        t = next;
    }
}

/// The predecessors of block `t`, in the order the phis list them.
fn rap_interval_preds(body: &Body, t: usize) -> Vec<usize> {
    let mut out = Vec::new();
    for (a, b) in body.blocks.iter().enumerate() {
        let targets: Vec<usize> = match &b.terminator {
            Terminator::Goto(x) => vec![*x],
            Terminator::Branch(_, ts) => ts.clone(),
            Terminator::Return => vec![],
        };
        if targets.contains(&t) {
            out.push(a);
        }
    }
    out
}

#[test]
fn computed_ranges_hold_every_value_taken() {
    let mut seed: u64 = 0x2545_f491_4f6c_dd1d;
    for _ in 0..40 {
        seed = seed.wrapping_mul(6364136223846793005).wrapping_add(1442695040888963407);
        let k = ((seed >> 33) % 41) as i64 - 20;
        let a = analyze(branch_program(k)).unwrap();
        run_and_check(&a, &[]);
        let bound = ((seed >> 20) % 30) as i64;
        let b = analyze(loop_program(bound)).unwrap();
        run_and_check(&b, &[]);
    }
}

#[test]
fn components_follow_dependencies() {
    let a = analyze(loop_program(10)).unwrap();
    let g = ConstraintGraph::build_graph(&a.ssa.body).ok().unwrap();
    let scc = Nuutila::new(&g);
    // Every variable lies in exactly one component.
    let mut seen = vec![0usize; g.vars.len()];
    for comp in scc.components.iter() {
        for &v in comp.iter() {
            seen[v] += 1;
        }
    }
    assert!(seen.iter().all(|&c| c == 1));
    // A dependency never leads to an earlier component.
    for op in g.oprs.iter() {
        for u in 0..g.vars.len() {
            if g.usemap[u].contains(&g.defmap[op.sink].unwrap()) {
                assert!(scc.comp_of[u] <= scc.comp_of[op.sink]);
            }
        }
    }
    // The loop header and the loop body share one component.
    let head = defs_of(&a, 1, 0)[0].0;
    let body_i = defs_of(&a, 2, 0)[1].0;
    assert_eq!(scc.comp_of[head], scc.comp_of[body_i]);
    // The constant before the loop is alone in its component.
    let init = defs_of(&a, 0, 0)[0].0;
    assert_eq!(scc.components[scc.comp_of[init]], vec![init]);
}

#[test]
fn use_reached_by_no_definition_is_reported() {
    // x is assigned only in block 1, but block 2 reads it on the other path.
    let body = Body {
        blocks: vec![
            block(vec![], Terminator::Branch(cst(1), vec![1, 2])),
            block(vec![assign(0, Expr::Use(cst(4)))], Terminator::Return),
            block(vec![assign(1, Expr::Use(var(0)))], Terminator::Return),
        ],
        num_vars: 2,
    };
    assert!(matches!(analyze(body), Err(AnalysisError::UnreachedUse(0))));
}

#[test]
fn every_operation_evaluates_within_its_sink() {
    let a = analyze(loop_program(10)).unwrap();
    for (k, op) in a.graph.oprs.iter().enumerate() {
        let e = a.graph.eval(k);
        assert!(e.is_within(&a.graph.vars[op.sink].interval));
    }
}
