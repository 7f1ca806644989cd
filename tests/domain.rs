use rap_interval::cfg::{BasicBlock, BinOp, Body, Cfg, Expr, Operand, Statement, Terminator};
use rap_interval::graph::{ConstraintGraph, SymbInterval, VarNode};
use rap_interval::ssa::{is_phi_statement, map_locals_to_definition_block};
use rap_interval::range::{Range, RangeType, MAX, MIN};
use rap_interval::transform::SSATransformer;

fn regular(lower: i64, upper: i64) -> Range {
    Range { rtype: RangeType::Regular, lower, upper }
}

fn goto(t: usize) -> BasicBlock {
    BasicBlock { statements: vec![], terminator: Terminator::Goto(t) }
}

fn branch(a: usize, b: usize) -> BasicBlock {
    BasicBlock { statements: vec![], terminator: Terminator::Branch(Operand::Const(1), vec![a, b]) }
}

fn ret() -> BasicBlock {
    BasicBlock { statements: vec![], terminator: Terminator::Return }
}

#[test]
fn range_arithmetic() {
    assert_eq!(regular(1, 2).add(&regular(10, 20)), regular(11, 22));
    assert_eq!(regular(1, 2).sub(&regular(10, 20)), regular(-19, -8));
    assert_eq!(regular(1, MAX).add(&regular(1, 1)), regular(2, MAX));
    assert_eq!(regular(MAX - 1, MAX - 1).add(&regular(5, 5)), regular(MIN, MAX));
    assert_eq!(regular(MIN + 1, 0).add(&regular(-2, 0)), regular(MIN, MAX));
    assert_eq!(regular(MIN + 1, 0).sub(&regular(0, 2)), regular(MIN, MAX));
    assert_eq!(regular(MIN, 3).neg(), regular(-3, MAX));
    assert!(regular(1, 2).add(&Range::empty()).is_empty());
    assert!(regular(1, 2).add(&Range::unknown()).is_unknown());
}

#[test]
fn range_meet_and_join() {
    assert_eq!(regular(0, 10).intersect(&regular(5, 20)), regular(5, 10));
    assert!(regular(0, 4).intersect(&regular(5, 20)).is_empty());
    assert_eq!(regular(0, 4).union(&regular(8, 9)), regular(0, 9));
    assert_eq!(Range::empty().union(&regular(6, 6)), regular(6, 6));
    assert_eq!(Range::unknown().union(&regular(6, 6)), regular(6, 6));
}

#[test]
fn range_widen_and_narrow() {
    assert_eq!(regular(0, 0).widen(&regular(0, 1)), regular(0, MAX));
    assert_eq!(regular(0, 5).widen(&regular(-1, 3)), regular(MIN, 5));
    assert_eq!(regular(0, 5).widen(&regular(1, 4)), regular(0, 5));
    assert_eq!(Range::unknown().widen(&regular(3, 4)), regular(3, 4));
    assert_eq!(regular(0, MAX).narrow(&regular(0, 9)), regular(0, 9));
    assert_eq!(regular(0, 7).narrow(&regular(2, 3)), regular(0, 7));
}

#[test]
fn range_with_bounds_and_setters() {
    assert!(Range::with_bounds(5, 1, RangeType::Regular).is_empty());
    assert!(Range::with_bounds(5, 1, RangeType::Unknown).is_empty());
    let mut r = Range::new(4);
    assert_eq!(r, regular(4, 4));
    r.set_upper(9);
    assert_eq!(r, regular(4, 9));
    r.set_lower(10);
    assert!(r.is_empty());
    assert!(Range::full().is_max_range());
    assert_eq!(Range::default(), regular(0, 0));
}

#[test]
fn branch_rule_for_constants() {
    // a < 10
    assert_eq!(ConstraintGraph::apply_comparison(10, BinOp::Lt, true, false), regular(MIN, 9));
    assert_eq!(ConstraintGraph::apply_comparison(10, BinOp::Lt, false, false), regular(10, MAX));
    // a <= 10, a > 10, a >= 10
    assert_eq!(ConstraintGraph::apply_comparison(10, BinOp::Le, true, false), regular(MIN, 10));
    assert_eq!(ConstraintGraph::apply_comparison(10, BinOp::Le, false, false), regular(11, MAX));
    assert_eq!(ConstraintGraph::apply_comparison(10, BinOp::Gt, true, false), regular(11, MAX));
    assert_eq!(ConstraintGraph::apply_comparison(10, BinOp::Ge, false, false), regular(MIN, 9));
    // a == 10
    assert_eq!(ConstraintGraph::apply_comparison(10, BinOp::Eq, true, false), regular(10, 10));
    assert!(ConstraintGraph::apply_comparison(10, BinOp::Eq, false, false).is_unknown());
    // 10 < a
    assert_eq!(ConstraintGraph::apply_comparison(10, BinOp::Lt, true, true), regular(11, MAX));
    // a < MIN never holds
    assert!(ConstraintGraph::apply_comparison(MIN, BinOp::Lt, true, false).is_empty());
    let (t, f) = ConstraintGraph::calculate_ranges(Operand::Var(0), Operand::Const(3), BinOp::Ge);
    assert_eq!(t, regular(3, MAX));
    assert_eq!(f, regular(MIN, 2));
    let (t, f) = ConstraintGraph::calculate_ranges(Operand::Var(0), Operand::Var(1), BinOp::Lt);
    assert!(t.is_unknown() && f.is_unknown());
    // a != 3 puts no interval on either edge.
    let (t, f) = ConstraintGraph::calculate_ranges(Operand::Var(0), Operand::Const(3), BinOp::Ne);
    assert!(t.is_unknown() && f.is_unknown());
}

#[test]
fn diamond_dominance() {
    let body = Body { blocks: vec![branch(1, 2), goto(3), goto(3), ret()], num_vars: 0 };
    let g = Cfg::from_body(&body);
    let dom = g.dominators();
    let idom = g.immediate_dominators(&dom);
    assert_eq!(idom, vec![None, Some(0), Some(0), Some(0)]);
    let df = g.dominance_frontier(&dom);
    assert_eq!(df[1], vec![false, false, false, true]);
    assert_eq!(df[2], vec![false, false, false, true]);
    assert_eq!(df[0], vec![false, false, false, false]);
    assert!(dom[0][3] && !dom[1][3] && dom[3][3]);
}

#[test]
fn loop_dominance() {
    let body = Body { blocks: vec![goto(1), branch(2, 3), goto(1), ret()], num_vars: 0 };
    let g = Cfg::from_body(&body);
    let dom = g.dominators();
    let idom = g.immediate_dominators(&dom);
    assert_eq!(idom, vec![None, Some(0), Some(1), Some(1)]);
    let df = g.dominance_frontier(&dom);
    assert_eq!(df[2], vec![false, true, false, false]);
    assert_eq!(df[1], vec![false, true, false, false]);
    assert_eq!(g.preds[1], vec![0, 2]);
    let t = SSATransformer::new(body).ok().unwrap();
    let tree = t.construct_dominance_tree();
    assert_eq!(tree[1], vec![2, 3]);
    assert!(t.dominates_(1, 2) && !t.dominates_(2, 1) && !t.dominates_(1, 1));
}

#[test]
fn branch_value_map_of_comparison() {
    let body = Body {
        blocks: vec![
            BasicBlock {
                statements: vec![Statement::Assign(1, Expr::Binary(BinOp::Le, Operand::Var(0), Operand::Const(7)))],
                terminator: Terminator::Branch(Operand::Var(1), vec![1, 2]),
            },
            ret(),
            ret(),
        ],
        num_vars: 2,
    };
    let maps = ConstraintGraph::build_value_maps(&body);
    let m = maps[0].unwrap();
    assert_eq!(m.get_v(), 0);
    assert_eq!((m.get_bb_true(), m.get_bb_false()), (1, 2));
    assert_eq!(m.get_itv_t().get_range(), regular(MIN, 7));
    assert_eq!(m.get_itv_f().get_range(), regular(8, MAX));
    assert!(maps[1].is_none());
}

#[test]
fn var_nodes_and_signs() {
    let mut n = VarNode::new(3);
    assert!(n.get_range().is_unknown());
    assert_eq!(n.get_value(), 3);
    n.set_range(regular(2, 9));
    n.store_abstract_state();
    assert_eq!(n.get_abstract_state(), '+');
    n.set_range(regular(-4, -1));
    n.store_abstract_state();
    assert_eq!(n.get_abstract_state(), '-');
    n.set_range(regular(0, 0));
    n.store_abstract_state();
    assert_eq!(n.get_abstract_state(), '0');
    n.set_range(regular(5, 1));
    assert!(n.get_range().is_empty());
    n.init(true);
    assert!(n.get_range().is_max_range());
}

#[test]
fn graph_nodes_and_inputs() {
    let body = Body {
        blocks: vec![BasicBlock {
            statements: vec![Statement::Assign(1, Expr::Binary(BinOp::Add, Operand::Var(0), Operand::Const(1)))],
            terminator: Terminator::Return,
        }],
        num_vars: 2,
    };
    let mut g = ConstraintGraph::build_graph(&body).ok().unwrap();
    assert_eq!(g.get_oprs().len(), 1);
    assert_eq!(g.get_defmap()[1], Some(0));
    assert_eq!(g.get_usemap()[0], vec![0]);
    g.build_varnodes();
    assert!(g.vars[0].interval.is_max_range());
    assert!(g.vars[1].interval.is_unknown());
    let v = g.add_varnode();
    assert_eq!(v, 2);
    let stats = g.find_intervals();
    assert_eq!(stats.num_sccs, 3);
    assert_eq!(g.vars[1].interval, regular(MIN, MAX));
}

#[test]
fn ssa_helpers() {
    let body = Body {
        blocks: vec![
            BasicBlock { statements: vec![Statement::Assign(1, Expr::Use(Operand::Const(0)))], terminator: Terminator::Goto(1) },
            BasicBlock { statements: vec![Statement::Assign(0, Expr::Use(Operand::Const(1))), Statement::Assign(1, Expr::Use(Operand::Const(2)))], terminator: Terminator::Return },
        ],
        num_vars: 3,
    };
    assert_eq!(map_locals_to_definition_block(&body), vec![Some(1), Some(0), None]);
    assert!(is_phi_statement(&Statement::Assign(0, Expr::Phi(vec![Operand::Var(1)]))));
    assert!(!is_phi_statement(&Statement::Nop));
}

#[test]
fn symbolic_bounds_against_known_ranges() {
    let lt = SymbInterval::new(Range::unknown(), 1, BinOp::Lt);
    assert_eq!(lt.fix_intersects(regular(0, MAX)), regular(MIN, MAX - 1));
    assert_eq!(lt.fix_intersects(regular(0, 10)), regular(MIN, 9));
    let gt = SymbInterval::new(Range::unknown(), 1, BinOp::Gt);
    assert_eq!(gt.fix_intersects(regular(MIN, 4)), regular(MIN + 1, MAX));
    let ge = SymbInterval::new(Range::unknown(), 1, BinOp::Ge);
    assert_eq!(ge.fix_intersects(regular(3, 4)), regular(3, MAX));
}

#[test]
fn condition_found_before_other_statements() {
    let body = Body {
        blocks: vec![
            BasicBlock {
                statements: vec![
                    Statement::Assign(1, Expr::Binary(BinOp::Gt, Operand::Var(0), Operand::Const(2))),
                    Statement::Assign(2, Expr::Use(Operand::Const(0))),
                ],
                terminator: Terminator::Branch(Operand::Var(1), vec![1, 2]),
            },
            ret(),
            ret(),
        ],
        num_vars: 3,
    };
    let m = ConstraintGraph::build_value_branch_map(&body, 0).unwrap();
    assert_eq!(m.get_itv_t().get_range(), regular(3, MAX));
    assert_eq!(m.get_itv_f().get_range(), regular(MIN, 2));
}
