//! The whole analysis: SSA construction, the constraint graph, and the
//! solver, from a procedure body to a range for every SSA variable.
use vstd::prelude::*;
use crate::cfg::{Body, Cfg};
use crate::graph::{ConstraintGraph, GraphError};
use crate::range::{Range, RangeType};
use crate::sigma::{cfg_of, edge_sigmas};
use crate::solver::{post_holds, solved_in_order};
use crate::ssa::{block_defines, entry_def_ok, is_table, needs_phi, numbering_ok, reads_somewhere, ssa_block_ok, unreached_use};
use crate::transform::renamed_form;
use crate::solver::SccStats;
use crate::transform::{CfgError, SSATransformer, SsaForm};

verus! {

/// Why a body could not be analysed.
#[derive(Clone, Copy, Debug, PartialEq, Eq, Structural)]
pub enum AnalysisError {
    Cfg(CfgError),
    Graph(GraphError),
    /// A variable assigned in the body is read where none of its
    /// definitions reaches.
    UnreachedUse(usize),
}

/// The result of the analysis: the SSA form of the body, its solved
/// constraint graph, and the component counts.
pub struct RangeAnalysis {
    pub ssa: SsaForm,
    pub graph: ConstraintGraph,
    pub stats: SccStats,
}

impl RangeAnalysis {
    /// Every SSA variable has a node, and every node a known range.
    pub open spec fn wf(self) -> bool {
        &&& self.graph.wf()
        &&& self.graph.vars@.len() == self.ssa.body.num_vars
        &&& self.ssa.origin@.len() == self.ssa.body.num_vars
        &&& forall|v: int| 0 <= v < self.graph.vars@.len() ==> (#[trigger] self.graph.vars@[v]).interval.rtype != RangeType::Unknown
    }

    /// The range computed for SSA variable `v`.
    pub fn get_range(&self, v: usize) -> (r: Option<Range>)
        requires
            self.wf(),
        ensures
            v < self.ssa.body.num_vars ==> r == Some(self.graph.vars@[v as int].interval),
            v >= self.ssa.body.num_vars ==> r is None,
    {
        if v < self.graph.vars.len() {
            Some(self.graph.vars[v].interval)
        } else {
            None
        }
    }

    /// The source variable that SSA variable `v` stands for.
    pub fn origin_of(&self, v: usize) -> (r: Option<usize>)
        requires
            self.wf(),
        ensures
            v < self.ssa.body.num_vars ==> r == Some(self.ssa.origin@[v as int]),
            v >= self.ssa.body.num_vars ==> r is None,
    {
        if v < self.ssa.origin.len() {
            Some(self.ssa.origin[v])
        } else {
            None
        }
    }
}

/// Analyses a procedure body: checks it, converts it to SSA form, builds
/// its constraint graph and solves it. A body is refused exactly when a
/// target or a variable is out of range or a block cannot be reached; the
/// SSA form always gives a graph.
pub fn analyze(body: Body) -> (r: Result<RangeAnalysis, AnalysisError>)
    ensures
        r matches Err(AnalysisError::Cfg(_)) <==> !body.targets_ok() || !body.vars_ok() || !(exists|g: Cfg| cfg_of(g, body) && g.all_reachable()),
        !(r matches Err(AnalysisError::Graph(_))),
        r matches Err(AnalysisError::UnreachedUse(x)) ==> unreached_in_ssa(body, x as int),
        r matches Err(AnalysisError::Cfg(e)) ==> (e == CfgError::BadTarget <==> !body.targets_ok()),
        r matches Ok(a) ==> {
            &&& a.wf()
            &&& a.graph.built_from_ssa(a.ssa.body)
            &&& solved_from(a.ssa.body, a.graph, a.stats)
            &&& forall|k: int| 0 <= k < a.graph.oprs@.len() ==> #[trigger] post_holds(a.graph, k)
            &&& a.ssa.body.n() == body.n()
            &&& exists|t: SSATransformer| #[trigger] t.wf() && ssa_of(t, body, a.ssa)
            &&& forall|x: int| !#[trigger] unreached_use(a.ssa.body, body, x)
        },
{
    let ghost input = body;
    let t = match SSATransformer::new(body) {
        Ok(t) => t,
        Err(e) => {
            return Err(AnalysisError::Cfg(e));
        },
    };
    let ssa = match t.rename_variables() {
        Ok(f) => f,
        Err(e) => {
            proof {
                let x = choose|x: usize| e == CfgError::UnreachedUse(x);
                let f = choose|f: SsaForm| #[trigger] renamed_form(t, f)
                    && x < t.body.num_vars && t.input_assigned@[x as int] is Some && reads_somewhere(f.body, x as int);
                assert(ssa_of(t, input, f));
                assert(unreached_use(f.body, input, x as int));
                assert(unreached_in_ssa(input, x as int));
            }
            match e {
                CfgError::UnreachedUse(x) => {
                    return Err(AnalysisError::UnreachedUse(x));
                },
                _ => {
                    return Err(AnalysisError::Cfg(e));
                },
            }
        },
    };
    proof {
        assert(renamed_form(t, ssa));
    }
    let mut graph = match ConstraintGraph::build_graph(&ssa.body) {
        Ok(g) => g,
        Err(e) => {
            proof {
                let GraphError::Redefined(v) = e;
                assert(crate::graph::redefined(ssa.body, v as int));
            }
            return Err(AnalysisError::Graph(e));
        },
    };
    let ghost built = graph;
    let stats = graph.find_intervals();
    proof {
        assert(built.wf() && built.built_from(ssa.body) && solved_in_order(built, graph, stats));
        assert(solved_from(ssa.body, graph, stats));
    }
    let r = RangeAnalysis { ssa, graph, stats };
    proof {
        assert(t.wf() && ssa_of(t, body, r.ssa));
        assert forall|x: int| !#[trigger] unreached_use(r.ssa.body, body, x) by {
            if unreached_use(r.ssa.body, body, x) {
                assert(t.input_assigned@[x] is Some);
            }
        }
    }
    Ok(r)
}

/// `g` is the graph that `build_graph` makes from `body`, solved by
/// `find_intervals` with counts `stats`.
pub open spec fn solved_from(body: Body, g: ConstraintGraph, stats: SccStats) -> bool {
    exists|g0: ConstraintGraph| #[trigger] g0.built_from(body) && g0.wf() && solved_in_order(g0, g, stats)
}

/// In the SSA form of `body`, variable `x` is read where none of its
/// definitions reaches.
pub open spec fn unreached_in_ssa(body: Body, x: int) -> bool {
    exists|t: SSATransformer, form: SsaForm| #[trigger] ssa_of(t, body, form) && t.wf() && unreached_use(form.body, body, x)
}

/// `form` is the SSA form of `body` that `t` builds: `t` holds the graph of
/// `body` and the body with its branch-conditioned copies, and `form` renames
/// each of its blocks as `ssa_block_ok` says.
pub open spec fn ssa_of(t: SSATransformer, body: Body, form: SsaForm) -> bool {
    &&& cfg_of(t.cfg, body)
    &&& t.body.n() == body.n()
    &&& t.body.num_vars == body.num_vars
    &&& forall|b: int| 0 <= b < body.n() ==> (#[trigger] t.body.blocks@[b]).terminator == body.blocks@[b].terminator
        && t.body.blocks@[b].statements@ == edge_sigmas(body, t.cfg, b) + body.blocks@[b].statements@
    &&& form.body.n() == body.n()
    &&& is_table(form.phi@, body.n(), body.num_vars as nat)
    &&& forall|b: int, x: int| 0 <= b < body.n() && 0 <= x < body.num_vars ==> (#[trigger] form.phi@[b]@[x] == needs_phi(t.body, t.cfg, x, b))
    &&& numbering_ok(t.body, form.phi@, form.phi_var@, form.def_var@, form.origin@, form.def_site@)
    &&& forall|b: int, x: int| 0 <= b < body.n() && 0 <= x < body.num_vars ==> entry_def_ok(
        t.cfg, t.body, form.phi@, form.phi_var@, form.def_var@, b, x, (#[trigger] form.entry_def@[b]@[x]) as int)
    &&& forall|b: int| 0 <= b < body.n() ==> ssa_block_ok(t.body.blocks@[b], #[trigger] form.body.blocks@[b], t.body, t.cfg,
        form.phi@, form.phi_var@, form.def_var@, form.entry_def@, b)
}

impl ConstraintGraph {
    /// The graph has one node for each variable of `body` and one operation
    /// for each of its assignments.
    pub open spec fn built_from_ssa(self, body: Body) -> bool {
        &&& self.vars@.len() == body.num_vars
        &&& forall|k: int| 0 <= k < self.oprs@.len() ==> {
            let op = #[trigger] self.oprs@[k];
            let t = op.inst.block as int;
            let i = op.inst.index as int;
            &&& 0 <= t < body.n()
            &&& 0 <= i < body.blocks@[t].statements@.len()
            &&& body.blocks@[t].statements@[i] matches crate::cfg::Statement::Assign(d, _) && d == op.sink
        }
    }
}

} // verus!
