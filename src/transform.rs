//! The SSA constructor as one object: it checks the body, computes its
//! dominance structures, and produces the body in SSA form.
use vstd::prelude::*;
use crate::cfg::{Body, Cfg, stmt_ok};
use crate::dominance::is_dominance_matrix;
use crate::sigma::{branch_test, cfg_of, edge_sigmas, insert_sigmas, sigmas_spec};
use crate::graph::redefined;
use crate::ssa::{
    DefSite, as_place, assigns, dest_of, entry_def_ok, entry_defs, insert_phi_statment, is_assign,
    is_some_phi, is_table, last_assign, last_assignments, needs_phi, number_defs, numbering_ok,
    phi_ok, rename_variables, renamed_stmt, ssa_block_ok, block_defines, map_locals_to_definition_block,
    find_unreached_use, reads_somewhere,
};

verus! {

/// Why a body cannot be analysed.
#[derive(Clone, Copy, Debug, PartialEq, Eq, Structural)]
pub enum CfgError {
    /// A terminator names a block that does not exist, or there is no block.
    BadTarget,
    /// A statement or terminator names a variable at or above `num_vars`.
    BadVariable,
    /// Some block cannot be reached from the entry.
    UnreachableBlock,
    /// A variable assigned in the body is read where none of its
    /// definitions reaches.
    UnreachedUse(usize),
}

/// A body in SSA form, with the tables that relate it to the body it came from.
pub struct SsaForm {
    pub body: Body,
    /// The source variable that each variable stands for.
    pub origin: Vec<usize>,
    /// Where each variable is defined; none for the source variables.
    pub def_site: Vec<Option<DefSite>>,
    /// `phi[t][x]`: block `t` has a phi for `x`.
    pub phi: Vec<Vec<bool>>,
    /// `phi_var[t][x]`: the variable that phi defines.
    pub phi_var: Vec<Vec<Option<usize>>>,
    /// `def_var[t][i]`: the variable that statement `i` of block `t` defines.
    pub def_var: Vec<Vec<usize>>,
    /// `entry_def[t][x]`: the variable holding `x` at the entry of block `t`.
    pub entry_def: Vec<Vec<usize>>,
}

pub struct SSATransformer {
    /// The body with its branch-conditioned copies in place.
    pub body: Body,
    pub cfg: Cfg,
    /// `dominators[d][v]`: `d` dominates `v`.
    pub dominators: Vec<Vec<bool>>,
    /// The immediate dominator of each block but the entry.
    pub idom: Vec<Option<usize>>,
    /// `df[d][v]`: `v` is in the dominance frontier of `d`.
    pub df: Vec<Vec<bool>>,
    /// `local_assign_blocks[b][x]`: the place of the last assignment to `x`
    /// in block `b`.
    pub local_assign_blocks: Vec<Vec<Option<usize>>>,
    /// `input_assigned[x]`: the first block of the input body that assigns
    /// `x`; none for a variable the input never assigns.
    pub input_assigned: Vec<Option<usize>>,
}

/// Each statement of `edge_sigmas` names only variables of the body.
proof fn lemma_sigmas_ok(body: Body, g: Cfg, t: int)
    requires
        cfg_of(g, body),
        body.vars_ok(),
        0 <= t < body.n(),
    ensures
        forall|j: int| 0 <= j < edge_sigmas(body, g, t).len() ==> stmt_ok(
            #[trigger] edge_sigmas(body, g, t)[j],
            body.num_vars as nat,
        ),
{
    if t != 0 && g.preds@[t]@.len() == 1 {
        let b = g.preds@[t]@[0] as int;
        assert(0 <= b < g.n());
        match branch_test(body, b) {
            Some((op, x, y)) => {
                let st = body.blocks@[b].statements@;
                assert(stmt_ok(st[st.len() - 1], body.num_vars as nat));
                let s1 = sigmas_spec(op, x, y, true);
                let s2 = sigmas_spec(op, x, y, false);
                assert forall|j: int| 0 <= j < s1.len() implies stmt_ok(#[trigger] s1[j], body.num_vars as nat) by {}
                assert forall|j: int| 0 <= j < s2.len() implies stmt_ok(#[trigger] s2[j], body.num_vars as nat) by {}
            },
            None => {},
        }
    }
}

impl SSATransformer {
    /// The analysis state is consistent: the graph is the body's, every
    /// block is reachable, and each table holds what its field says.
    pub open spec fn wf(self) -> bool {
        &&& cfg_of(self.cfg, self.body)
        &&& self.cfg.all_reachable()
        &&& self.body.vars_ok()
        &&& is_dominance_matrix(self.cfg, self.dominators@)
        &&& self.idom@.len() == self.cfg.n()
        &&& self.idom@[0] is None
        &&& forall|v: int| 0 < v < self.cfg.n() ==> (#[trigger] self.idom@[v]) is Some && self.cfg.is_idom(self.idom@[v]->0 as int, v)
        &&& is_table(self.df@, self.cfg.n(), self.cfg.n())
        &&& forall|d: int, v: int| 0 <= d < self.cfg.n() && 0 <= v < self.cfg.n() ==> (#[trigger] self.df@[d]@[v] == self.cfg.in_frontier(d, v))
        &&& self.input_assigned@.len() == self.body.num_vars
        &&& is_table(self.local_assign_blocks@, self.body.n(), self.body.num_vars as nat)
        &&& forall|b: int, x: int|
            0 <= b < self.body.n() && 0 <= x < self.body.num_vars ==> (#[trigger] self.local_assign_blocks@[b]@[x]) == as_place(last_assign(
                self.body.blocks@[b].statements@,
                self.body.blocks@[b].statements@.len() as int,
                x,
            ))
    }

    /// Checks the body and builds the dominance structures of its graph.
    /// The body kept has its branch-conditioned copies in place.
    pub fn new(input: Body) -> (r: Result<SSATransformer, CfgError>)
        ensures
            r matches Err(e) ==> (e == CfgError::BadTarget <==> !input.targets_ok()),
            r matches Err(e) ==> (e == CfgError::BadVariable <==> input.targets_ok() && !input.vars_ok()),
            r is Err <==> !input.targets_ok() || !input.vars_ok() || !(exists|g: Cfg| cfg_of(g, input) && g.all_reachable()),
            r matches Ok(s) ==> {
                &&& s.wf()
                &&& cfg_of(s.cfg, input)
                &&& s.body.num_vars == input.num_vars
                &&& s.body.n() == input.n()
                &&& forall|t: int| 0 <= t < input.n() ==> (#[trigger] s.body.blocks@[t]).terminator == input.blocks@[t].terminator
                &&& forall|t: int| 0 <= t < input.n() ==> (#[trigger] s.body.blocks@[t]).statements@ == edge_sigmas(input, s.cfg, t) + input.blocks@[t].statements@
                &&& forall|x: int| 0 <= x < input.num_vars ==> ((#[trigger] s.input_assigned@[x]) is Some
                    <==> exists|b: int| 0 <= b < input.n() && #[trigger] block_defines(input, b, x))
            },
    {
        if !input.check_targets() {
            return Err(CfgError::BadTarget);
        }
        if !input.check_vars() {
            return Err(CfgError::BadVariable);
        }
        let input_assigned = map_locals_to_definition_block(&input);
        proof {
            assert forall|x: int| 0 <= x < input.num_vars implies ((#[trigger] input_assigned@[x]) is Some
                <==> exists|b: int| 0 <= b < input.n() && #[trigger] block_defines(input, b, x)) by {
                if input_assigned@[x] is Some {
                    let b = input_assigned@[x]->0 as int;
                    assert(block_defines(input, b, x));
                }
            }
        }
        let cfg = Cfg::from_body(&input);
        if !cfg.check_reachable() {
            proof {
                assert forall|g: Cfg| cfg_of(g, input) implies !g.all_reachable() by {
                    if g.all_reachable() {
                        lemma_same_graph(cfg, g, input);
                    }
                }
            }
            return Err(CfgError::UnreachableBlock);
        }
        let ghost orig = input;
        let body = insert_sigmas(input, &cfg);
        proof {
            assert forall|b: int, i: int|
                0 <= b < body.n() && 0 <= i < body.blocks@[b].statements@.len() implies stmt_ok(
                    #[trigger] body.blocks@[b].statements@[i],
                    body.num_vars as nat,
                ) by {
                lemma_sigmas_ok(orig, cfg, b);
                let k = edge_sigmas(orig, cfg, b).len();
                if i >= k {
                    assert(body.blocks@[b].statements@[i] == orig.blocks@[b].statements@[i - k]);
                }
            }
            assert forall|b: int| 0 <= b < body.n() implies #[trigger] body.targets(b) == orig.targets(b) by {}
            assert(body.targets_ok());
        }
        let dominators = cfg.dominators();
        let idom = cfg.immediate_dominators(&dominators);
        let df = cfg.dominance_frontier(&dominators);
        let local_assign_blocks = last_assignments(&body);
        Ok(SSATransformer { body, cfg, dominators, idom, df, local_assign_blocks, input_assigned })
    }

    /// Whether `d` strictly dominates `v`: `v` lies below `d` in the
    /// dominator tree.
    pub fn dominates_(&self, d: usize, v: usize) -> (r: bool)
        requires
            self.wf(),
            d < self.cfg.n(),
            v < self.cfg.n(),
        ensures
            r == self.cfg.strictly_dominates(d as int, v as int),
    {
        d != v && self.dominators[d][v]
    }

    /// The children of each block in the dominator tree.
    pub fn construct_dominance_tree(&self) -> (tree: Vec<Vec<usize>>)
        requires
            self.wf(),
        ensures
            tree@.len() == self.cfg.n(),
            forall|d: int, v: int|
                0 <= d < self.cfg.n() && 0 <= v < self.cfg.n() ==> ((#[trigger] tree@[d]@.contains(v as usize))
                    <==> self.idom@[v] == Some(d as usize)),
            forall|d: int| 0 <= d < self.cfg.n() ==> (#[trigger] tree@[d])@.no_duplicates(),
            forall|d: int, j: int| 0 <= d < self.cfg.n() && 0 <= j < tree@[d]@.len() ==> #[trigger] tree@[d]@[j] < self.cfg.n(),
    {
        let n = self.idom.len();
        let mut tree: Vec<Vec<usize>> = Vec::new();
        let mut d: usize = 0;
        while d < n
            invariant
                n == self.idom@.len(),
                d <= n,
                tree@.len() == d,
                forall|c: int, v: int|
                    0 <= c < d && 0 <= v < n ==> ((#[trigger] tree@[c]@.contains(v as usize))
                        <==> self.idom@[v] == Some(c as usize)),
                forall|c: int| 0 <= c < d ==> (#[trigger] tree@[c])@.no_duplicates(),
                forall|c: int, j: int| 0 <= c < d && 0 <= j < tree@[c]@.len() ==> #[trigger] tree@[c]@[j] < n,
            decreases n - d,
        {
            let mut row: Vec<usize> = Vec::new();
            let mut v: usize = 0;
            while v < n
                invariant
                    n == self.idom@.len(),
                    d < n,
                    v <= n,
                    forall|j: int| 0 <= j < row@.len() ==> #[trigger] row@[j] < v,
                    row@.no_duplicates(),
                    forall|w: int| 0 <= w < n ==> (row@.contains(w as usize) <==> (w < v && #[trigger] self.idom@[w] == Some(d))),
                decreases n - v,
            {
                let ghost row0 = row@;
                if self.idom[v] == Some(d) {
                    row.push(v);
                }
                v += 1;
                proof {
                    assert forall|a: int, b: int| 0 <= a < row@.len() && 0 <= b < row@.len() && a != b implies row@[a] != row@[b] by {
                        if a < row0.len() && b < row0.len() {
                            assert(row@[a] == row0[a] && row@[b] == row0[b]);
                        } else if a < row0.len() {
                            assert(row0[a] < v - 1);
                        } else if b < row0.len() {
                            assert(row0[b] < v - 1);
                        }
                    }
                    assert forall|w: int| 0 <= w < n implies (row@.contains(w as usize) <==> (w < v && #[trigger] self.idom@[w] == Some(d))) by {
                        if row@.contains(w as usize) {
                            let j = choose|j: int| 0 <= j < row@.len() && row@[j] == w as usize;
                            if j < row0.len() {
                                assert(row0[j] == w as usize);
                                assert(row0.contains(w as usize));
                            }
                        }
                        if w < v - 1 && self.idom@[w] == Some(d) {
                            assert(row0.contains(w as usize));
                            let j = choose|j: int| 0 <= j < row0.len() && row0[j] == w as usize;
                            assert(row@[j] == w as usize);
                        }
                        if w == v - 1 && self.idom@[w] == Some(d) {
                            assert(row@[row@.len() - 1] == w as usize);
                        }
                    }
                }
            }
            tree.push(row);
            d += 1;
        }
        tree
    }

    /// Converts the body to SSA form: phis where the frontier asks for them,
    /// a fresh variable for each definition, and each use renamed to the
    /// definition that reaches it.
    /// Converts the body to SSA form (see `rename_all`), and reports a
    /// variable that the input body assigns but that the SSA form still reads
    /// unrenamed, where none of its definitions reaches.
    pub fn rename_variables(&self) -> (r: Result<SsaForm, CfgError>)
        requires
            self.wf(),
        ensures
            r matches Ok(f) ==> renamed_form(*self, f) && forall|x: int|
                0 <= x < self.body.num_vars && (#[trigger] self.input_assigned@[x]) is Some ==> !reads_somewhere(f.body, x),
            r is Err ==> (r matches Err(CfgError::UnreachedUse(x)) && exists|f: SsaForm| #[trigger] renamed_form(*self, f)
                && x < self.body.num_vars && self.input_assigned@[x as int] is Some && reads_somewhere(f.body, x as int)),
    {
        let f = self.rename_all();
        match find_unreached_use(&f.body, &self.input_assigned) {
            Some(x) => {
                proof {
                    assert(renamed_form(*self, f));
                }
                Err(CfgError::UnreachedUse(x))
            },
            None => Ok(f),
        }
    }

    /// Converts the body to SSA form: phis where the frontier asks for them,
    /// a fresh variable for each definition, and each use renamed to the
    /// definition that reaches it; a use that no definition reaches keeps
    /// its variable.
    pub fn rename_all(&self) -> (r: SsaForm)
        requires
            self.wf(),
        ensures
            renamed_form(*self, r),
            r.body.n() == self.body.n(),
            r.body.vars_ok(),
            r.body.targets_ok(),
            r.body.num_vars == r.origin@.len(),
            forall|t: int| 0 <= t < r.body.n() ==> #[trigger] r.body.targets(t) == self.body.targets(t),
            is_table(r.phi@, self.body.n(), self.body.num_vars as nat),
            forall|t: int, x: int|
                0 <= t < self.body.n() && 0 <= x < self.body.num_vars ==> (#[trigger] r.phi@[t]@[x] == needs_phi(self.body, self.cfg, x, t)),
            numbering_ok(self.body, r.phi@, r.phi_var@, r.def_var@, r.origin@, r.def_site@),
            is_table(r.entry_def@, self.body.n(), self.body.num_vars as nat),
            forall|t: int, x: int|
                0 <= t < self.body.n() && 0 <= x < self.body.num_vars ==> entry_def_ok(
                    self.cfg, self.body, r.phi@, r.phi_var@, r.def_var@, t, x, (#[trigger] r.entry_def@[t]@[x]) as int),
            forall|t: int| 0 <= t < r.body.n() ==> ssa_block_ok(self.body.blocks@[t], #[trigger] r.body.blocks@[t], self.body, self.cfg, r.phi@, r.phi_var@, r.def_var@, r.entry_def@, t),
            forall|v: int| !#[trigger] redefined(r.body, v),
    {
        let phi = insert_phi_statment(&self.body, &self.cfg, &self.local_assign_blocks, &self.df);
        let (phi_var, def_var, origin, def_site) = number_defs(&self.body, &phi);
        let total = origin.len();
        proof {
            lemma_single_definition(self.body, phi@, phi_var@, def_var@, origin@, def_site@);
        }
        let entry_def = entry_defs(&self.body, &self.cfg, &self.dominators, &phi, &self.local_assign_blocks, &phi_var, &def_var, total);
        let body = rename_variables(&self.body, &self.cfg, &phi, &phi_var, &def_var, &entry_def, total);
        let r = SsaForm { body, origin, def_site, phi, phi_var, def_var, entry_def };
        proof {
            lemma_body_single_assignment(*self, r);
        }
        r
    }
}

/// Two graphs of one body are the same graph as far as reachability goes.
proof fn lemma_same_graph(g: Cfg, h: Cfg, body: Body)
    requires
        cfg_of(g, body),
        cfg_of(h, body),
        h.all_reachable(),
    ensures
        g.all_reachable(),
{
    assert forall|a: int, b: int| g.edge(a, b) <==> h.edge(a, b) by {
        if 0 <= a < g.n() {
            assert(g.succs@[a]@ == h.succs@[a]@);
        }
    }
    assert forall|v: int| 0 <= v < g.n() implies #[trigger] g.reachable(v) by {
        assert(h.reachable(v));
        let p = choose|p: Seq<usize>| #[trigger] h.is_path(p) && p.last() == v;
        assert forall|i: int| 0 <= i < p.len() - 1 implies #[trigger] g.edge(p[i] as int, p[i + 1] as int) by {
            assert(h.edge(p[i] as int, p[i + 1] as int));
        }
        assert(g.is_path(p));
    }
}

/// Single assignment: two different definitions of the SSA form never
/// define the same variable.
pub proof fn lemma_single_definition(
    body: Body,
    phi: Seq<Vec<bool>>,
    pv: Seq<Vec<Option<usize>>>,
    dv: Seq<Vec<usize>>,
    origin: Seq<usize>,
    site: Seq<Option<DefSite>>,
)
    requires
        numbering_ok(body, phi, pv, dv, origin, site),
    ensures
        forall|t1: int, i1: int, t2: int, i2: int|
            0 <= t1 < body.n() && 0 <= t2 < body.n() && 0 <= i1 < body.blocks@[t1].statements@.len()
                && 0 <= i2 < body.blocks@[t2].statements@.len() && is_assign(body.blocks@[t1].statements@[i1])
                && is_assign(body.blocks@[t2].statements@[i2]) && #[trigger] dv[t1]@[i1]
                == #[trigger] dv[t2]@[i2] ==> t1 == t2 && i1 == i2,
        forall|t1: int, x1: int, t2: int, x2: int|
            0 <= t1 < body.n() && 0 <= t2 < body.n() && 0 <= x1 < body.num_vars && 0 <= x2 < body.num_vars
                && (#[trigger] pv[t1]@[x1]) is Some && pv[t1]@[x1] == #[trigger] pv[t2]@[x2]
                ==> t1 == t2 && x1 == x2,
        forall|t1: int, x1: int, t2: int, i2: int|
            0 <= t1 < body.n() && 0 <= t2 < body.n() && 0 <= x1 < body.num_vars && 0 <= i2 < body.blocks@[t2].statements@.len()
                && is_assign(body.blocks@[t2].statements@[i2])
                ==> #[trigger] pv[t1]@[x1] != Some(#[trigger] dv[t2]@[i2]),
{
    assert(body.blocks@.len() == body.blocks.len());
    assert forall|t1: int, i1: int, t2: int, i2: int|
        0 <= t1 < body.n() && 0 <= t2 < body.n() && 0 <= i1 < body.blocks@[t1].statements@.len()
            && 0 <= i2 < body.blocks@[t2].statements@.len() && is_assign(body.blocks@[t1].statements@[i1])
            && is_assign(body.blocks@[t2].statements@[i2]) && #[trigger] dv[t1]@[i1]
            == #[trigger] dv[t2]@[i2] implies t1 == t2 && i1 == i2 by {
        assert(body.blocks@[t1].statements@.len() == body.blocks@[t1].statements.len());
        assert(body.blocks@[t2].statements@.len() == body.blocks@[t2].statements.len());
        let d = dv[t1]@[i1] as int;
        assert(site[d] == Some(DefSite { block: t1 as usize, phi: false, index: i1 as usize }));
        assert(site[d] == Some(DefSite { block: t2 as usize, phi: false, index: i2 as usize }));
    }
    assert forall|t1: int, x1: int, t2: int, x2: int|
        0 <= t1 < body.n() && 0 <= t2 < body.n() && 0 <= x1 < body.num_vars && 0 <= x2 < body.num_vars
            && (#[trigger] pv[t1]@[x1]) is Some && pv[t1]@[x1] == #[trigger] pv[t2]@[x2]
            implies t1 == t2 && x1 == x2 by {
        let p = pv[t1]@[x1]->0 as int;
        assert(site[p] == Some(DefSite { block: t1 as usize, phi: true, index: x1 as usize }));
        assert(site[p] == Some(DefSite { block: t2 as usize, phi: true, index: x2 as usize }));
    }
    assert forall|t1: int, x1: int, t2: int, i2: int|
        0 <= t1 < body.n() && 0 <= t2 < body.n() && 0 <= x1 < body.num_vars && 0 <= i2 < body.blocks@[t2].statements@.len()
            && is_assign(body.blocks@[t2].statements@[i2])
            implies #[trigger] pv[t1]@[x1] != Some(#[trigger] dv[t2]@[i2]) by {
        let d = dv[t2]@[i2] as int;
        if pv[t1]@[x1] == Some(dv[t2]@[i2]) {
            assert(site[d] == Some(DefSite { block: t1 as usize, phi: true, index: x1 as usize }));
        }
    }
}

/// The renamed body assigns each variable at most once.
proof fn lemma_body_single_assignment(t: SSATransformer, r: SsaForm)
    requires
        t.wf(),
        r.body.n() == t.body.n(),
        numbering_ok(t.body, r.phi@, r.phi_var@, r.def_var@, r.origin@, r.def_site@),
        forall|b: int| 0 <= b < r.body.n() ==> ssa_block_ok(t.body.blocks@[b], #[trigger] r.body.blocks@[b], t.body, t.cfg, r.phi@, r.phi_var@, r.def_var@, r.entry_def@, b),
    ensures
        forall|v: int| !#[trigger] redefined(r.body, v),
{
    lemma_single_definition(t.body, r.phi@, r.phi_var@, r.def_var@, r.origin@, r.def_site@);
    reveal(phi_ok);
    assert forall|v: int| !#[trigger] redefined(r.body, v) by {
        if redefined(r.body, v) {
            let (b1, i1, b2, i2) = choose|b1: int, i1: int, b2: int, i2: int|
                (b1, i1) != (b2, i2) && 0 <= b1 < r.body.n() && 0 <= b2 < r.body.n()
                    && 0 <= i1 < r.body.blocks@[b1].statements@.len() && 0 <= i2 < r.body.blocks@[b2].statements@.len()
                    && #[trigger] assigns(r.body.blocks@[b1].statements@[i1], v)
                    && #[trigger] assigns(r.body.blocks@[b2].statements@[i2], v);
            let s1 = r.body.blocks@[b1].statements@[i1];
            let s2 = r.body.blocks@[b2].statements@[i2];
            let k1 = r.body.blocks@[b1].statements@.len() - t.body.blocks@[b1].statements@.len();
            let k2 = r.body.blocks@[b2].statements@.len() - t.body.blocks@[b2].statements@.len();
            assert(ssa_block_ok(t.body.blocks@[b1], r.body.blocks@[b1], t.body, t.cfg, r.phi@, r.phi_var@, r.def_var@, r.entry_def@, b1));
            assert(ssa_block_ok(t.body.blocks@[b2], r.body.blocks@[b2], t.body, t.cfg, r.phi@, r.phi_var@, r.def_var@, r.entry_def@, b2));
            assert(dest_of(s1) == v);
            assert(dest_of(s2) == v);
            if i1 < k1 && i2 < k2 {
                assert(is_some_phi(s1, t.body, t.cfg, r.phi@, r.phi_var@, r.def_var@, r.entry_def@, b1));
                assert(is_some_phi(s2, t.body, t.cfg, r.phi@, r.phi_var@, r.def_var@, r.entry_def@, b2));
                let x1 = choose|y: int| 0 <= y < t.body.num_vars && r.phi@[b1]@[y] && #[trigger] phi_ok(s1, t.body, t.cfg, r.phi_var@, r.def_var@, r.entry_def@, b1, y);
                let x2 = choose|y: int| 0 <= y < t.body.num_vars && r.phi@[b2]@[y] && #[trigger] phi_ok(s2, t.body, t.cfg, r.phi_var@, r.def_var@, r.entry_def@, b2, y);
                assert(r.phi_var@[b1]@[x1] == r.phi_var@[b2]@[x2]);
                if b1 == b2 {
                    assert(dest_of(r.body.blocks@[b1].statements@[i1]) != dest_of(r.body.blocks@[b1].statements@[i2]));
                }
            } else if i1 < k1 {
                assert(is_some_phi(s1, t.body, t.cfg, r.phi@, r.phi_var@, r.def_var@, r.entry_def@, b1));
                let x1 = choose|y: int| 0 <= y < t.body.num_vars && r.phi@[b1]@[y] && #[trigger] phi_ok(s1, t.body, t.cfg, r.phi_var@, r.def_var@, r.entry_def@, b1, y);
                let j2 = i2 - k2;
                assert(renamed_stmt(t.body.blocks@[b2].statements@[j2], r.body.blocks@[b2].statements@[k2 + j2], t.body, r.def_var@, r.entry_def@, t.cfg.preds@[b2]@, b2, j2));
                assert(is_assign(t.body.blocks@[b2].statements@[j2]));
                assert(r.phi_var@[b1]@[x1] != Some(r.def_var@[b2]@[j2]));
            } else if i2 < k2 {
                assert(is_some_phi(s2, t.body, t.cfg, r.phi@, r.phi_var@, r.def_var@, r.entry_def@, b2));
                let x2 = choose|y: int| 0 <= y < t.body.num_vars && r.phi@[b2]@[y] && #[trigger] phi_ok(s2, t.body, t.cfg, r.phi_var@, r.def_var@, r.entry_def@, b2, y);
                let j1 = i1 - k1;
                assert(renamed_stmt(t.body.blocks@[b1].statements@[j1], r.body.blocks@[b1].statements@[k1 + j1], t.body, r.def_var@, r.entry_def@, t.cfg.preds@[b1]@, b1, j1));
                assert(is_assign(t.body.blocks@[b1].statements@[j1]));
                assert(r.phi_var@[b2]@[x2] != Some(r.def_var@[b1]@[j1]));
            } else {
                let j1 = i1 - k1;
                let j2 = i2 - k2;
                assert(renamed_stmt(t.body.blocks@[b1].statements@[j1], r.body.blocks@[b1].statements@[k1 + j1], t.body, r.def_var@, r.entry_def@, t.cfg.preds@[b1]@, b1, j1));
                assert(renamed_stmt(t.body.blocks@[b2].statements@[j2], r.body.blocks@[b2].statements@[k2 + j2], t.body, r.def_var@, r.entry_def@, t.cfg.preds@[b2]@, b2, j2));
                assert(is_assign(t.body.blocks@[b1].statements@[j1]));
                assert(is_assign(t.body.blocks@[b2].statements@[j2]));
                assert(r.def_var@[b1]@[j1] == r.def_var@[b2]@[j2]);
            }
        }
    }
}

/// `r` is the SSA form that `rename_all` gives for `t`.
pub open spec fn renamed_form(t: SSATransformer, r: SsaForm) -> bool {
    &&& r.body.n() == t.body.n()
    &&& r.body.vars_ok()
    &&& r.body.targets_ok()
    &&& r.body.num_vars == r.origin@.len()
    &&& forall|b: int| 0 <= b < r.body.n() ==> #[trigger] r.body.targets(b) == t.body.targets(b)
    &&& is_table(r.phi@, t.body.n(), t.body.num_vars as nat)
    &&& forall|b: int, x: int|
        0 <= b < t.body.n() && 0 <= x < t.body.num_vars ==> (#[trigger] r.phi@[b]@[x] == needs_phi(t.body, t.cfg, x, b))
    &&& numbering_ok(t.body, r.phi@, r.phi_var@, r.def_var@, r.origin@, r.def_site@)
    &&& is_table(r.entry_def@, t.body.n(), t.body.num_vars as nat)
    &&& forall|b: int, x: int|
        0 <= b < t.body.n() && 0 <= x < t.body.num_vars ==> entry_def_ok(
            t.cfg, t.body, r.phi@, r.phi_var@, r.def_var@, b, x, (#[trigger] r.entry_def@[b]@[x]) as int)
    &&& forall|b: int| 0 <= b < r.body.n() ==> ssa_block_ok(t.body.blocks@[b], #[trigger] r.body.blocks@[b], t.body, t.cfg, r.phi@, r.phi_var@, r.def_var@, r.entry_def@, b)
    &&& forall|v: int| !#[trigger] redefined(r.body, v)
}

} // verus!
