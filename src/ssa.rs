//! Static single assignment: phi placement at dominance-frontier joins, and
//! renaming of every definition to a fresh variable.
use vstd::prelude::*;
use crate::cfg::{BasicBlock, Body, Cfg, Expr, Operand, Statement, Terminator};
use crate::dominance::{is_dominance_matrix, lemma_dominates_basics, lemma_dominates_transitive,
    lemma_dominators_ordered};

verus! {

/// Whether statement `s` assigns variable `x`.
pub open spec fn assigns(s: Statement, x: int) -> bool {
    match s {
        Statement::Assign(d, _) => d == x,
        Statement::Nop => false,
    }
}

/// The last of the first `i` statements that assigns `x`.
pub open spec fn last_assign(s: Seq<Statement>, i: int, x: int) -> Option<int>
    decreases i,
{
    if i <= 0 {
        None
    } else if assigns(s[i - 1], x) {
        Some(i - 1)
    } else {
        last_assign(s, i - 1, x)
    }
}

pub proof fn lemma_last_assign(s: Seq<Statement>, i: int, x: int)
    requires
        0 <= i <= s.len(),
    ensures
        last_assign(s, i, x) is Some <==> exists|j: int| 0 <= j < i && #[trigger] assigns(s[j], x),
        last_assign(s, i, x) matches Some(j) ==> 0 <= j < i && assigns(s[j], x) && forall|k: int|
            j < k < i ==> !#[trigger] assigns(s[k], x),
    decreases i,
{
    if i > 0 {
        lemma_last_assign(s, i - 1, x);
    }
}

/// An index of a statement, as a place in a block.
pub open spec fn as_place(o: Option<int>) -> Option<usize> {
    match o {
        Some(j) => Some(j as usize),
        None => None,
    }
}

/// Whether block `b` assigns `x`.
pub open spec fn block_defines(body: Body, b: int, x: int) -> bool {
    last_assign(body.blocks@[b].statements@, body.blocks@[b].statements@.len() as int, x) is Some
}

/// `x` is assigned in at least two blocks.
pub open spec fn multiply_defined(body: Body, x: int) -> bool {
    exists|d1: int, d2: int|
        0 <= d1 < d2 < body.n() && #[trigger] block_defines(body, d1, x) && #[trigger] block_defines(
            body,
            d2,
            x,
        )
}

/// Block `t` receives a phi for `x`: `x` is assigned in two blocks or more,
/// and `t` is in the dominance frontier of a block that assigns it.
pub open spec fn needs_phi(body: Body, g: Cfg, x: int, t: int) -> bool {
    &&& multiply_defined(body, x)
    &&& exists|d: int| 0 <= d < body.n() && #[trigger] block_defines(body, d, x) && g.in_frontier(d, t)
}

/// A table of `rows` rows of `cols` entries each.
pub open spec fn is_table<T>(t: Seq<Vec<T>>, rows: nat, cols: nat) -> bool {
    &&& t.len() == rows
    &&& forall|i: int| 0 <= i < rows ==> (#[trigger] t[i])@.len() == cols
}

/// For each block and variable, the place of the block's last assignment to
/// the variable.
pub fn last_assignments(body: &Body) -> (la: Vec<Vec<Option<usize>>>)
    requires
        body.vars_ok(),
    ensures
        is_table(la@, body.n(), body.num_vars as nat),
        forall|b: int, x: int|
            0 <= b < body.n() && 0 <= x < body.num_vars ==> (#[trigger] la@[b]@[x]) == as_place(last_assign(
                body.blocks@[b].statements@,
                body.blocks@[b].statements@.len() as int,
                x,
            )),
{
    let n = body.blocks.len();
    let nv = body.num_vars;
    let mut la: Vec<Vec<Option<usize>>> = Vec::new();
    let mut b: usize = 0;
    while b < n
        invariant
            body.vars_ok(),
            n == body.n(),
            nv == body.num_vars,
            b <= n,
            is_table(la@, b as nat, nv as nat),
            forall|c: int, x: int|
                0 <= c < b && 0 <= x < nv ==> (#[trigger] la@[c]@[x]) == as_place(last_assign(
                    body.blocks@[c].statements@,
                    body.blocks@[c].statements@.len() as int,
                    x,
                )),
        decreases n - b,
    {
        let st = &body.blocks[b].statements;
        let mut row: Vec<Option<usize>> = Vec::new();
        let mut x: usize = 0;
        while x < nv
            invariant
                x <= nv,
                row@.len() == x,
                forall|y: int| 0 <= y < x ==> (#[trigger] row@[y]) is None,
            decreases nv - x,
        {
            row.push(None);
            x += 1;
        }
        let mut i: usize = 0;
        while i < st.len()
            invariant
                body.vars_ok(),
                n == body.n(),
                b < n,
                nv == body.num_vars,
                st@ == body.blocks@[b as int].statements@,
                i <= st@.len(),
                row@.len() == nv,
                forall|y: int|
                    0 <= y < nv ==> (#[trigger] row@[y]) == as_place(last_assign(st@, i as int, y)),
            decreases st@.len() - i,
        {
            if let Statement::Assign(d, _) = &st[i] {
                proof {
                    assert(crate::cfg::stmt_ok(st@[i as int], nv as nat));
                }
                row.set(*d, Some(i));
            }
            i += 1;
        }
        la.push(row);
        b += 1;
    }
    la
}

/// Phi placement: `phi[t][x]` says whether block `t` receives a phi for `x`.
/// A variable assigned in two blocks or more gets a phi in the dominance
/// frontier of each block that assigns it.
pub fn insert_phi_statment(
    body: &Body,
    g: &Cfg,
    la: &Vec<Vec<Option<usize>>>,
    df: &Vec<Vec<bool>>,
) -> (phi: Vec<Vec<bool>>)
    requires
        g.wf(),
        g.n() == body.n(),
        is_table(la@, body.n(), body.num_vars as nat),
        forall|b: int, x: int|
            0 <= b < body.n() && 0 <= x < body.num_vars ==> ((#[trigger] la@[b]@[x]) is Some
                <==> block_defines(*body, b, x)),
        is_table(df@, g.n(), g.n()),
        forall|d: int, v: int|
            0 <= d < g.n() && 0 <= v < g.n() ==> (#[trigger] df@[d]@[v] == g.in_frontier(d, v)),
    ensures
        is_table(phi@, body.n(), body.num_vars as nat),
        forall|t: int, x: int|
            0 <= t < body.n() && 0 <= x < body.num_vars ==> (#[trigger] phi@[t]@[x] == needs_phi(
                *body,
                *g,
                x,
                t,
            )),
{
    let n = body.blocks.len();
    let nv = body.num_vars;
    // Which variables are assigned in two blocks or more.
    let mut multi: Vec<bool> = Vec::new();
    let mut x: usize = 0;
    while x < nv
        invariant
            n == body.n(),
            nv == body.num_vars,
            is_table(la@, body.n(), body.num_vars as nat),
            forall|b: int, y: int|
                0 <= b < body.n() && 0 <= y < body.num_vars ==> ((#[trigger] la@[b]@[y]) is Some
                    <==> block_defines(*body, b, y)),
            x <= nv,
            multi@.len() == x,
            forall|y: int| 0 <= y < x ==> (#[trigger] multi@[y] == multiply_defined(*body, y)),
        decreases nv - x,
    {
        let mut count: usize = 0;
        let mut first: usize = 0;
        let mut b: usize = 0;
        while b < n
            invariant
                n == body.n(),
                nv == body.num_vars,
                x < nv,
                is_table(la@, body.n(), body.num_vars as nat),
                forall|c: int, y: int|
                    0 <= c < body.n() && 0 <= y < body.num_vars ==> ((#[trigger] la@[c]@[y]) is Some
                        <==> block_defines(*body, c, y)),
                b <= n,
                count <= 2,
                count == 0 ==> forall|c: int| 0 <= c < b ==> !#[trigger] block_defines(*body, c, x as int),
                count >= 1 ==> first < b && block_defines(*body, first as int, x as int),
                count == 1 ==> forall|c: int|
                    0 <= c < b && c != first ==> !#[trigger] block_defines(*body, c, x as int),
                count == 2 ==> multiply_defined(*body, x as int),
            decreases n - b,
        {
            if count < 2 && la[b][x].is_some() {
                if count == 1 {
                    proof {
                        assert(block_defines(*body, first as int, x as int));
                        assert(block_defines(*body, b as int, x as int));
                    }
                }
                first = if count == 0 { b } else { first };
                count += 1;
            }
            b += 1;
        }
        proof {
            if count < 2 && multiply_defined(*body, x as int) {
                let (d1, d2) = choose|d1: int, d2: int|
                    0 <= d1 < d2 < body.n() && #[trigger] block_defines(*body, d1, x as int)
                        && #[trigger] block_defines(*body, d2, x as int);
            }
        }
        multi.push(count == 2);
        x += 1;
    }
    let mut phi: Vec<Vec<bool>> = Vec::new();
    let mut t: usize = 0;
    while t < n
        invariant
            g.wf(),
            g.n() == body.n(),
            n == body.n(),
            nv == body.num_vars,
            is_table(la@, body.n(), body.num_vars as nat),
            forall|b: int, y: int|
                0 <= b < body.n() && 0 <= y < body.num_vars ==> ((#[trigger] la@[b]@[y]) is Some
                    <==> block_defines(*body, b, y)),
            is_table(df@, g.n(), g.n()),
            forall|d: int, v: int|
                0 <= d < g.n() && 0 <= v < g.n() ==> (#[trigger] df@[d]@[v] == g.in_frontier(d, v)),
            multi@.len() == nv,
            forall|y: int| 0 <= y < nv ==> (#[trigger] multi@[y] == multiply_defined(*body, y)),
            t <= n,
            is_table(phi@, t as nat, nv as nat),
            forall|c: int, y: int|
                0 <= c < t && 0 <= y < nv ==> (#[trigger] phi@[c]@[y] == needs_phi(*body, *g, y, c)),
        decreases n - t,
    {
        let mut row: Vec<bool> = Vec::new();
        let mut x: usize = 0;
        while x < nv
            invariant
                g.wf(),
                g.n() == body.n(),
                n == body.n(),
                t < n,
                nv == body.num_vars,
                is_table(la@, body.n(), body.num_vars as nat),
                forall|b: int, y: int|
                    0 <= b < body.n() && 0 <= y < body.num_vars ==> ((#[trigger] la@[b]@[y]) is Some
                        <==> block_defines(*body, b, y)),
                is_table(df@, g.n(), g.n()),
                forall|d: int, v: int|
                    0 <= d < g.n() && 0 <= v < g.n() ==> (#[trigger] df@[d]@[v] == g.in_frontier(d, v)),
                multi@.len() == nv,
                forall|y: int| 0 <= y < nv ==> (#[trigger] multi@[y] == multiply_defined(*body, y)),
                x <= nv,
                row@.len() == x,
                forall|y: int| 0 <= y < x ==> (#[trigger] row@[y] == needs_phi(*body, *g, y, t as int)),
            decreases nv - x,
        {
            let mut hit = false;
            if multi[x] {
                let mut d: usize = 0;
                while d < n
                    invariant
                        g.wf(),
                        g.n() == body.n(),
                        n == body.n(),
                        t < n,
                        x < nv,
                        nv == body.num_vars,
                        is_table(la@, body.n(), body.num_vars as nat),
                        forall|b: int, y: int|
                            0 <= b < body.n() && 0 <= y < body.num_vars ==> ((#[trigger] la@[b]@[y]) is Some
                                <==> block_defines(*body, b, y)),
                        is_table(df@, g.n(), g.n()),
                        forall|e: int, v: int|
                            0 <= e < g.n() && 0 <= v < g.n() ==> (#[trigger] df@[e]@[v] == g.in_frontier(e, v)),
                        d <= n,
                        hit == exists|e: int|
                            0 <= e < d && #[trigger] block_defines(*body, e, x as int) && g.in_frontier(
                                e,
                                t as int,
                            ),
                    decreases n - d,
                {
                    if la[d][x].is_some() && df[d][t] {
                        hit = true;
                    }
                    d += 1;
                }
            }
            row.push(hit);
            x += 1;
        }
        phi.push(row);
        t += 1;
    }
    phi
}

/// Where a variable of the renamed body is defined: in a block, by the phi of
/// the source variable `index`, or by the statement at place `index`.
#[derive(Clone, Copy, Debug, PartialEq, Eq, Structural)]
pub struct DefSite {
    pub block: usize,
    pub phi: bool,
    pub index: usize,
}

pub open spec fn is_assign(s: Statement) -> bool {
    s is Assign
}

pub open spec fn dest_of(s: Statement) -> int {
    match s {
        Statement::Assign(d, _) => d as int,
        Statement::Nop => -1,
    }
}

/// The fresh variables given to each phi and each assignment: `pv[t][x]` for
/// the phi of `x` in block `t`, `dv[t][i]` for the statement at place `i`.
/// Variables below `num_vars` keep their own slot and have no definition
/// site; each fresh variable has exactly one, and its slot is the variable it
/// stands for.
pub open spec fn numbering_ok(
    body: Body,
    phi: Seq<Vec<bool>>,
    pv: Seq<Vec<Option<usize>>>,
    dv: Seq<Vec<usize>>,
    origin: Seq<usize>,
    site: Seq<Option<DefSite>>,
) -> bool {
    let nv = body.num_vars as int;
    &&& is_table(pv, body.n(), body.num_vars as nat)
    &&& dv.len() == body.n()
    &&& forall|t: int| 0 <= t < body.n() ==> (#[trigger] dv[t])@.len() == body.blocks@[t].statements@.len()
    &&& origin.len() == site.len()
    &&& origin.len() >= nv
    &&& forall|v: int| 0 <= v < nv ==> #[trigger] origin[v] == v && site[v] is None
    &&& forall|v: int| nv <= v < origin.len() ==> #[trigger] origin[v] < nv && site[v] is Some
    &&& forall|t: int, x: int|
        0 <= t < body.n() && 0 <= x < nv ==> ((#[trigger] pv[t]@[x]) is Some <==> phi[t]@[x])
    &&& forall|t: int, x: int|
        0 <= t < body.n() && 0 <= x < nv && (#[trigger] pv[t]@[x]) is Some ==> {
            let p = pv[t]@[x]->0 as int;
            &&& nv <= p < origin.len()
            &&& origin[p] == x
            &&& site[p] == Some(DefSite { block: t as usize, phi: true, index: x as usize })
        }
    &&& forall|t: int, i: int|
        0 <= t < body.n() && 0 <= i < body.blocks@[t].statements@.len() && is_assign(
            body.blocks@[t].statements@[i],
        ) ==> {
            let d = (#[trigger] dv[t]@[i]) as int;
            &&& nv <= d < origin.len()
            &&& origin[d] == dest_of(body.blocks@[t].statements@[i])
            &&& site[d] == Some(DefSite { block: t as usize, phi: false, index: i as usize })
        }
}

/// The numbering of the blocks before `t` is in place, with `origin` and
/// `site` covering exactly the variables given out so far.
pub open spec fn numbered_upto(
    body: Body,
    phi: Seq<Vec<bool>>,
    pv: Seq<Vec<Option<usize>>>,
    dv: Seq<Vec<usize>>,
    origin: Seq<usize>,
    site: Seq<Option<DefSite>>,
    t: int,
) -> bool {
    let nv = body.num_vars as int;
    &&& is_table(pv, t as nat, body.num_vars as nat)
    &&& dv.len() == t
    &&& forall|c: int| 0 <= c < t ==> (#[trigger] dv[c])@.len() == body.blocks@[c].statements@.len()
    &&& origin.len() == site.len()
    &&& origin.len() >= nv
    &&& forall|v: int| 0 <= v < nv ==> #[trigger] origin[v] == v && site[v] is None
    &&& forall|v: int| nv <= v < origin.len() ==> #[trigger] origin[v] < nv && site[v] is Some
    &&& forall|c: int, x: int|
        0 <= c < t && 0 <= x < nv ==> ((#[trigger] pv[c]@[x]) is Some <==> phi[c]@[x])
    &&& forall|c: int, x: int|
        0 <= c < t && 0 <= x < nv && (#[trigger] pv[c]@[x]) is Some ==> {
            let p = pv[c]@[x]->0 as int;
            &&& nv <= p < origin.len()
            &&& origin[p] == x
            &&& site[p] == Some(DefSite { block: c as usize, phi: true, index: x as usize })
        }
    &&& forall|c: int, i: int|
        0 <= c < t && 0 <= i < body.blocks@[c].statements@.len() && is_assign(
            body.blocks@[c].statements@[i],
        ) ==> {
            let d = (#[trigger] dv[c]@[i]) as int;
            &&& nv <= d < origin.len()
            &&& origin[d] == dest_of(body.blocks@[c].statements@[i])
            &&& site[d] == Some(DefSite { block: c as usize, phi: false, index: i as usize })
        }
}

/// Gives fresh variables to the phis and the assignments of block `t`.
fn number_block(
    body: &Body,
    phi: &Vec<Vec<bool>>,
    t: usize,
    origin: &mut Vec<usize>,
    site: &mut Vec<Option<DefSite>>,
) -> (r: (Vec<Option<usize>>, Vec<usize>))
    requires
        body.vars_ok(),
        t < body.n(),
        is_table(phi@, body.n(), body.num_vars as nat),
        old(origin)@.len() == old(site)@.len(),
        old(origin)@.len() >= body.num_vars,
        forall|v: int| body.num_vars <= v < old(origin)@.len() ==> #[trigger] old(origin)@[v] < body.num_vars && old(site)@[v] is Some,
    ensures
        final(origin)@.len() == final(site)@.len(),
        final(origin)@.len() >= old(origin)@.len(),
        forall|v: int| 0 <= v < old(origin)@.len() ==> #[trigger] final(origin)@[v] == old(origin)@[v] && final(site)@[v] == old(site)@[v],
        forall|v: int| body.num_vars <= v < final(origin)@.len() ==> #[trigger] final(origin)@[v] < body.num_vars && final(site)@[v] is Some,
        r.0@.len() == body.num_vars,
        r.1@.len() == body.blocks@[t as int].statements@.len(),
        forall|x: int| 0 <= x < body.num_vars ==> ((#[trigger] r.0@[x]) is Some <==> phi@[t as int]@[x]),
        forall|x: int|
            0 <= x < body.num_vars && (#[trigger] r.0@[x]) is Some ==> {
                let p = r.0@[x]->0 as int;
                &&& old(origin)@.len() <= p < final(origin)@.len()
                &&& final(origin)@[p] == x
                &&& final(site)@[p] == Some(DefSite { block: t, phi: true, index: x as usize })
            },
        forall|i: int|
            0 <= i < body.blocks@[t as int].statements@.len() && is_assign(body.blocks@[t as int].statements@[i]) ==> {
                let d = (#[trigger] r.1@[i]) as int;
                &&& old(origin)@.len() <= d < final(origin)@.len()
                &&& final(origin)@[d] == dest_of(body.blocks@[t as int].statements@[i])
                &&& final(site)@[d] == Some(DefSite { block: t, phi: false, index: i as usize })
            },
{
    let nv = body.num_vars;
    let ghost start = origin@.len();
    let ghost o0 = origin@;
    let ghost s0 = site@;
    let mut prow: Vec<Option<usize>> = Vec::new();
    let mut x: usize = 0;
    while x < nv
        invariant
            is_table(phi@, body.n(), body.num_vars as nat),
            nv == body.num_vars,
            t < body.n(),
            x <= nv,
            prow@.len() == x,
            origin@.len() == site@.len(),
            origin@.len() >= start,
            o0.len() == start,
            s0.len() == start,
            start >= nv,
            forall|w: int| 0 <= w < start ==> #[trigger] origin@[w] == o0[w] && site@[w] == s0[w],
            forall|w: int| nv <= w < origin@.len() ==> #[trigger] origin@[w] < nv && site@[w] is Some,
            forall|y: int| 0 <= y < x ==> ((#[trigger] prow@[y]) is Some <==> phi@[t as int]@[y]),
            forall|y: int|
                0 <= y < x && (#[trigger] prow@[y]) is Some ==> {
                    let p = prow@[y]->0 as int;
                    &&& start <= p < origin@.len()
                    &&& origin@[p] == y
                    &&& site@[p] == Some(DefSite { block: t, phi: true, index: y as usize })
                },
        decreases nv - x,
    {
        if phi[t][x] {
            let id = origin.len();
            origin.push(x);
            site.push(Some(DefSite { block: t, phi: true, index: x }));
            prow.push(Some(id));
        } else {
            prow.push(None);
        }
        x += 1;
    }
    let st = &body.blocks[t].statements;
    let mut drow: Vec<usize> = Vec::new();
    let mut i: usize = 0;
    while i < st.len()
        invariant
            body.vars_ok(),
            nv == body.num_vars,
            t < body.n(),
            st@ == body.blocks@[t as int].statements@,
            i <= st@.len(),
            drow@.len() == i,
            prow@.len() == nv,
            origin@.len() == site@.len(),
            origin@.len() >= start,
            o0.len() == start,
            s0.len() == start,
            start >= nv,
            forall|w: int| 0 <= w < start ==> #[trigger] origin@[w] == o0[w] && site@[w] == s0[w],
            forall|w: int| nv <= w < origin@.len() ==> #[trigger] origin@[w] < nv && site@[w] is Some,
            forall|y: int| 0 <= y < nv ==> ((#[trigger] prow@[y]) is Some <==> phi@[t as int]@[y]),
            forall|y: int|
                0 <= y < nv && (#[trigger] prow@[y]) is Some ==> {
                    let p = prow@[y]->0 as int;
                    &&& start <= p < origin@.len()
                    &&& origin@[p] == y
                    &&& site@[p] == Some(DefSite { block: t, phi: true, index: y as usize })
                },
            forall|k: int|
                0 <= k < i && is_assign(st@[k]) ==> {
                    let d = (#[trigger] drow@[k]) as int;
                    &&& start <= d < origin@.len()
                    &&& origin@[d] == dest_of(st@[k])
                    &&& site@[d] == Some(DefSite { block: t, phi: false, index: k as usize })
                },
        decreases st@.len() - i,
    {
        match &st[i] {
            Statement::Assign(dst, _) => {
                proof {
                    assert(crate::cfg::stmt_ok(st@[i as int], nv as nat));
                }
                let id = origin.len();
                origin.push(*dst);
                site.push(Some(DefSite { block: t, phi: false, index: i }));
                drow.push(id);
            },
            Statement::Nop => {
                drow.push(0);
            },
        }
        i += 1;
    }
    (prow, drow)
}

/// Gives a fresh variable to every phi and every assignment, block by block.
pub fn number_defs(body: &Body, phi: &Vec<Vec<bool>>) -> (r: (
    Vec<Vec<Option<usize>>>,
    Vec<Vec<usize>>,
    Vec<usize>,
    Vec<Option<DefSite>>,
))
    requires
        body.vars_ok(),
        is_table(phi@, body.n(), body.num_vars as nat),
    ensures
        numbering_ok(*body, phi@, r.0@, r.1@, r.2@, r.3@),
{
    let n = body.blocks.len();
    let nv = body.num_vars;
    let mut origin: Vec<usize> = Vec::new();
    let mut site: Vec<Option<DefSite>> = Vec::new();
    let mut v: usize = 0;
    while v < nv
        invariant
            v <= nv,
            origin@.len() == v,
            site@.len() == v,
            forall|w: int| 0 <= w < v ==> #[trigger] origin@[w] == w && site@[w] is None,
        decreases nv - v,
    {
        origin.push(v);
        site.push(None);
        v += 1;
    }
    let mut pv: Vec<Vec<Option<usize>>> = Vec::new();
    let mut dv: Vec<Vec<usize>> = Vec::new();
    let mut t: usize = 0;
    while t < n
        invariant
            body.vars_ok(),
            is_table(phi@, body.n(), body.num_vars as nat),
            n == body.n(),
            nv == body.num_vars,
            t <= n,
            numbered_upto(*body, phi@, pv@, dv@, origin@, site@, t as int),
        decreases n - t,
    {
        let ghost o0 = origin@;
        let ghost s0 = site@;
        let (prow, drow) = number_block(body, phi, t, &mut origin, &mut site);
        pv.push(prow);
        dv.push(drow);
        t += 1;
        proof {
            let nvi = nv as int;
            assert forall|c: int, i: int|
                0 <= c < t && 0 <= i < body.blocks@[c].statements@.len() && is_assign(
                    body.blocks@[c].statements@[i],
                ) implies {
                    let d = (#[trigger] dv@[c]@[i]) as int;
                    &&& nvi <= d < origin@.len()
                    &&& origin@[d] == dest_of(body.blocks@[c].statements@[i])
                    &&& site@[d] == Some(DefSite { block: c as usize, phi: false, index: i as usize })
                } by {
                if c < t - 1 {
                    let d = dv@[c]@[i] as int;
                    assert(origin@[d] == o0[d]);
                }
            }
            assert forall|c: int, x: int|
                0 <= c < t && 0 <= x < nvi && (#[trigger] pv@[c]@[x]) is Some implies {
                    let p = pv@[c]@[x]->0 as int;
                    &&& nvi <= p < origin@.len()
                    &&& origin@[p] == x
                    &&& site@[p] == Some(DefSite { block: c as usize, phi: true, index: x as usize })
                } by {
                if c < t - 1 {
                    let p = pv@[c]@[x]->0 as int;
                    assert(origin@[p] == o0[p]);
                }
            }
            assert forall|w: int| 0 <= w < nvi implies #[trigger] origin@[w] == w && site@[w] is None by {
                assert(origin@[w] == o0[w]);
            }
        }
    }
    (pv, dv, origin, site)
}

/// Block `d` gives `x` a new value: it assigns `x` or has a phi for it.
pub open spec fn defining(body: Body, phi: Seq<Vec<bool>>, d: int, x: int) -> bool {
    block_defines(body, d, x) || phi[d]@[x]
}

/// The variable holding `x` when a defining block `d` ends.
pub open spec fn block_out(
    body: Body,
    pv: Seq<Vec<Option<usize>>>,
    dv: Seq<Vec<usize>>,
    d: int,
    x: int,
) -> int {
    match last_assign(body.blocks@[d].statements@, body.blocks@[d].statements@.len() as int, x) {
        Some(i) => dv[d]@[i] as int,
        None => match pv[d]@[x] {
            Some(p) => p as int,
            None => x,
        },
    }
}

/// `d` is the nearest definition of `x` that strictly dominates block `t`:
/// every other such definition dominates `d`.
pub open spec fn nearest_def(g: Cfg, body: Body, phi: Seq<Vec<bool>>, d: int, t: int, x: int) -> bool {
    &&& 0 <= d < g.n()
    &&& g.strictly_dominates(d, t)
    &&& defining(body, phi, d, x)
    &&& forall|e: int|
        0 <= e < g.n() && #[trigger] g.strictly_dominates(e, t) && defining(body, phi, e, x)
            ==> g.dominates(e, d)
}

/// `v` is the variable that reaches the entry of block `t` for `x`: the phi
/// of `t` if there is one, else the value of `x` at the end of the nearest
/// definition that strictly dominates `t`, else `x` itself.
pub open spec fn entry_def_ok(
    g: Cfg,
    body: Body,
    phi: Seq<Vec<bool>>,
    pv: Seq<Vec<Option<usize>>>,
    dv: Seq<Vec<usize>>,
    t: int,
    x: int,
    v: int,
) -> bool {
    if pv[t]@[x] is Some {
        v == pv[t]@[x]->0
    } else if exists|e: int|
        0 <= e < g.n() && #[trigger] g.strictly_dominates(e, t) && defining(body, phi, e, x) {
        exists|d: int| #[trigger] nearest_def(g, body, phi, d, t, x) && v == block_out(body, pv, dv, d, x)
    } else {
        v == x
    }
}

/// The variable reaching the entry of each block for each source variable.
pub fn entry_defs(
    body: &Body,
    g: &Cfg,
    dom: &Vec<Vec<bool>>,
    phi: &Vec<Vec<bool>>,
    la: &Vec<Vec<Option<usize>>>,
    pv: &Vec<Vec<Option<usize>>>,
    dv: &Vec<Vec<usize>>,
    total: usize,
) -> (ed: Vec<Vec<usize>>)
    requires
        g.wf(),
        g.all_reachable(),
        g.n() == body.n(),
        is_dominance_matrix(*g, dom@),
        is_table(phi@, body.n(), body.num_vars as nat),
        is_table(la@, body.n(), body.num_vars as nat),
        forall|b: int, x: int|
            0 <= b < body.n() && 0 <= x < body.num_vars ==> (#[trigger] la@[b]@[x]) == as_place(last_assign(
                body.blocks@[b].statements@,
                body.blocks@[b].statements@.len() as int,
                x,
            )),
        is_table(pv@, body.n(), body.num_vars as nat),
        forall|t: int, x: int|
            0 <= t < body.n() && 0 <= x < body.num_vars ==> ((#[trigger] pv@[t]@[x]) is Some <==> phi@[t]@[x]),
        forall|t: int, x: int|
            0 <= t < body.n() && 0 <= x < body.num_vars && (#[trigger] pv@[t]@[x]) is Some ==> pv@[t]@[x]->0 < total,
        dv@.len() == body.n(),
        forall|t: int| 0 <= t < body.n() ==> (#[trigger] dv@[t])@.len() == body.blocks@[t].statements@.len(),
        forall|t: int, i: int|
            0 <= t < body.n() && 0 <= i < body.blocks@[t].statements@.len() && is_assign(
                body.blocks@[t].statements@[i],
            ) ==> (#[trigger] dv@[t]@[i]) < total,
        body.num_vars <= total,
    ensures
        is_table(ed@, body.n(), body.num_vars as nat),
        forall|t: int, x: int|
            0 <= t < body.n() && 0 <= x < body.num_vars ==> entry_def_ok(
                *g,
                *body,
                phi@,
                pv@,
                dv@,
                t,
                x,
                (#[trigger] ed@[t]@[x]) as int,
            ) && ed@[t]@[x] < total,
{
    let n = body.blocks.len();
    let nv = body.num_vars;
    let mut ed: Vec<Vec<usize>> = Vec::new();
    let mut t: usize = 0;
    while t < n
        invariant
            g.wf(),
            g.all_reachable(),
            g.n() == body.n(),
            is_dominance_matrix(*g, dom@),
            is_table(phi@, body.n(), body.num_vars as nat),
            is_table(la@, body.n(), body.num_vars as nat),
            forall|b: int, x: int|
                0 <= b < body.n() && 0 <= x < body.num_vars ==> (#[trigger] la@[b]@[x]) == as_place(last_assign(
                    body.blocks@[b].statements@,
                    body.blocks@[b].statements@.len() as int,
                    x,
                )),
            is_table(pv@, body.n(), body.num_vars as nat),
            forall|c: int, x: int|
                0 <= c < body.n() && 0 <= x < body.num_vars ==> ((#[trigger] pv@[c]@[x]) is Some <==> phi@[c]@[x]),
            forall|c: int, x: int|
                0 <= c < body.n() && 0 <= x < body.num_vars && (#[trigger] pv@[c]@[x]) is Some ==> pv@[c]@[x]->0 < total,
            dv@.len() == body.n(),
            forall|c: int| 0 <= c < body.n() ==> (#[trigger] dv@[c])@.len() == body.blocks@[c].statements@.len(),
            forall|c: int, i: int|
                0 <= c < body.n() && 0 <= i < body.blocks@[c].statements@.len() && is_assign(
                    body.blocks@[c].statements@[i],
                ) ==> (#[trigger] dv@[c]@[i]) < total,
            body.num_vars <= total,
            n == body.n(),
            nv == body.num_vars,
            t <= n,
            is_table(ed@, t as nat, nv as nat),
            forall|c: int, x: int|
                0 <= c < t && 0 <= x < nv ==> entry_def_ok(*g, *body, phi@, pv@, dv@, c, x, (#[trigger] ed@[c]@[x]) as int)
                    && ed@[c]@[x] < total,
        decreases n - t,
    {
        let mut row: Vec<usize> = Vec::new();
        let mut x: usize = 0;
        while x < nv
            invariant
                g.wf(),
                g.all_reachable(),
                g.n() == body.n(),
                is_dominance_matrix(*g, dom@),
                is_table(phi@, body.n(), body.num_vars as nat),
                is_table(la@, body.n(), body.num_vars as nat),
                forall|b: int, y: int|
                    0 <= b < body.n() && 0 <= y < body.num_vars ==> (#[trigger] la@[b]@[y]) == as_place(last_assign(
                        body.blocks@[b].statements@,
                        body.blocks@[b].statements@.len() as int,
                        y,
                    )),
                is_table(pv@, body.n(), body.num_vars as nat),
                forall|c: int, y: int|
                    0 <= c < body.n() && 0 <= y < body.num_vars ==> ((#[trigger] pv@[c]@[y]) is Some <==> phi@[c]@[y]),
                forall|c: int, y: int|
                    0 <= c < body.n() && 0 <= y < body.num_vars && (#[trigger] pv@[c]@[y]) is Some ==> pv@[c]@[y]->0 < total,
                dv@.len() == body.n(),
                forall|c: int| 0 <= c < body.n() ==> (#[trigger] dv@[c])@.len() == body.blocks@[c].statements@.len(),
                forall|c: int, i: int|
                    0 <= c < body.n() && 0 <= i < body.blocks@[c].statements@.len() && is_assign(
                        body.blocks@[c].statements@[i],
                    ) ==> (#[trigger] dv@[c]@[i]) < total,
                body.num_vars <= total,
                n == body.n(),
                nv == body.num_vars,
                t < n,
                x <= nv,
                row@.len() == x,
                forall|y: int|
                    0 <= y < x ==> entry_def_ok(*g, *body, phi@, pv@, dv@, t as int, y, (#[trigger] row@[y]) as int)
                        && row@[y] < total,
            decreases nv - x,
        {
            let v = match pv[t][x] {
                Some(p) => p,
                None => {
                    let mut best: Option<usize> = None;
                    let mut d: usize = 0;
                    while d < n
                        invariant
                            g.wf(),
                            g.all_reachable(),
                            g.n() == body.n(),
                            is_dominance_matrix(*g, dom@),
                            is_table(phi@, body.n(), body.num_vars as nat),
                            is_table(la@, body.n(), body.num_vars as nat),
                            forall|b: int, y: int|
                                0 <= b < body.n() && 0 <= y < body.num_vars ==> (#[trigger] la@[b]@[y]) == as_place(last_assign(
                                    body.blocks@[b].statements@,
                                    body.blocks@[b].statements@.len() as int,
                                    y,
                                )),
                            n == body.n(),
                            nv == body.num_vars,
                            t < n,
                            x < nv,
                            d <= n,
                            best is None ==> forall|e: int|
                                0 <= e < d ==> !(#[trigger] g.strictly_dominates(e, t as int) && defining(*body, phi@, e, x as int)),
                            best is Some ==> {
                                let c = best->0 as int;
                                &&& 0 <= c < n
                                &&& g.strictly_dominates(c, t as int)
                                &&& defining(*body, phi@, c, x as int)
                                &&& forall|e: int|
                                    0 <= e < d && #[trigger] g.strictly_dominates(e, t as int) && defining(*body, phi@, e, x as int)
                                        ==> g.dominates(e, c)
                            },
                        decreases n - d,
                    {
                        if d != t && dom[d][t] && (la[d][x].is_some() || phi[d][x]) {
                            proof {
                                lemma_dominates_basics(*g, d as int);
                            }
                            match best {
                                None => {
                                    best = Some(d);
                                },
                                Some(c) => {
                                    if dom[c][d] {
                                        proof {
                                            assert forall|e: int|
                                                0 <= e < d + 1 && #[trigger] g.strictly_dominates(e, t as int)
                                                    && defining(*body, phi@, e, x as int) implies g.dominates(e, d as int) by {
                                                if e < d {
                                                    lemma_dominates_transitive(*g, e, c as int, d as int);
                                                }
                                            }
                                        }
                                        best = Some(d);
                                    } else {
                                        proof {
                                            assert(g.reachable(t as int));
                                            lemma_dominators_ordered(*g, c as int, d as int, t as int);
                                        }
                                    }
                                },
                            }
                        }
                        d += 1;
                    }
                    match best {
                        None => {
                            proof {
                                assert(!exists|e: int|
                                    0 <= e < g.n() && #[trigger] g.strictly_dominates(e, t as int) && defining(*body, phi@, e, x as int));
                            }
                            x
                        },
                        Some(c) => {
                            let r = match la[c][x] {
                                Some(i) => {
                                    proof {
                                        lemma_last_assign(
                                            body.blocks@[c as int].statements@,
                                            body.blocks@[c as int].statements@.len() as int,
                                            x as int,
                                        );
                                        let st = body.blocks@[c as int].statements@;
                                        let j = last_assign(st, st.len() as int, x as int)->0;
                                        assert(st.len() <= usize::MAX) by {
                                            assert(body.blocks[c as int].statements@.len() == body.blocks[c as int].statements.len());
                                        }
                                        assert(j == i as int);
                                    }
                                    dv[c][i]
                                },
                                None => match pv[c][x] {
                                    Some(p) => p,
                                    None => x,
                                },
                            };
                            proof {
                                assert(nearest_def(*g, *body, phi@, c as int, t as int, x as int));
                                assert(r as int == block_out(*body, pv@, dv@, c as int, x as int));
                                assert(entry_def_ok(*g, *body, phi@, pv@, dv@, t as int, x as int, r as int));
                            }
                            r
                        },
                    }
                },
            };
            row.push(v);
            x += 1;
        }
        ed.push(row);
        t += 1;
    }
    ed
}

/// The variable that holds `x` just before statement `i` of block `t`: the
/// last assignment to `x` before it in the block, else the entry definition.
pub open spec fn reaching(body: Body, dv: Seq<Vec<usize>>, ed: Seq<Vec<usize>>, t: int, i: int, x: int) -> int {
    match last_assign(body.blocks@[t].statements@, i, x) {
        Some(j) => dv[t]@[j] as int,
        None => ed[t]@[x] as int,
    }
}

pub open spec fn ren(o: Operand, body: Body, dv: Seq<Vec<usize>>, ed: Seq<Vec<usize>>, t: int, i: int) -> Operand {
    match o {
        Operand::Var(x) => Operand::Var(reaching(body, dv, ed, t, i, x as int) as usize),
        Operand::Const(c) => Operand::Const(c),
    }
}

/// `r` is `e` with each use renamed to the variable reaching statement `i`.
/// The operand `o` renamed to the variable holding it at the end of block `b`.
pub open spec fn ren_end(o: Operand, body: Body, dv: Seq<Vec<usize>>, ed: Seq<Vec<usize>>, b: int) -> Operand {
    match o {
        Operand::Var(x) => Operand::Var(reaching(body, dv, ed, b, body.blocks@[b].statements@.len() as int, x as int) as usize),
        Operand::Const(c) => Operand::Const(c),
    }
}

/// `r` is `e` with each use renamed to the variable reaching statement `i`;
/// the `k`-th operand of a phi is renamed at the end of the `k`-th of the
/// predecessors `preds`.
pub open spec fn renamed_expr(e: Expr, r: Expr, body: Body, dv: Seq<Vec<usize>>, ed: Seq<Vec<usize>>, preds: Seq<usize>, t: int, i: int) -> bool {
    match e {
        Expr::Use(a) => r == Expr::Use(ren(a, body, dv, ed, t, i)),
        Expr::Unary(op, a) => r == Expr::Unary(op, ren(a, body, dv, ed, t, i)),
        Expr::Binary(op, a, b) => r == Expr::Binary(op, ren(a, body, dv, ed, t, i), ren(b, body, dv, ed, t, i)),
        Expr::Phi(v) => match r {
            Expr::Phi(w) => w@.len() == v@.len() && forall|k: int|
                0 <= k < v@.len() ==> #[trigger] w@[k] == if k < preds.len() {
                    ren_end(v@[k], body, dv, ed, preds[k] as int)
                } else {
                    ren(v@[k], body, dv, ed, t, i)
                },
            _ => false,
        },
        Expr::Sigma(a, op, b) => r == Expr::Sigma(ren(a, body, dv, ed, t, i), op, ren(b, body, dv, ed, t, i)),
    }
}

/// `r` is statement `i` of block `t` renamed: its uses as `renamed_expr`
/// says, and its definition to the fresh variable `dv[t][i]`.
pub open spec fn renamed_stmt(s: Statement, r: Statement, body: Body, dv: Seq<Vec<usize>>, ed: Seq<Vec<usize>>, preds: Seq<usize>, t: int, i: int) -> bool {
    match s {
        Statement::Assign(_, e) => match r {
            Statement::Assign(d, e2) => d == dv[t]@[i] && renamed_expr(e, e2, body, dv, ed, preds, t, i),
            _ => false,
        },
        Statement::Nop => r == Statement::Nop,
    }
}

/// `r` is the terminator of block `t` with its condition renamed.
pub open spec fn renamed_term(tm: Terminator, r: Terminator, body: Body, dv: Seq<Vec<usize>>, ed: Seq<Vec<usize>>, t: int) -> bool {
    let end = body.blocks@[t].statements@.len() as int;
    match tm {
        Terminator::Branch(c, ts) => match r {
            Terminator::Branch(c2, ts2) => c2 == ren(c, body, dv, ed, t, end) && ts2@ == ts@,
            _ => false,
        },
        Terminator::Goto(b) => r == Terminator::Goto(b),
        Terminator::Return => r == Terminator::Return,
    }
}

/// `s` is the phi of `x` in block `t`: it defines `pv[t][x]` from the
/// variable that holds `x` at the end of each predecessor, in order.
#[verifier::opaque]
pub open spec fn phi_ok(s: Statement, body: Body, g: Cfg, pv: Seq<Vec<Option<usize>>>, dv: Seq<Vec<usize>>, ed: Seq<Vec<usize>>, t: int, x: int) -> bool {
    match s {
        Statement::Assign(p, Expr::Phi(ops)) => {
            &&& pv[t]@[x] == Some(p)
            &&& ops@.len() == g.preds@[t]@.len()
            &&& forall|k: int| 0 <= k < ops@.len() ==> #[trigger] ops@[k] == Operand::Var(
                reaching(body, dv, ed, g.preds@[t]@[k] as int,
                    body.blocks@[g.preds@[t]@[k] as int].statements@.len() as int, x) as usize)
        },
        _ => false,
    }
}

/// `s` is the phi of some variable that block `t` has a phi for.
pub open spec fn is_some_phi(s: Statement, body: Body, g: Cfg, phi: Seq<Vec<bool>>, pv: Seq<Vec<Option<usize>>>, dv: Seq<Vec<usize>>, ed: Seq<Vec<usize>>, t: int) -> bool {
    exists|y: int| 0 <= y < body.num_vars && phi[t]@[y] && #[trigger] phi_ok(s, body, g, pv, dv, ed, t, y)
}

fn rename_operand(o: &Operand, cur: &Vec<usize>) -> (r: Operand)
    requires
        o matches Operand::Var(x) ==> x < cur@.len(),
    ensures
        r == match *o {
            Operand::Var(x) => Operand::Var(cur@[x as int]),
            Operand::Const(c) => Operand::Const(c),
        },
{
    match o {
        Operand::Var(x) => Operand::Var(cur[*x]),
        Operand::Const(c) => Operand::Const(*c),
    }
}

/// The variable holding each source variable at the end of block `t`.
fn block_end(body: &Body, dv: &Vec<Vec<usize>>, ed: &Vec<Vec<usize>>, t: usize, total: usize) -> (r: Vec<usize>)
    requires
        body.vars_ok(),
        t < body.n(),
        is_table(ed@, body.n(), body.num_vars as nat),
        dv@.len() == body.n(),
        forall|c: int| 0 <= c < body.n() ==> (#[trigger] dv@[c])@.len() == body.blocks@[c].statements@.len(),
        forall|c: int, x: int| 0 <= c < body.n() && 0 <= x < body.num_vars ==> (#[trigger] ed@[c]@[x]) < total,
        forall|c: int, i: int|
            0 <= c < body.n() && 0 <= i < body.blocks@[c].statements@.len() && is_assign(
                body.blocks@[c].statements@[i],
            ) ==> (#[trigger] dv@[c]@[i]) < total,
    ensures
        r@.len() == body.num_vars,
        forall|x: int| 0 <= x < body.num_vars ==> (#[trigger] r@[x]) as int == reaching(
            *body, dv@, ed@, t as int, body.blocks@[t as int].statements@.len() as int, x) && r@[x] < total,
{
    let nv = body.num_vars;
    let st = &body.blocks[t].statements;
    let mut cur: Vec<usize> = Vec::new();
    let mut x: usize = 0;
    while x < nv
        invariant
            t < body.n(),
            nv == body.num_vars,
            is_table(ed@, body.n(), body.num_vars as nat),
            x <= nv,
            cur@.len() == x,
            forall|y: int| 0 <= y < x ==> (#[trigger] cur@[y]) == ed@[t as int]@[y],
        decreases nv - x,
    {
        cur.push(ed[t][x]);
        x += 1;
    }
    let mut i: usize = 0;
    while i < st.len()
        invariant
            body.vars_ok(),
            t < body.n(),
            nv == body.num_vars,
            st@ == body.blocks@[t as int].statements@,
            is_table(ed@, body.n(), body.num_vars as nat),
            dv@.len() == body.n(),
            forall|c: int| 0 <= c < body.n() ==> (#[trigger] dv@[c])@.len() == body.blocks@[c].statements@.len(),
            forall|c: int, y: int| 0 <= c < body.n() && 0 <= y < body.num_vars ==> (#[trigger] ed@[c]@[y]) < total,
            forall|c: int, k: int|
                0 <= c < body.n() && 0 <= k < body.blocks@[c].statements@.len() && is_assign(
                    body.blocks@[c].statements@[k],
                ) ==> (#[trigger] dv@[c]@[k]) < total,
            i <= st@.len(),
            cur@.len() == nv,
            forall|y: int| 0 <= y < nv ==> (#[trigger] cur@[y]) as int == reaching(*body, dv@, ed@, t as int, i as int, y)
                && cur@[y] < total,
        decreases st@.len() - i,
    {
        proof {
            assert(crate::cfg::stmt_ok(st@[i as int], nv as nat));
        }
        let ghost cur_before = cur@;
        if let Statement::Assign(d, _) = &st[i] {
            cur.set(*d, dv[t][i]);
        }
        i += 1;
        proof {
            assert forall|y: int| 0 <= y < nv implies (#[trigger] cur@[y]) as int == reaching(*body, dv@, ed@, t as int, i as int, y)
                && cur@[y] < total by {
                assert(cur_before[y] as int == reaching(*body, dv@, ed@, t as int, i - 1, y));
            }
        }
    }
    cur
}

/// The renaming of one block: its statements and terminator, and the
/// variable holding each source variable at its end.
fn rename_block(
    body: &Body,
    dv: &Vec<Vec<usize>>,
    ed: &Vec<Vec<usize>>,
    preds: &Vec<usize>,
    ends: &Vec<Vec<usize>>,
    t: usize,
    total: usize,
) -> (r: (Vec<Statement>, Terminator, Vec<usize>))
    requires
        forall|j: int| 0 <= j < preds@.len() ==> #[trigger] preds@[j] < body.n(),
        is_table(ends@, body.n(), body.num_vars as nat),
        forall|b: int, y: int| 0 <= b < body.n() && 0 <= y < body.num_vars ==> (#[trigger] ends@[b]@[y]) as int == reaching(
            *body, dv@, ed@, b, body.blocks@[b].statements@.len() as int, y) && ends@[b]@[y] < total,
        body.vars_ok(),
        t < body.n(),
        is_table(ed@, body.n(), body.num_vars as nat),
        dv@.len() == body.n(),
        forall|c: int| 0 <= c < body.n() ==> (#[trigger] dv@[c])@.len() == body.blocks@[c].statements@.len(),
        forall|c: int, x: int| 0 <= c < body.n() && 0 <= x < body.num_vars ==> (#[trigger] ed@[c]@[x]) < total,
        forall|c: int, i: int|
            0 <= c < body.n() && 0 <= i < body.blocks@[c].statements@.len() && is_assign(
                body.blocks@[c].statements@[i],
            ) ==> (#[trigger] dv@[c]@[i]) < total,
    ensures
        r.0@.len() == body.blocks@[t as int].statements@.len(),
        forall|i: int|
            0 <= i < r.0@.len() ==> renamed_stmt(body.blocks@[t as int].statements@[i], #[trigger] r.0@[i], *body, dv@, ed@, preds@, t as int, i),
        renamed_term(body.blocks@[t as int].terminator, r.1, *body, dv@, ed@, t as int),
        forall|i: int| 0 <= i < r.0@.len() ==> crate::cfg::stmt_ok(#[trigger] r.0@[i], total as nat),
        crate::cfg::term_ok(r.1, total as nat),
        r.2@.len() == body.num_vars,
        forall|x: int| 0 <= x < body.num_vars ==> (#[trigger] r.2@[x]) as int == reaching(
            *body, dv@, ed@, t as int, body.blocks@[t as int].statements@.len() as int, x) && r.2@[x] < total,
{
    let nv = body.num_vars;
    let st = &body.blocks[t].statements;
    let mut cur: Vec<usize> = Vec::new();
    let mut x: usize = 0;
    while x < nv
        invariant
            t < body.n(),
            nv == body.num_vars,
            is_table(ed@, body.n(), body.num_vars as nat),
            x <= nv,
            cur@.len() == x,
            forall|y: int| 0 <= y < x ==> (#[trigger] cur@[y]) == ed@[t as int]@[y],
        decreases nv - x,
    {
        cur.push(ed[t][x]);
        x += 1;
    }
    let mut out: Vec<Statement> = Vec::new();
    let mut i: usize = 0;
    while i < st.len()
        invariant
            body.vars_ok(),
            t < body.n(),
            nv == body.num_vars,
            st@ == body.blocks@[t as int].statements@,
            is_table(ed@, body.n(), body.num_vars as nat),
            dv@.len() == body.n(),
            forall|c: int| 0 <= c < body.n() ==> (#[trigger] dv@[c])@.len() == body.blocks@[c].statements@.len(),
            forall|c: int, y: int| 0 <= c < body.n() && 0 <= y < body.num_vars ==> (#[trigger] ed@[c]@[y]) < total,
            forall|c: int, k: int|
                0 <= c < body.n() && 0 <= k < body.blocks@[c].statements@.len() && is_assign(
                    body.blocks@[c].statements@[k],
                ) ==> (#[trigger] dv@[c]@[k]) < total,
            i <= st@.len(),
            out@.len() == i,
            forall|j: int| 0 <= j < preds@.len() ==> #[trigger] preds@[j] < body.n(),
            is_table(ends@, body.n(), body.num_vars as nat),
            forall|b: int, y: int| 0 <= b < body.n() && 0 <= y < body.num_vars ==> (#[trigger] ends@[b]@[y]) as int == reaching(
                *body, dv@, ed@, b, body.blocks@[b].statements@.len() as int, y) && ends@[b]@[y] < total,
            forall|k: int| 0 <= k < i ==> renamed_stmt(st@[k], #[trigger] out@[k], *body, dv@, ed@, preds@, t as int, k),
            forall|k: int| 0 <= k < i ==> crate::cfg::stmt_ok(#[trigger] out@[k], total as nat),
            cur@.len() == nv,
            forall|y: int| 0 <= y < nv ==> (#[trigger] cur@[y]) as int == reaching(*body, dv@, ed@, t as int, i as int, y)
                && cur@[y] < total,
        decreases st@.len() - i,
    {
        proof {
            assert(crate::cfg::stmt_ok(st@[i as int], nv as nat));
        }
        let s = match &st[i] {
            Statement::Assign(d, e) => {
                let e2 = match e {
                    Expr::Use(a) => Expr::Use(rename_operand(a, &cur)),
                    Expr::Unary(op, a) => Expr::Unary(*op, rename_operand(a, &cur)),
                    Expr::Binary(op, a, b) => Expr::Binary(*op, rename_operand(a, &cur), rename_operand(b, &cur)),
                    Expr::Phi(v) => {
                        let mut w: Vec<Operand> = Vec::new();
                        let mut k: usize = 0;
                        while k < v.len()
                            invariant
                                crate::cfg::operands_ok(v@, nv as nat),
                                nv == body.num_vars,
                                cur@.len() == nv,
                                forall|y: int| 0 <= y < nv ==> (#[trigger] cur@[y]) < total,
                                forall|j: int| 0 <= j < preds@.len() ==> #[trigger] preds@[j] < body.n(),
                                is_table(ends@, body.n(), body.num_vars as nat),
                                forall|b: int, y: int| 0 <= b < body.n() && 0 <= y < body.num_vars ==> (#[trigger] ends@[b]@[y]) as int == reaching(
                                    *body, dv@, ed@, b, body.blocks@[b].statements@.len() as int, y) && ends@[b]@[y] < total,
                                crate::cfg::operands_ok(w@, total as nat),
                                k <= v@.len(),
                                w@.len() == k,
                                forall|j: int| 0 <= j < k ==> #[trigger] w@[j] == if j < preds@.len() {
                                    ren_end(v@[j], *body, dv@, ed@, preds@[j] as int)
                                } else {
                                    match v@[j] {
                                        Operand::Var(y) => Operand::Var(cur@[y as int]),
                                        Operand::Const(c) => Operand::Const(c),
                                    }
                                },
                            decreases v@.len() - k,
                        {
                            proof {
                                assert(crate::cfg::operand_ok(v@[k as int], nv as nat));
                            }
                            let ghost w0 = w@;
                            let o = if k < preds.len() {
                                let b = preds[k];
                                match &v[k] {
                                    Operand::Var(y) => Operand::Var(ends[b][*y]),
                                    Operand::Const(c) => Operand::Const(*c),
                                }
                            } else {
                                rename_operand(&v[k], &cur)
                            };
                            w.push(o);
                            k += 1;
                            proof {
                                assert forall|j: int| 0 <= j < w@.len() implies crate::cfg::operand_ok(#[trigger] w@[j], total as nat) by {
                                    if j < w0.len() {
                                        assert(w@[j] == w0[j]);
                                    }
                                }
                            }
                        }
                        Expr::Phi(w)
                    },
                    Expr::Sigma(a, op, b) => Expr::Sigma(rename_operand(a, &cur), *op, rename_operand(b, &cur)),
                };
                Statement::Assign(dv[t][i], e2)
            },
            Statement::Nop => Statement::Nop,
        };
        proof {
            assert(renamed_stmt(st@[i as int], s, *body, dv@, ed@, preds@, t as int, i as int));
            assert(crate::cfg::stmt_ok(s, total as nat));
        }
        let ghost cur_before = cur@;
        if let Statement::Assign(d, _) = &st[i] {
            cur.set(*d, dv[t][i]);
        }
        out.push(s);
        i += 1;
        proof {
            assert forall|k: int| 0 <= k < i implies renamed_stmt(st@[k], #[trigger] out@[k], *body, dv@, ed@, preds@, t as int, k) by {
            }
            assert forall|k: int| 0 <= k < i implies crate::cfg::stmt_ok(#[trigger] out@[k], total as nat) by {
            }
            assert forall|y: int| 0 <= y < nv implies (#[trigger] cur@[y]) as int == reaching(*body, dv@, ed@, t as int, i as int, y)
                && cur@[y] < total by {
                assert(cur_before[y] as int == reaching(*body, dv@, ed@, t as int, i - 1, y));
            }
        }
    }
    let term = match &body.blocks[t].terminator {
        Terminator::Goto(b) => Terminator::Goto(*b),
        Terminator::Return => Terminator::Return,
        Terminator::Branch(c, ts) => {
            proof {
                assert(crate::cfg::term_ok(body.blocks@[t as int].terminator, nv as nat));
            }
            let c2 = rename_operand(c, &cur);
            let mut ts2: Vec<usize> = Vec::new();
            let mut k: usize = 0;
            while k < ts.len()
                invariant
                    k <= ts@.len(),
                    ts2@ == ts@.subrange(0, k as int),
                decreases ts@.len() - k,
            {
                ts2.push(ts[k]);
                k += 1;
                proof {
                    assert(ts2@ =~= ts@.subrange(0, k as int));
                }
            }
            proof {
                assert(ts@.subrange(0, ts@.len() as int) =~= ts@);
            }
            Terminator::Branch(c2, ts2)
        },
    };
    (out, term, cur)
}

/// The phi of `x` in block `t`, defining `p`.
fn phi_for_var(
    g: &Cfg,
    pv: &Vec<Vec<Option<usize>>>,
    ends: &Vec<Vec<usize>>,
    t: usize,
    x: usize,
    p: usize,
    total: usize,
    Ghost(body): Ghost<Body>,
    Ghost(dv): Ghost<Seq<Vec<usize>>>,
    Ghost(ed): Ghost<Seq<Vec<usize>>>,
) -> (s: Statement)
    requires
        g.wf(),
        g.n() == body.n(),
        t < g.n(),
        x < body.num_vars,
        is_table(pv@, body.n(), body.num_vars as nat),
        pv@[t as int]@[x as int] == Some(p),
        p < total,
        is_table(ends@, body.n(), body.num_vars as nat),
        forall|b: int, y: int| 0 <= b < body.n() && 0 <= y < body.num_vars ==> (#[trigger] ends@[b]@[y]) as int == reaching(
            body, dv, ed, b, body.blocks@[b].statements@.len() as int, y) && ends@[b]@[y] < total,
    ensures
        phi_ok(s, body, *g, pv@, dv, ed, t as int, x as int),
        crate::cfg::stmt_ok(s, total as nat),
{
    let ps = &g.preds[t];
    let mut ops: Vec<Operand> = Vec::new();
    let mut k: usize = 0;
    while k < ps.len()
        invariant
            g.wf(),
            g.n() == body.n(),
            t < g.n(),
            x < body.num_vars,
            ps@ == g.preds@[t as int]@,
            is_table(ends@, body.n(), body.num_vars as nat),
            forall|b: int, y: int| 0 <= b < body.n() && 0 <= y < body.num_vars ==> (#[trigger] ends@[b]@[y]) as int == reaching(
                body, dv, ed, b, body.blocks@[b].statements@.len() as int, y) && ends@[b]@[y] < total,
            k <= ps@.len(),
            ops@.len() == k,
            forall|j: int| 0 <= j < k ==> #[trigger] ops@[j] == Operand::Var(
                reaching(body, dv, ed, ps@[j] as int,
                    body.blocks@[ps@[j] as int].statements@.len() as int, x as int) as usize),
            crate::cfg::operands_ok(ops@, total as nat),
        decreases ps@.len() - k,
    {
        let b = ps[k];
        proof {
            assert(g.preds@[t as int]@[k as int] < g.n());
        }
        let ghost ops0 = ops@;
        ops.push(Operand::Var(ends[b][x]));
        k += 1;
        proof {
            assert forall|j: int| 0 <= j < ops@.len() implies crate::cfg::operand_ok(#[trigger] ops@[j], total as nat) by {
                if j < ops0.len() {
                    assert(ops@[j] == ops0[j]);
                }
            }
        }
    }
    let s = Statement::Assign(p, Expr::Phi(ops));
    proof {
        reveal(phi_ok);
    }
    s
}

/// The phis at the head of block `t`, one for each variable that needs one,
/// in increasing order of the variable.
fn phi_statements(
    g: &Cfg,
    phi: &Vec<Vec<bool>>,
    pv: &Vec<Vec<Option<usize>>>,
    ends: &Vec<Vec<usize>>,
    t: usize,
    nv: usize,
    total: usize,
    Ghost(body): Ghost<Body>,
    Ghost(dv): Ghost<Seq<Vec<usize>>>,
    Ghost(ed): Ghost<Seq<Vec<usize>>>,
) -> (r: Vec<Statement>)
    requires
        nv == body.num_vars,
        g.wf(),
        g.n() == body.n(),
        t < g.n(),
        is_table(phi@, body.n(), body.num_vars as nat),
        is_table(pv@, body.n(), body.num_vars as nat),
        forall|c: int, x: int|
            0 <= c < body.n() && 0 <= x < body.num_vars ==> ((#[trigger] pv@[c]@[x]) is Some <==> phi@[c]@[x]),
        forall|c: int, x: int|
            0 <= c < body.n() && 0 <= x < body.num_vars && (#[trigger] pv@[c]@[x]) is Some ==> pv@[c]@[x]->0 < total,
        is_table(ends@, body.n(), body.num_vars as nat),
        forall|b: int, x: int| 0 <= b < body.n() && 0 <= x < body.num_vars ==> (#[trigger] ends@[b]@[x]) as int == reaching(
            body, dv, ed, b, body.blocks@[b].statements@.len() as int, x) && ends@[b]@[x] < total,
        forall|x1: int, x2: int| 0 <= x1 < body.num_vars && 0 <= x2 < body.num_vars && x1 != x2 && (#[trigger] pv@[t as int]@[x1]) is Some
            ==> pv@[t as int]@[x1] != #[trigger] pv@[t as int]@[x2],
    ensures
        forall|j: int| 0 <= j < r@.len() ==> is_some_phi(#[trigger] r@[j], body, *g, phi@, pv@, dv, ed, t as int),
        forall|j1: int, j2: int| 0 <= j1 < r@.len() && 0 <= j2 < r@.len() && j1 != j2 ==> dest_of(#[trigger] r@[j1]) != dest_of(#[trigger] r@[j2]),
        forall|y: int| 0 <= y < body.num_vars && #[trigger] phi@[t as int]@[y] ==> exists|j: int| 0 <= j < r@.len() && phi_ok(#[trigger] r@[j], body, *g, pv@, dv, ed, t as int, y),
        forall|j: int| 0 <= j < r@.len() ==> crate::cfg::stmt_ok(#[trigger] r@[j], total as nat),
{
    let mut r: Vec<Statement> = Vec::new();
    let ghost mut slots: Seq<int> = Seq::empty();
    let ghost mut at: Seq<int> = Seq::empty();
    let mut x: usize = 0;
    while x < nv
        invariant
            g.wf(),
            g.n() == body.n(),
            nv == body.num_vars,
            t < g.n(),
            is_table(phi@, body.n(), body.num_vars as nat),
            is_table(pv@, body.n(), body.num_vars as nat),
            forall|c: int, y: int|
                0 <= c < body.n() && 0 <= y < body.num_vars ==> ((#[trigger] pv@[c]@[y]) is Some <==> phi@[c]@[y]),
            forall|c: int, y: int|
                0 <= c < body.n() && 0 <= y < body.num_vars && (#[trigger] pv@[c]@[y]) is Some ==> pv@[c]@[y]->0 < total,
            is_table(ends@, body.n(), body.num_vars as nat),
            forall|b: int, y: int| 0 <= b < body.n() && 0 <= y < body.num_vars ==> (#[trigger] ends@[b]@[y]) as int == reaching(
                body, dv, ed, b, body.blocks@[b].statements@.len() as int, y) && ends@[b]@[y] < total,
            x <= nv,
            slots.len() == r@.len(),
            at.len() == x,
            forall|j: int| 0 <= j < r@.len() ==> 0 <= #[trigger] slots[j] < x && phi@[t as int]@[slots[j]]
                && phi_ok(r@[j], body, *g, pv@, dv, ed, t as int, slots[j]),
            forall|y: int| 0 <= y < x && phi@[t as int]@[y] ==> 0 <= #[trigger] at[y] < r@.len() && slots[at[y]] == y,
            forall|j1: int, j2: int| 0 <= j1 < j2 < r@.len() ==> #[trigger] slots[j1] < #[trigger] slots[j2],
            forall|j: int| 0 <= j < r@.len() ==> crate::cfg::stmt_ok(#[trigger] r@[j], total as nat),
        decreases nv - x,
    {
        if let Some(p) = pv[t][x] {
            let s = phi_for_var(g, pv, ends, t, x, p, total, Ghost(body), Ghost(dv), Ghost(ed));
            proof {
                at = at.push(r@.len() as int);
                slots = slots.push(x as int);
            }
            r.push(s);
        } else {
            proof {
                at = at.push(0);
            }
        }
        x += 1;
    }
    proof {
        assert forall|j: int| 0 <= j < r@.len() implies is_some_phi(#[trigger] r@[j], body, *g, phi@, pv@, dv, ed, t as int) by {
            assert(phi_ok(r@[j], body, *g, pv@, dv, ed, t as int, slots[j]));
        }
        assert forall|y: int| 0 <= y < body.num_vars && #[trigger] phi@[t as int]@[y] implies exists|j: int| 0 <= j < r@.len() && phi_ok(#[trigger] r@[j], body, *g, pv@, dv, ed, t as int, y) by {
            let j = at[y];
            assert(slots[j] == y);
            assert(phi_ok(r@[j], body, *g, pv@, dv, ed, t as int, slots[j]));
        }
        reveal(phi_ok);
        assert forall|j1: int, j2: int| 0 <= j1 < r@.len() && 0 <= j2 < r@.len() && j1 != j2 implies dest_of(#[trigger] r@[j1]) != dest_of(#[trigger] r@[j2]) by {
            assert(phi_ok(r@[j1], body, *g, pv@, dv, ed, t as int, slots[j1]));
            assert(phi_ok(r@[j2], body, *g, pv@, dv, ed, t as int, slots[j2]));
            if j1 < j2 {
                assert(slots[j1] < slots[j2]);
            } else {
                assert(slots[j2] < slots[j1]);
            }
        }
    }
    r
}

/// Block `t` of the renamed body: its phis first, then each statement of the
/// input block renamed, then the renamed terminator.
pub open spec fn ssa_block_ok(
    old: BasicBlock,
    new: BasicBlock,
    body: Body,
    g: Cfg,
    phi: Seq<Vec<bool>>,
    pv: Seq<Vec<Option<usize>>>,
    dv: Seq<Vec<usize>>,
    ed: Seq<Vec<usize>>,
    t: int,
) -> bool {
    let k = new.statements@.len() - old.statements@.len();
    &&& k >= 0
    &&& forall|j: int| 0 <= j < k ==> is_some_phi(#[trigger] new.statements@[j], body, g, phi, pv, dv, ed, t)
    &&& forall|j1: int, j2: int| 0 <= j1 < k && 0 <= j2 < k && j1 != j2 ==> dest_of(#[trigger] new.statements@[j1]) != dest_of(#[trigger] new.statements@[j2])
    &&& forall|y: int| 0 <= y < body.num_vars && #[trigger] phi[t]@[y] ==> exists|j: int| 0 <= j < k && phi_ok(#[trigger] new.statements@[j], body, g, pv, dv, ed, t, y)
    &&& forall|i: int| 0 <= i < old.statements@.len() ==> renamed_stmt(old.statements@[i], #[trigger] new.statements@[k + i], body, dv, ed, g.preds@[t]@, t, i)
    &&& renamed_term(old.terminator, new.terminator, body, dv, ed, t)
}

/// Renames every block: each definition gets its fresh variable, each use the
/// variable that reaches it, and each block its phis.
pub fn rename_variables(
    body: &Body,
    g: &Cfg,
    phi: &Vec<Vec<bool>>,
    pv: &Vec<Vec<Option<usize>>>,
    dv: &Vec<Vec<usize>>,
    ed: &Vec<Vec<usize>>,
    total: usize,
) -> (r: Body)
    requires
        body.vars_ok(),
        body.targets_ok(),
        g.wf(),
        g.n() == body.n(),
        body.num_vars <= total,
        is_table(phi@, body.n(), body.num_vars as nat),
        is_table(pv@, body.n(), body.num_vars as nat),
        forall|c: int, x: int|
            0 <= c < body.n() && 0 <= x < body.num_vars ==> ((#[trigger] pv@[c]@[x]) is Some <==> phi@[c]@[x]),
        forall|c: int, x: int|
            0 <= c < body.n() && 0 <= x < body.num_vars && (#[trigger] pv@[c]@[x]) is Some ==> pv@[c]@[x]->0 < total,
        forall|c: int, x1: int, x2: int| 0 <= c < body.n() && 0 <= x1 < body.num_vars && 0 <= x2 < body.num_vars && x1 != x2
            && (#[trigger] pv@[c]@[x1]) is Some ==> pv@[c]@[x1] != #[trigger] pv@[c]@[x2],
        is_table(ed@, body.n(), body.num_vars as nat),
        dv@.len() == body.n(),
        forall|c: int| 0 <= c < body.n() ==> (#[trigger] dv@[c])@.len() == body.blocks@[c].statements@.len(),
        forall|c: int, x: int| 0 <= c < body.n() && 0 <= x < body.num_vars ==> (#[trigger] ed@[c]@[x]) < total,
        forall|c: int, i: int|
            0 <= c < body.n() && 0 <= i < body.blocks@[c].statements@.len() && is_assign(
                body.blocks@[c].statements@[i],
            ) ==> (#[trigger] dv@[c]@[i]) < total,
    ensures
        r.num_vars == total,
        r.n() == body.n(),
        r.vars_ok(),
        r.targets_ok(),
        forall|t: int| 0 <= t < r.n() ==> #[trigger] r.targets(t) == body.targets(t),
        forall|t: int| 0 <= t < r.n() ==> ssa_block_ok(body.blocks@[t], #[trigger] r.blocks@[t], *body, *g, phi@, pv@, dv@, ed@, t),
{
    let n = body.blocks.len();
    let nv = body.num_vars;
    let mut ends: Vec<Vec<usize>> = Vec::new();
    let mut t: usize = 0;
    while t < n
        invariant
            body.vars_ok(),
            n == body.n(),
            nv == body.num_vars,
            is_table(ed@, body.n(), body.num_vars as nat),
            dv@.len() == body.n(),
            forall|c: int| 0 <= c < body.n() ==> (#[trigger] dv@[c])@.len() == body.blocks@[c].statements@.len(),
            forall|c: int, x: int| 0 <= c < body.n() && 0 <= x < body.num_vars ==> (#[trigger] ed@[c]@[x]) < total,
            forall|c: int, i: int|
                0 <= c < body.n() && 0 <= i < body.blocks@[c].statements@.len() && is_assign(
                    body.blocks@[c].statements@[i],
                ) ==> (#[trigger] dv@[c]@[i]) < total,
            t <= n,
            is_table(ends@, t as nat, nv as nat),
            forall|b: int, y: int| 0 <= b < t && 0 <= y < nv ==> (#[trigger] ends@[b]@[y]) as int == reaching(
                *body, dv@, ed@, b, body.blocks@[b].statements@.len() as int, y) && ends@[b]@[y] < total,
        decreases n - t,
    {
        let end = block_end(body, dv, ed, t, total);
        ends.push(end);
        t += 1;
    }
    let mut blocks: Vec<BasicBlock> = Vec::new();
    let mut t: usize = 0;
    while t < n
        invariant
            body.vars_ok(),
            body.targets_ok(),
            g.wf(),
            g.n() == body.n(),
            n == body.n(),
            nv == body.num_vars,
            body.num_vars <= total,
            is_table(phi@, body.n(), body.num_vars as nat),
            is_table(pv@, body.n(), body.num_vars as nat),
            forall|c: int, x: int|
                0 <= c < body.n() && 0 <= x < body.num_vars ==> ((#[trigger] pv@[c]@[x]) is Some <==> phi@[c]@[x]),
            forall|c: int, x: int|
                0 <= c < body.n() && 0 <= x < body.num_vars && (#[trigger] pv@[c]@[x]) is Some ==> pv@[c]@[x]->0 < total,
            is_table(ed@, body.n(), body.num_vars as nat),
            dv@.len() == body.n(),
            forall|c: int| 0 <= c < body.n() ==> (#[trigger] dv@[c])@.len() == body.blocks@[c].statements@.len(),
            forall|c: int, x: int| 0 <= c < body.n() && 0 <= x < body.num_vars ==> (#[trigger] ed@[c]@[x]) < total,
            forall|c: int, i: int|
                0 <= c < body.n() && 0 <= i < body.blocks@[c].statements@.len() && is_assign(
                    body.blocks@[c].statements@[i],
                ) ==> (#[trigger] dv@[c]@[i]) < total,
            is_table(ends@, n as nat, nv as nat),
            forall|b: int, y: int| 0 <= b < n && 0 <= y < nv ==> (#[trigger] ends@[b]@[y]) as int == reaching(
                *body, dv@, ed@, b, body.blocks@[b].statements@.len() as int, y) && ends@[b]@[y] < total,
            forall|c: int, x1: int, x2: int| 0 <= c < body.n() && 0 <= x1 < body.num_vars && 0 <= x2 < body.num_vars && x1 != x2
                && (#[trigger] pv@[c]@[x1]) is Some ==> pv@[c]@[x1] != #[trigger] pv@[c]@[x2],
            t <= n,
            blocks@.len() == t,
            forall|c: int| 0 <= c < t ==> #[trigger] term_targets_of(blocks@[c]) == body.targets(c),
            forall|c: int| 0 <= c < t ==> ssa_block_ok(body.blocks@[c], #[trigger] blocks@[c], *body, *g, phi@, pv@, dv@, ed@, c),
            forall|c: int, i: int| 0 <= c < t && 0 <= i < blocks@[c].statements@.len() ==> crate::cfg::stmt_ok(#[trigger] blocks@[c].statements@[i], total as nat),
            forall|c: int| 0 <= c < t ==> crate::cfg::term_ok(#[trigger] blocks@[c].terminator, total as nat),
        decreases n - t,
    {
        let mut stmts = phi_statements(g, phi, pv, &ends, t, nv, total, Ghost(*body), Ghost(dv@), Ghost(ed@));
        let ghost k = stmts@.len();
        let ghost phis = stmts@;
        proof {
            assert forall|j: int| 0 <= j < g.preds@[t as int]@.len() implies #[trigger] g.preds@[t as int]@[j] < body.n() by {
                assert(g.preds@[t as int]@[j] < g.preds@.len());
            }
        }
        let (mut rest, term, _) = rename_block(body, dv, ed, &g.preds[t], &ends, t, total);
        let ghost renamed = rest@;
        stmts.append(&mut rest);
        let blk = BasicBlock { statements: stmts, terminator: term };
        proof {
            assert(blk.statements@ == phis + renamed);
            let old = body.blocks@[t as int];
            assert(blk.statements@.len() - old.statements@.len() == k);
            assert forall|j: int| 0 <= j < k implies is_some_phi(#[trigger] blk.statements@[j], *body, *g, phi@, pv@, dv@, ed@, t as int) by {
                assert(blk.statements@[j] == phis[j]);
            }
            assert forall|j1: int, j2: int| 0 <= j1 < k && 0 <= j2 < k && j1 != j2 implies dest_of(#[trigger] blk.statements@[j1]) != dest_of(#[trigger] blk.statements@[j2]) by {
                assert(blk.statements@[j1] == phis[j1]);
                assert(blk.statements@[j2] == phis[j2]);
            }
            assert forall|y: int| 0 <= y < body.num_vars && #[trigger] phi@[t as int]@[y] implies exists|j: int| 0 <= j < k && phi_ok(#[trigger] blk.statements@[j], *body, *g, pv@, dv@, ed@, t as int, y) by {
                let j = choose|j: int| 0 <= j < phis.len() && phi_ok(#[trigger] phis[j], *body, *g, pv@, dv@, ed@, t as int, y);
                assert(blk.statements@[j] == phis[j]);
            }
            assert forall|i: int| 0 <= i < old.statements@.len() implies renamed_stmt(old.statements@[i], #[trigger] blk.statements@[k + i], *body, dv@, ed@, g.preds@[t as int]@, t as int, i) by {
                assert(blk.statements@[k + i] == renamed[i]);
            }
            assert forall|i: int| 0 <= i < blk.statements@.len() implies crate::cfg::stmt_ok(#[trigger] blk.statements@[i], total as nat) by {
                if i < k {
                    assert(blk.statements@[i] == phis[i]);
                } else {
                    assert(blk.statements@[i] == renamed[i - k]);
                }
            }
            assert(ssa_block_ok(old, blk, *body, *g, phi@, pv@, dv@, ed@, t as int));
            assert(term_targets_of(blk) == body.targets(t as int));
        }
        blocks.push(blk);
        t += 1;
    }
    let r = Body { blocks, num_vars: total };
    proof {
        assert forall|t: int| 0 <= t < r.n() implies #[trigger] r.targets(t) == body.targets(t) by {
            assert(term_targets_of(r.blocks@[t]) == body.targets(t));
        }
    }
    r
}

/// The successors that a block's terminator names.
pub open spec fn term_targets_of(b: BasicBlock) -> Seq<usize> {
    crate::cfg::term_targets(b.terminator)
}

/// Whether statement `s` is a phi.
pub fn is_phi_statement(s: &Statement) -> (r: bool)
    ensures
        r == (s matches Statement::Assign(_, Expr::Phi(_))),
{
    match s {
        Statement::Assign(_, Expr::Phi(_)) => true,
        _ => false,
    }
}

/// For each variable, the first block that assigns it.
pub fn map_locals_to_definition_block(body: &Body) -> (r: Vec<Option<usize>>)
    requires
        body.vars_ok(),
    ensures
        r@.len() == body.num_vars,
        forall|x: int| 0 <= x < body.num_vars ==> match #[trigger] r@[x] {
            Some(b) => b < body.n() && block_defines(*body, b as int, x) && forall|c: int| 0 <= c < b ==> !block_defines(*body, c, x),
            None => forall|c: int| 0 <= c < body.n() ==> !block_defines(*body, c, x),
        },
{
    let la = last_assignments(body);
    let nv = body.num_vars;
    let n = body.blocks.len();
    let mut r: Vec<Option<usize>> = Vec::new();
    let mut x: usize = 0;
    while x < nv
        invariant
            n == body.n(),
            nv == body.num_vars,
            is_table(la@, body.n(), body.num_vars as nat),
            forall|b: int, y: int|
                0 <= b < body.n() && 0 <= y < body.num_vars ==> (#[trigger] la@[b]@[y]) == as_place(last_assign(
                    body.blocks@[b].statements@,
                    body.blocks@[b].statements@.len() as int,
                    y,
                )),
            x <= nv,
            r@.len() == x,
            forall|y: int| 0 <= y < x ==> match #[trigger] r@[y] {
                Some(b) => b < body.n() && block_defines(*body, b as int, y) && forall|c: int| 0 <= c < b ==> !block_defines(*body, c, y),
                None => forall|c: int| 0 <= c < body.n() ==> !block_defines(*body, c, y),
            },
        decreases nv - x,
    {
        let mut found: Option<usize> = None;
        let mut b: usize = 0;
        while b < n && found.is_none()
            invariant
                n == body.n(),
                nv == body.num_vars,
                x < nv,
                is_table(la@, body.n(), body.num_vars as nat),
                forall|c: int, y: int|
                    0 <= c < body.n() && 0 <= y < body.num_vars ==> (#[trigger] la@[c]@[y]) == as_place(last_assign(
                        body.blocks@[c].statements@,
                        body.blocks@[c].statements@.len() as int,
                        y,
                    )),
                b <= n,
                found is None ==> forall|c: int| 0 <= c < b ==> !block_defines(*body, c, x as int),
                found matches Some(f) ==> f < n && block_defines(*body, f as int, x as int) && forall|c: int| 0 <= c < f ==> !block_defines(*body, c, x as int),
            decreases n - b,
        {
            if la[b][x].is_some() {
                found = Some(b);
            }
            b += 1;
        }
        r.push(found);
        x += 1;
    }
    r
}

/// Whether operand `o` reads variable `x`.
pub open spec fn operand_reads(o: Operand, x: int) -> bool {
    o == Operand::Var(x as usize)
}

/// Whether statement `s` reads variable `x`.
pub open spec fn stmt_reads(s: Statement, x: int) -> bool {
    match s {
        Statement::Assign(_, e) => match e {
            Expr::Use(a) => operand_reads(a, x),
            Expr::Unary(_, a) => operand_reads(a, x),
            Expr::Binary(_, a, b) => operand_reads(a, x) || operand_reads(b, x),
            Expr::Phi(v) => exists|k: int| 0 <= k < v@.len() && #[trigger] operand_reads(v@[k], x),
            Expr::Sigma(a, _, b) => operand_reads(a, x) || operand_reads(b, x),
        },
        Statement::Nop => false,
    }
}

/// Whether terminator `t` reads variable `x`.
pub open spec fn term_reads(t: Terminator, x: int) -> bool {
    match t {
        Terminator::Branch(c, _) => operand_reads(c, x),
        _ => false,
    }
}

/// In the SSA body `ssa`, variable `x` of `input` is read where no
/// definition reaches: `x` is assigned somewhere in `input`, yet a statement
/// or terminator of `ssa` still reads `x` itself rather than a version.
pub open spec fn unreached_use(ssa: Body, input: Body, x: int) -> bool {
    &&& 0 <= x < input.num_vars
    &&& exists|b: int| 0 <= b < input.n() && #[trigger] block_defines(input, b, x)
    &&& reads_somewhere(ssa, x)
}

/// Some statement or terminator of `body` reads variable `x`.
pub open spec fn reads_somewhere(body: Body, x: int) -> bool {
    (exists|b: int, i: int| 0 <= b < body.n() && 0 <= i < body.blocks@[b].statements@.len()
        && #[trigger] stmt_reads(body.blocks@[b].statements@[i], x))
    || (exists|b: int| 0 <= b < body.n() && #[trigger] term_reads(body.blocks@[b].terminator, x))
}

fn operand_hit(o: &Operand, assigned: &Vec<Option<usize>>) -> (r: Option<usize>)
    ensures
        r matches Some(x) ==> x < assigned@.len() && assigned@[x as int] is Some && operand_reads(*o, x as int),
        r is None ==> forall|x: int| 0 <= x < assigned@.len() && assigned@[x] is Some ==> !operand_reads(*o, x),
{
    match o {
        Operand::Var(x) => {
            if *x < assigned.len() && assigned[*x].is_some() {
                Some(*x)
            } else {
                None
            }
        },
        Operand::Const(_) => None,
    }
}

/// A variable assigned in the input (by `assigned`, the first block that
/// assigns each) that some statement or terminator of `ssa` reads unrenamed.
pub fn find_unreached_use(ssa: &Body, assigned: &Vec<Option<usize>>) -> (r: Option<usize>)
    ensures
        r matches Some(x) ==> x < assigned@.len() && assigned@[x as int] is Some && reads_somewhere(*ssa, x as int),
        r is None ==> forall|x: int| 0 <= x < assigned@.len() && assigned@[x] is Some ==> !reads_somewhere(*ssa, x),
{
    let mut b: usize = 0;
    while b < ssa.blocks.len()
        invariant
            b <= ssa.n(),
            forall|x: int| 0 <= x < assigned@.len() && assigned@[x] is Some ==> (
                (forall|c: int, i: int| 0 <= c < b && 0 <= i < ssa.blocks@[c].statements@.len()
                    ==> !#[trigger] stmt_reads(ssa.blocks@[c].statements@[i], x))
                && (forall|c: int| 0 <= c < b ==> !#[trigger] term_reads(ssa.blocks@[c].terminator, x))),
        decreases ssa.n() - b,
    {
        let st = &ssa.blocks[b].statements;
        let mut i: usize = 0;
        while i < st.len()
            invariant
                b < ssa.n(),
                st@ == ssa.blocks@[b as int].statements@,
                i <= st@.len(),
                forall|x: int| 0 <= x < assigned@.len() && assigned@[x] is Some ==> (
                    (forall|c: int, k: int| 0 <= c < b && 0 <= k < ssa.blocks@[c].statements@.len()
                        ==> !#[trigger] stmt_reads(ssa.blocks@[c].statements@[k], x))
                    && (forall|c: int| 0 <= c < b ==> !#[trigger] term_reads(ssa.blocks@[c].terminator, x))
                    && (forall|k: int| 0 <= k < i ==> !#[trigger] stmt_reads(st@[k], x))),
            decreases st@.len() - i,
        {
            if let Statement::Assign(_, e) = &st[i] {
                let hit = match e {
                    Expr::Use(a) => operand_hit(a, assigned),
                    Expr::Unary(_, a) => operand_hit(a, assigned),
                    Expr::Binary(_, a, c) => match operand_hit(a, assigned) {
                        Some(x) => Some(x),
                        None => operand_hit(c, assigned),
                    },
                    Expr::Sigma(a, _, c) => match operand_hit(a, assigned) {
                        Some(x) => Some(x),
                        None => operand_hit(c, assigned),
                    },
                    Expr::Phi(v) => {
                        let mut found: Option<usize> = None;
                        let mut k: usize = 0;
                        while k < v.len() && found.is_none()
                            invariant
                                k <= v@.len(),
                                found matches Some(x) ==> x < assigned@.len() && assigned@[x as int] is Some
                                    && exists|j: int| 0 <= j < v@.len() && #[trigger] operand_reads(v@[j], x as int),
                                found is None ==> forall|x: int| 0 <= x < assigned@.len() && assigned@[x] is Some
                                    ==> forall|j: int| 0 <= j < k ==> !#[trigger] operand_reads(v@[j], x),
                            decreases v@.len() - k,
                        {
                            found = operand_hit(&v[k], assigned);
                            k += 1;
                        }
                        found
                    },
                };
                if let Some(x) = hit {
                    proof {
                        assert(stmt_reads(ssa.blocks@[b as int].statements@[i as int], x as int));
                    }
                    return Some(x);
                }
            }
            i += 1;
        }
        if let Terminator::Branch(c, _) = &ssa.blocks[b].terminator {
            if let Some(x) = operand_hit(c, assigned) {
                proof {
                    assert(term_reads(ssa.blocks@[b as int].terminator, x as int));
                }
                return Some(x);
            }
        }
        b += 1;
    }
    None
}

} // verus!
