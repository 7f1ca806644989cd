//! Strongly connected components of the constraint graph, in an order where
//! each component comes after the components it depends on.
use vstd::prelude::*;
use crate::graph::{ConstraintGraph, reads, bound_of};

verus! {

/// An edge of the dependency graph: `u` is read by, or bounds, an operation
/// that defines `v`.
pub open spec fn depends(g: ConstraintGraph, u: int, v: int) -> bool {
    exists|k: int|
        0 <= k < g.oprs@.len() && #[trigger] g.oprs@[k].sink == v && (reads(g.oprs@[k].kind, u) || bound_of(g.oprs@[k].kind) == Some(u as usize))
}

/// The successor lists of the dependency graph.
pub open spec fn dep_lists_ok(g: ConstraintGraph, succ: Seq<Vec<usize>>) -> bool {
    &&& succ.len() == g.vars@.len()
    &&& forall|u: int, j: int| 0 <= u < succ.len() && 0 <= j < succ[u]@.len() ==> #[trigger] succ[u]@[j] < succ.len()
    &&& forall|u: int, v: int| 0 <= u < succ.len() && 0 <= v < succ.len() ==> (#[trigger] succ[u]@.contains(v as usize) <==> depends(g, u, v))
}

/// A walk through the dependency graph.
pub open spec fn is_walk(succ: Seq<Vec<usize>>, p: Seq<usize>) -> bool {
    &&& p.len() > 0
    &&& forall|i: int| 0 <= i < p.len() ==> #[trigger] p[i] < succ.len()
    &&& forall|i: int| 0 <= i < p.len() - 1 ==> succ[p[i] as int]@.contains(#[trigger] p[i + 1])
}

/// `v` can be reached from `u` by a walk.
pub open spec fn reaches(succ: Seq<Vec<usize>>, u: int, v: int) -> bool {
    exists|p: Seq<usize>| #[trigger] is_walk(succ, p) && p[0] == u && p.last() == v
}

/// Marks the nodes reachable from `s`.
pub fn reach_from(succ: &Vec<Vec<usize>>, s: usize) -> (r: Vec<bool>)
    requires
        s < succ@.len(),
        forall|u: int, j: int| 0 <= u < succ@.len() && 0 <= j < succ@[u]@.len() ==> #[trigger] succ@[u]@[j] < succ@.len(),
    ensures
        r@.len() == succ@.len(),
        forall|v: int| 0 <= v < succ@.len() ==> (#[trigger] r@[v] <==> reaches(succ@, s as int, v)),
{
    let n = succ.len();
    let mut seen: Vec<bool> = Vec::new();
    let mut i: usize = 0;
    while i < n
        invariant
            i <= n,
            seen@.len() == i,
            forall|j: int| 0 <= j < i ==> !#[trigger] seen@[j],
        decreases n - i,
    {
        seen.push(false);
        i += 1;
    }
    seen.set(s, true);
    let mut stack: Vec<usize> = Vec::new();
    stack.push(s);
    proof {
        let p = seq![s];
        assert(is_walk(succ@, p));
        assert(stack@[0] == s);
        assert forall|v: int, j: int|
            0 <= v < n && seen@[v] && !stack@.contains(v as usize) && 0 <= j < succ@[v]@.len()
                implies seen@[#[trigger] succ@[v]@[j] as int] by {
            assert(v == s as int);
        }
    }
    let ghost unseen = Set::new(|v: int| 0 <= v < n && !seen@[v]);
    proof {
        vstd::set_lib::lemma_int_range(0, n as int);
        assert(unseen.subset_of(vstd::set_lib::set_int_range(0, n as int)));
        vstd::set_lib::lemma_len_subset(unseen, vstd::set_lib::set_int_range(0, n as int));
    }
    while stack.len() > 0
        invariant
            n == succ@.len(),
            s < n,
            forall|u: int, j: int| 0 <= u < n && 0 <= j < succ@[u]@.len() ==> #[trigger] succ@[u]@[j] < n,
            seen@.len() == n,
            seen@[s as int],
            unseen.finite(),
            forall|v: int| 0 <= v < n ==> (unseen.contains(v) <==> !#[trigger] seen@[v]),
            forall|v: int| unseen.contains(v) ==> 0 <= v < n,
            forall|j: int| 0 <= j < stack@.len() ==> #[trigger] stack@[j] < n,
            forall|j: int| 0 <= j < stack@.len() ==> seen@[#[trigger] stack@[j] as int],
            forall|v: int| 0 <= v < n && #[trigger] seen@[v] ==> reaches(succ@, s as int, v),
            forall|v: int, j: int|
                0 <= v < n && seen@[v] && !stack@.contains(v as usize) && 0 <= j < succ@[v]@.len()
                    ==> seen@[#[trigger] succ@[v]@[j] as int],
        decreases 2 * unseen.len() + stack@.len(),
    {
        let ghost stack_before = stack@;
        let u = stack.pop().unwrap();
        let ghost stack_after_pop = stack@;
        let ghost unseen_at_pop = unseen;
        proof {
            assert(stack_before == stack_after_pop.push(u));
            assert(seen@[stack_before[stack_before.len() - 1] as int]);
            assert forall|v: int, j: int|
                0 <= v < n && seen@[v] && !stack@.contains(v as usize) && v != u && 0 <= j < succ@[v]@.len()
                    implies seen@[#[trigger] succ@[v]@[j] as int] by {
                if stack_before.contains(v as usize) {
                    let i = choose|i: int| 0 <= i < stack_before.len() && stack_before[i] == v as usize;
                    if i < stack_after_pop.len() {
                        assert(stack_after_pop[i] == v as usize);
                    }
                }
            }
        }
        let row = &succ[u];
        let mut j: usize = 0;
        while j < row.len()
            invariant
                n == succ@.len(),
                s < n,
                forall|x: int, k: int| 0 <= x < n && 0 <= k < succ@[x]@.len() ==> #[trigger] succ@[x]@[k] < n,
                u < n,
                row@ == succ@[u as int]@,
                j <= row@.len(),
                seen@.len() == n,
                seen@[s as int],
                seen@[u as int],
                unseen.finite(),
                forall|v: int| 0 <= v < n ==> (unseen.contains(v) <==> !#[trigger] seen@[v]),
                forall|v: int| unseen.contains(v) ==> 0 <= v < n,
                forall|k: int| 0 <= k < stack@.len() ==> #[trigger] stack@[k] < n,
                forall|k: int| 0 <= k < stack@.len() ==> seen@[#[trigger] stack@[k] as int],
                forall|v: int| 0 <= v < n && #[trigger] seen@[v] ==> reaches(succ@, s as int, v),
                stack@.len() >= stack_after_pop.len(),
                stack@.subrange(0, stack_after_pop.len() as int) == stack_after_pop,
                2 * unseen.len() + stack@.len() <= 2 * unseen_at_pop.len() + stack_after_pop.len(),
                forall|v: int, k: int|
                    0 <= v < n && seen@[v] && !stack@.contains(v as usize) && v != u && 0 <= k < succ@[v]@.len()
                        ==> seen@[#[trigger] succ@[v]@[k] as int],
                forall|k: int| 0 <= k < j ==> seen@[#[trigger] row@[k] as int],
            decreases row@.len() - j,
        {
            let w = row[j];
            if !seen[w] {
                proof {
                    assert(reaches(succ@, s as int, u as int));
                    let p = choose|p: Seq<usize>| #[trigger] is_walk(succ@, p) && p[0] == s && p.last() == u;
                    let q = p.push(w);
                    assert(succ@[u as int]@[j as int] == w);
                    assert(succ@[u as int]@.contains(w));
                    assert forall|i: int| 0 <= i < q.len() - 1 implies succ@[q[i] as int]@.contains(#[trigger] q[i + 1]) by {
                        if i < p.len() - 1 {
                            assert(q[i + 1] == p[i + 1]);
                            assert(succ@[p[i] as int]@.contains(p[i + 1]));
                        }
                    }
                    assert(is_walk(succ@, q));
                    unseen = unseen.remove(w as int);
                }
                let ghost seen_old = seen@;
                let ghost stack_old = stack@;
                seen.set(w, true);
                stack.push(w);
                proof {
                    assert forall|v: int, k: int|
                        0 <= v < n && seen@[v] && !stack@.contains(v as usize) && v != u && 0 <= k < succ@[v]@.len()
                            implies seen@[#[trigger] succ@[v]@[k] as int] by {
                        if stack_old.contains(v as usize) {
                            let i = choose|i: int| 0 <= i < stack_old.len() && stack_old[i] == v as usize;
                            assert(stack@[i] == v as usize);
                        }
                        if v == w as int {
                            assert(stack@[stack@.len() - 1] == w);
                        }
                        assert(seen_old[v]);
                    }
                }
            }
            j += 1;
        }
    }
    proof {
        assert forall|v: int| 0 <= v < n && reaches(succ@, s as int, v) implies #[trigger] seen@[v] by {
            let p = choose|p: Seq<usize>| #[trigger] is_walk(succ@, p) && p[0] == s && p.last() == v;
            lemma_closed_walk(succ@, seen@, p, p.len() - 1);
        }
    }
    seen
}

/// On a marking closed under edges, every node of a walk from a marked node
/// is marked.
proof fn lemma_closed_walk(succ: Seq<Vec<usize>>, seen: Seq<bool>, p: Seq<usize>, i: int)
    requires
        seen.len() == succ.len(),
        forall|v: int, j: int|
            0 <= v < succ.len() && seen[v] && 0 <= j < succ[v]@.len() ==> seen[#[trigger] succ[v]@[j] as int],
        is_walk(succ, p),
        seen[p[0] as int],
        0 <= i < p.len(),
    ensures
        seen[p[i] as int],
    decreases i,
{
    if i > 0 {
        lemma_closed_walk(succ, seen, p, i - 1);
        let k = i - 1;
        assert(succ[p[k] as int]@.contains(p[k + 1]));
        let j = choose|j: int| 0 <= j < succ[p[k] as int]@.len() && succ[p[k] as int]@[j] == p[k + 1];
    }
}

/// Reachability is transitive.
pub proof fn lemma_reaches_transitive(succ: Seq<Vec<usize>>, a: int, b: int, c: int)
    requires
        reaches(succ, a, b),
        reaches(succ, b, c),
    ensures
        reaches(succ, a, c),
{
    let p = choose|p: Seq<usize>| #[trigger] is_walk(succ, p) && p[0] == a && p.last() == b;
    let q = choose|p: Seq<usize>| #[trigger] is_walk(succ, p) && p[0] == b && p.last() == c;
    let r = p + q.subrange(1, q.len() as int);
    assert forall|i: int| 0 <= i < r.len() implies #[trigger] r[i] < succ.len() by {
        if i >= p.len() {
            assert(r[i] == q[i - p.len() + 1]);
        }
    }
    assert forall|i: int| 0 <= i < r.len() - 1 implies succ[r[i] as int]@.contains(#[trigger] r[i + 1]) by {
        if i < p.len() - 1 {
            assert(succ[p[i] as int]@.contains(p[i + 1]));
        } else if i == p.len() - 1 {
            assert(r[i + 1] == q[1]);
            let z: int = 0;
            assert(succ[q[z] as int]@.contains(q[z + 1]));
        } else {
            let j = i - p.len() + 1;
            assert(r[i] == q[j]);
            assert(r[i + 1] == q[j + 1]);
            assert(succ[q[j] as int]@.contains(q[j + 1]));
        }
    }
    assert(is_walk(succ, r));
    if q.len() == 1 {
        assert(r =~= p);
    }
    assert(r[0] == a);
    assert(r.last() == c);
}

/// The components of the constraint graph, each a list of variables, in an
/// order where no component depends on a later one.
pub struct Nuutila {
    /// The dependency graph: `deps[u]` lists the variables defined by an
    /// operation that reads or is bounded by `u`.
    pub deps: Vec<Vec<usize>>,
    pub components: Vec<Vec<usize>>,
    /// `comp_of[v]`: the place in `components` of the component of `v`.
    pub comp_of: Vec<usize>,
}

impl Nuutila {
    /// The components form a partition of the variables, listed by `comp_of`;
    /// two variables share a component exactly when each reaches the other,
    /// and a dependency never leads to an earlier component.
    pub open spec fn wf(self, g: ConstraintGraph) -> bool {
        let n = g.vars@.len();
        &&& self.comp_of@.len() == n
        &&& forall|v: int| 0 <= v < n ==> #[trigger] self.comp_of@[v] < self.components@.len()
        &&& forall|c: int, j: int| 0 <= c < self.components@.len() && 0 <= j < self.components@[c]@.len()
            ==> #[trigger] self.components@[c]@[j] < n && self.comp_of@[self.components@[c]@[j] as int] == c
        &&& forall|v: int| 0 <= v < n ==> (#[trigger] self.components@[self.comp_of@[v] as int])@.contains(v as usize)
        &&& forall|c: int| 0 <= c < self.components@.len() ==> (#[trigger] self.components@[c])@.no_duplicates()
            && self.components@[c]@.len() > 0
        &&& forall|u: int, v: int| 0 <= u < n && 0 <= v < n && #[trigger] depends(g, u, v) ==> self.comp_of@[u] <= #[trigger] self.comp_of@[v]
        &&& dep_lists_ok(g, self.deps@)
        &&& forall|u: int, v: int| 0 <= u < n && 0 <= v < n ==> (#[trigger] self.comp_of@[u] == #[trigger] self.comp_of@[v]
            <==> reaches(self.deps@, u, v) && reaches(self.deps@, v, u))
    }

    /// Partitions the variables of `g` into components of mutually reachable
    /// variables, each placed after every component it depends on.
    pub fn new(g: &ConstraintGraph) -> (r: Nuutila)
        requires
            g.wf(),
        ensures
            r.wf(*g),
    {
        let succ = dependency_lists(g);
        let n = succ.len();
        let mut reach: Vec<Vec<bool>> = Vec::new();
        let mut u: usize = 0;
        while u < n
            invariant
                dep_lists_ok(*g, succ@),
                n == succ@.len(),
                u <= n,
                reach@.len() == u,
                forall|x: int| 0 <= x < u ==> (#[trigger] reach@[x])@.len() == n,
                forall|x: int, v: int| 0 <= x < u && 0 <= v < n ==> (#[trigger] reach@[x]@[v] <==> reaches(succ@, x, v)),
            decreases n - u,
        {
            reach.push(reach_from(&succ, u));
            u += 1;
        }
        order_components(g, succ, &reach)
    }
}

/// The successor lists of the dependency graph of `g`.
fn dependency_lists(g: &ConstraintGraph) -> (succ: Vec<Vec<usize>>)
    requires
        g.wf(),
    ensures
        dep_lists_ok(*g, succ@),
{
    let n = g.vars.len();
    let mut succ: Vec<Vec<usize>> = Vec::new();
    let mut u: usize = 0;
    while u < n
        invariant
            g.wf(),
            n == g.vars@.len(),
            u <= n,
            succ@.len() == u,
            forall|x: int, j: int| 0 <= x < u && 0 <= j < succ@[x]@.len() ==> #[trigger] succ@[x]@[j] < n,
            forall|x: int, v: int| 0 <= x < u && 0 <= v < n ==> (#[trigger] succ@[x]@.contains(v as usize) <==> depends(*g, x, v)),
        decreases n - u,
    {
        let mut row: Vec<usize> = Vec::new();
        let mut k: usize = 0;
        while k < g.oprs.len()
            invariant
                g.wf(),
                n == g.vars@.len(),
                u < n,
                k <= g.oprs@.len(),
                forall|j: int| 0 <= j < row@.len() ==> #[trigger] row@[j] < n,
                forall|v: int| 0 <= v < n ==> (#[trigger] row@.contains(v as usize) <==> exists|kk: int|
                    0 <= kk < k && #[trigger] g.oprs@[kk].sink == v && (reads(g.oprs@[kk].kind, u as int) || bound_of(g.oprs@[kk].kind) == Some(u))),
            decreases g.oprs@.len() - k,
        {
            let uses = crate::dominance::contains_usize(&g.usemap[u], k);
            let bounds = crate::dominance::contains_usize(&g.symbmap[u], k);
            proof {
                assert(g.usemap@[u as int]@.contains(k as usize) <==> reads(g.oprs@[k as int].kind, u as int));
                assert(g.symbmap@[u as int]@.contains(k as usize) <==> bound_of(g.oprs@[k as int].kind) == Some(u));
                assert(g.oprs@[k as int].sink < n);
            }
            let ghost row0 = row@;
            if uses || bounds {
                row.push(g.oprs[k].sink);
            }
            k += 1;
            proof {
                assert forall|v: int| 0 <= v < n implies (#[trigger] row@.contains(v as usize) <==> exists|kk: int|
                    0 <= kk < k && #[trigger] g.oprs@[kk].sink == v && (reads(g.oprs@[kk].kind, u as int) || bound_of(g.oprs@[kk].kind) == Some(u))) by {
                    let kl = k - 1;
                    if row@.contains(v as usize) {
                        let j = choose|j: int| 0 <= j < row@.len() && row@[j] == v as usize;
                        if j < row0.len() {
                            assert(row0[j] == v as usize);
                            assert(row0.contains(v as usize));
                        } else {
                            assert(g.oprs@[kl].sink == v);
                        }
                    }
                    if exists|kk: int| 0 <= kk < k && #[trigger] g.oprs@[kk].sink == v && (reads(g.oprs@[kk].kind, u as int) || bound_of(g.oprs@[kk].kind) == Some(u)) {
                        let kk = choose|kk: int| 0 <= kk < k && #[trigger] g.oprs@[kk].sink == v && (reads(g.oprs@[kk].kind, u as int) || bound_of(g.oprs@[kk].kind) == Some(u));
                        if kk < kl {
                            assert(row0.contains(v as usize));
                            let j = choose|j: int| 0 <= j < row0.len() && row0[j] == v as usize;
                            assert(row@[j] == v as usize);
                        } else {
                            assert(row@[row@.len() - 1] == v as usize);
                        }
                    }
                }
            }
        }
        succ.push(row);
        u += 1;
    }
    succ
}

/// Whether no unassigned variable reaches `u` without `u` reaching it back.
fn check_source(reach: &Vec<Vec<bool>>, assigned: &Vec<bool>, u: usize) -> (r: bool)
    requires
        u < reach@.len(),
        assigned@.len() == reach@.len(),
        forall|x: int| 0 <= x < reach@.len() ==> (#[trigger] reach@[x])@.len() == reach@.len(),
    ensures
        r == is_source(reach@, assigned@, u as int),
{
    let n = reach.len();
    let mut w: usize = 0;
    while w < n
        invariant
            n == reach@.len(),
            u < n,
            assigned@.len() == n,
            forall|x: int| 0 <= x < n ==> (#[trigger] reach@[x])@.len() == n,
            w <= n,
            forall|x: int| 0 <= x < w && !assigned@[x] && #[trigger] reach@[x]@[u as int] ==> reach@[u as int]@[x],
        decreases n - w,
    {
        if !assigned[w] && reach[w][u] && !reach[u][w] {
            return false;
        }
        w += 1;
    }
    true
}

/// Groups mutually reachable variables and orders the groups: the next group
/// is one that no remaining variable outside it reaches.
fn order_components(g: &ConstraintGraph, succ: Vec<Vec<usize>>, reach: &Vec<Vec<bool>>) -> (r: Nuutila)
    requires
        g.wf(),
        dep_lists_ok(*g, succ@),
        reach@.len() == succ@.len(),
        forall|x: int| 0 <= x < succ@.len() ==> (#[trigger] reach@[x])@.len() == succ@.len(),
        forall|x: int, v: int| 0 <= x < succ@.len() && 0 <= v < succ@.len() ==> (#[trigger] reach@[x]@[v] <==> reaches(succ@, x, v)),
    ensures
        r.wf(*g),
{
    let n = succ.len();
    let mut assigned: Vec<bool> = Vec::new();
    let mut comp_of: Vec<usize> = Vec::new();
    let mut i: usize = 0;
    while i < n
        invariant
            i <= n,
            assigned@.len() == i,
            comp_of@.len() == i,
            forall|j: int| 0 <= j < i ==> !#[trigger] assigned@[j],
        decreases n - i,
    {
        assigned.push(false);
        comp_of.push(0);
        i += 1;
    }
    let mut components: Vec<Vec<usize>> = Vec::new();
    let ghost mut un = Set::new(|v: int| 0 <= v < n && !assigned@[v]);
    proof {
        vstd::set_lib::lemma_int_range(0, n as int);
        assert(un.subset_of(vstd::set_lib::set_int_range(0, n as int)));
        vstd::set_lib::lemma_len_subset(un, vstd::set_lib::set_int_range(0, n as int));
    }
    let mut done = false;
    while !done
        invariant
            g.wf(),
            dep_lists_ok(*g, succ@),
            n == succ@.len(),
            n == g.vars@.len(),
            reach@.len() == n,
            forall|x: int| 0 <= x < n ==> (#[trigger] reach@[x])@.len() == n,
            forall|x: int, v: int| 0 <= x < n && 0 <= v < n ==> (#[trigger] reach@[x]@[v] <==> reaches(succ@, x, v)),
            assigned@.len() == n,
            comp_of@.len() == n,
            un.finite(),
            forall|v: int| 0 <= v < n ==> (un.contains(v) <==> !#[trigger] assigned@[v]),
            forall|v: int| un.contains(v) ==> 0 <= v < n,
            done ==> forall|v: int| 0 <= v < n ==> #[trigger] assigned@[v],
            forall|v: int| 0 <= v < n && #[trigger] assigned@[v] ==> comp_of@[v] < components@.len(),
            forall|c: int, j: int| 0 <= c < components@.len() && 0 <= j < components@[c]@.len()
                ==> #[trigger] components@[c]@[j] < n && assigned@[components@[c]@[j] as int] && comp_of@[components@[c]@[j] as int] == c,
            forall|v: int| 0 <= v < n && #[trigger] assigned@[v] ==> components@[comp_of@[v] as int]@.contains(v as usize),
            forall|c: int| 0 <= c < components@.len() ==> (#[trigger] components@[c])@.no_duplicates()
                && components@[c]@.len() > 0,
            forall|u: int, v: int| 0 <= u < n && 0 <= v < n && assigned@[u] && assigned@[v] && #[trigger] depends(*g, u, v)
                ==> comp_of@[u] <= #[trigger] comp_of@[v],
            forall|u: int, v: int| 0 <= u < n && 0 <= v < n && !assigned@[u] && assigned@[v] ==> !#[trigger] depends(*g, u, v),
            forall|u: int, v: int| 0 <= u < n && 0 <= v < n && assigned@[u] && assigned@[v] ==> (#[trigger] comp_of@[u] == #[trigger] comp_of@[v]
                <==> reach@[u]@[v] && reach@[v]@[u]),
        decreases 2 * un.len() + (if done { 0int } else { 1int }),
    {
        // Look for a remaining variable that no other remaining one reaches
        // without being reached back.
        let mut pick: Option<usize> = None;
        let mut any = false;
        let mut u: usize = 0;
        while u < n
            invariant
                n == reach@.len(),
                assigned@.len() == n,
                forall|x: int| 0 <= x < n ==> (#[trigger] reach@[x])@.len() == n,
                u <= n,
                any == exists|x: int| 0 <= x < u && !#[trigger] assigned@[x],
                pick matches Some(p) ==> p < n && !assigned@[p as int] && forall|w: int|
                    0 <= w < n && !assigned@[w] && #[trigger] reach@[w]@[p as int] ==> reach@[p as int]@[w],
                pick is None ==> forall|x: int| 0 <= x < u && !assigned@[x] ==> !#[trigger] is_source(reach@, assigned@, x),
            decreases n - u,
        {
            if !assigned[u] {
                any = true;
                if pick.is_none() && check_source(reach, &assigned, u) {
                    pick = Some(u);
                }
            }
            u += 1;
        }
        proof {
            if any && pick is None {
                let x = choose|x: int| 0 <= x < n && !#[trigger] assigned@[x];
                lemma_no_entry_walk(succ@, assigned@, *g);
                let src = lemma_source_exists(succ@, reach@, assigned@, x);
                assert(is_source(reach@, assigned@, src));
            }
        }
        if !any {
            done = true;
        } else {
            let c = components.len();
            let mut members: Vec<usize> = Vec::new();
            let ghost assigned0 = assigned@;
            let ghost comp_of0 = comp_of@;
            let ghost un0 = un;
            let ghost comps0 = components@;
            proof {
                assert(un =~= Set::new(|v: int| 0 <= v < n && !assigned0[v]));
            }
            let mut w: usize = 0;
            while w < n
                invariant
                    g.wf(),
                    dep_lists_ok(*g, succ@),
                    n == succ@.len(),
                    n == g.vars@.len(),
                    reach@.len() == n,
                    forall|x: int| 0 <= x < n ==> (#[trigger] reach@[x])@.len() == n,
                    forall|x: int, v: int| 0 <= x < n && 0 <= v < n ==> (#[trigger] reach@[x]@[v] <==> reaches(succ@, x, v)),
                    c == components@.len(),
                    assigned0.len() == n,
                    comp_of0.len() == n,
                    assigned@.len() == n,
                    comp_of@.len() == n,
                    w <= n,
                    pick matches Some(p) ==> p < n && !assigned0[p as int] && forall|x: int|
                        0 <= x < n && !assigned0[x] && #[trigger] reach@[x]@[p as int] ==> reach@[p as int]@[x],
                    un.finite(),
                    forall|v: int| 0 <= v < n ==> (un.contains(v) <==> !#[trigger] assigned@[v]),
                    forall|v: int| un.contains(v) ==> 0 <= v < n,
                    un.len() + members@.len() == (Set::new(|v: int| 0 <= v < n && !assigned0[v])).len(),
                    forall|v: int| 0 <= v < n ==> (#[trigger] assigned@[v] <==> assigned0[v] || members@.contains(v as usize)),
                    forall|v: int| 0 <= v < n && assigned0[v] ==> #[trigger] comp_of@[v] == comp_of0[v],
                    forall|j: int| 0 <= j < members@.len() ==> #[trigger] members@[j] < w && !assigned0[members@[j] as int]
                        && comp_of@[members@[j] as int] == c,
                    members@.no_duplicates(),
                    forall|v: int| 0 <= v < w && !assigned0[v] ==> (members@.contains(v as usize) <==> in_group(reach@, pick, v)),
                decreases n - w,
            {
                let take = if !assigned[w] {
                    match pick {
                        Some(p) => reach[p][w] && reach[w][p],
                        None => true,
                    }
                } else {
                    false
                };
                if take {
                    proof {
                        un = un.remove(w as int);
                    }
                    let ghost members0 = members@;
                    assigned.set(w, true);
                    comp_of.set(w, c);
                    members.push(w);
                    proof {
                        assert forall|j: int| 0 <= j < members@.len() implies #[trigger] members@[j] < w + 1 && !assigned0[members@[j] as int]
                            && comp_of@[members@[j] as int] == c by {
                            if j < members0.len() {
                                assert(members@[j] == members0[j]);
                            }
                        }
                        assert forall|v: int| 0 <= v < n implies (#[trigger] assigned@[v] <==> assigned0[v] || members@.contains(v as usize)) by {
                            if members0.contains(v as usize) {
                                let j = choose|j: int| 0 <= j < members0.len() && members0[j] == v as usize;
                                assert(members@[j] == v as usize);
                            }
                            if members@.contains(v as usize) && v != w as int {
                                let j = choose|j: int| 0 <= j < members@.len() && members@[j] == v as usize;
                                assert(j < members0.len());
                                assert(members0[j] == v as usize);
                            }
                            if v == w as int {
                                assert(members@[members@.len() - 1] == w);
                            }
                        }
                        assert forall|v: int| 0 <= v < w + 1 && !assigned0[v] implies (members@.contains(v as usize) <==> in_group(reach@, pick, v)) by {
                            if v < w {
                                if members0.contains(v as usize) {
                                    let j = choose|j: int| 0 <= j < members0.len() && members0[j] == v as usize;
                                    assert(members@[j] == v as usize);
                                }
                                if members@.contains(v as usize) {
                                    let j = choose|j: int| 0 <= j < members@.len() && members@[j] == v as usize;
                                    if j == members0.len() {
                                        assert(members@[j] == w);
                                    } else {
                                        assert(members0[j] == v as usize);
                                    }
                                }
                            } else {
                                assert(members@[members@.len() - 1] == w);
                            }
                        }
                    }
                } else {
                    proof {
                        assert forall|v: int| 0 <= v < w + 1 && !assigned0[v] implies (members@.contains(v as usize) <==> in_group(reach@, pick, v)) by {
                            if v == w as int && members@.contains(v as usize) {
                                let j = choose|j: int| 0 <= j < members@.len() && members@[j] == v as usize;
                            }
                        }
                    }
                }
                w += 1;
            }
            let ghost mem = members@;
            components.push(members);
            proof {
                // The new component is not empty.
                let x = choose|x: int| 0 <= x < n && !#[trigger] assigned0[x];
                match pick {
                    Some(p) => {
                        assert(is_walk(succ@, seq![p]));
                        assert(reaches(succ@, p as int, p as int));
                        assert(in_group(reach@, pick, p as int));
                        assert(mem.contains(p));
                    },
                    None => {
                        assert(in_group(reach@, pick, x));
                        assert(mem.contains(x as usize));
                    },
                }
                assert(mem.len() > 0);
                assert(components@[c as int]@ == mem);
                assert forall|k: int| 0 <= k < c implies #[trigger] components@[k] == comps0[k] by {}
                assert forall|v: int| 0 <= v < n && #[trigger] assigned@[v] implies components@[comp_of@[v] as int]@.contains(v as usize) by {
                    if !assigned0[v] {
                        assert(mem.contains(v as usize));
                        let j = choose|j: int| 0 <= j < mem.len() && mem[j] == v as usize;
                        assert(comp_of@[mem[j] as int] == c);
                    }
                }
                assert forall|cc: int, j: int| 0 <= cc < components@.len() && 0 <= j < components@[cc]@.len()
                    implies #[trigger] components@[cc]@[j] < n && assigned@[components@[cc]@[j] as int] && comp_of@[components@[cc]@[j] as int] == cc by {
                    if cc < c {
                        assert(components@[cc] == comps0[cc]);
                        let v = comps0[cc]@[j] as int;
                        assert(assigned0[v]);
                    } else {
                        assert(mem.contains(mem[j]));
                    }
                }
                assert forall|a: int, b: int| 0 <= a < n && 0 <= b < n && assigned@[a] && assigned@[b] && #[trigger] depends(*g, a, b)
                    implies comp_of@[a] <= #[trigger] comp_of@[b] by {
                    if assigned0[a] && !assigned0[b] {
                        assert(mem.contains(b as usize));
                        let j = choose|j: int| 0 <= j < mem.len() && mem[j] == b as usize;
                        assert(comp_of@[b] == c);
                    }
                    if !assigned0[a] {
                        assert(mem.contains(a as usize));
                        let j = choose|j: int| 0 <= j < mem.len() && mem[j] == a as usize;
                        assert(comp_of@[a] == c);
                        if !assigned0[b] {
                            assert(mem.contains(b as usize));
                            let j2 = choose|j: int| 0 <= j < mem.len() && mem[j] == b as usize;
                            assert(comp_of@[b] == c);
                        }
                    }
                }
                let pk = pick->0 as int;
                assert(pick is Some);
                assert forall|a: int, b: int| 0 <= a < n && 0 <= b < n && assigned@[a] && assigned@[b] implies (#[trigger] comp_of@[a] == #[trigger] comp_of@[b]
                    <==> reach@[a]@[b] && reach@[b]@[a]) by {
                    if !assigned0[a] {
                        assert(mem.contains(a as usize));
                        let j = choose|j: int| 0 <= j < mem.len() && mem[j] == a as usize;
                        assert(comp_of@[a] == c);
                        assert(in_group(reach@, pick, a));
                    }
                    if !assigned0[b] {
                        assert(mem.contains(b as usize));
                        let j = choose|j: int| 0 <= j < mem.len() && mem[j] == b as usize;
                        assert(comp_of@[b] == c);
                        assert(in_group(reach@, pick, b));
                    }
                    if !assigned0[a] && !assigned0[b] {
                        lemma_reaches_transitive(succ@, a, pk, b);
                        lemma_reaches_transitive(succ@, b, pk, a);
                    }
                    if !assigned0[a] && assigned0[b] {
                        lemma_no_entry_walk(succ@, assigned0, *g);
                        assert(!reach@[a]@[b]);
                    }
                    if assigned0[a] && !assigned0[b] {
                        lemma_no_entry_walk(succ@, assigned0, *g);
                        assert(!reach@[b]@[a]);
                    }
                }
                assert forall|a: int, b: int| 0 <= a < n && 0 <= b < n && !assigned@[a] && assigned@[b]
                    implies !#[trigger] depends(*g, a, b) by {
                    if depends(*g, a, b) && !assigned0[b] {
                        assert(mem.contains(b as usize));
                        assert(in_group(reach@, pick, b));
                        assert(!mem.contains(a as usize));
                        assert(!in_group(reach@, pick, a));
                        let p = pick->0;
                        assert(succ@[a]@.contains(b as usize));
                        let wk = seq![a as usize, b as usize];
                        assert(is_walk(succ@, wk));
                        assert(reaches(succ@, a, b));
                        lemma_reaches_transitive(succ@, a, b, p as int);
                        assert(reach@[a]@[p as int]);
                    }
                }
            }
        }
    }
    let r = Nuutila { deps: succ, components, comp_of };
    proof {
        assert forall|v: int| 0 <= v < n implies #[trigger] r.comp_of@[v] < r.components@.len() by {
            assert(assigned@[v]);
        }
        assert forall|v: int| 0 <= v < n implies (#[trigger] r.components@[r.comp_of@[v] as int])@.contains(v as usize) by {
            assert(assigned@[v]);
        }
        assert forall|a: int, b: int| 0 <= a < n && 0 <= b < n && #[trigger] depends(*g, a, b)
            implies r.comp_of@[a] <= #[trigger] r.comp_of@[b] by {
            assert(assigned@[a]);
            assert(assigned@[b]);
        }
    }
    r
}

/// `v` joins the component formed around `pick`: it and `pick` reach each
/// other; with no pick, every remaining variable joins.
pub open spec fn in_group(reach: Seq<Vec<bool>>, pick: Option<usize>, v: int) -> bool {
    match pick {
        Some(p) => reach[p as int]@[v] && reach[v]@[p as int],
        None => true,
    }
}

/// No remaining variable reaches `u` without `u` reaching it back.
pub open spec fn is_source(reach: Seq<Vec<bool>>, assigned: Seq<bool>, u: int) -> bool {
    forall|w: int| 0 <= w < reach.len() && !assigned[w] && #[trigger] reach[w]@[u] ==> reach[u]@[w]
}

/// The remaining variables that reach `u`.
pub open spec fn ancestors(reach: Seq<Vec<bool>>, assigned: Seq<bool>, u: int) -> Set<int> {
    Set::new(|w: int| 0 <= w < reach.len() && !assigned[w] && reach[w]@[u])
}

/// Among the remaining variables there is one that no other remaining
/// variable reaches without being reached back: follow strictly earlier
/// variables, whose remaining ancestors are ever fewer.
proof fn lemma_source_exists(succ: Seq<Vec<usize>>, reach: Seq<Vec<bool>>, assigned: Seq<bool>, x: int) -> (u: int)
    requires
        reach.len() == succ.len(),
        assigned.len() == succ.len(),
        forall|a: int| 0 <= a < succ.len() ==> (#[trigger] reach[a])@.len() == succ.len(),
        forall|a: int, b: int| 0 <= a < succ.len() && 0 <= b < succ.len() ==> (#[trigger] reach[a]@[b] <==> reaches(succ, a, b)),
        forall|a: int, j: int| 0 <= a < succ.len() && 0 <= j < succ[a]@.len() ==> #[trigger] succ[a]@[j] < succ.len(),
        0 <= x < succ.len(),
        !assigned[x],
    ensures
        0 <= u < succ.len(),
        !assigned[u],
        is_source(reach, assigned, u),
    decreases ancestors(reach, assigned, x).len(),
{
    let n = succ.len() as int;
    let ax = ancestors(reach, assigned, x);
    vstd::set_lib::lemma_int_range(0, n);
    assert(ax.subset_of(vstd::set_lib::set_int_range(0, n)));
    vstd::set_lib::lemma_len_subset(ax, vstd::set_lib::set_int_range(0, n));
    if is_source(reach, assigned, x) {
        x
    } else {
        let w = choose|w: int| 0 <= w < n && !assigned[w] && #[trigger] reach[w]@[x] && !reach[x]@[w];
        let aw = ancestors(reach, assigned, w);
        assert(is_walk(succ, seq![x as usize]));
        assert(reaches(succ, x, x));
        assert(aw.subset_of(ax.remove(x))) by {
            assert forall|z: int| aw.contains(z) implies ax.remove(x).contains(z) by {
                lemma_reaches_transitive(succ, z, w, x);
                if z == x {
                    assert(reach[x]@[w]);
                }
            }
        }
        vstd::set_lib::lemma_len_subset(aw, ax.remove(x));
        lemma_source_exists(succ, reach, assigned, w)
    }
}

/// When no dependency leads from a remaining variable to an assigned one, no
/// walk does either.
proof fn lemma_no_entry_walk(succ: Seq<Vec<usize>>, assigned: Seq<bool>, g: ConstraintGraph)
    requires
        dep_lists_ok(g, succ),
        assigned.len() == succ.len(),
        forall|u: int, v: int| 0 <= u < succ.len() && 0 <= v < succ.len() && !assigned[u] && assigned[v] ==> !#[trigger] depends(g, u, v),
    ensures
        forall|u: int, v: int| 0 <= u < succ.len() && 0 <= v < succ.len() && !assigned[u] && assigned[v] ==> !#[trigger] reaches(succ, u, v),
{
    assert forall|u: int, v: int| 0 <= u < succ.len() && 0 <= v < succ.len() && !assigned[u] && assigned[v] implies !#[trigger] reaches(succ, u, v) by {
        if reaches(succ, u, v) {
            let p = choose|p: Seq<usize>| #[trigger] is_walk(succ, p) && p[0] == u && p.last() == v;
            lemma_walk_stays(succ, assigned, g, p, p.len() - 1);
        }
    }
}

proof fn lemma_walk_stays(succ: Seq<Vec<usize>>, assigned: Seq<bool>, g: ConstraintGraph, p: Seq<usize>, i: int)
    requires
        dep_lists_ok(g, succ),
        assigned.len() == succ.len(),
        forall|u: int, v: int| 0 <= u < succ.len() && 0 <= v < succ.len() && !assigned[u] && assigned[v] ==> !#[trigger] depends(g, u, v),
        is_walk(succ, p),
        !assigned[p[0] as int],
        0 <= i < p.len(),
    ensures
        !assigned[p[i] as int],
    decreases i,
{
    if i > 0 {
        lemma_walk_stays(succ, assigned, g, p, i - 1);
        let k = i - 1;
        assert(succ[p[k] as int]@.contains(p[k + 1]));
        let a = p[k] as int;
        let b = p[k + 1] as int;
        assert(p[k + 1] < succ.len());
        assert(succ[a]@.contains(b as usize));
        assert(depends(g, a, b));
    }
}

} // verus!
