//! Dominance: which blocks every path from the entry must pass, the
//! immediate-dominator tree, and the dominance frontier.
use vstd::prelude::*;
use crate::cfg::{Body, Cfg, term_targets, Terminator};

verus! {

/// A path from the entry through a block, cut just after that block, is a
/// path to it.
pub proof fn lemma_path_prefix(g: Cfg, p: Seq<usize>, k: int)
    requires
        g.is_path(p),
        0 <= k < p.len(),
    ensures
        g.is_path(p.subrange(0, k + 1)),
        p.subrange(0, k + 1).last() == p[k],
{
    let q = p.subrange(0, k + 1);
    assert forall|i: int| 0 <= i < q.len() - 1 implies #[trigger] g.edge(q[i] as int, q[i + 1] as int) by {
        assert(g.edge(p[i] as int, p[i + 1] as int));
    }
}

/// Dominance is transitive.
pub proof fn lemma_dominates_transitive(g: Cfg, a: int, b: int, c: int)
    requires
        g.wf(),
        0 <= a < g.n(),
        0 <= b < g.n(),
        0 <= c < g.n(),
        g.dominates(a, b),
        g.dominates(b, c),
    ensures
        g.dominates(a, c),
{
    assert forall|p: Seq<usize>| #[trigger] g.is_path(p) && p.last() == c implies p.contains(
        a as usize,
    ) by {
        let k = choose|k: int| 0 <= k < p.len() && p[k] == b as usize;
        lemma_path_prefix(g, p, k);
        let q = p.subrange(0, k + 1);
        assert(q.contains(a as usize));
        let i = choose|i: int| 0 <= i < q.len() && q[i] == a as usize;
        assert(p[i] == a as usize);
    }
}

/// The last place in `p` that holds `a` or `b`, given that `p` holds `a`.
proof fn lemma_last_hit(p: Seq<usize>, a: usize, b: usize) -> (k: int)
    requires
        p.contains(a),
    ensures
        0 <= k < p.len(),
        p[k] == a || p[k] == b,
        forall|j: int| k < j < p.len() ==> p[j] != a && p[j] != b,
    decreases p.len(),
{
    let last = p.len() - 1;
    if p[last] == a || p[last] == b {
        last
    } else {
        let q = p.drop_last();
        let i = choose|i: int| 0 <= i < p.len() && p[i] == a;
        assert(q[i] == a);
        let k = lemma_last_hit(q, a, b);
        assert forall|j: int| k < j < p.len() implies p[j] != a && p[j] != b by {
            if j < last {
                assert(q[j] == p[j]);
            }
        }
        k
    }
}

/// A path to `a` followed by a walk on from `a` is a path.
proof fn lemma_path_concat(g: Cfg, q: Seq<usize>, r: Seq<usize>, k: int)
    requires
        g.is_path(q),
        g.is_path(r),
        0 <= k < r.len(),
        q.last() == r[k],
    ensures
        g.is_path(q + r.subrange(k + 1, r.len() as int)),
        (q + r.subrange(k + 1, r.len() as int)).last() == r.last(),
{
    let s = r.subrange(k + 1, r.len() as int);
    let t = q + s;
    assert forall|i: int| 0 <= i < t.len() implies #[trigger] t[i] < g.n() by {
        if i >= q.len() {
            assert(t[i] == r[i - q.len() + k + 1]);
        }
    }
    assert forall|i: int| 0 <= i < t.len() - 1 implies #[trigger] g.edge(
        t[i] as int,
        t[i + 1] as int,
    ) by {
        if i < q.len() - 1 {
            assert(g.edge(q[i] as int, q[i + 1] as int));
        } else if i == q.len() - 1 {
            assert(g.edge(r[k] as int, r[k + 1] as int));
        } else {
            let j = i - q.len() + k + 1;
            assert(t[i] == r[j]);
            assert(t[i + 1] == r[j + 1]);
            assert(g.edge(r[j] as int, r[j + 1] as int));
        }
    }
    if s.len() == 0 {
        assert(t =~= q);
    }
}

/// Two dominators of a reachable block are ordered by dominance.
pub proof fn lemma_dominators_ordered(g: Cfg, a: int, b: int, v: int)
    requires
        g.wf(),
        0 <= a < g.n(),
        0 <= b < g.n(),
        0 <= v < g.n(),
        g.reachable(v),
        g.dominates(a, v),
        g.dominates(b, v),
    ensures
        g.dominates(a, b) || g.dominates(b, a),
{
    if !g.dominates(a, b) && !g.dominates(b, a) {
        let pb = choose|p: Seq<usize>| g.is_path(p) && p.last() == b && !p.contains(a as usize);
        let pa = choose|p: Seq<usize>| g.is_path(p) && p.last() == a && !p.contains(b as usize);
        let r = choose|p: Seq<usize>| g.is_path(p) && p.last() == v;
        assert(r.contains(a as usize));
        let k = lemma_last_hit(r, a as usize, b as usize);
        let s = r.subrange(k + 1, r.len() as int);
        if r[k] == a as usize {
            lemma_path_concat(g, pa, r, k);
            let t = pa + s;
            assert(t.contains(b as usize));
            let i = choose|i: int| 0 <= i < t.len() && t[i] == b as usize;
            if i < pa.len() {
                assert(pa[i] == b as usize);
            } else {
                assert(r[i - pa.len() + k + 1] == b as usize);
            }
        } else {
            lemma_path_concat(g, pb, r, k);
            let t = pb + s;
            assert(t.contains(a as usize));
            let i = choose|i: int| 0 <= i < t.len() && t[i] == a as usize;
            if i < pb.len() {
                assert(pb[i] == a as usize);
            } else {
                assert(r[i - pb.len() + k + 1] == a as usize);
            }
        }
    }
}

/// The immediate dominator of a block dominates each predecessor of that
/// block, and so every path into the block runs through it.
pub proof fn lemma_idom_dominates_preds(g: Cfg, d: int, v: int, p: int)
    requires
        g.wf(),
        g.is_idom(d, v),
        g.edge(p, v),
    ensures
        g.dominates(d, p),
{
    assert forall|q: Seq<usize>| #[trigger] g.is_path(q) && q.last() == p implies q.contains(
        d as usize,
    ) by {
        let r = q.push(v as usize);
        assert forall|i: int| 0 <= i < r.len() - 1 implies #[trigger] g.edge(
            r[i] as int,
            r[i + 1] as int,
        ) by {
            if i < q.len() - 1 {
                assert(g.edge(q[i] as int, q[i + 1] as int));
            }
        }
        assert(g.is_path(r));
        assert(r.contains(d as usize));
        let i = choose|i: int| 0 <= i < r.len() && r[i] == d as usize;
        assert(i < q.len());
        assert(q[i] == d as usize);
    }
}

/// Every block of the dominance frontier of `d` has a predecessor that `d`
/// dominates, and is not strictly dominated by `d`.
pub proof fn lemma_frontier_members(g: Cfg, d: int, v: int)
    requires
        g.wf(),
        g.in_frontier(d, v),
    ensures
        exists|p: int| 0 <= p < g.n() && #[trigger] g.edge(p, v) && g.dominates(d, p),
        !g.strictly_dominates(d, v),
{
}

impl Cfg {
    /// The control-flow graph of a body: each block's successors are the
    /// targets of its terminator.
    pub fn from_body(body: &Body) -> (g: Cfg)
        requires
            body.targets_ok(),
        ensures
            g.wf(),
            g.n() == body.n(),
            forall|b: int| 0 <= b < g.n() ==> #[trigger] g.succs@[b]@ == body.targets(b),
    {
        let n = body.blocks.len();
        let mut succs: Vec<Vec<usize>> = Vec::new();
        let mut b: usize = 0;
        while b < n
            invariant
                n == body.n(),
                b <= n,
                succs@.len() == b,
                forall|i: int| 0 <= i < b ==> #[trigger] succs@[i]@ == body.targets(i),
            decreases n - b,
        {
            let row = targets_of(&body.blocks[b].terminator);
            succs.push(row);
            b += 1;
        }
        let mut preds: Vec<Vec<usize>> = Vec::new();
        let mut v: usize = 0;
        while v < n
            invariant
                n == body.n(),
                body.targets_ok(),
                v <= n,
                succs@.len() == n,
                forall|i: int| 0 <= i < n ==> #[trigger] succs@[i]@ == body.targets(i),
                preds@.len() == v,
                forall|x: int, j: int|
                    0 <= x < v && 0 <= j < preds@[x]@.len() ==> #[trigger] preds@[x]@[j] < n,
                forall|a: int, x: int|
                    0 <= a < n && 0 <= x < v ==> (succs@[a]@.contains(x as usize)
                        <==> #[trigger] preds@[x]@.contains(a as usize)),
                forall|x: int| 0 <= x < v ==> (#[trigger] preds@[x])@.no_duplicates(),
            decreases n - v,
        {
            let mut row: Vec<usize> = Vec::new();
            let mut a: usize = 0;
            while a < n
                invariant
                    n == body.n(),
                    body.targets_ok(),
                    a <= n,
                    v < n,
                    succs@.len() == n,
                    forall|i: int| 0 <= i < n ==> #[trigger] succs@[i]@ == body.targets(i),
                    forall|j: int| 0 <= j < row@.len() ==> #[trigger] row@[j] < a,
                    row@.no_duplicates(),
                    forall|x: int|
                        0 <= x < n ==> (row@.contains(x as usize) <==> (x < a
                            && #[trigger] succs@[x]@.contains(v))),
                decreases n - a,
            {
                let found = contains_usize(&succs[a], v);
                let ghost old_row = row@;
                if found {
                    row.push(a);
                }
                a += 1;
                proof {
                    assert forall|p: int, q: int| 0 <= p < row@.len() && 0 <= q < row@.len() && p != q implies row@[p] != row@[q] by {
                        if p < old_row.len() && q < old_row.len() {
                            assert(row@[p] == old_row[p] && row@[q] == old_row[q]);
                        } else if p < old_row.len() {
                            assert(old_row[p] < a - 1);
                        } else if q < old_row.len() {
                            assert(old_row[q] < a - 1);
                        }
                    }
                    assert forall|x: int| 0 <= x < n implies (row@.contains(x as usize) <==> (x < a
                        && #[trigger] succs@[x]@.contains(v))) by {
                        if row@.contains(x as usize) {
                            let j = choose|j: int| 0 <= j < row@.len() && row@[j] == x as usize;
                            if j < old_row.len() {
                                assert(old_row[j] == x as usize);
                                assert(old_row.contains(x as usize));
                            }
                        }
                        if x < a - 1 && succs@[x]@.contains(v) {
                            assert(old_row.contains(x as usize));
                            let j = choose|j: int| 0 <= j < old_row.len() && old_row[j] == x as usize;
                            assert(row@[j] == x as usize);
                        }
                        if x == a - 1 && found {
                            assert(row@[row@.len() - 1] == x as usize);
                        }
                    }
                }
            }
            preds.push(row);
            v += 1;
        }
        let g = Cfg { succs, preds };
        proof {
            assert forall|a: int, j: int|
                0 <= a < g.succs@.len() && 0 <= j < g.succs@[a]@.len() implies #[trigger] g.succs@[a]@[j]
                < g.succs@.len() by {
                assert(body.targets(a)[j] < body.n());
            }
        }
        g
    }

    /// Marks the blocks that some path from the entry reaches without passing
    /// `d`; a `d` outside the graph leaves no block out.
    pub fn reach_avoiding(&self, d: usize) -> (r: Vec<bool>)
        requires
            self.wf(),
        ensures
            r@.len() == self.n(),
            forall|v: int| 0 <= v < self.n() ==> (#[trigger] r@[v] <==> self.reaches_avoiding(v, d as int)),
    {
        let n = self.succs.len();
        let mut seen: Vec<bool> = Vec::new();
        let mut i: usize = 0;
        while i < n
            invariant
                i <= n,
                seen@.len() == i,
                forall|j: int| 0 <= j < i ==> !#[trigger] seen@[j],
            decreases n - i,
        {
            seen.push(false);
            i += 1;
        }
        let mut stack: Vec<usize> = Vec::new();
        if d != 0 {
            seen.set(0, true);
            stack.push(0);
            proof {
                let p = seq![0usize];
                assert(self.is_path(p));
                assert(!p.contains(d));
            }
        }
        let ghost unseen = Set::new(|v: int| 0 <= v < n && !seen@[v]);
        proof {
            vstd::set_lib::lemma_int_range(0, n as int);
            assert(unseen.subset_of(vstd::set_lib::set_int_range(0, n as int)));
            vstd::set_lib::lemma_len_subset(unseen, vstd::set_lib::set_int_range(0, n as int));
        }
        while stack.len() > 0
            invariant
                self.wf(),
                n == self.n(),
                seen@.len() == n,
                unseen.finite(),
                forall|v: int| 0 <= v < n ==> (unseen.contains(v) <==> !#[trigger] seen@[v]),
                forall|v: int| unseen.contains(v) ==> 0 <= v < n,
                forall|j: int| 0 <= j < stack@.len() ==> #[trigger] stack@[j] < n,
                forall|j: int| 0 <= j < stack@.len() ==> seen@[#[trigger] stack@[j] as int],
                d != 0 ==> seen@[0],
                forall|v: int| 0 <= v < n && #[trigger] seen@[v] ==> self.reaches_avoiding(v, d as int),
                forall|v: int, j: int|
                    0 <= v < n && seen@[v] && !stack@.contains(v as usize) && 0 <= j
                        < self.succs@[v]@.len() && #[trigger] self.succs@[v]@[j] != d ==> seen@[self.succs@[v]@[j] as int],
            decreases 2 * unseen.len() + stack@.len(),
        {
            let ghost stack_before = stack@;
            let u = stack.pop().unwrap();
            let ghost stack_after_pop = stack@;
            let ghost unseen_at_pop = unseen;
            proof {
                assert(stack_before == stack_after_pop.push(u));
                assert(seen@[stack_before[stack_before.len() - 1] as int]);
                assert forall|v: int, k: int|
                    0 <= v < n && seen@[v] && !stack@.contains(v as usize) && v != u && 0 <= k
                        < self.succs@[v]@.len() && #[trigger] self.succs@[v]@[k] != d implies seen@[self.succs@[v]@[k] as int] by {
                    if stack_before.contains(v as usize) {
                        let i = choose|i: int| 0 <= i < stack_before.len() && stack_before[i] == v as usize;
                        if i < stack_after_pop.len() {
                            assert(stack_after_pop[i] == v as usize);
                        }
                    }
                }
            }
            let row = &self.succs[u];
            let mut j: usize = 0;
            while j < row.len()
                invariant
                    self.wf(),
                    n == self.n(),
                    u < n,
                    row@ == self.succs@[u as int]@,
                    j <= row@.len(),
                    seen@.len() == n,
                    seen@[u as int],
                    unseen.finite(),
                    forall|v: int| 0 <= v < n ==> (unseen.contains(v) <==> !#[trigger] seen@[v]),
                    forall|v: int| unseen.contains(v) ==> 0 <= v < n,
                    forall|k: int| 0 <= k < stack@.len() ==> #[trigger] stack@[k] < n,
                    forall|k: int| 0 <= k < stack@.len() ==> seen@[#[trigger] stack@[k] as int],
                    d != 0 ==> seen@[0],
                    forall|v: int| 0 <= v < n && #[trigger] seen@[v] ==> self.reaches_avoiding(v, d as int),
                    stack@.len() >= stack_after_pop.len(),
                    stack@.subrange(0, stack_after_pop.len() as int) == stack_after_pop,
                    2 * unseen.len() + stack@.len() <= 2 * unseen_at_pop.len() + stack_after_pop.len(),
                    forall|v: int, k: int|
                        0 <= v < n && seen@[v] && !stack@.contains(v as usize) && v != u
                            && 0 <= k < self.succs@[v]@.len() && #[trigger] self.succs@[v]@[k] != d ==> seen@[self.succs@[v]@[k] as int],
                    forall|k: int| 0 <= k < j && #[trigger] row@[k] != d ==> seen@[row@[k] as int],
                decreases row@.len() - j,
            {
                let w = row[j];
                if w != d && !seen[w] {
                    proof {
                        assert(self.reaches_avoiding(u as int, d as int));
                        let p = choose|p: Seq<usize>|
                            #[trigger] self.is_path(p) && p.last() == u && !p.contains(d);
                        let q = p.push(w);
                        assert(self.succs@[u as int]@[j as int] == w);
                        assert(self.edge(u as int, w as int));
                        assert forall|i: int| 0 <= i < q.len() - 1 implies #[trigger] self.edge(
                            q[i] as int,
                            q[i + 1] as int,
                        ) by {
                            if i < p.len() - 1 {
                                assert(self.edge(p[i] as int, p[i + 1] as int));
                            }
                        }
                        assert(self.is_path(q));
                        assert(!q.contains(d)) by {
                            if q.contains(d) {
                                let i = choose|i: int| 0 <= i < q.len() && q[i] == d;
                                assert(p[i] == d);
                            }
                        }
                        unseen = unseen.remove(w as int);
                    }
                    let ghost seen_old = seen@;
                    let ghost stack_old = stack@;
                    seen.set(w, true);
                    stack.push(w);
                    proof {
                        assert forall|v: int, k: int|
                            0 <= v < n && seen@[v] && !stack@.contains(v as usize) && v != u && 0 <= k
                                < self.succs@[v]@.len() && #[trigger] self.succs@[v]@[k] != d implies seen@[self.succs@[v]@[k] as int] by {
                            if stack_old.contains(v as usize) {
                                let i = choose|i: int| 0 <= i < stack_old.len() && stack_old[i] == v as usize;
                                assert(stack@[i] == v as usize);
                            }
                            if v == w as int {
                                assert(stack@[stack@.len() - 1] == w);
                            }
                            assert(seen_old[v]);
                        }
                    }
                }
                j += 1;
            }
            proof {
                assert forall|v: int, k: int|
                    0 <= v < n && seen@[v] && !stack@.contains(v as usize) && 0 <= k
                        < self.succs@[v]@.len() && #[trigger] self.succs@[v]@[k] != d implies seen@[self.succs@[v]@[k] as int] by {
                    if v == u {
                        assert(row@[k] == self.succs@[v]@[k]);
                    }
                }
            }
        }
        proof {
            assert forall|v: int| 0 <= v < n && self.reaches_avoiding(v, d as int) implies #[trigger] seen@[v] by {
                let p = choose|p: Seq<usize>| #[trigger] self.is_path(p) && p.last() == v && !p.contains(d);
                assert forall|i: int| 0 <= i < p.len() implies #[trigger] seen@[p[i] as int] by {
                    self.lemma_closed_path(seen@, d, p, i);
                }
                assert(seen@[p[p.len() - 1] as int]);
            }
        }
        seen
    }

    /// On a closed marking, every block of a path that avoids `d` is marked.
    proof fn lemma_closed_path(&self, seen: Seq<bool>, d: usize, p: Seq<usize>, i: int)
        requires
            self.wf(),
            seen.len() == self.n(),
            d != 0 ==> seen[0],
            forall|v: int, j: int|
                0 <= v < self.n() && seen[v] && 0 <= j < self.succs@[v]@.len()
                    && #[trigger] self.succs@[v]@[j] != d ==> seen[self.succs@[v]@[j] as int],
            self.is_path(p),
            !p.contains(d),
            0 <= i < p.len(),
        ensures
            seen[p[i] as int],
        decreases i,
    {
        if i == 0 {
            assert(p[0] != d);
        } else {
            self.lemma_closed_path(seen, d, p, i - 1);
            let k = i - 1;
            assert(self.edge(p[k] as int, p[k + 1] as int));
            let a = p[k] as int;
            let j = choose|j: int| 0 <= j < self.succs@[a]@.len() && self.succs@[a]@[j] == p[i];
            assert(p[i] != d);
        }
    }
}

/// A block dominates itself, and the entry dominates every block.
pub proof fn lemma_dominates_basics(g: Cfg, v: int)
    requires
        g.wf(),
        0 <= v < g.n(),
    ensures
        g.dominates(v, v),
        g.dominates(0, v),
{
    assert forall|p: Seq<usize>| #[trigger] g.is_path(p) && p.last() == v implies p.contains(
        v as usize,
    ) by {
        assert(p[p.len() - 1] == v as usize);
    }
    assert forall|p: Seq<usize>| #[trigger] g.is_path(p) && p.last() == v implies p.contains(
        0usize,
    ) by {
        assert(p[0] == 0usize);
    }
}

/// Dominance of each block by each block, held as `dom[d][v]`.
pub open spec fn is_dominance_matrix(g: Cfg, dom: Seq<Vec<bool>>) -> bool {
    &&& dom.len() == g.n()
    &&& forall|d: int| 0 <= d < g.n() ==> (#[trigger] dom[d])@.len() == g.n()
    &&& forall|d: int, v: int|
        0 <= d < g.n() && 0 <= v < g.n() ==> (#[trigger] dom[d]@[v] == g.dominates(d, v))
}

impl Cfg {
    /// Whether every block can be reached from the entry.
    pub fn check_reachable(&self) -> (r: bool)
        requires
            self.wf(),
        ensures
            r == self.all_reachable(),
    {
        let n = self.succs.len();
        let seen = self.reach_avoiding(n);
        let mut v: usize = 0;
        while v < n
            invariant
                self.wf(),
                n == self.n(),
                seen@.len() == n,
                forall|x: int| 0 <= x < n ==> (#[trigger] seen@[x] <==> self.reaches_avoiding(x, n as int)),
                v <= n,
                forall|x: int| 0 <= x < v ==> #[trigger] self.reachable(x),
            decreases n - v,
        {
            if !seen[v] {
                proof {
                    assert(!self.reachable(v as int)) by {
                        if self.reachable(v as int) {
                            let p = choose|p: Seq<usize>| #[trigger] self.is_path(p) && p.last() == v;
                            assert(!p.contains(n)) by {
                                if p.contains(n) {
                                    let i = choose|i: int| 0 <= i < p.len() && p[i] == n;
                                    assert(p[i] < self.n());
                                }
                            }
                        }
                    }
                }
                return false;
            }
            v += 1;
        }
        true
    }

    /// The dominance matrix: `dom[d][v]` says whether `d` dominates `v`.
    pub fn dominators(&self) -> (dom: Vec<Vec<bool>>)
        requires
            self.wf(),
        ensures
            is_dominance_matrix(*self, dom@),
    {
        let n = self.succs.len();
        let mut dom: Vec<Vec<bool>> = Vec::new();
        let mut d: usize = 0;
        while d < n
            invariant
                self.wf(),
                n == self.n(),
                d <= n,
                dom@.len() == d,
                forall|x: int| 0 <= x < d ==> (#[trigger] dom@[x])@.len() == n,
                forall|x: int, v: int|
                    0 <= x < d && 0 <= v < n ==> (#[trigger] dom@[x]@[v] == self.dominates(x, v)),
            decreases n - d,
        {
            let seen = self.reach_avoiding(d);
            let mut row: Vec<bool> = Vec::new();
            let mut v: usize = 0;
            while v < n
                invariant
                    self.wf(),
                    n == self.n(),
                    d < n,
                    v <= n,
                    seen@.len() == n,
                    forall|x: int| 0 <= x < n ==> (#[trigger] seen@[x] <==> self.reaches_avoiding(x, d as int)),
                    row@.len() == v,
                    forall|x: int| 0 <= x < v ==> (#[trigger] row@[x] == self.dominates(d as int, x)),
                decreases n - v,
            {
                proof {
                    if self.dominates(d as int, v as int) {
                        if self.reaches_avoiding(v as int, d as int) {
                            let p = choose|p: Seq<usize>|
                                #[trigger] self.is_path(p) && p.last() == v && !p.contains(d);
                            assert(p.contains(d));
                        }
                    } else {
                        let p = choose|p: Seq<usize>|
                            !(#[trigger] self.is_path(p) && p.last() == v ==> p.contains(d));
                        assert(self.is_path(p) && p.last() == v && !p.contains(d));
                    }
                }
                row.push(!seen[v]);
                v += 1;
            }
            dom.push(row);
            d += 1;
        }
        dom
    }

    /// The immediate dominator of every block but the entry.
    pub fn immediate_dominators(&self, dom: &Vec<Vec<bool>>) -> (idom: Vec<Option<usize>>)
        requires
            self.wf(),
            self.all_reachable(),
            is_dominance_matrix(*self, dom@),
        ensures
            idom@.len() == self.n(),
            idom@[0] is None,
            forall|v: int|
                0 < v < self.n() ==> (#[trigger] idom@[v]) is Some && self.is_idom(
                    idom@[v]->0 as int,
                    v,
                ),
    {
        let n = self.succs.len();
        let mut idom: Vec<Option<usize>> = Vec::new();
        idom.push(None);
        let mut v: usize = 1;
        while v < n
            invariant
                self.wf(),
                self.all_reachable(),
                is_dominance_matrix(*self, dom@),
                n == self.n(),
                1 <= v <= n,
                idom@.len() == v,
                idom@[0] is None,
                forall|x: int|
                    0 < x < v ==> (#[trigger] idom@[x]) is Some && self.is_idom(idom@[x]->0 as int, x),
            decreases n - v,
        {
            let mut best: Option<usize> = None;
            let mut d: usize = 0;
            while d < n
                invariant
                    self.wf(),
                    self.all_reachable(),
                    is_dominance_matrix(*self, dom@),
                    n == self.n(),
                    0 < v < n,
                    d <= n,
                    best is None ==> forall|e: int| 0 <= e < d ==> !#[trigger] self.strictly_dominates(e, v as int),
                    best is Some ==> {
                        let c = best->0 as int;
                        &&& 0 <= c < n
                        &&& self.strictly_dominates(c, v as int)
                        &&& forall|e: int| 0 <= e < d && #[trigger] self.strictly_dominates(e, v as int)
                            ==> self.dominates(e, c)
                    },
                decreases n - d,
            {
                if d != v && dom[d][v] {
                    proof {
                        lemma_dominates_basics(*self, d as int);
                    }
                    match best {
                        None => {
                            best = Some(d);
                        },
                        Some(c) => {
                            if dom[c][d] {
                                proof {
                                    assert forall|e: int| 0 <= e < d + 1 && #[trigger] self.strictly_dominates(e, v as int)
                                        implies self.dominates(e, d as int) by {
                                        if e < d {
                                            lemma_dominates_transitive(*self, e, c as int, d as int);
                                        }
                                    }
                                }
                                best = Some(d);
                            } else {
                                proof {
                                    assert(self.reachable(v as int));
                                    lemma_dominators_ordered(*self, c as int, d as int, v as int);
                                }
                            }
                        },
                    }
                }
                d += 1;
            }
            proof {
                lemma_dominates_basics(*self, v as int);
                assert(self.strictly_dominates(0, v as int));
            }
            idom.push(best);
            v += 1;
        }
        idom
    }

    /// The dominance frontier: `df[d][v]` says whether `v` is in the frontier
    /// of `d`.
    pub fn dominance_frontier(&self, dom: &Vec<Vec<bool>>) -> (df: Vec<Vec<bool>>)
        requires
            self.wf(),
            is_dominance_matrix(*self, dom@),
        ensures
            df@.len() == self.n(),
            forall|d: int| 0 <= d < self.n() ==> (#[trigger] df@[d])@.len() == self.n(),
            forall|d: int, v: int|
                0 <= d < self.n() && 0 <= v < self.n() ==> (#[trigger] df@[d]@[v] == self.in_frontier(d, v)),
    {
        let n = self.succs.len();
        let mut df: Vec<Vec<bool>> = Vec::new();
        let mut d: usize = 0;
        while d < n
            invariant
                self.wf(),
                is_dominance_matrix(*self, dom@),
                n == self.n(),
                d <= n,
                df@.len() == d,
                forall|x: int| 0 <= x < d ==> (#[trigger] df@[x])@.len() == n,
                forall|x: int, v: int|
                    0 <= x < d && 0 <= v < n ==> (#[trigger] df@[x]@[v] == self.in_frontier(x, v)),
            decreases n - d,
        {
            let mut row: Vec<bool> = Vec::new();
            let mut v: usize = 0;
            while v < n
                invariant
                    self.wf(),
                    is_dominance_matrix(*self, dom@),
                    n == self.n(),
                    d < n,
                    v <= n,
                    row@.len() == v,
                    forall|x: int| 0 <= x < v ==> (#[trigger] row@[x] == self.in_frontier(d as int, x)),
                decreases n - v,
            {
                let hit = self.dominates_some_pred(dom, d, v);
                let member = hit && !(d != v && dom[d][v]);
                row.push(member);
                v += 1;
            }
            df.push(row);
            d += 1;
        }
        df
    }

    /// Whether `d` dominates some predecessor of `v`.
    fn dominates_some_pred(&self, dom: &Vec<Vec<bool>>, d: usize, v: usize) -> (r: bool)
        requires
            self.wf(),
            is_dominance_matrix(*self, dom@),
            d < self.n(),
            v < self.n(),
        ensures
            r == exists|p: int| 0 <= p < self.n() && #[trigger] self.edge(p, v as int) && self.dominates(d as int, p),
    {
        let ps = &self.preds[v];
        let mut j: usize = 0;
        while j < ps.len()
            invariant
                self.wf(),
                is_dominance_matrix(*self, dom@),
                d < self.n(),
                v < self.n(),
                ps@ == self.preds@[v as int]@,
                j <= ps@.len(),
                forall|k: int| 0 <= k < j ==> !self.dominates(d as int, #[trigger] ps@[k] as int),
            decreases ps@.len() - j,
        {
            let p = ps[j];
            if dom[d][p] {
                proof {
                    assert(self.preds@[v as int]@[j as int] < self.n());
                    assert(self.preds@[v as int]@.contains(p));
                    assert(self.edge(p as int, v as int));
                }
                return true;
            }
            j += 1;
        }
        proof {
            assert forall|p: int| 0 <= p < self.n() && #[trigger] self.edge(p, v as int) implies !self.dominates(
                d as int,
                p,
            ) by {
                assert(self.preds@[v as int]@.contains(p as usize));
                let k = choose|k: int| 0 <= k < ps@.len() && ps@[k] == p as usize;
            }
        }
        false
    }
}

/// The targets of a terminator, as a list.
fn targets_of(t: &Terminator) -> (r: Vec<usize>)
    ensures
        r@ == term_targets(*t),
{
    match t {
        Terminator::Goto(b) => {
            let mut r: Vec<usize> = Vec::new();
            r.push(*b);
            proof {
                assert(r@ =~= seq![*b]);
            }
            r
        },
        Terminator::Branch(_, ts) => {
            let mut r: Vec<usize> = Vec::new();
            let mut i: usize = 0;
            while i < ts.len()
                invariant
                    i <= ts@.len(),
                    r@ == ts@.subrange(0, i as int),
                decreases ts@.len() - i,
            {
                r.push(ts[i]);
                i += 1;
                proof {
                    assert(r@ =~= ts@.subrange(0, i as int));
                }
            }
            proof {
                assert(ts@.subrange(0, ts@.len() as int) =~= ts@);
            }
            r
        },
        Terminator::Return => Vec::new(),
    }
}

/// Whether `v` holds `x`.
pub fn contains_usize(v: &Vec<usize>, x: usize) -> (r: bool)
    ensures
        r == v@.contains(x),
{
    let mut i: usize = 0;
    while i < v.len()
        invariant
            i <= v@.len(),
            forall|j: int| 0 <= j < i ==> v@[j] != x,
        decreases v@.len() - i,
    {
        if v[i] == x {
            return true;
        }
        i += 1;
    }
    false
}

} // verus!
