//! The call graph: directed edges between function indices, and the
//! fixed-point closure that bubbles callees' capabilities into their callers
//! as transitive capabilities.
use vstd::prelude::*;

use crate::capmap::{lemma_get_some_index, lemma_sorted_len, spec_get};
use crate::caps::{spec_cap_type_severity, Capability, CapabilityType};
use crate::function::FunctionMap;
use crate::report::{Edge, Function, Location};

verus! {

/// `u` reaches `v` along call edges in at most `n` steps.
pub open spec fn spec_reaches(edges: Seq<Edge>, u: int, v: int, n: nat) -> bool
    decreases n,
{
    u == v || (n > 0 && exists|k: int|
        0 <= k < edges.len() && (#[trigger] edges[k]).caller as int == u && spec_reaches(
            edges,
            edges[k].callee as int,
            v,
            (n - 1) as nat,
        ))
}

/// Prepending the edge `caller -> callee` extends a path from the callee.
pub proof fn lemma_reaches_step(edges: Seq<Edge>, k: int, w: int, n: nat)
    requires
        0 <= k < edges.len(),
        spec_reaches(edges, edges[k].callee as int, w, n),
    ensures
        spec_reaches(edges, edges[k].caller as int, w, n + 1),
{
    let u = edges[k].caller as int;
    if u != w {
        assert(0 <= k < edges.len() && edges[k].caller as int == u && spec_reaches(
            edges,
            edges[k].callee as int,
            w,
            n,
        ));
    }
}

/// The total number of capability entries across all functions.
pub open spec fn spec_total_caps(funcs: Seq<Function>) -> int
    decreases funcs.len(),
{
    if funcs.len() == 0 {
        0
    } else {
        funcs[0].capabilities@.len() + spec_total_caps(funcs.drop_first())
    }
}

proof fn lemma_total_nonneg(funcs: Seq<Function>)
    ensures
        spec_total_caps(funcs) >= 0,
    decreases funcs.len(),
{
    if funcs.len() > 0 {
        lemma_total_nonneg(funcs.drop_first());
    }
}

proof fn lemma_total_update(funcs: Seq<Function>, i: int, f2: Function)
    requires
        0 <= i < funcs.len(),
    ensures
        spec_total_caps(funcs.update(i, f2)) == spec_total_caps(funcs) - funcs[i].capabilities@.len()
            + f2.capabilities@.len(),
    decreases funcs.len(),
{
    let upd = funcs.update(i, f2);
    if i == 0 {
        assert(upd.drop_first() =~= funcs.drop_first());
    } else {
        assert(upd[0] == funcs[0]);
        assert(upd.drop_first() =~= funcs.drop_first().update(i - 1, f2));
        assert(funcs.drop_first()[i - 1] == funcs[i]);
        lemma_total_update(funcs.drop_first(), i - 1, f2);
    }
}

proof fn lemma_total_bound(funcs: Seq<Function>)
    requires
        forall|i: int| 0 <= i < funcs.len() ==> (#[trigger] funcs[i]).wf(),
    ensures
        spec_total_caps(funcs) <= 18 * funcs.len(),
    decreases funcs.len(),
{
    if funcs.len() > 0 {
        lemma_sorted_len(funcs[0].capabilities@);
        assert forall|i: int| 0 <= i < funcs.drop_first().len() implies (#[trigger] funcs.drop_first()[i]).wf() by {
            assert(funcs.drop_first()[i] == funcs[i + 1]);
        }
        lemma_total_bound(funcs.drop_first());
    }
}

/// No capability entry is lost or changed between `pre` and `post`.
pub open spec fn spec_caps_preserved(pre: Seq<Function>, post: Seq<Function>) -> bool {
    forall|i: int, c: Capability|
        0 <= i < pre.len() && i < post.len() && (#[trigger] spec_get(pre[i].capabilities@, c))
            is Some ==> spec_get(post[i].capabilities@, c) == spec_get(pre[i].capabilities@, c)
}

/// Function `i` can blame some function it reaches for holding `c`.
pub open spec fn spec_justified(edges: Seq<Edge>, pre: Seq<Function>, i: int, c: Capability) -> bool {
    exists|j: int, n: nat|
        0 <= j < pre.len() && #[trigger] spec_reaches(edges, i, j, n) && spec_get(
            pre[j].capabilities@,
            c,
        ) is Some
}

/// Every capability entry new in `post` is `Transitive` and justified by a
/// path to a function that held the capability in `pre`.
pub open spec fn spec_caps_justified(
    edges: Seq<Edge>,
    pre: Seq<Function>,
    post: Seq<Function>,
) -> bool {
    forall|i: int, c: Capability|
        0 <= i < post.len() && i < pre.len() && (#[trigger] spec_get(post[i].capabilities@, c))
            is Some && spec_get(pre[i].capabilities@, c) is None ==> spec_get(
            post[i].capabilities@,
            c,
        ) == Some(CapabilityType::Transitive) && spec_justified(edges, pre, i, c)
}

/// Everything about the functions except their capability maps is equal.
pub open spec fn spec_shape_preserved(pre: Seq<Function>, post: Seq<Function>) -> bool {
    &&& post.len() == pre.len()
    &&& forall|i: int|
        0 <= i < pre.len() ==> (#[trigger] post[i]).name == pre[i].name && post[i].location
            == pre[i].location && post[i].syscalls == pre[i].syscalls
}

/// Along every edge, the caller holds every capability its callee holds.
pub open spec fn spec_closed(edges: Seq<Edge>, funcs: Seq<Function>) -> bool {
    forall|k: int, c: Capability|
        #![trigger spec_get(funcs[edges[k].callee as int].capabilities@, c)]
        0 <= k < edges.len() && edges[k].caller < funcs.len() && edges[k].callee < funcs.len()
            && spec_get(funcs[edges[k].callee as int].capabilities@, c) is Some ==> spec_get(
            funcs[edges[k].caller as int].capabilities@,
            c,
        ) is Some
}

/// Monotone capabilities: across a state change that preserves capability
/// entries, as the bubble does, no capability is removed or downgraded —
/// whatever `(c, ty)` a function held before, it holds `c` afterward with a
/// type at least as severe.
pub proof fn lemma_bubble_monotone(
    pre: Seq<Function>,
    post: Seq<Function>,
    i: int,
    c: Capability,
    ty: CapabilityType,
)
    requires
        spec_caps_preserved(pre, post),
        0 <= i < pre.len(),
        i < post.len(),
        spec_get(pre[i].capabilities@, c) == Some(ty),
    ensures
        spec_get(post[i].capabilities@, c) is Some,
        spec_cap_type_severity(spec_get(post[i].capabilities@, c).unwrap())
            >= spec_cap_type_severity(ty),
{
    assert(spec_get(post[i].capabilities@, c) == spec_get(pre[i].capabilities@, c));
}

/// Whether some edge with the ordered pair `(caller, callee)` is present.
pub open spec fn spec_has_edge(edges: Seq<Edge>, caller: usize, callee: usize) -> bool {
    exists|i: int|
        0 <= i < edges.len() && (#[trigger] edges[i]).caller == caller && edges[i].callee == callee
}

/// Adding the edge `caller -> callee`: an existing record for the pair is
/// overwritten in place with the new location, otherwise the edge is
/// appended.
pub open spec fn spec_add_edge(
    edges: Seq<Edge>,
    caller: usize,
    callee: usize,
    location: Option<Location>,
) -> Seq<Edge>
    decreases edges.len(),
{
    if edges.len() == 0 {
        seq![(Edge { caller, callee, location })]
    } else if edges[0].caller == caller && edges[0].callee == callee {
        seq![(Edge { caller, callee, location })] + edges.drop_first()
    } else {
        seq![edges[0]] + spec_add_edge(edges.drop_first(), caller, callee, location)
    }
}

/// A first pair match at `k` makes the addition a point update.
proof fn lemma_add_edge_found(
    edges: Seq<Edge>,
    caller: usize,
    callee: usize,
    location: Option<Location>,
    k: int,
)
    requires
        0 <= k < edges.len(),
        edges[k].caller == caller,
        edges[k].callee == callee,
        forall|j: int|
            0 <= j < k ==> !((#[trigger] edges[j]).caller == caller && edges[j].callee == callee),
    ensures
        spec_add_edge(edges, caller, callee, location) == edges.update(
            k,
            (Edge { caller, callee, location }),
        ),
    decreases k,
{
    if k == 0 {
        assert(spec_add_edge(edges, caller, callee, location) =~= edges.update(
            0,
            (Edge { caller, callee, location }),
        ));
    } else {
        assert forall|j: int|
            0 <= j < k - 1 implies !((#[trigger] edges.drop_first()[j]).caller == caller
            && edges.drop_first()[j].callee == callee) by {
            assert(edges.drop_first()[j] == edges[j + 1]);
        }
        assert(edges.drop_first()[k - 1] == edges[k]);
        lemma_add_edge_found(edges.drop_first(), caller, callee, location, k - 1);
        assert(spec_add_edge(edges, caller, callee, location) =~= edges.update(
            k,
            (Edge { caller, callee, location }),
        ));
    }
}

/// A pair absent everywhere makes the addition an append.
proof fn lemma_add_edge_absent(
    edges: Seq<Edge>,
    caller: usize,
    callee: usize,
    location: Option<Location>,
)
    requires
        forall|j: int|
            0 <= j < edges.len() ==> !((#[trigger] edges[j]).caller == caller && edges[j].callee
                == callee),
    ensures
        spec_add_edge(edges, caller, callee, location) == edges.push(
            (Edge { caller, callee, location }),
        ),
    decreases edges.len(),
{
    if edges.len() == 0 {
        assert(spec_add_edge(edges, caller, callee, location) =~= edges.push(
            (Edge { caller, callee, location }),
        ));
    } else {
        assert forall|j: int|
            0 <= j < edges.drop_first().len() implies !((#[trigger] edges.drop_first()[j]).caller
            == caller && edges.drop_first()[j].callee == callee) by {
            assert(edges.drop_first()[j] == edges[j + 1]);
        }
        lemma_add_edge_absent(edges.drop_first(), caller, callee, location);
        assert(spec_add_edge(edges, caller, callee, location) =~= edges.push(
            (Edge { caller, callee, location }),
        ));
    }
}

/// An addition introduces its pair and keeps every pair already present.
pub proof fn lemma_add_edge_pairs(
    edges: Seq<Edge>,
    caller: usize,
    callee: usize,
    location: Option<Location>,
    a: usize,
    b: usize,
)
    ensures
        spec_has_edge(spec_add_edge(edges, caller, callee, location), a, b) <==> (spec_has_edge(
            edges,
            a,
            b,
        ) || (a == caller && b == callee)),
    decreases edges.len(),
{
    let n = spec_add_edge(edges, caller, callee, location);
    if edges.len() == 0 {
        assert(n[0] == (Edge { caller, callee, location }));
        if a == caller && b == callee {
            assert(spec_has_edge(n, a, b));
        }
        if spec_has_edge(n, a, b) {
            let w = choose|w: int| 0 <= w < n.len() && n[w].caller == a && n[w].callee == b;
            assert(w == 0);
        }
    } else if edges[0].caller == caller && edges[0].callee == callee {
        assert(n[0] == (Edge { caller, callee, location }));
        assert(n.drop_first() =~= edges.drop_first());
        if spec_has_edge(edges, a, b) {
            let w = choose|w: int|
                0 <= w < edges.len() && edges[w].caller == a && edges[w].callee == b;
            if w == 0 {
                assert(n[0].caller == a && n[0].callee == b);
            } else {
                assert(n[w] == edges[w]);
            }
            assert(spec_has_edge(n, a, b));
        }
        if a == caller && b == callee {
            assert(spec_has_edge(n, a, b));
        }
        if spec_has_edge(n, a, b) {
            let w = choose|w: int| 0 <= w < n.len() && n[w].caller == a && n[w].callee == b;
            if w == 0 {
            } else {
                assert(n[w] == edges[w]);
            }
        }
    } else {
        assert(n[0] == edges[0]);
        assert(n.drop_first() =~= spec_add_edge(edges.drop_first(), caller, callee, location));
        lemma_add_edge_pairs(edges.drop_first(), caller, callee, location, a, b);
        if spec_has_edge(edges, a, b) {
            let w = choose|w: int|
                0 <= w < edges.len() && edges[w].caller == a && edges[w].callee == b;
            if w == 0 {
                assert(n[0].caller == a && n[0].callee == b);
            } else {
                assert(edges.drop_first()[w - 1] == edges[w]);
                assert(spec_has_edge(edges.drop_first(), a, b));
                let w2 = choose|w2: int|
                    0 <= w2 < n.drop_first().len() && n.drop_first()[w2].caller == a
                        && n.drop_first()[w2].callee == b;
                assert(n[w2 + 1] == n.drop_first()[w2]);
            }
            assert(spec_has_edge(n, a, b));
        }
        if a == caller && b == callee {
            assert(spec_has_edge(spec_add_edge(edges.drop_first(), caller, callee, location), a, b));
            let w2 = choose|w2: int|
                0 <= w2 < n.drop_first().len() && n.drop_first()[w2].caller == a
                    && n.drop_first()[w2].callee == b;
            assert(n[w2 + 1] == n.drop_first()[w2]);
            assert(spec_has_edge(n, a, b));
        }
        if spec_has_edge(n, a, b) && !(a == caller && b == callee) {
            let w = choose|w: int| 0 <= w < n.len() && n[w].caller == a && n[w].callee == b;
            if w == 0 {
                assert(edges[0].caller == a && edges[0].callee == b);
                assert(spec_has_edge(edges, a, b));
            } else {
                assert(n.drop_first()[w - 1] == n[w]);
                assert(spec_has_edge(n.drop_first(), a, b));
                assert(spec_has_edge(edges.drop_first(), a, b));
                let w2 = choose|w2: int|
                    0 <= w2 < edges.drop_first().len() && edges.drop_first()[w2].caller == a
                        && edges.drop_first()[w2].callee == b;
                assert(edges[w2 + 1] == edges.drop_first()[w2]);
                assert(spec_has_edge(edges, a, b));
            }
        }
    }
}

/// A directed call graph over function indices. At most one edge is kept
/// per ordered pair; re-adding an edge replaces its location.
pub struct CallGraph {
    edges: Vec<Edge>,
}

impl CallGraph {
    /// The edges, in first-insertion order.
    pub closed spec fn edges(&self) -> Seq<Edge> {
        self.edges@
    }

    /// No ordered pair occurs twice.
    pub open spec fn wf(&self) -> bool {
        forall|i: int, j: int|
            0 <= i < j < self.edges().len() ==> !((#[trigger] self.edges()[i]).caller
                == (#[trigger] self.edges()[j]).caller && self.edges()[i].callee
                == self.edges()[j].callee)
    }

    /// An empty graph.
    pub fn new() -> (r: CallGraph)
        ensures
            r.edges() == Seq::<Edge>::empty(),
            r.wf(),
    {
        CallGraph { edges: Vec::new() }
    }

    /// The number of edges.
    pub fn edge_count(&self) -> (r: usize)
        ensures
            r == self.edges().len(),
    {
        self.edges.len()
    }

    /// The edge at position `i`.
    pub fn edge_at(&self, i: usize) -> (r: &Edge)
        requires
            i < self.edges().len(),
        ensures
            *r == self.edges()[i as int],
    {
        &self.edges[i]
    }

    /// Add the edge `caller -> callee`, exactly as `spec_add_edge`
    /// describes: an edge already present keeps its position and takes the
    /// new location; a fresh pair is appended.
    pub fn add_edge(&mut self, caller: usize, callee: usize, location: Option<Location>)
        requires
            old(self).wf(),
        ensures
            final(self).wf(),
            final(self).edges() == spec_add_edge(old(self).edges(), caller, callee, location),
    {
        let mut i: usize = 0;
        while i < self.edges.len()
            invariant
                i <= self.edges().len(),
                *self == *old(self),
                old(self).wf(),
                forall|j: int|
                    0 <= j < i ==> !((#[trigger] self.edges()[j]).caller == caller
                        && self.edges()[j].callee == callee),
            decreases self.edges().len() - i,
        {
            if self.edges[i].caller == caller && self.edges[i].callee == callee {
                self.edges[i] = Edge { caller, callee, location };
                proof {
                    let fe = self.edges@;
                    assert(fe =~= old(self).edges().update(i as int, fe[i as int]));
                    lemma_add_edge_found(old(self).edges(), caller, callee, location, i as int);
                    assert(fe[i as int] == (Edge { caller, callee, location }));
                    assert(fe =~= spec_add_edge(old(self).edges(), caller, callee, location));
                    assert forall|x: int, y: int|
                        0 <= x < y < fe.len() implies !(fe[x].caller == fe[y].caller
                        && fe[x].callee == fe[y].callee) by {
                        assert(fe[x].caller == old(self).edges()[x].caller);
                        assert(fe[x].callee == old(self).edges()[x].callee);
                        assert(fe[y].caller == old(self).edges()[y].caller);
                        assert(fe[y].callee == old(self).edges()[y].callee);
                    }
                }
                return ;
            }
            i += 1;
        }
        self.edges.push(Edge { caller, callee, location });
        proof {
            lemma_add_edge_absent(old(self).edges(), caller, callee, location);
            assert(self.edges@ =~= spec_add_edge(old(self).edges(), caller, callee, location));
        }
    }

    /// Give up the graph as a plain edge list.
    pub fn into_edges(self) -> (r: Vec<Edge>)
        ensures
            r@ == self.edges(),
    {
        self.edges
    }

    /// Propagate capabilities to a fixed point: repeatedly, for every edge,
    /// every capability of the callee that the caller lacks is inserted
    /// into the caller as `Transitive`. Existing entries are never removed
    /// or downgraded; every added entry is justified by a path to a
    /// function that already held the capability; and at the end, along
    /// every edge the caller holds everything its callee holds.
    pub fn bubble_transitive_capabilities(&self, functions: &mut FunctionMap)
        requires
            old(functions).wf(),
            forall|k: int|
                0 <= k < self.edges().len() ==> (#[trigger] self.edges()[k]).caller < old(
                    functions,
                ).funcs().len() && self.edges()[k].callee < old(functions).funcs().len(),
        ensures
            final(functions).wf(),
            final(functions).names() == old(functions).names(),
            spec_shape_preserved(old(functions).funcs(), final(functions).funcs()),
            spec_caps_preserved(old(functions).funcs(), final(functions).funcs()),
            spec_caps_justified(self.edges(), old(functions).funcs(), final(functions).funcs()),
            spec_closed(self.edges(), final(functions).funcs()),
    {
        let ghost o = *old(functions);
        let ghost eds = self.edges();
        proof {
            lemma_total_bound(functions.funcs());
            lemma_total_nonneg(functions.funcs());
        }
        loop
            invariant
                functions.wf(),
                functions.names() == o.names(),
                spec_shape_preserved(o.funcs(), functions.funcs()),
                spec_caps_preserved(o.funcs(), functions.funcs()),
                spec_caps_justified(eds, o.funcs(), functions.funcs()),
                eds == self.edges(),
                forall|k: int|
                    0 <= k < eds.len() ==> (#[trigger] eds[k]).caller < o.funcs().len()
                        && eds[k].callee < o.funcs().len(),
                spec_total_caps(functions.funcs()) <= 18 * o.funcs().len(),
                spec_total_caps(functions.funcs()) >= 0,
            ensures
                functions.wf(),
                functions.names() == o.names(),
                spec_shape_preserved(o.funcs(), functions.funcs()),
                spec_caps_preserved(o.funcs(), functions.funcs()),
                spec_caps_justified(eds, o.funcs(), functions.funcs()),
                spec_closed(eds, functions.funcs()),
            decreases 18 * o.funcs().len() - spec_total_caps(functions.funcs()),
        {
            let ghost pass0 = *functions;
            let mut changed = false;
            let mut k: usize = 0;
            while k < self.edge_count()
                invariant
                    functions.wf(),
                    functions.names() == o.names(),
                    spec_shape_preserved(o.funcs(), functions.funcs()),
                    spec_caps_preserved(o.funcs(), functions.funcs()),
                    spec_caps_justified(eds, o.funcs(), functions.funcs()),
                    eds == self.edges(),
                    k <= eds.len(),
                    forall|kk: int|
                        0 <= kk < eds.len() ==> (#[trigger] eds[kk]).caller < o.funcs().len()
                            && eds[kk].callee < o.funcs().len(),
                    spec_total_caps(functions.funcs()) <= 18 * o.funcs().len(),
                    spec_total_caps(functions.funcs()) >= spec_total_caps(pass0.funcs()),
                    changed ==> spec_total_caps(functions.funcs()) > spec_total_caps(pass0.funcs()),
                    !changed ==> *functions == pass0,
                    !changed ==> forall|kk: int, c: Capability|
                        #![trigger spec_get(functions.funcs()[eds[kk].callee as int].capabilities@, c)]
                        0 <= kk < k && spec_get(
                            functions.funcs()[eds[kk].callee as int].capabilities@,
                            c,
                        ) is Some ==> spec_get(
                            functions.funcs()[eds[kk].caller as int].capabilities@,
                            c,
                        ) is Some,
                decreases eds.len() - k,
            {
                let edge = self.edge_at(k);
                let caller = edge.caller;
                let callee = edge.callee;
                let ghost s1 = *functions;
                let snapshot = functions.caps_of(callee);
                let mut m: usize = 0;
                while m < snapshot.len()
                    invariant
                        functions.wf(),
                        functions.names() == o.names(),
                        spec_shape_preserved(o.funcs(), functions.funcs()),
                        spec_caps_preserved(o.funcs(), functions.funcs()),
                        spec_caps_justified(eds, o.funcs(), functions.funcs()),
                        spec_caps_preserved(s1.funcs(), functions.funcs()),
                        eds == self.edges(),
                        0 <= k < eds.len(),
                        eds[k as int].caller == caller,
                        eds[k as int].callee == callee,
                        caller < o.funcs().len(),
                        callee < o.funcs().len(),
                        m <= snapshot@.len(),
                        snapshot@ == s1.funcs()[callee as int].capabilities@,
                        s1.wf(),
                        s1.funcs().len() == o.funcs().len(),
                        spec_caps_preserved(o.funcs(), s1.funcs()),
                        spec_caps_justified(eds, o.funcs(), s1.funcs()),
                        forall|kk: int|
                            0 <= kk < eds.len() ==> (#[trigger] eds[kk]).caller < o.funcs().len()
                                && eds[kk].callee < o.funcs().len(),
                        spec_total_caps(functions.funcs()) <= 18 * o.funcs().len(),
                        spec_total_caps(functions.funcs()) >= spec_total_caps(pass0.funcs()),
                        changed ==> spec_total_caps(functions.funcs()) > spec_total_caps(
                            pass0.funcs(),
                        ),
                        !changed ==> *functions == pass0 && *functions == s1,
                        !changed ==> forall|kk: int, c: Capability|
                            #![trigger spec_get(functions.funcs()[eds[kk].callee as int].capabilities@, c)]
                            0 <= kk < k && spec_get(
                                functions.funcs()[eds[kk].callee as int].capabilities@,
                                c,
                            ) is Some ==> spec_get(
                                functions.funcs()[eds[kk].caller as int].capabilities@,
                                c,
                            ) is Some,
                        !changed ==> forall|mm: int|
                            0 <= mm < m ==> spec_get(
                                functions.funcs()[caller as int].capabilities@,
                                (#[trigger] snapshot@[mm]).0,
                            ) is Some,
                    decreases snapshot@.len() - m,
                {
                    let (c, _snap_ty) = snapshot.entry_at(m);
                    let have = functions.get_cap(caller, c);
                    if have.is_none() {
                        let ghost before = *functions;
                        proof {
                            // The callee holds `c` now: the snapshot entry
                            // is preserved from the edge-start state.
                            crate::capmap::lemma_sorted_get_at(snapshot@, m as int);
                            assert(spec_get(s1.funcs()[callee as int].capabilities@, c) is Some);
                        }
                        functions.insert_capability_at(caller, c, CapabilityType::Transitive);
                        changed = true;
                        proof {
                            let fpre = before.funcs();
                            let fpost = functions.funcs();
                            assert(fpost =~= fpre.update(caller as int, fpost[caller as int]));
                            lemma_total_update(fpre, caller as int, fpost[caller as int]);
                            lemma_total_bound(fpost);
                            lemma_total_nonneg(pass0.funcs());
                            // Justification for the new entry.
                            if spec_get(o.funcs()[callee as int].capabilities@, c) is Some {
                                assert(spec_reaches(eds, callee as int, callee as int, 0));
                                lemma_reaches_step(eds, k as int, callee as int, 0);
                                assert(spec_justified(eds, o.funcs(), caller as int, c));
                            } else {
                                assert(spec_justified(eds, o.funcs(), callee as int, c));
                                let (j, n) = choose|j: int, n: nat|
                                    0 <= j < o.funcs().len() && spec_reaches(
                                        eds,
                                        callee as int,
                                        j,
                                        n,
                                    ) && spec_get(o.funcs()[j].capabilities@, c) is Some;
                                lemma_reaches_step(eds, k as int, j, n);
                                assert(spec_justified(eds, o.funcs(), caller as int, c));
                            }
                            // Preservation against the older states: the
                            // new entry was absent, existing entries kept.
                            assert(spec_caps_preserved(o.funcs(), fpost));
                            assert(spec_caps_preserved(s1.funcs(), fpost));
                            assert(spec_caps_justified(eds, o.funcs(), fpost));
                        }
                    }
                    m += 1;
                }
                proof {
                    if !changed {
                        assert forall|c: Capability|
                            spec_get(
                                functions.funcs()[callee as int].capabilities@,
                                c,
                            ) is Some implies spec_get(
                            functions.funcs()[caller as int].capabilities@,
                            c,
                        ) is Some by {
                            lemma_get_some_index(
                                functions.funcs()[callee as int].capabilities@,
                                c,
                            );
                            let mm = choose|mm: int|
                                0 <= mm < snapshot@.len() && snapshot@[mm].0 == c;
                            assert(spec_get(
                                functions.funcs()[caller as int].capabilities@,
                                snapshot@[mm].0,
                            ) is Some);
                        }
                    }
                }
                k += 1;
            }
            if !changed {
                proof {
                    assert forall|kk: int, c: Capability|
                        0 <= kk < eds.len() && eds[kk].caller < functions.funcs().len()
                            && eds[kk].callee < functions.funcs().len() && spec_get(
                            functions.funcs()[eds[kk].callee as int].capabilities@,
                            c,
                        ) is Some implies spec_get(
                        functions.funcs()[eds[kk].caller as int].capabilities@,
                        c,
                    ) is Some by {}
                }
                break ;
            }
        }
    }
}

} // verus!
