//! Structural validation of the node table: no vertex may reach itself
//! through the traversal edges, and exactly one vertex must be extremal
//! (without edges against the traversal direction).

use vstd::pervasive::VecAdditionalExecFns;
use vstd::prelude::*;

use crate::graph::GraphError;
use crate::table::{tview, wf_table, Node, NodeM};

verus! {

/// Which edges a traversal follows: `Forward` walks child lists from the
/// parentless root down; `Backward` walks parent lists from the childless
/// sink up.
#[derive(PartialEq, Eq, Structural, Clone, Copy, Debug)]
pub enum EdgeDir {
    Forward,
    Backward,
}

/// The edge list a traversal in direction `d` follows out of `n`.
pub open spec fn edges(n: NodeM, d: EdgeDir) -> Seq<usize> {
    match d {
        EdgeDir::Forward => n.children,
        EdgeDir::Backward => n.parents,
    }
}

/// The edges pointing against direction `d` into `n`; a vertex without any
/// is the extremal vertex the traversal starts from.
pub open spec fn counter_edges(n: NodeM, d: EdgeDir) -> Seq<usize> {
    match d {
        EdgeDir::Forward => n.parents,
        EdgeDir::Backward => n.children,
    }
}

/// A walk along `d`-edges: non-empty, inside the table, each step an edge.
pub open spec fn is_chain(tbl: Seq<NodeM>, d: EdgeDir, p: Seq<usize>) -> bool {
    &&& p.len() >= 1
    &&& forall|i: int| 0 <= i < p.len() ==> (#[trigger] p[i]) < tbl.len()
    &&& forall|i: int|
        0 <= i < p.len() - 1 ==> edges(#[trigger] tbl[p[i] as int], d).contains(p[i + 1])
}

/// Vertex `v` lies on a `d`-cycle: some walk of at least one step leads from
/// `v` back to `v`.
pub open spec fn cycle_at(tbl: Seq<NodeM>, d: EdgeDir, v: int) -> bool {
    exists|p: Seq<usize>|
        is_chain(tbl, d, p) && p.len() >= 2 && p[0] as int == v && p.last() as int == v
}

/// No vertex lies on a `d`-cycle.
pub open spec fn acyclic(tbl: Seq<NodeM>, d: EdgeDir) -> bool {
    forall|v: int| 0 <= v < tbl.len() ==> !cycle_at(tbl, d, v)
}

/// All of `w`'s `d`-edges lead to visited vertices, and none leads to
/// `root`.
pub open spec fn node_done(tbl: Seq<NodeM>, d: EdgeDir, w: int, vis: Seq<bool>, root: usize) -> bool {
    forall|j: int|
        0 <= j < edges(tbl[w], d).len() ==> vis[(#[trigger] edges(tbl[w], d)[j]) as int] && edges(
            tbl[w],
            d,
        )[j] != root
}

/// How many entries are still false; the termination measure of the
/// depth-first search.
pub open spec fn count_false(s: Seq<bool>) -> nat
    decreases s.len(),
{
    if s.len() == 0 {
        0
    } else {
        count_false(s.drop_last()) + if s.last() {
            0nat
        } else {
            1nat
        }
    }
}

proof fn lemma_count_false_mono(a: Seq<bool>, b: Seq<bool>)
    requires
        a.len() == b.len(),
        forall|i: int| 0 <= i < a.len() && a[i] ==> b[i],
    ensures
        count_false(b) <= count_false(a),
        (exists|i: int| 0 <= i < a.len() && !a[i] && b[i]) ==> count_false(b) < count_false(a),
    decreases a.len(),
{
    if a.len() > 0 {
        let ap = a.drop_last();
        let bp = b.drop_last();
        assert(forall|i: int| 0 <= i < ap.len() && ap[i] ==> bp[i]) by {
            assert(forall|i: int| 0 <= i < ap.len() ==> ap[i] == a[i] && bp[i] == b[i]);
        }
        lemma_count_false_mono(ap, bp);
        if exists|i: int| 0 <= i < a.len() && !a[i] && b[i] {
            let i = choose|i: int| 0 <= i < a.len() && !a[i] && b[i];
            if i < a.len() - 1 {
                assert(!ap[i] && bp[i]);
                assert(count_false(bp) < count_false(ap));
            }
        }
    }
}

/// Borrows the edge list the traversal follows.
fn edge_list<'a>(n: &'a Node, d: EdgeDir) -> (r: &'a Vec<usize>)
    ensures
        r@ == edges(n@, d),
{
    match d {
        EdgeDir::Forward => &n.children,
        EdgeDir::Backward => &n.parents,
    }
}

/// Borrows the edge list against the traversal direction.
fn counter_edge_list<'a>(n: &'a Node, d: EdgeDir) -> (r: &'a Vec<usize>)
    ensures
        r@ == counter_edges(n@, d),
{
    match d {
        EdgeDir::Forward => &n.parents,
        EdgeDir::Backward => &n.children,
    }
}

/// A walk along `d`-edges leads from `a` to `b`.
pub open spec fn reach(tbl: Seq<NodeM>, d: EdgeDir, a: usize, b: usize) -> bool {
    exists|p: Seq<usize>| is_chain(tbl, d, p) && p[0] == a && p.last() == b
}

/// One more edge extends a walk.
proof fn lemma_reach_step(tbl: Seq<NodeM>, d: EdgeDir, a: usize, b: usize, c: usize)
    requires
        reach(tbl, d, a, b),
        (c as int) < tbl.len(),
        edges(tbl[b as int], d).contains(c),
    ensures
        reach(tbl, d, a, c),
{
    let p = choose|p: Seq<usize>| is_chain(tbl, d, p) && p[0] == a && p.last() == b;
    let q = p.push(c);
    assert(forall|i: int| 0 <= i < p.len() ==> q[i] == p[i]);
    assert(q.last() == c);
    assert(is_chain(tbl, d, q));
}

/// Worklist depth-first search: marks everything reachable from `root` and
/// reports whether any edge re-enters `root`. A marked vertex is never
/// re-explored, but the comparison with `root` happens on every edge, so a
/// path back to `root` through marked vertices is still found.
fn cycle_through(tbl: &Vec<Node>, d: EdgeDir, root: usize) -> (r: bool)
    requires
        wf_table(tview(tbl@)),
        root < tview(tbl@).len(),
    ensures
        r == cycle_at(tview(tbl@), d, root as int),
{
    let n = tbl.len();
    let mut visited = false_vec(n);
    let mut stack: Vec<usize> = Vec::new();
    stack.push(root);
    proof {
        let p0 = seq![root];
        assert(is_chain(tview(tbl@), d, p0) && p0[0] == root && p0.last() == root);
        assert(reach(tview(tbl@), d, root, root));
    }
    loop
        invariant
            n == tview(tbl@).len(),
            wf_table(tview(tbl@)),
            root < n,
            visited@.len() == n,
            forall|i: int| 0 <= i < stack@.len() ==> (#[trigger] stack@[i]) < n,
            forall|i: int| 0 <= i < stack@.len() ==> reach(tview(tbl@), d, root, #[trigger] stack@[i]),
            forall|w: int| 0 <= w < n && visited@[w] ==> reach(tview(tbl@), d, root, w as usize),
            forall|w: int, j: int|
                0 <= w < n && visited@[w] && 0 <= j < edges(tview(tbl@)[w], d).len() ==> (#[trigger] edges(
                    tview(tbl@)[w],
                    d,
                )[j]) != root && (visited@[edges(tview(tbl@)[w], d)[j] as int] || stack@.contains(
                    edges(tview(tbl@)[w], d)[j],
                )),
            visited@[root as int] || stack@.contains(root),
        decreases count_false(visited@), stack@.len(),
    {
        let ghost stack_before = stack@;
        let w = match stack.pop() {
            Some(w) => w,
            None => {
                proof {
                    assert(stack_before.contains(root) ==> false);
                    assert forall|x: int| 0 <= x < n && visited@[x] implies node_done(
                        tview(tbl@),
                        d,
                        x,
                        visited@,
                        root,
                    ) by {
                        assert forall|j: int|
                            0 <= j < edges(tview(tbl@)[x], d).len() implies visited@[(#[trigger] edges(
                            tview(tbl@)[x],
                            d,
                        )[j]) as int] && edges(tview(tbl@)[x], d)[j] != root by {
                            assert(stack_before.contains(edges(tview(tbl@)[x], d)[j]) ==> false);
                        }
                    }
                    lemma_closed_no_cycle(tview(tbl@), d, visited@, root);
                }
                return false;
            },
        };
        proof {
            assert(stack_before[stack_before.len() - 1] == w);
            assert(stack_before.contains(w));
        }
        if !visited[w] {
            let ghost vis0 = visited@;
            visited.set(w, true);
            proof {
                assert(visited@ =~= vis0.update(w as int, true));
                lemma_count_false_mono(vis0, visited@);
                assert(!vis0[w as int] && visited@[w as int]);
                assert(count_false(visited@) < count_false(vis0));
                // popping `w` keeps every earlier closure obligation: an edge
                // that only the popped entry covered now points at `w`, which
                // is marked
                assert forall|x: int, jj: int|
                    0 <= x < n && visited@[x] && x != w && 0 <= jj < edges(tview(tbl@)[x], d).len()
                    implies (#[trigger] edges(tview(tbl@)[x], d)[jj]) != root && (visited@[edges(
                    tview(tbl@)[x],
                    d,
                )[jj] as int] || stack@.contains(edges(tview(tbl@)[x], d)[jj])) by {
                    let e = edges(tview(tbl@)[x], d)[jj];
                    assert(vis0[x]);
                    if !visited@[e as int] && stack_before.contains(e) {
                        let i = choose|i: int|
                            0 <= i < stack_before.len() && stack_before[i] == e;
                        if i < stack_before.len() - 1 {
                            assert(stack@[i] == e);
                        } else {
                            assert(e == w);
                        }
                    }
                }
                if !visited@[root as int] && stack_before.contains(root) {
                    let i = choose|i: int|
                        0 <= i < stack_before.len() && stack_before[i] == root;
                    if i < stack_before.len() - 1 {
                        assert(stack@[i] == root);
                    } else {
                        assert(root == w);
                    }
                }
            }
            let node = &tbl[w];
            let es = edge_list(node, d);
            let m = es.len();
            for j in 0..m
                invariant
                    n == tview(tbl@).len(),
                    wf_table(tview(tbl@)),
                    root < n,
                    w < n,
                    visited@.len() == n,
                    visited@[w as int],
                    m == es@.len(),
                    es@ == edges(tview(tbl@)[w as int], d),
                    forall|i: int| 0 <= i < stack@.len() ==> (#[trigger] stack@[i]) < n,
                    forall|i: int|
                        0 <= i < stack@.len() ==> reach(tview(tbl@), d, root, #[trigger] stack@[i]),
                    forall|x: int| 0 <= x < n && visited@[x] ==> reach(tview(tbl@), d, root, x as usize),
                    forall|x: int, jj: int|
                        0 <= x < n && visited@[x] && x != w && 0 <= jj < edges(tview(tbl@)[x], d).len()
                            ==> (#[trigger] edges(tview(tbl@)[x], d)[jj]) != root && (visited@[edges(
                            tview(tbl@)[x],
                            d,
                        )[jj] as int] || stack@.contains(edges(tview(tbl@)[x], d)[jj])),
                    forall|jj: int|
                        0 <= jj < j ==> (#[trigger] es@[jj]) != root && (visited@[es@[jj] as int]
                            || stack@.contains(es@[jj])),
                    visited@[root as int] || stack@.contains(root),
            {
                let c = es[j];
                proof {
                    assert(es@.contains(es@[j as int]));
                    assert(c < n);
                }
                if c == root {
                    proof {
                        let p = choose|p: Seq<usize>|
                            is_chain(tview(tbl@), d, p) && p[0] == root && p.last() == w;
                        let q = p.push(root);
                        assert(forall|i: int| 0 <= i < p.len() ==> q[i] == p[i]);
                        assert(edges(tview(tbl@)[w as int], d).contains(root));
                        assert(is_chain(tview(tbl@), d, q));
                        assert(q.len() >= 2 && q[0] == root && q.last() == root);
                    }
                    return true;
                }
                let ghost stack_old = stack@;
                stack.push(c);
                proof {
                    lemma_reach_step(tview(tbl@), d, root, w, c);
                    assert forall|e: usize| stack_old.contains(e) implies stack@.contains(
                        e,
                    ) by {
                        let i = choose|i: int| 0 <= i < stack_old.len() && stack_old[i] == e;
                        assert(stack@[i] == e);
                    }
                    assert(stack@[stack@.len() - 1] == c);
                    assert(stack@.contains(c));
                }
            }
        } else {
            proof {
                assert forall|x: int, jj: int|
                    0 <= x < n && visited@[x] && 0 <= jj < edges(tview(tbl@)[x], d).len() implies (
                #[trigger] edges(tview(tbl@)[x], d)[jj]) != root && (visited@[edges(tview(tbl@)[x], d)[jj] as int]
                    || stack@.contains(edges(tview(tbl@)[x], d)[jj])) by {
                    let e = edges(tview(tbl@)[x], d)[jj];
                    if !visited@[e as int] && stack_before.contains(e) {
                        let i = choose|i: int| 0 <= i < stack_before.len() && stack_before[i] == e;
                        if i < stack_before.len() - 1 {
                            assert(stack@[i] == e);
                        } else {
                            assert(e == w);
                        }
                    }
                }
                if !visited@[root as int] && stack_before.contains(root) {
                    let i = choose|i: int|
                        0 <= i < stack_before.len() && stack_before[i] == root;
                    if i < stack_before.len() - 1 {
                        assert(stack@[i] == root);
                    } else {
                        assert(root == w);
                    }
                }
            }
        }
    }
}

/// Proves the search complete: a closed visited set whose members never
/// point at `v` rules every cycle through `v` out.
proof fn lemma_closed_no_cycle(tbl: Seq<NodeM>, d: EdgeDir, vis: Seq<bool>, v: usize)
    requires
        wf_table(tbl),
        (v as int) < tbl.len(),
        vis.len() == tbl.len(),
        vis[v as int],
        forall|w: int| 0 <= w < tbl.len() && vis[w] ==> node_done(tbl, d, w, vis, v),
    ensures
        !cycle_at(tbl, d, v as int),
{
    if cycle_at(tbl, d, v as int) {
        let p = choose|p: Seq<usize>|
            is_chain(tbl, d, p) && p.len() >= 2 && p[0] as int == v as int && p.last() as int
                == v as int;
        lemma_chain_stays(tbl, d, vis, v, p, p.len() - 2);
        let w = p[p.len() - 2];
        assert(edges(tbl[w as int], d).contains(p[p.len() - 1]));
        let jj = choose|jj: int|
            0 <= jj < edges(tbl[w as int], d).len() && edges(tbl[w as int], d)[jj] == p[p.len()
                - 1];
        assert(node_done(tbl, d, w as int, vis, v));
    }
}

/// Every prefix of a chain out of a closed visited set stays inside it.
proof fn lemma_chain_stays(tbl: Seq<NodeM>, d: EdgeDir, vis: Seq<bool>, v: usize, p: Seq<usize>, i: int)
    requires
        wf_table(tbl),
        vis.len() == tbl.len(),
        vis[v as int],
        (v as int) < tbl.len(),
        forall|w: int| 0 <= w < tbl.len() && vis[w] ==> node_done(tbl, d, w, vis, v),
        is_chain(tbl, d, p),
        p[0] == v,
        0 <= i < p.len(),
    ensures
        vis[p[i] as int],
    decreases i,
{
    if i > 0 {
        lemma_chain_stays(tbl, d, vis, v, p, i - 1);
        let w = p[i - 1];
        assert(edges(tbl[w as int], d).contains(p[i]));
        let jj = choose|jj: int|
            0 <= jj < edges(tbl[w as int], d).len() && edges(tbl[w as int], d)[jj] == p[i];
        assert(node_done(tbl, d, w as int, vis, v));
        assert(vis[edges(tbl[w as int], d)[jj] as int]);
    }
}

/// A vector of `n` unset marks.
fn false_vec(n: usize) -> (r: Vec<bool>)
    ensures
        r@.len() == n,
        forall|i: int| 0 <= i < n ==> !(#[trigger] r@[i]),
{
    let mut r: Vec<bool> = Vec::new();
    for i in 0..n
        invariant
            r@.len() == i,
            forall|p: int| 0 <= p < i ==> !(#[trigger] r@[p]),
    {
        r.push(false);
    }
    r
}

/// Checks that no vertex can reach itself along `d`-edges, trying every
/// starting vertex with a fresh visited set.
pub fn check_acyclic(tbl: &Vec<Node>, d: EdgeDir) -> (r: Result<(), GraphError>)
    requires
        wf_table(tview(tbl@)),
    ensures
        r is Ok <==> acyclic(tview(tbl@), d),
        r is Err ==> r == Err::<(), GraphError>(GraphError::CycleDetected),
{
    let n = tbl.len();
    for v in 0..n
        invariant
            n == tview(tbl@).len(),
            wf_table(tview(tbl@)),
            forall|w: int| 0 <= w < v ==> !cycle_at(tview(tbl@), d, w),
    {
        if cycle_through(tbl, d, v) {
            return Err(GraphError::CycleDetected);
        }
    }
    Ok(())
}

/// Whether vertex `v` is extremal for direction `d`: no edges enter it
/// against the traversal, so a `d`-traversal must start there.
pub open spec fn is_extremal(tbl: Seq<NodeM>, d: EdgeDir, v: int) -> bool {
    counter_edges(tbl[v], d).len() == 0
}

/// There is exactly one extremal vertex, namely `v`.
pub open spec fn unique_extremal(tbl: Seq<NodeM>, d: EdgeDir, v: int) -> bool {
    &&& 0 <= v < tbl.len()
    &&& is_extremal(tbl, d, v)
    &&& forall|w: int| 0 <= w < tbl.len() && #[trigger] is_extremal(tbl, d, w) ==> w == v
}

/// Finds the unique extremal vertex for direction `d`, or reports
/// `NoUniqueRoot` when there are none or several.
pub fn find_extremal(tbl: &Vec<Node>, d: EdgeDir) -> (r: Result<usize, GraphError>)
    ensures
        match r {
            Ok(v) => unique_extremal(tview(tbl@), d, v as int),
            Err(e) => {
                &&& e == GraphError::NoUniqueRoot
                &&& forall|v: int| !unique_extremal(tview(tbl@), d, v)
            },
        },
{
    let n = tbl.len();
    let mut found: Option<usize> = None;
    for v in 0..n
        invariant
            n == tview(tbl@).len(),
            match found {
                Some(f) => f < v && is_extremal(tview(tbl@), d, f as int) && (forall|w: int|
                    0 <= w < v && #[trigger] is_extremal(tview(tbl@), d, w) ==> w == f as int),
                None => forall|w: int| 0 <= w < v ==> !(#[trigger] is_extremal(tview(tbl@), d, w)),
            },
    {
        if counter_edge_list(&tbl[v], d).len() == 0 {
            match found {
                Some(f) => {
                    proof {
                        assert forall|w: int| !unique_extremal(tview(tbl@), d, w) by {
                            if unique_extremal(tview(tbl@), d, w) {
                                assert(is_extremal(tview(tbl@), d, f as int));
                                assert(is_extremal(tview(tbl@), d, v as int));
                            }
                        }
                    }
                    return Err(GraphError::NoUniqueRoot);
                },
                None => {
                    found = Some(v);
                },
            }
        }
    }
    match found {
        Some(f) => Ok(f),
        None => {
            proof {
                assert forall|w: int| !unique_extremal(tview(tbl@), d, w) by {
                    if unique_extremal(tview(tbl@), d, w) {
                        assert(is_extremal(tview(tbl@), d, w));
                    }
                }
            }
            Err(GraphError::NoUniqueRoot)
        },
    }
}

} // verus!
