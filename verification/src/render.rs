//! Rendering a validated DAG as a nested call expression: a leaf renders as
//! `name()`, an inner vertex as `name(child, child, ...)` with the children
//! in arc order.

use vstd::prelude::*;

use crate::graph::{names_unique, Graph, GraphM};
use crate::table::{
    has_unknown_endpoint, shape_of, table_model, tview, wf_table, GraphShape, Node, NodeM,
};
use crate::validate::{
    acyclic, check_acyclic, cycle_at, edges, find_extremal, is_chain, unique_extremal, EdgeDir,
};

verus! {

/// The rendering of vertex `v`, with enough `fuel` for the remaining depth:
/// the vertex's name around the joined renderings of its children.
pub open spec fn render_spec(tm: Seq<NodeM>, v: int, fuel: nat) -> Option<Seq<char>>
    decreases fuel, 0nat,
{
    if fuel == 0 {
        None
    } else {
        match render_args(tm, tm[v].children, 0, (fuel - 1) as nat) {
            Some(args) => Some(tm[v].name + seq!['('] + args + seq![')']),
            None => None,
        }
    }
}

/// The renderings of the children `cs[i..]`, joined by a comma and a space.
pub open spec fn render_args(tm: Seq<NodeM>, cs: Seq<usize>, i: int, fuel: nat) -> Option<
    Seq<char>,
>
    decreases fuel, cs.len() - i + 1,
{
    if i < 0 || i >= cs.len() {
        Some(Seq::empty())
    } else {
        match render_spec(tm, cs[i] as int, fuel) {
            None => None,
            Some(first) => {
                if i == cs.len() - 1 {
                    Some(first)
                } else {
                    match render_args(tm, cs, i + 1, fuel) {
                        None => None,
                        Some(rest) => Some(first + seq![',', ' '] + rest),
                    }
                }
            },
        }
    }
}

/// A duplicate-free sequence of indices below `n` has at most `n` entries.
pub proof fn lemma_distinct_bounded(p: Seq<usize>, n: int)
    requires
        p.no_duplicates(),
        forall|i: int| 0 <= i < p.len() ==> (#[trigger] p[i]) < n,
        0 <= n,
    ensures
        p.len() <= n,
{
    let q = p.map_values(|x: usize| x as int);
    assert(q.no_duplicates()) by {
        assert(forall|i: int| 0 <= i < p.len() ==> q[i] == p[i] as int);
    }
    q.unique_seq_to_set();
    vstd::set_lib::lemma_int_range(0, n);
    assert(q.to_set().subset_of(vstd::set_lib::set_int_range(0, n))) by {
        assert forall|x: int| q.to_set().contains(x) implies vstd::set_lib::set_int_range(
            0,
            n,
        ).contains(x) by {
            let i = choose|i: int| 0 <= i < q.len() && q[i] == x;
            assert(p[i] < n);
        }
    }
    vstd::set_lib::lemma_len_subset(q.to_set(), vstd::set_lib::set_int_range(0, n));
}

/// In an acyclic table, rendering cannot run out of fuel: any vertex reached
/// by a duplicate-free chain `pre` renders once the fuel covers the depth
/// that can still lie below it.
pub proof fn lemma_render_total(tm: Seq<NodeM>, v: usize, fuel: nat, pre: Seq<usize>)
    requires
        wf_table(tm),
        acyclic(tm, EdgeDir::Forward),
        (v as int) < tm.len(),
        is_chain(tm, EdgeDir::Forward, pre),
        pre.no_duplicates(),
        pre.last() == v,
        fuel + pre.len() > tm.len(),
    ensures
        render_spec(tm, v as int, fuel) is Some,
    decreases fuel, 0nat,
{
    lemma_distinct_bounded(pre, tm.len() as int);
    assert(fuel > 0);
    lemma_render_args_total(tm, tm[v as int].children, 0, (fuel - 1) as nat, pre);
}

/// The argument list of the chain's last vertex renders: each child extends
/// the chain without repeating a vertex, or the graph would hold a cycle.
pub proof fn lemma_render_args_total(tm: Seq<NodeM>, cs: Seq<usize>, i: int, fuel: nat, pre: Seq<usize>)
    requires
        wf_table(tm),
        acyclic(tm, EdgeDir::Forward),
        is_chain(tm, EdgeDir::Forward, pre),
        pre.no_duplicates(),
        (pre.last() as int) < tm.len(),
        cs == tm[pre.last() as int].children,
        fuel + pre.len() >= tm.len(),
    ensures
        render_args(tm, cs, i, fuel) is Some,
    decreases fuel, cs.len() - i + 1,
{
    if 0 <= i < cs.len() {
        let v = pre.last();
        let c = cs[i];
        assert(edges(tm[v as int], EdgeDir::Forward).contains(c)) by {
            assert(edges(tm[v as int], EdgeDir::Forward)[i] == c);
        }
        assert((c as int) < tm.len()) by {
            assert(node_in_bounds_of(tm, v as int));
        }
        let pre2 = pre.push(c);
        assert(forall|k: int| 0 <= k < pre.len() ==> pre2[k] == pre[k]);
        assert(is_chain(tm, EdgeDir::Forward, pre2));
        if pre.contains(c) {
            let idx = choose|idx: int| 0 <= idx < pre.len() && pre[idx] == c;
            let q = pre.subrange(idx, pre.len() as int).push(c);
            assert(forall|k: int|
                0 <= k < pre.len() - idx ==> q[k] == pre[k + idx]);
            assert(q[0] == c && q.last() == c && q.len() >= 2);
            assert(is_chain(tm, EdgeDir::Forward, q)) by {
                assert forall|k: int| 0 <= k < q.len() - 1 implies edges(
                    #[trigger] tm[q[k] as int],
                    EdgeDir::Forward,
                ).contains(q[k + 1]) by {
                    if k < q.len() - 2 {
                        assert(q[k] == pre[k + idx] && q[k + 1] == pre[k + idx + 1]);
                    } else {
                        assert(q[k] == pre.last() && q[k + 1] == c);
                    }
                }
            }
            assert(cycle_at(tm, EdgeDir::Forward, c as int));
            assert(false);
        }
        assert(pre2.no_duplicates());
        assert(pre2.last() == c);
        lemma_render_total(tm, c, fuel, pre2);
        if i < cs.len() - 1 {
            lemma_render_args_total(tm, cs, i + 1, fuel, pre);
        }
    }
}

/// Bounds of one table entry, stated through `wf_table`.
spec fn node_in_bounds_of(tm: Seq<NodeM>, v: int) -> bool {
    crate::table::node_in_bounds(tm[v], tm.len() as int)
}

/// Renders vertex `v` with the given fuel, mirroring `render_spec`.
fn render_vertex(tbl: &Vec<Node>, v: usize, fuel: usize) -> (r: Option<String>)
    requires
        wf_table(tview(tbl@)),
        (v as int) < tbl@.len(),
    ensures
        match r {
            Some(s) => render_spec(tview(tbl@), v as int, fuel as nat) == Some(s@),
            None => render_spec(tview(tbl@), v as int, fuel as nat) is None,
        },
    decreases fuel, 0int,
{
    if fuel == 0 {
        return None;
    }
    proof {
        assert(tview(tbl@)[v as int] == tbl@[v as int]@);
        assert(node_in_bounds_of(tview(tbl@), v as int));
    }
    match render_args_exec(tbl, &tbl[v].children, 0, fuel - 1) {
        None => None,
        Some(args) => {
            let mut s = tbl[v].name.clone();
            s.append("(");
            s.append(args.as_str());
            s.append(")");
            proof {
                reveal_strlit("(");
                reveal_strlit(")");
                assert(s@ =~= tview(tbl@)[v as int].name + seq!['('] + args@ + seq![')']);
            }
            Some(s)
        },
    }
}

/// Renders the suffix `cs[i..]` of a child list, joined by `", "`.
fn render_args_exec(tbl: &Vec<Node>, cs: &Vec<usize>, i: usize, fuel: usize) -> (r: Option<String>)
    requires
        wf_table(tview(tbl@)),
        forall|j: int| 0 <= j < cs@.len() ==> (#[trigger] cs@[j]) < tbl@.len(),
    ensures
        match r {
            Some(s) => render_args(tview(tbl@), cs@, i as int, fuel as nat) == Some(s@),
            None => render_args(tview(tbl@), cs@, i as int, fuel as nat) is None,
        },
    decreases fuel, cs@.len() - i + 1,
{
    if i >= cs.len() {
        let s = String::new();
        proof {
            assert(s@ =~= Seq::<char>::empty());
        }
        return Some(s);
    }
    let c = cs[i];
    match render_vertex(tbl, c, fuel) {
        None => None,
        Some(first) => {
            if i == cs.len() - 1 {
                Some(first)
            } else {
                match render_args_exec(tbl, cs, i + 1, fuel) {
                    None => None,
                    Some(rest) => {
                        let mut s = first;
                        s.append(", ");
                        s.append(rest.as_str());
                        proof {
                            reveal_strlit(", ");
                            assert(s@ =~= render_args(
                                tview(tbl@),
                                cs@,
                                i as int,
                                fuel as nat,
                            ).unwrap());
                        }
                        Some(s)
                    },
                }
            }
        },
    }
}

/// The chosen index of the unique extremal vertex.
pub open spec fn the_extremal(tm: Seq<NodeM>, d: EdgeDir) -> int {
    choose|v: int| unique_extremal(tm, d, v)
}

/// What `get_call_string` returns, as a function of the graph alone: `None`
/// unless the vertex names are unique, every arc endpoint is a vertex, the
/// graph is acyclic along child edges and has a unique parentless root;
/// otherwise the rendering of that root.
pub open spec fn call_string_spec(g: GraphM) -> Option<Seq<char>> {
    let sh = GraphShape { verts: g.verts, arcs: g.arcs };
    let tm = table_model(sh, None);
    if names_unique(g.verts) && !has_unknown_endpoint(sh) && acyclic(tm, EdgeDir::Forward)
        && (exists|v: int| unique_extremal(tm, EdgeDir::Forward, v)) {
        render_spec(tm, the_extremal(tm, EdgeDir::Forward), tm.len() as nat)
    } else {
        None
    }
}

/// Builds the node table for `g`, validates it (acyclic along child edges,
/// unique parentless root), and renders the call expression from the root.
/// Returns `None` on any repeated vertex name, unknown arc endpoint, cycle,
/// or missing or ambiguous root.
pub fn get_call_string(g: &Graph) -> (r: Option<String>)
    ensures
        match r {
            Some(s) => call_string_spec(g@) == Some(s@),
            None => call_string_spec(g@) is None,
        },
{
    if !g.check_names_unique() {
        return None;
    }
    let tbl = match crate::table::build(g, None) {
        Ok(t) => t,
        Err(_) => {
            return None;
        },
    };
    let ghost tm = table_model(shape_of(g), None);
    if check_acyclic(&tbl, EdgeDir::Forward).is_err() {
        return None;
    }
    let root = match find_extremal(&tbl, EdgeDir::Forward) {
        Ok(v) => v,
        Err(_) => {
            return None;
        },
    };
    proof {
        assert(unique_extremal(tm, EdgeDir::Forward, root as int));
        assert(the_extremal(tm, EdgeDir::Forward) == root as int) by {
            let c = the_extremal(tm, EdgeDir::Forward);
            assert(unique_extremal(tm, EdgeDir::Forward, c));
        }
        let pre = seq![root];
        assert(is_chain(tm, EdgeDir::Forward, pre));
        assert(pre.no_duplicates());
        lemma_render_total(tm, root, tbl@.len() as nat, pre);
    }
    let s = render_vertex(&tbl, root, tbl.len());
    proof {
        assert(s is Some);
    }
    Some(s.unwrap())
}

} // verus!
