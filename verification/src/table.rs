//! The node table: one entry per vertex, with explicit child and parent
//! index lists derived once from the arc list, and an optional per-vertex
//! operation payload.

use vstd::prelude::*;

use crate::graph::{names_unique, names_view, ArcM, Graph, GraphError};

verus! {

/// The computation a vertex performs during numeric evaluation. A constant
/// carries its value as the bit pattern of an IEEE 754 double, so the
/// verified engine never touches floating point itself; callers convert with
/// `f64::to_bits` / `f64::from_bits`.
#[derive(PartialEq, Eq, Structural, Clone, Copy, Debug)]
pub enum Operation {
    /// Natural exponential, exactly one operand.
    Exp,
    /// Sum, at least two operands.
    Plus,
    /// Product, at least two operands.
    Mult,
    /// A constant, carried as `f64` bits.
    Const(u64),
}

/// A vertex after building: its name, its children and parents as indices
/// into the table, and its operation, when a table of operations was given.
#[derive(Debug)]
pub struct Node {
    pub name: String,
    pub children: Vec<usize>,
    pub parents: Vec<usize>,
    pub op: Option<Operation>,
}

/// The mathematical shape of a node.
#[verifier::ext_equal]
pub ghost struct NodeM {
    pub name: Seq<char>,
    pub children: Seq<usize>,
    pub parents: Seq<usize>,
    pub op: Option<Operation>,
}

impl View for Node {
    type V = NodeM;

    open spec fn view(&self) -> NodeM {
        NodeM {
            name: self.name@,
            children: self.children@,
            parents: self.parents@,
            op: self.op,
        }
    }
}

/// View of a node table as a sequence of node models.
pub open spec fn tview(tbl: Seq<Node>) -> Seq<NodeM> {
    tbl.map_values(|n: Node| n@)
}

/// The first index at or after `i` holding name `x`, or `-1`.
pub open spec fn name_index_from(vs: Seq<Seq<char>>, x: Seq<char>, i: int) -> int
    decreases vs.len() - i,
{
    if i < 0 || i >= vs.len() {
        -1
    } else if vs[i] == x {
        i
    } else {
        name_index_from(vs, x, i + 1)
    }
}

/// The index of name `x` in the vertex list, or `-1` when absent.
pub open spec fn name_index(vs: Seq<Seq<char>>, x: Seq<char>) -> int {
    name_index_from(vs, x, 0)
}

pub proof fn lemma_name_index_from(vs: Seq<Seq<char>>, x: Seq<char>, i: int)
    requires
        0 <= i <= vs.len(),
    ensures
        name_index_from(vs, x, i) == -1 ==> (forall|p: int| i <= p < vs.len() ==> vs[p] != x),
        name_index_from(vs, x, i) != -1 ==> i <= name_index_from(vs, x, i) < vs.len()
            && vs[name_index_from(vs, x, i)] == x && (forall|p: int|
            i <= p < name_index_from(vs, x, i) ==> vs[p] != x),
    decreases vs.len() - i,
{
    if i < vs.len() && vs[i] != x {
        lemma_name_index_from(vs, x, i + 1);
    }
}

/// The children of vertex `v` contributed by the first `k` arcs: the target
/// index of every arc leaving `v`, in arc-list order. With arcs sorted by
/// ascending order this is the ascending-order sibling list.
pub open spec fn child_seq(arcs: Seq<ArcM>, vs: Seq<Seq<char>>, k: int, v: int) -> Seq<usize>
    decreases k,
{
    if k <= 0 {
        Seq::empty()
    } else {
        let rest = child_seq(arcs, vs, k - 1, v);
        if arcs[k - 1].from == vs[v] {
            rest.push(name_index(vs, arcs[k - 1].to) as usize)
        } else {
            rest
        }
    }
}

/// The parents of vertex `v` contributed by the first `k` arcs: the source
/// index of every arc entering `v`, in arc-list order.
pub open spec fn parent_seq(arcs: Seq<ArcM>, vs: Seq<Seq<char>>, k: int, v: int) -> Seq<usize>
    decreases k,
{
    if k <= 0 {
        Seq::empty()
    } else {
        let rest = parent_seq(arcs, vs, k - 1, v);
        if arcs[k - 1].to == vs[v] {
            rest.push(name_index(vs, arcs[k - 1].from) as usize)
        } else {
            rest
        }
    }
}

/// The first operation listed for name `x`, scanning from entry `i`.
pub open spec fn op_lookup_from(
    t: Seq<(String, Operation)>,
    x: Seq<char>,
    i: int,
) -> Option<Operation>
    decreases t.len() - i,
{
    if i < 0 || i >= t.len() {
        None
    } else if t[i].0@ == x {
        Some(t[i].1)
    } else {
        op_lookup_from(t, x, i + 1)
    }
}

/// The operation the table assigns to name `x`: the first entry with that
/// name, or `None`.
pub open spec fn op_lookup(t: Seq<(String, Operation)>, x: Seq<char>) -> Option<Operation> {
    op_lookup_from(t, x, 0)
}

/// Every child and parent index stays inside the table.
pub open spec fn node_in_bounds(n: NodeM, len: int) -> bool {
    &&& forall|j: int| 0 <= j < n.children.len() ==> (#[trigger] n.children[j]) < len
    &&& forall|j: int| 0 <= j < n.parents.len() ==> (#[trigger] n.parents[j]) < len
}

pub open spec fn wf_table(tm: Seq<NodeM>) -> bool {
    forall|v: int| 0 <= v < tm.len() ==> node_in_bounds(#[trigger] tm[v], tm.len() as int)
}

/// The node table a graph shape determines, one model node per vertex: the
/// unique result a successful `build` returns.
pub open spec fn table_model(
    g: GraphShape,
    ops: Option<Seq<(String, Operation)>>,
) -> Seq<NodeM> {
    Seq::new(
        g.verts.len(),
        |v: int|
            NodeM {
                name: g.verts[v],
                children: child_seq(g.arcs, g.verts, g.arcs.len() as int, v),
                parents: parent_seq(g.arcs, g.verts, g.arcs.len() as int, v),
                op: match ops {
                    Some(t) => op_lookup(t, g.verts[v]),
                    None => None::<Operation>,
                },
            },
    )
}

/// The name and arc material a table is built from.
pub ghost struct GraphShape {
    pub verts: Seq<Seq<char>>,
    pub arcs: Seq<ArcM>,
}

/// An arc endpoint outside the vertex list.
pub open spec fn has_unknown_endpoint(g: GraphShape) -> bool {
    exists|k: int|
        0 <= k < g.arcs.len() && (name_index(g.verts, (#[trigger] g.arcs[k]).from) == -1
            || name_index(g.verts, g.arcs[k].to) == -1)
}

/// A vertex without an operation entry.
pub open spec fn has_missing_op(g: GraphShape, t: Seq<(String, Operation)>) -> bool {
    exists|v: int| 0 <= v < g.verts.len() && op_lookup(t, #[trigger] g.verts[v]) is None
}

/// The ghost shape of a graph value.
pub open spec fn shape_of(g: &Graph) -> GraphShape {
    GraphShape { verts: g@.verts, arcs: g@.arcs }
}

/// Finds a name in the vertex list, first occurrence.
fn find_vertex(vs: &Vec<String>, x: &String) -> (r: Option<usize>)
    ensures
        match r {
            Some(idx) => name_index(names_view(vs@), x@) == idx as int,
            None => name_index(names_view(vs@), x@) == -1,
        },
{
    let n = vs.len();
    let ghost nv = names_view(vs@);
    for i in 0..n
        invariant
            n == vs.len(),
            nv == names_view(vs@),
            forall|p: int| 0 <= p < i ==> nv[p] != x@,
    {
        proof {
            assert(nv[i as int] == vs@[i as int]@);
        }
        if vs[i] == *x {
            proof {
                lemma_name_index_from(nv, x@, 0);
                if name_index(nv, x@) == -1 {
                    assert(false);
                }
                if name_index(nv, x@) < i {
                    assert(nv[name_index(nv, x@)] != x@);
                }
                if name_index(nv, x@) > i {
                    assert(nv[i as int] != x@);
                }
            }
            return Some(i);
        }
    }
    proof {
        lemma_name_index_from(nv, x@, 0);
        if name_index(nv, x@) != -1 {
            assert(nv[name_index(nv, x@)] != x@);
        }
    }
    None
}

/// Finds the first operation entry for a name.
fn find_op(t: &Vec<(String, Operation)>, x: &String) -> (r: Option<Operation>)
    ensures
        r == op_lookup(t@, x@),
{
    let n = t.len();
    for i in 0..n
        invariant
            n == t.len(),
            op_lookup(t@, x@) == op_lookup_from(t@, x@, i as int),
    {
        if t[i].0 == *x {
            return Some(t[i].1);
        }
    }
    None
}

/// Builds the node table for a graph: one node per vertex, child and parent
/// lists in arc order, and the vertex's operation when a table is supplied.
/// Fails with `MissingOperation` when a table is supplied but lacks some
/// vertex, otherwise with `UnknownVertex` when an arc endpoint is not a
/// vertex.
pub fn build(g: &Graph, ops: Option<&Vec<(String, Operation)>>) -> (r: Result<
    Vec<Node>,
    GraphError,
>)
    requires
        names_unique(g@.verts),
    ensures
        match r {
            Ok(tbl) => {
                &&& !(ops matches Some(t) && has_missing_op(shape_of(g), t@))
                &&& !has_unknown_endpoint(shape_of(g))
                &&& tview(tbl@) == table_model(
                    shape_of(g),
                    match ops {
                        Some(t) => Some(t@),
                        None => None,
                    },
                )
                &&& wf_table(tview(tbl@))
            },
            Err(e) => {
                &&& (e == GraphError::MissingOperation || e == GraphError::UnknownVertex)
                &&& e == GraphError::MissingOperation <==> (ops matches Some(t)
                    && has_missing_op(shape_of(g), t@))
                &&& e == GraphError::UnknownVertex <==> (!(ops matches Some(t)
                    && has_missing_op(shape_of(g), t@)) && has_unknown_endpoint(shape_of(g)))
            },
        },
{
    let nv = g.vertices.len();
    let na = g.arcs.len();
    let ghost sh = shape_of(g);
    let ghost old_ops = ops;

    // A supplied operation table must cover every vertex.
    match ops {
        Some(t) => {
            for v in 0..nv
                invariant
                    nv == g.vertices.len(),
                    sh == shape_of(g),
                    ops == Some(t),
                    forall|p: int| 0 <= p < v ==> op_lookup(t@, #[trigger] sh.verts[p]) is Some,
            {
                proof {
                    assert(sh.verts[v as int] == g.vertices@[v as int]@);
                }
                if find_op(t, &g.vertices[v]).is_none() {
                    proof {
                        assert(ops is Some);
                        assert(op_lookup(t@, sh.verts[v as int]) is None);
                        assert(has_missing_op(sh, t@));
                    }
                    return Err(GraphError::MissingOperation);
                }
            }
        },
        None => {},
    }

    // Every arc endpoint must name a vertex.
    for k in 0..na
        invariant
            na == g.arcs.len(),
            sh == shape_of(g),
            ops == old_ops,
            match ops {
                Some(t2) => !has_missing_op(sh, t2@),
                None => true,
            },
            forall|p: int|
                0 <= p < k ==> name_index(sh.verts, (#[trigger] sh.arcs[p]).from) != -1
                    && name_index(sh.verts, sh.arcs[p].to) != -1,
    {
        proof {
            assert(sh.arcs[k as int] == g.arcs@[k as int]@);
        }
        if find_vertex(&g.vertices, &g.arcs[k].from).is_none() {
            return Err(GraphError::UnknownVertex);
        }
        if find_vertex(&g.vertices, &g.arcs[k].to).is_none() {
            return Err(GraphError::UnknownVertex);
        }
    }

    let mut tbl: Vec<Node> = Vec::new();
    for v in 0..nv
        invariant
            nv == g.vertices.len(),
            na == g.arcs.len(),
            sh == shape_of(g),
            ops == old_ops,
            match ops {
                Some(t2) => !has_missing_op(sh, t2@),
                None => true,
            },
            forall|p: int|
                0 <= p < na ==> name_index(sh.verts, (#[trigger] sh.arcs[p]).from) != -1
                    && name_index(sh.verts, sh.arcs[p].to) != -1,
            tbl@.len() == v,
            forall|p: int| 0 <= p < v ==> (#[trigger] tbl@[p]).name@ == sh.verts[p],
            forall|p: int| 0 <= p < v ==> (#[trigger] tbl@[p]).children@ == child_seq(
                sh.arcs,
                sh.verts,
                na as int,
                p,
            ),
            forall|p: int| 0 <= p < v ==> (#[trigger] tbl@[p]).parents@ == parent_seq(
                sh.arcs,
                sh.verts,
                na as int,
                p,
            ),
            forall|p: int| 0 <= p < v ==> (#[trigger] tbl@[p]).op == (match ops {
                Some(t) => op_lookup(t@, sh.verts[p]),
                None => None::<Operation>,
            }),
            forall|p: int| 0 <= p < v ==> node_in_bounds((#[trigger] tbl@[p])@, nv as int),
    {
        let mut children: Vec<usize> = Vec::new();
        let mut parents: Vec<usize> = Vec::new();
        proof {
            assert(sh.verts[v as int] == g.vertices@[v as int]@);
        }
        for k in 0..na
            invariant
                nv == g.vertices.len(),
                na == g.arcs.len(),
                v < nv,
                sh == shape_of(g),
                sh.verts[v as int] == g.vertices@[v as int]@,
                forall|p: int|
                    0 <= p < na ==> name_index(sh.verts, (#[trigger] sh.arcs[p]).from) != -1
                        && name_index(sh.verts, sh.arcs[p].to) != -1,
                children@ == child_seq(sh.arcs, sh.verts, k as int, v as int),
                parents@ == parent_seq(sh.arcs, sh.verts, k as int, v as int),
                forall|j: int| 0 <= j < children@.len() ==> (#[trigger] children@[j]) < nv,
                forall|j: int| 0 <= j < parents@.len() ==> (#[trigger] parents@[j]) < nv,
        {
            proof {
                assert(sh.arcs[k as int] == g.arcs@[k as int]@);
            }
            if g.arcs[k].from == g.vertices[v] {
                let ti = find_vertex(&g.vertices, &g.arcs[k].to).unwrap();
                proof {
                    lemma_name_index_from(sh.verts, sh.arcs[k as int].to, 0);
                }
                children.push(ti);
            }
            if g.arcs[k].to == g.vertices[v] {
                let fi = find_vertex(&g.vertices, &g.arcs[k].from).unwrap();
                proof {
                    lemma_name_index_from(sh.verts, sh.arcs[k as int].from, 0);
                }
                parents.push(fi);
            }
        }
        let op = match ops {
            Some(t) => find_op(t, &g.vertices[v]),
            None => None,
        };
        let node = Node { name: g.vertices[v].clone(), children, parents, op };
        tbl.push(node);
    }
    proof {
        let m = table_model(
            sh,
            match ops {
                Some(t) => Some(t@),
                None => None,
            },
        );
        assert forall|p: int| 0 <= p < nv implies tview(tbl@)[p] == m[p] by {
            assert(tview(tbl@)[p] == tbl@[p]@);
            assert(tbl@[p]@ =~= m[p]);
        }
        assert(tview(tbl@) =~= m);
        assert forall|p: int| 0 <= p < nv implies node_in_bounds(#[trigger] tview(tbl@)[p], nv as int) by {
            assert(tview(tbl@)[p] == tbl@[p]@);
            assert(node_in_bounds(tbl@[p]@, nv as int));
        }
    }
    Ok(tbl)
}

} // verus!
