//! Numeric evaluation of a validated DAG, value flowing from the sources
//! toward the unique childless sink. The engine itself stays exact: it folds
//! the graph into an arithmetic expression whose constants carry `f64` bit
//! patterns, and the caller performs the floating-point arithmetic. An arity
//! mismatch makes the whole evaluation unevaluable, not just a subtree.

use vstd::prelude::*;

use crate::graph::{names_unique, Graph, GraphM};
use crate::table::{
    has_missing_op, has_unknown_endpoint, shape_of, table_model, tview, wf_table, GraphShape,
    Node, NodeM, Operation,
};
use crate::render::{lemma_distinct_bounded, the_extremal};
use crate::validate::{
    acyclic, check_acyclic, cycle_at, edges, find_extremal, is_chain, unique_extremal, EdgeDir,
};

verus! {

/// The bit pattern of floating-point zero, the seed of a sum fold.
pub const ZERO_BITS: u64 = 0;

/// The bit pattern of floating-point one, the seed of a product fold.
pub const ONE_BITS: u64 = 0x3FF0000000000000;

/// The arithmetic expression a successful evaluation produces. A literal
/// carries the bit pattern of an `f64`; sums and products appear as left
/// fold chains seeded with zero or one, in parent order.
#[derive(Debug)]
pub enum Expr {
    Lit(u64),
    Exp(Box<Expr>),
    Add(Box<Expr>, Box<Expr>),
    Mul(Box<Expr>, Box<Expr>),
}

/// `e` is the evaluation of vertex `v`: a constant ignores its parents, the
/// exponential takes exactly one operand, a sum or product at least two,
/// folded left to right over the parents in their recorded order.
pub open spec fn is_eval_of(tm: Seq<NodeM>, v: int, e: Expr, fuel: nat) -> bool
    decreases fuel, 0nat,
{
    fuel > 0 && match tm[v].op {
        None => false,
        Some(Operation::Const(c)) => e == Expr::Lit(c),
        Some(Operation::Exp) => tm[v].parents.len() == 1 && (e matches Expr::Exp(inner)
            && is_eval_of(tm, tm[v].parents[0] as int, *inner, (fuel - 1) as nat)),
        Some(Operation::Plus) => tm[v].parents.len() >= 2 && is_fold(
            tm,
            tm[v].parents,
            tm[v].parents.len() as int,
            e,
            (fuel - 1) as nat,
            false,
        ),
        Some(Operation::Mult) => tm[v].parents.len() >= 2 && is_fold(
            tm,
            tm[v].parents,
            tm[v].parents.len() as int,
            e,
            (fuel - 1) as nat,
            true,
        ),
    }
}

/// `e` is the left fold of the evaluations of the first `k` parents, seeded
/// with one for a product and zero for a sum.
pub open spec fn is_fold(tm: Seq<NodeM>, ps: Seq<usize>, k: int, e: Expr, fuel: nat, mul: bool) -> bool
    decreases fuel, k + 1,
{
    if k <= 0 {
        e == Expr::Lit(
            if mul {
                ONE_BITS
            } else {
                ZERO_BITS
            },
        )
    } else if mul {
        e matches Expr::Mul(l, r) && is_fold(tm, ps, k - 1, *l, fuel, mul) && is_eval_of(
            tm,
            ps[k - 1] as int,
            *r,
            fuel,
        )
    } else {
        e matches Expr::Add(l, r) && is_fold(tm, ps, k - 1, *l, fuel, mul) && is_eval_of(
            tm,
            ps[k - 1] as int,
            *r,
            fuel,
        )
    }
}

/// The evaluation of vertex `v` yields nothing: a vertex without an
/// operation, a wrong operand count, or any failing parent; the failure
/// propagates through every fold above it.
pub open spec fn eval_fails(tm: Seq<NodeM>, v: int, fuel: nat) -> bool
    decreases fuel,
{
    if fuel == 0 {
        true
    } else {
        match tm[v].op {
            None => true,
            Some(Operation::Const(c)) => false,
            Some(Operation::Exp) => tm[v].parents.len() != 1 || eval_fails(
                tm,
                tm[v].parents[0] as int,
                (fuel - 1) as nat,
            ),
            Some(Operation::Plus) => tm[v].parents.len() < 2 || (exists|i: int|
                #![auto]
                0 <= i < tm[v].parents.len() && eval_fails(
                    tm,
                    tm[v].parents[i] as int,
                    (fuel - 1) as nat,
                )),
            Some(Operation::Mult) => tm[v].parents.len() < 2 || (exists|i: int|
                #![auto]
                0 <= i < tm[v].parents.len() && eval_fails(
                    tm,
                    tm[v].parents[i] as int,
                    (fuel - 1) as nat,
                )),
        }
    }
}

/// An exponential vertex with any operand count other than one is
/// unevaluable, whatever its parents hold.
pub proof fn lemma_exp_arity(tm: Seq<NodeM>, v: int, e: Expr, fuel: nat)
    requires
        0 <= v < tm.len(),
        tm[v].op == Some(Operation::Exp),
        tm[v].parents.len() != 1,
    ensures
        eval_fails(tm, v, fuel),
        !is_eval_of(tm, v, e, fuel),
{
}

/// A sum or product vertex with fewer than two operands is unevaluable,
/// whatever its parents hold.
pub proof fn lemma_nary_arity(tm: Seq<NodeM>, v: int, e: Expr, fuel: nat)
    requires
        0 <= v < tm.len(),
        tm[v].op == Some(Operation::Plus) || tm[v].op == Some(Operation::Mult),
        tm[v].parents.len() < 2,
    ensures
        eval_fails(tm, v, fuel),
        !is_eval_of(tm, v, e, fuel),
{
}

/// What a symbolic operation descriptor denotes: `exp`, `+` or `*`. A bare
/// number denotes a constant instead; the caller turns it into
/// `Operation::Const` with the value's bits.
pub open spec fn op_of_tag(s: Seq<char>) -> Option<Operation> {
    if s == seq!['e', 'x', 'p'] {
        Some(Operation::Exp)
    } else if s == seq!['+'] {
        Some(Operation::Plus)
    } else if s == seq!['*'] {
        Some(Operation::Mult)
    } else {
        None
    }
}

/// Decodes a symbolic operation descriptor.
pub fn operation_from_tag(s: &str) -> (r: Option<Operation>)
    ensures
        r == op_of_tag(s@),
{
    proof {
        reveal_strlit("exp");
        reveal_strlit("+");
        reveal_strlit("*");
        assert("exp"@ =~= seq!['e', 'x', 'p']);
        assert("+"@ =~= seq!['+']);
        assert("*"@ =~= seq!['*']);
    }
    if crate::strutil::str_eq(s, "exp") {
        Some(Operation::Exp)
    } else if crate::strutil::str_eq(s, "+") {
        Some(Operation::Plus)
    } else if crate::strutil::str_eq(s, "*") {
        Some(Operation::Mult)
    } else {
        None
    }
}

/// Evaluates vertex `v`, mirroring `is_eval_of` and `eval_fails`.
fn evaluate_node(tbl: &Vec<Node>, v: usize, fuel: usize) -> (r: Option<Expr>)
    requires
        wf_table(tview(tbl@)),
        (v as int) < tbl@.len(),
    ensures
        match r {
            Some(e) => is_eval_of(tview(tbl@), v as int, e, fuel as nat),
            None => eval_fails(tview(tbl@), v as int, fuel as nat),
        },
    decreases fuel, 0int,
{
    if fuel == 0 {
        return None;
    }
    proof {
        assert(tview(tbl@)[v as int] == tbl@[v as int]@);
        assert(crate::table::node_in_bounds(tview(tbl@)[v as int], tbl@.len() as int));
    }
    let node = &tbl[v];
    match node.op {
        None => None,
        Some(Operation::Const(c)) => Some(Expr::Lit(c)),
        Some(Operation::Exp) => {
            if node.parents.len() != 1 {
                return None;
            }
            match evaluate_node(tbl, node.parents[0], fuel - 1) {
                None => {
                    proof {
                        assert(eval_fails(tview(tbl@), v as int, fuel as nat));
                    }
                    None
                },
                Some(inner) => Some(Expr::Exp(Box::new(inner))),
            }
        },
        Some(Operation::Plus) => {
            if node.parents.len() < 2 {
                return None;
            }
            let r = fold_parents(tbl, &node.parents, fuel - 1, false);
            proof {
                if r is None {
                    assert(eval_fails(tview(tbl@), v as int, fuel as nat));
                }
            }
            r
        },
        Some(Operation::Mult) => {
            if node.parents.len() < 2 {
                return None;
            }
            let r = fold_parents(tbl, &node.parents, fuel - 1, true);
            proof {
                if r is None {
                    assert(eval_fails(tview(tbl@), v as int, fuel as nat));
                }
            }
            r
        },
    }
}

/// Folds the evaluations of a parent list left to right.
fn fold_parents(tbl: &Vec<Node>, ps: &Vec<usize>, fuel: usize, mul: bool) -> (r: Option<Expr>)
    requires
        wf_table(tview(tbl@)),
        forall|j: int| 0 <= j < ps@.len() ==> (#[trigger] ps@[j]) < tbl@.len(),
    ensures
        match r {
            Some(e) => is_fold(tview(tbl@), ps@, ps@.len() as int, e, fuel as nat, mul),
            None => exists|i: int|
                #![auto]
                0 <= i < ps@.len() && eval_fails(tview(tbl@), ps@[i] as int, fuel as nat),
        },
    decreases fuel, 1int,
{
    let mut acc = if mul {
        Expr::Lit(ONE_BITS)
    } else {
        Expr::Lit(ZERO_BITS)
    };
    let m = ps.len();
    for i in 0..m
        invariant
            wf_table(tview(tbl@)),
            forall|j: int| 0 <= j < ps@.len() ==> (#[trigger] ps@[j]) < tbl@.len(),
            m == ps@.len(),
            is_fold(tview(tbl@), ps@, i as int, acc, fuel as nat, mul),
    {
        match evaluate_node(tbl, ps[i], fuel) {
            None => {
                proof {
                    assert(eval_fails(tview(tbl@), ps@[i as int] as int, fuel as nat));
                }
                return None;
            },
            Some(e) => {
                if mul {
                    acc = Expr::Mul(Box::new(acc), Box::new(e));
                } else {
                    acc = Expr::Add(Box::new(acc), Box::new(e));
                }
            },
        }
    }
    Some(acc)
}

/// In an acyclic table, the evaluation relations at fuel covering the
/// remaining depth agree with those at any larger fuel, so running out of
/// fuel never decides a result.
pub proof fn lemma_eval_fuel(tm: Seq<NodeM>, v: usize, e: Expr, f1: nat, f2: nat, pre: Seq<usize>)
    requires
        wf_table(tm),
        acyclic(tm, EdgeDir::Backward),
        (v as int) < tm.len(),
        is_chain(tm, EdgeDir::Backward, pre),
        pre.no_duplicates(),
        pre.last() == v,
        f1 + pre.len() > tm.len(),
        f2 + pre.len() > tm.len(),
    ensures
        is_eval_of(tm, v as int, e, f1) == is_eval_of(tm, v as int, e, f2),
        eval_fails(tm, v as int, f1) == eval_fails(tm, v as int, f2),
    decreases f1 + f2, 0nat,
{
    lemma_distinct_bounded(pre, tm.len() as int);
    let ps = tm[v as int].parents;
    assert(f1 > 0 && f2 > 0);
    match tm[v as int].op {
        None => {},
        Some(Operation::Const(c)) => {},
        Some(Operation::Exp) => {
            if ps.len() == 1 {
                lemma_chain_extends(tm, pre, v, ps[0], 0);
                let pre2 = pre.push(ps[0]);
                lemma_eval_fuel(tm, ps[0], e, (f1 - 1) as nat, (f2 - 1) as nat, pre2);
                match e {
                    Expr::Exp(inner) => {
                        lemma_eval_fuel(
                            tm,
                            ps[0],
                            *inner,
                            (f1 - 1) as nat,
                            (f2 - 1) as nat,
                            pre2,
                        );
                    },
                    _ => {},
                }
            }
        },
        Some(Operation::Plus) | Some(Operation::Mult) => {
            let mul = tm[v as int].op == Some(Operation::Mult);
            if ps.len() >= 2 {
                lemma_fold_fuel(
                    tm,
                    ps,
                    ps.len() as int,
                    e,
                    (f1 - 1) as nat,
                    (f2 - 1) as nat,
                    pre,
                    mul,
                );
                if eval_fails(tm, v as int, f1) {
                    let i0 = choose|i: int|
                        0 <= i < ps.len() && eval_fails(tm, ps[i] as int, (f1 - 1) as nat);
                    lemma_chain_extends(tm, pre, v, ps[i0], i0);
                    lemma_eval_fuel(
                        tm,
                        ps[i0],
                        e,
                        (f1 - 1) as nat,
                        (f2 - 1) as nat,
                        pre.push(ps[i0]),
                    );
                    assert(eval_fails(tm, ps[i0] as int, (f2 - 1) as nat));
                    assert(eval_fails(tm, v as int, f2));
                }
                if eval_fails(tm, v as int, f2) {
                    let i0 = choose|i: int|
                        0 <= i < ps.len() && eval_fails(tm, ps[i] as int, (f2 - 1) as nat);
                    lemma_chain_extends(tm, pre, v, ps[i0], i0);
                    lemma_eval_fuel(
                        tm,
                        ps[i0],
                        e,
                        (f1 - 1) as nat,
                        (f2 - 1) as nat,
                        pre.push(ps[i0]),
                    );
                    assert(eval_fails(tm, ps[i0] as int, (f1 - 1) as nat));
                    assert(eval_fails(tm, v as int, f1));
                }
            }
        },
    }
}

/// Fuel-independence of the fold relation, parent by parent.
proof fn lemma_fold_fuel(
    tm: Seq<NodeM>,
    ps: Seq<usize>,
    k: int,
    e: Expr,
    g1: nat,
    g2: nat,
    pre: Seq<usize>,
    mul: bool,
)
    requires
        wf_table(tm),
        acyclic(tm, EdgeDir::Backward),
        is_chain(tm, EdgeDir::Backward, pre),
        pre.no_duplicates(),
        (pre.last() as int) < tm.len(),
        ps == tm[pre.last() as int].parents,
        k <= ps.len(),
        g1 + 1 + pre.len() > tm.len(),
        g2 + 1 + pre.len() > tm.len(),
    ensures
        is_fold(tm, ps, k, e, g1, mul) == is_fold(tm, ps, k, e, g2, mul),
    decreases g1 + g2, k + 1,
{
    if k > 0 {
        let v = pre.last();
        assert(chain_extends(tm, pre, ps[k - 1])) by {
            lemma_chain_extends(tm, pre, v, ps[k - 1], k - 1);
        }
        let pre2 = pre.push(ps[k - 1]);
        match e {
            Expr::Mul(l, r) => {
                lemma_fold_fuel(tm, ps, k - 1, *l, g1, g2, pre, mul);
                lemma_eval_fuel(tm, ps[k - 1], *r, g1, g2, pre2);
            },
            Expr::Add(l, r) => {
                lemma_fold_fuel(tm, ps, k - 1, *l, g1, g2, pre, mul);
                lemma_eval_fuel(tm, ps[k - 1], *r, g1, g2, pre2);
            },
            _ => {},
        }
    }
}

/// The chain `pre` extended by `c` stays a duplicate-free chain.
spec fn chain_extends(tm: Seq<NodeM>, pre: Seq<usize>, c: usize) -> bool {
    &&& is_chain(tm, EdgeDir::Backward, pre.push(c))
    &&& pre.push(c).no_duplicates()
    &&& pre.push(c).last() == c
    &&& (c as int) < tm.len()
}

/// Extending a duplicate-free backward chain by a parent edge keeps it
/// duplicate-free: a repeat would close a cycle.
proof fn lemma_chain_extends(tm: Seq<NodeM>, pre: Seq<usize>, v: usize, c: usize, i: int)
    requires
        wf_table(tm),
        acyclic(tm, EdgeDir::Backward),
        is_chain(tm, EdgeDir::Backward, pre),
        pre.no_duplicates(),
        pre.last() == v,
        (v as int) < tm.len(),
        0 <= i < tm[v as int].parents.len(),
        c == tm[v as int].parents[i],
    ensures
        chain_extends(tm, pre, c),
{
    assert(edges(tm[v as int], EdgeDir::Backward).contains(c)) by {
        assert(edges(tm[v as int], EdgeDir::Backward)[i] == c);
    }
    assert((c as int) < tm.len()) by {
        assert(crate::table::node_in_bounds(tm[v as int], tm.len() as int));
    }
    let pre2 = pre.push(c);
    assert(forall|k: int| 0 <= k < pre.len() ==> pre2[k] == pre[k]);
    assert(is_chain(tm, EdgeDir::Backward, pre2));
    if pre.contains(c) {
        let idx = choose|idx: int| 0 <= idx < pre.len() && pre[idx] == c;
        let q = pre.subrange(idx, pre.len() as int).push(c);
        assert(forall|k: int| 0 <= k < pre.len() - idx ==> q[k] == pre[k + idx]);
        assert(q[0] == c && q.last() == c && q.len() >= 2);
        assert(is_chain(tm, EdgeDir::Backward, q)) by {
            assert forall|k: int| 0 <= k < q.len() - 1 implies edges(
                #[trigger] tm[q[k] as int],
                EdgeDir::Backward,
            ).contains(q[k + 1]) by {
                if k < q.len() - 2 {
                    assert(q[k] == pre[k + idx] && q[k + 1] == pre[k + idx + 1]);
                } else {
                    assert(q[k] == pre.last() && q[k + 1] == c);
                }
            }
        }
        assert(cycle_at(tm, EdgeDir::Backward, c as int));
        assert(false);
    }
    assert(pre2.no_duplicates());
}

/// The conditions under which an evaluation runs at all: unique names, a
/// complete operation table, known endpoints, no cycle along parent edges,
/// and a unique childless sink.
pub open spec fn eval_conditions(g: GraphM, ops: Seq<(String, Operation)>) -> bool {
    let sh = GraphShape { verts: g.verts, arcs: g.arcs };
    let tm = table_model(sh, Some(ops));
    &&& names_unique(g.verts)
    &&& !has_missing_op(sh, ops)
    &&& !has_unknown_endpoint(sh)
    &&& acyclic(tm, EdgeDir::Backward)
    &&& exists|v: int| unique_extremal(tm, EdgeDir::Backward, v)
}

/// The node table evaluation works on.
pub open spec fn eval_table(g: GraphM, ops: Seq<(String, Operation)>) -> Seq<NodeM> {
    table_model(GraphShape { verts: g.verts, arcs: g.arcs }, Some(ops))
}

/// Builds the node table under the operation table, validates it (acyclic
/// along parent edges, unique childless sink), and folds the graph from the
/// sink into an expression. Returns `None` when validation fails or when
/// some vertex's operand count does not fit its operation.
pub fn evaluate_expr(g: &Graph, ops: &Vec<(String, Operation)>) -> (r: Option<Expr>)
    ensures
        match r {
            Some(e) => eval_conditions(g@, ops@) && is_eval_of(
                eval_table(g@, ops@),
                the_extremal(eval_table(g@, ops@), EdgeDir::Backward),
                e,
                eval_table(g@, ops@).len() as nat,
            ),
            None => !eval_conditions(g@, ops@) || eval_fails(
                eval_table(g@, ops@),
                the_extremal(eval_table(g@, ops@), EdgeDir::Backward),
                eval_table(g@, ops@).len() as nat,
            ),
        },
{
    if !g.check_names_unique() {
        return None;
    }
    let tbl = match crate::table::build(g, Some(ops)) {
        Ok(t) => t,
        Err(_) => {
            return None;
        },
    };
    let ghost tm = eval_table(g@, ops@);
    if check_acyclic(&tbl, EdgeDir::Backward).is_err() {
        return None;
    }
    let sink = match find_extremal(&tbl, EdgeDir::Backward) {
        Ok(v) => v,
        Err(_) => {
            return None;
        },
    };
    proof {
        assert(unique_extremal(tm, EdgeDir::Backward, sink as int));
        assert(the_extremal(tm, EdgeDir::Backward) == sink as int) by {
            let c = the_extremal(tm, EdgeDir::Backward);
            assert(unique_extremal(tm, EdgeDir::Backward, c));
        }
    }
    evaluate_node(&tbl, sink, tbl.len())
}


/// On an acyclic table a vertex never both evaluates and fails: the two
/// relations in `evaluate_expr`'s contract are mutually exclusive, so the
/// returned case is forced.
pub proof fn lemma_eval_exclusive(tm: Seq<NodeM>, v: usize, e: Expr, fuel: nat, pre: Seq<usize>)
    requires
        wf_table(tm),
        acyclic(tm, EdgeDir::Backward),
        (v as int) < tm.len(),
        is_chain(tm, EdgeDir::Backward, pre),
        pre.no_duplicates(),
        pre.last() == v,
        fuel + pre.len() > tm.len(),
        is_eval_of(tm, v as int, e, fuel),
    ensures
        !eval_fails(tm, v as int, fuel),
    decreases fuel,
{
    lemma_distinct_bounded(pre, tm.len() as int);
    assert(fuel > 0);
    let ps = tm[v as int].parents;
    match tm[v as int].op {
        None => {},
        Some(Operation::Const(c)) => {},
        Some(Operation::Exp) => {
            if eval_fails(tm, v as int, fuel) {
                lemma_chain_extends(tm, pre, v, ps[0], 0);
                match e {
                    Expr::Exp(inner) => {
                        lemma_eval_exclusive(
                            tm,
                            ps[0],
                            *inner,
                            (fuel - 1) as nat,
                            pre.push(ps[0]),
                        );
                    },
                    _ => {},
                }
            }
        },
        Some(Operation::Plus) | Some(Operation::Mult) => {
            let mul = tm[v as int].op == Some(Operation::Mult);
            if eval_fails(tm, v as int, fuel) {
                let i0 = choose|i: int|
                    0 <= i < ps.len() && eval_fails(tm, ps[i] as int, (fuel - 1) as nat);
                lemma_fold_covers(tm, ps, ps.len() as int, e, (fuel - 1) as nat, mul, i0);
                let ei = choose|ei: Expr| #[trigger] is_eval_of(tm, ps[i0] as int, ei, (fuel - 1) as nat);
                lemma_chain_extends(tm, pre, v, ps[i0], i0);
                lemma_eval_exclusive(tm, ps[i0], ei, (fuel - 1) as nat, pre.push(ps[i0]));
            }
        },
    }
}

/// A fold of the first `k` parents carries an evaluation of each of them.
proof fn lemma_fold_covers(tm: Seq<NodeM>, ps: Seq<usize>, k: int, e: Expr, fuel: nat, mul: bool, i: int)
    requires
        is_fold(tm, ps, k, e, fuel, mul),
        0 <= i < k,
    ensures
        exists|ei: Expr| #[trigger] is_eval_of(tm, ps[i] as int, ei, fuel),
    decreases k,
{
    match e {
        Expr::Mul(l, r) => {
            if i == k - 1 {
                assert(is_eval_of(tm, ps[i] as int, *r, fuel));
            } else {
                lemma_fold_covers(tm, ps, k - 1, *l, fuel, mul, i);
            }
        },
        Expr::Add(l, r) => {
            if i == k - 1 {
                assert(is_eval_of(tm, ps[i] as int, *r, fuel));
            } else {
                lemma_fold_covers(tm, ps, k - 1, *l, fuel, mul, i);
            }
        },
        _ => {},
    }
}

} // verus!
