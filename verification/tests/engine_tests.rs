use dagexpr::eval::{evaluate_expr, Expr};
use dagexpr::graph::{Arc, Graph, GraphError};
use dagexpr::parser::parse_input;
use dagexpr::render::get_call_string;
use dagexpr::table::{build, Operation};
use dagexpr::validate::{check_acyclic, find_extremal, EdgeDir};

fn feval(e: &Expr) -> f64 {
    match e {
        Expr::Lit(bits) => f64::from_bits(*bits),
        Expr::Exp(inner) => feval(inner).exp(),
        Expr::Add(l, r) => feval(l) + feval(r),
        Expr::Mul(l, r) => feval(l) * feval(r),
    }
}

fn ops_of(pairs: &[(&str, Operation)]) -> Vec<(String, Operation)> {
    pairs.iter().map(|(n, o)| (n.to_string(), *o)).collect()
}

#[test]
fn parse_two_records() {
    let g = parse_input("(A,B,0),(B,C,1),").expect("valid notation");
    assert_eq!(g.vertices, vec!["A".to_string(), "B".to_string(), "C".to_string()]);
    assert_eq!(g.arcs.len(), 2);
    assert_eq!((g.arcs[0].from.as_str(), g.arcs[0].to.as_str(), g.arcs[0].order), ("A", "B", 0));
    assert_eq!((g.arcs[1].from.as_str(), g.arcs[1].to.as_str(), g.arcs[1].order), ("B", "C", 1));
}

#[test]
fn parse_skips_whitespace_everywhere() {
    let g = parse_input(" ( A , B , 0 ) ,\n( B , C , 1 ) , ").expect("valid notation");
    assert_eq!(g.vertices, vec!["A".to_string(), "B".to_string(), "C".to_string()]);
    assert_eq!(g.arcs.len(), 2);
}

#[test]
fn parse_sorts_vertices_and_arcs() {
    let g = parse_input("(z,y,5),(a,z,2),").expect("valid notation");
    assert_eq!(g.vertices, vec!["a".to_string(), "y".to_string(), "z".to_string()]);
    assert_eq!(g.arcs[0].order, 2);
    assert_eq!(g.arcs[1].order, 5);
}

#[test]
fn parse_sort_is_stable_on_equal_orders() {
    let g = parse_input("(B,C,1),(A,B,0),(C,D,1),").expect("valid notation");
    let triples: Vec<(&str, &str, i32)> =
        g.arcs.iter().map(|a| (a.from.as_str(), a.to.as_str(), a.order)).collect();
    assert_eq!(triples, vec![("A", "B", 0), ("B", "C", 1), ("C", "D", 1)]);
}

#[test]
fn parse_accepts_empty_input() {
    let g = parse_input("").expect("zero records are a valid graph");
    assert!(g.vertices.is_empty());
    assert!(g.arcs.is_empty());
}

#[test]
fn parse_rejects_malformed_inputs() {
    // missing closing paren
    assert!(parse_input("(A,B,0").is_none());
    // non-digit order
    assert!(parse_input("(A,B,x),").is_none());
    // record must open with a paren
    assert!(parse_input("A,B,0),").is_none());
    // missing trailing comma after the record
    assert!(parse_input("(A,B,0)").is_none());
    // empty names
    assert!(parse_input("(,B,0),").is_none());
    assert!(parse_input("(A,,0),").is_none());
    // empty order
    assert!(parse_input("(A,B,),").is_none());
    // non-alphanumeric name
    assert!(parse_input("(A-b,B,0),").is_none());
    // junk between records
    assert!(parse_input("(A,B,0),x(B,C,1),").is_none());
}

#[test]
fn parse_order_bounds() {
    let g = parse_input("(A,B,2147483647),").expect("largest order fits");
    assert_eq!(g.arcs[0].order, 2147483647);
    assert!(parse_input("(A,B,2147483648),").is_none());
    assert!(parse_input("(A,B,99999999999),").is_none());
}

#[test]
fn extremal_is_direction_specific() {
    // A has no parents; B and C have no children.
    let g = parse_input("(A,B,0),(A,C,1),").expect("valid notation");
    let tbl = build(&g, None).expect("arcs reference declared vertices");
    // root-finding direction: A (index 0) is the unique parentless vertex
    assert_eq!(find_extremal(&tbl, EdgeDir::Forward), Ok(0));
    // evaluation direction: B and C are both childless
    assert_eq!(find_extremal(&tbl, EdgeDir::Backward), Err(GraphError::NoUniqueRoot));
}

#[test]
fn two_cycle_fails_validation() {
    let g = parse_input("(A,B,0),(B,A,1),").expect("valid notation");
    let tbl = build(&g, None).expect("arcs reference declared vertices");
    assert_eq!(check_acyclic(&tbl, EdgeDir::Forward), Err(GraphError::CycleDetected));
    assert_eq!(check_acyclic(&tbl, EdgeDir::Backward), Err(GraphError::CycleDetected));
    assert!(get_call_string(&g).is_none());
}

#[test]
fn self_loop_fails_validation() {
    let g = parse_input("(A,A,0),").expect("valid notation");
    let tbl = build(&g, None).expect("arcs reference declared vertices");
    assert_eq!(check_acyclic(&tbl, EdgeDir::Forward), Err(GraphError::CycleDetected));
}

#[test]
fn acyclic_graph_passes_cycle_check() {
    let g = parse_input("(A,B,0),(B,C,1),(A,C,2),").expect("valid notation");
    let tbl = build(&g, None).expect("arcs reference declared vertices");
    assert_eq!(check_acyclic(&tbl, EdgeDir::Forward), Ok(()));
    assert_eq!(check_acyclic(&tbl, EdgeDir::Backward), Ok(()));
}

#[test]
fn render_two_children() {
    let g = parse_input("(f,x,0),(f,y,1),").expect("valid notation");
    assert_eq!(get_call_string(&g).expect("single-rooted DAG"), "f(x(), y())");
}

#[test]
fn render_orders_children_by_arc_order() {
    let g = parse_input("(f,y,1),(f,x,0),").expect("valid notation");
    assert_eq!(get_call_string(&g).expect("single-rooted DAG"), "f(x(), y())");
}

#[test]
fn render_shared_vertex_renders_twice() {
    let g = parse_input("(f,x,0),(x,y,1),(f,y,2),").expect("valid notation");
    assert_eq!(get_call_string(&g).expect("single-rooted DAG"), "f(x(y()), y())");
}

#[test]
fn render_needs_unique_root() {
    // two parentless vertices
    let g = parse_input("(A,C,0),(B,C,1),").expect("valid notation");
    assert!(get_call_string(&g).is_none());
}

#[test]
fn render_rejects_unknown_vertex() {
    let g = Graph {
        vertices: vec!["A".to_string()],
        arcs: vec![Arc { from: "A".to_string(), to: "B".to_string(), order: 0 }],
    };
    assert!(get_call_string(&g).is_none());
}

#[test]
fn render_rejects_duplicate_vertex_names() {
    let g = Graph { vertices: vec!["A".to_string(), "A".to_string()], arcs: vec![] };
    assert!(get_call_string(&g).is_none());
}

#[test]
fn build_reports_unknown_vertex() {
    let g = Graph {
        vertices: vec!["A".to_string()],
        arcs: vec![Arc { from: "A".to_string(), to: "B".to_string(), order: 0 }],
    };
    assert_eq!(build(&g, None).unwrap_err(), GraphError::UnknownVertex);
}

#[test]
fn build_reports_missing_operation() {
    let g = parse_input("(a,s,0),(b,s,1),").expect("valid notation");
    let ops = ops_of(&[("a", Operation::Const(2.0f64.to_bits())), ("s", Operation::Plus)]);
    assert_eq!(build(&g, Some(&ops)).unwrap_err(), GraphError::MissingOperation);
    assert!(evaluate_expr(&g, &ops).is_none());
}

#[test]
fn evaluate_plus_of_two_constants() {
    let g = parse_input("(a,s,0),(b,s,1),").expect("valid notation");
    let ops = ops_of(&[
        ("a", Operation::Const(2.0f64.to_bits())),
        ("b", Operation::Const(3.0f64.to_bits())),
        ("s", Operation::Plus),
    ]);
    let e = evaluate_expr(&g, &ops).expect("well-formed sum");
    assert_eq!(feval(&e), 5.0);
}

#[test]
fn evaluate_plus_with_one_parent_is_unevaluable() {
    let g = parse_input("(a,s,0),").expect("valid notation");
    let ops = ops_of(&[("a", Operation::Const(2.0f64.to_bits())), ("s", Operation::Plus)]);
    assert!(evaluate_expr(&g, &ops).is_none());
}

#[test]
fn evaluate_exp_with_two_parents_is_unevaluable() {
    let g = parse_input("(a,s,0),(b,s,1),").expect("valid notation");
    let ops = ops_of(&[
        ("a", Operation::Const(2.0f64.to_bits())),
        ("b", Operation::Const(3.0f64.to_bits())),
        ("s", Operation::Exp),
    ]);
    assert!(evaluate_expr(&g, &ops).is_none());
}

#[test]
fn evaluate_exp_of_zero() {
    let g = parse_input("(a,s,0),").expect("valid notation");
    let ops = ops_of(&[("a", Operation::Const(0.0f64.to_bits())), ("s", Operation::Exp)]);
    let e = evaluate_expr(&g, &ops).expect("well-formed exponential");
    assert_eq!(feval(&e), 1.0);
}

#[test]
fn evaluate_mult_of_three_constants() {
    let g = parse_input("(a,s,0),(b,s,1),(c,s,2),").expect("valid notation");
    let ops = ops_of(&[
        ("a", Operation::Const(2.0f64.to_bits())),
        ("b", Operation::Const(3.0f64.to_bits())),
        ("c", Operation::Const(4.0f64.to_bits())),
        ("s", Operation::Mult),
    ]);
    let e = evaluate_expr(&g, &ops).expect("well-formed product");
    assert_eq!(feval(&e), 24.0);
}

#[test]
fn evaluate_nested_graph() {
    // s = a + m, m = b * c
    let g = parse_input("(a,s,0),(m,s,1),(b,m,0),(c,m,1),").expect("valid notation");
    let ops = ops_of(&[
        ("a", Operation::Const(2.0f64.to_bits())),
        ("b", Operation::Const(3.0f64.to_bits())),
        ("c", Operation::Const(4.0f64.to_bits())),
        ("m", Operation::Mult),
        ("s", Operation::Plus),
    ]);
    let e = evaluate_expr(&g, &ops).expect("well-formed nested expression");
    assert_eq!(feval(&e), 14.0);
}

#[test]
fn evaluate_constant_ignores_parents() {
    // the sink holds a constant: its parent does not matter
    let g = parse_input("(a,s,0),").expect("valid notation");
    let ops = ops_of(&[
        ("a", Operation::Const(2.0f64.to_bits())),
        ("s", Operation::Const(7.0f64.to_bits())),
    ]);
    let e = evaluate_expr(&g, &ops).expect("constant sink");
    assert_eq!(feval(&e), 7.0);
}

#[test]
fn evaluate_cycle_is_rejected() {
    let g = parse_input("(A,B,0),(B,A,1),").expect("valid notation");
    let ops = ops_of(&[("A", Operation::Const(1.0f64.to_bits())), ("B", Operation::Exp)]);
    assert!(evaluate_expr(&g, &ops).is_none());
}

#[test]
fn evaluate_failure_propagates_from_subtree() {
    // m has a single parent, so the product under the sum is unevaluable,
    // and the whole evaluation aborts
    let g = parse_input("(a,s,0),(m,s,1),(b,m,0),").expect("valid notation");
    let ops = ops_of(&[
        ("a", Operation::Const(2.0f64.to_bits())),
        ("b", Operation::Const(3.0f64.to_bits())),
        ("m", Operation::Mult),
        ("s", Operation::Plus),
    ]);
    assert!(evaluate_expr(&g, &ops).is_none());
}

#[test]
fn empty_graph_has_no_root() {
    let g = parse_input("").expect("zero records are a valid graph");
    assert!(get_call_string(&g).is_none());
}

#[test]
fn whitespace_only_input_is_empty_graph() {
    let g = parse_input(" \t\n").expect("whitespace is skipped everywhere");
    assert!(g.vertices.is_empty());
    assert!(g.arcs.is_empty());
}
