use dagexpr::eval::operation_from_tag;
use dagexpr::graph::{Arc, Graph};
use dagexpr::parser::{parse_input, to_notation};
use dagexpr::table::Operation;
use dagexpr::xml_codec::{graph_from_events, graph_to_events, XmlItem};

fn start(s: &str) -> XmlItem {
    XmlItem::Start(s.to_string())
}

fn end(s: &str) -> XmlItem {
    XmlItem::End(s.to_string())
}

fn text(s: &str) -> XmlItem {
    XmlItem::Text(s.to_string())
}

#[test]
fn notation_round_trip() {
    let g = parse_input("(b,a,2),(a,c,1),").expect("valid notation");
    let s = to_notation(&g).expect("orders are non-negative");
    assert_eq!(s, "(a,c,1),(b,a,2),");
    let g2 = parse_input(&s).expect("serialized notation parses");
    assert_eq!(g2.vertices, g.vertices);
    assert_eq!(g2.arcs.len(), g.arcs.len());
    for (x, y) in g.arcs.iter().zip(g2.arcs.iter()) {
        assert_eq!((&x.from, &x.to, x.order), (&y.from, &y.to, y.order));
    }
}

#[test]
fn notation_refuses_negative_order() {
    let g = Graph {
        vertices: vec!["A".to_string(), "B".to_string()],
        arcs: vec![Arc { from: "A".to_string(), to: "B".to_string(), order: -1 }],
    };
    assert!(to_notation(&g).is_none());
}

#[test]
fn encode_produces_element_stream() {
    let g = parse_input("(A,B,0),").expect("valid notation");
    let evs = graph_to_events(&g);
    let expected = vec![
        start("graph"),
        start("vertex"),
        text("A"),
        end("vertex"),
        start("vertex"),
        text("B"),
        end("vertex"),
        start("arc"),
        start("from"),
        text("A"),
        end("from"),
        start("to"),
        text("B"),
        end("to"),
        start("order"),
        text("0"),
        end("order"),
        end("arc"),
        end("graph"),
    ];
    assert_eq!(evs, expected);
}

#[test]
fn encode_negative_order_text() {
    let g = Graph {
        vertices: vec!["A".to_string(), "B".to_string()],
        arcs: vec![Arc { from: "A".to_string(), to: "B".to_string(), order: -7 }],
    };
    let evs = graph_to_events(&g);
    assert!(evs.contains(&text("-7")));
}

#[test]
fn event_round_trip() {
    let g = parse_input("(A,B,0),(B,C,1),").expect("valid notation");
    let g2 = graph_from_events(&graph_to_events(&g)).expect("own encoding decodes");
    assert_eq!(g2.vertices, g.vertices);
    assert_eq!(g2.arcs.len(), g.arcs.len());
    for (x, y) in g.arcs.iter().zip(g2.arcs.iter()) {
        assert_eq!((&x.from, &x.to, x.order), (&y.from, &y.to, y.order));
    }
}

#[test]
fn decode_rejects_misplaced_text() {
    let evs = vec![start("graph"), text("stray"), end("graph")];
    assert!(graph_from_events(&evs).is_none());
}

#[test]
fn decode_rejects_unknown_element() {
    let evs = vec![start("graph"), start("node"), end("node"), end("graph")];
    assert!(graph_from_events(&evs).is_none());
}

#[test]
fn decode_rejects_bad_order_text() {
    let evs = vec![
        start("graph"),
        start("arc"),
        start("from"),
        text("A"),
        end("from"),
        start("to"),
        text("B"),
        end("to"),
        start("order"),
        text("abc"),
        end("order"),
        end("arc"),
        end("graph"),
    ];
    assert!(graph_from_events(&evs).is_none());
}

#[test]
fn decode_reads_negative_order() {
    let evs = vec![
        start("graph"),
        start("vertex"),
        text("A"),
        end("vertex"),
        start("vertex"),
        text("B"),
        end("vertex"),
        start("arc"),
        start("from"),
        text("A"),
        end("from"),
        start("to"),
        text("B"),
        end("to"),
        start("order"),
        text("-12"),
        end("order"),
        end("arc"),
        end("graph"),
    ];
    let g = graph_from_events(&evs).expect("well-shaped stream");
    assert_eq!(g.vertices, vec!["A".to_string(), "B".to_string()]);
    assert_eq!(g.arcs[0].order, -12);
}

#[test]
fn decode_keeps_encounter_order() {
    // the event decoder does not sort or deduplicate
    let evs = vec![
        start("graph"),
        start("vertex"),
        text("z"),
        end("vertex"),
        start("vertex"),
        text("a"),
        end("vertex"),
        end("graph"),
    ];
    let g = graph_from_events(&evs).expect("well-shaped stream");
    assert_eq!(g.vertices, vec!["z".to_string(), "a".to_string()]);
}

#[test]
fn descriptor_tags_decode() {
    assert_eq!(operation_from_tag("exp"), Some(Operation::Exp));
    assert_eq!(operation_from_tag("+"), Some(Operation::Plus));
    assert_eq!(operation_from_tag("*"), Some(Operation::Mult));
    assert_eq!(operation_from_tag("add"), None);
    assert_eq!(operation_from_tag(""), None);
}

#[test]
fn order_boundary_values_round_trip() {
    let g = Graph {
        vertices: vec!["A".to_string(), "B".to_string()],
        arcs: vec![
            Arc { from: "A".to_string(), to: "B".to_string(), order: i32::MAX },
            Arc { from: "B".to_string(), to: "A".to_string(), order: i32::MIN },
        ],
    };
    let g2 = graph_from_events(&graph_to_events(&g)).expect("own encoding decodes");
    assert_eq!(g2.arcs[0].order, i32::MAX);
    assert_eq!(g2.arcs[1].order, i32::MIN);
}
