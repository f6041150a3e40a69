//! The event-level graph codec: a state machine that decodes a graph from a
//! stream of markup events (one container element, repeated vertex leaves,
//! repeated arc elements with `from`, `to` and `order` leaves), and the
//! encoder that produces the same event stream. The events themselves come
//! from, and go to, whatever reader and writer the caller uses.

use vstd::prelude::*;

use crate::graph::{Arc, ArcM, Graph, GraphM};
use crate::strutil::{dec_digits, i32_text, order_text, parse_i32, parse_i32_spec, str_eq};

verus! {

/// One markup event: an element opens, an element closes, or text appears.
#[derive(Debug, Clone, PartialEq)]
pub enum XmlItem {
    Start(String),
    End(String),
    Text(String),
}

/// The mathematical shape of an event.
pub ghost enum XItemM {
    Start(Seq<char>),
    End(Seq<char>),
    Text(Seq<char>),
}

impl View for XmlItem {
    type V = XItemM;

    open spec fn view(&self) -> XItemM {
        match self {
            XmlItem::Start(s) => XItemM::Start(s@),
            XmlItem::End(s) => XItemM::End(s@),
            XmlItem::Text(s) => XItemM::Text(s@),
        }
    }
}

/// View of an event list.
pub open spec fn eview(evs: Seq<XmlItem>) -> Seq<XItemM> {
    evs.map_values(|x: XmlItem| x@)
}

pub open spec fn tag_graph() -> Seq<char> {
    seq!['g', 'r', 'a', 'p', 'h']
}

pub open spec fn tag_vertex() -> Seq<char> {
    seq!['v', 'e', 'r', 't', 'e', 'x']
}

pub open spec fn tag_arc() -> Seq<char> {
    seq!['a', 'r', 'c']
}

pub open spec fn tag_from() -> Seq<char> {
    seq!['f', 'r', 'o', 'm']
}

pub open spec fn tag_to() -> Seq<char> {
    seq!['t', 'o']
}

pub open spec fn tag_order() -> Seq<char> {
    seq!['o', 'r', 'd', 'e', 'r']
}

/// The views of the tag literals.
proof fn lemma_tags()
    ensures
        "graph"@ == tag_graph(),
        "vertex"@ == tag_vertex(),
        "arc"@ == tag_arc(),
        "from"@ == tag_from(),
        "to"@ == tag_to(),
        "order"@ == tag_order(),
{
    reveal_strlit("graph");
    reveal_strlit("vertex");
    reveal_strlit("arc");
    reveal_strlit("from");
    reveal_strlit("to");
    reveal_strlit("order");
    assert("graph"@ =~= tag_graph());
    assert("vertex"@ =~= tag_vertex());
    assert("arc"@ =~= tag_arc());
    assert("from"@ =~= tag_from());
    assert("to"@ =~= tag_to());
    assert("order"@ =~= tag_order());
}

/// Where the decoder stands in the element structure.
#[derive(PartialEq, Eq, Structural, Clone, Copy, Debug)]
pub enum XMode {
    Waiting,
    InGraph,
    InVertex,
    InArc,
    InFrom,
    InTo,
    InOrder,
}

/// The decoder state: the mode, the arc fields read so far (they persist
/// between arcs, so an arc element may inherit a field the stream did not
/// overwrite), and everything committed.
pub ghost struct XState {
    pub mode: XMode,
    pub from: Seq<char>,
    pub to: Seq<char>,
    pub order: int,
    pub verts: Seq<Seq<char>>,
    pub arcs: Seq<ArcM>,
}

pub open spec fn xinit() -> XState {
    XState {
        mode: XMode::Waiting,
        from: Seq::empty(),
        to: Seq::empty(),
        order: 0,
        verts: Seq::empty(),
        arcs: Seq::empty(),
    }
}

/// One event. Any event that does not fit the element structure is a fatal
/// error; a vertex leaf records its text, an arc closes by committing the
/// current arc fields, and an unreadable order value is an error.
pub open spec fn xstep(st: XState, it: XItemM) -> Option<XState> {
    match it {
        XItemM::Start(name) => {
            match st.mode {
                XMode::Waiting => {
                    if name == tag_graph() {
                        Some(XState { mode: XMode::InGraph, ..st })
                    } else {
                        None
                    }
                },
                XMode::InGraph => {
                    if name == tag_vertex() {
                        Some(XState { mode: XMode::InVertex, ..st })
                    } else if name == tag_arc() {
                        Some(XState { mode: XMode::InArc, ..st })
                    } else {
                        None
                    }
                },
                XMode::InArc => {
                    if name == tag_from() {
                        Some(XState { mode: XMode::InFrom, ..st })
                    } else if name == tag_to() {
                        Some(XState { mode: XMode::InTo, ..st })
                    } else if name == tag_order() {
                        Some(XState { mode: XMode::InOrder, ..st })
                    } else {
                        None
                    }
                },
                _ => None,
            }
        },
        XItemM::End(name) => {
            match st.mode {
                XMode::InGraph => {
                    if name == tag_graph() {
                        Some(XState { mode: XMode::Waiting, ..st })
                    } else {
                        None
                    }
                },
                XMode::InVertex => {
                    if name == tag_vertex() {
                        Some(XState { mode: XMode::InGraph, ..st })
                    } else {
                        None
                    }
                },
                XMode::InArc => {
                    if name == tag_arc() {
                        Some(
                            XState {
                                mode: XMode::InGraph,
                                arcs: st.arcs.push(
                                    ArcM { from: st.from, to: st.to, order: st.order },
                                ),
                                ..st
                            },
                        )
                    } else {
                        None
                    }
                },
                XMode::InFrom => {
                    if name == tag_from() {
                        Some(XState { mode: XMode::InArc, ..st })
                    } else {
                        None
                    }
                },
                XMode::InTo => {
                    if name == tag_to() {
                        Some(XState { mode: XMode::InArc, ..st })
                    } else {
                        None
                    }
                },
                XMode::InOrder => {
                    if name == tag_order() {
                        Some(XState { mode: XMode::InArc, ..st })
                    } else {
                        None
                    }
                },
                XMode::Waiting => None,
            }
        },
        XItemM::Text(t) => {
            match st.mode {
                XMode::InVertex => Some(XState { verts: st.verts.push(t), ..st }),
                XMode::InFrom => Some(XState { from: t, ..st }),
                XMode::InTo => Some(XState { to: t, ..st }),
                XMode::InOrder => {
                    match parse_i32_spec(t) {
                        Some(v) => Some(XState { order: v, ..st }),
                        None => None,
                    }
                },
                _ => None,
            }
        },
    }
}

/// The decoder state after the first `i` events.
pub open spec fn xrun_to(evs: Seq<XItemM>, i: int) -> Option<XState>
    decreases i,
{
    if i <= 0 {
        Some(xinit())
    } else {
        match xrun_to(evs, i - 1) {
            Some(st) => xstep(st, evs[i - 1]),
            None => None,
        }
    }
}

pub proof fn lemma_xrun_to_none_sticky(evs: Seq<XItemM>, i: int, j: int)
    requires
        0 <= i <= j,
        xrun_to(evs, i) is None,
    ensures
        xrun_to(evs, j) is None,
    decreases j - i,
{
    if j > i {
        lemma_xrun_to_none_sticky(evs, i, j - 1);
    }
}

/// What decoding an event stream yields: the vertices and arcs in encounter
/// order, unsorted and unchecked, exactly as the stream listed them.
pub open spec fn decode_spec(evs: Seq<XItemM>) -> Option<GraphM> {
    match xrun_to(evs, evs.len() as int) {
        Some(st) => Some(GraphM { verts: st.verts, arcs: st.arcs }),
        None => None,
    }
}

/// Decodes a graph from an event stream. The graph is returned raw: callers
/// that need uniqueness, referential integrity or sortedness check them
/// separately.
pub fn graph_from_events(evs: &Vec<XmlItem>) -> (r: Option<Graph>)
    ensures
        match r {
            Some(g) => decode_spec(eview(evs@)) == Some(g@),
            None => decode_spec(eview(evs@)) is None,
        },
{
    proof {
        lemma_tags();
    }
    let n = evs.len();
    let mut mode = XMode::Waiting;
    let mut from = String::new();
    let mut to = String::new();
    let mut order: i32 = 0;
    let mut verts: Vec<String> = Vec::new();
    let mut arcs: Vec<Arc> = Vec::new();
    let ghost mut gst = xinit();
    let mut k: usize = 0;
    while k < n
        invariant
            k <= n == evs@.len(),
            xrun_to(eview(evs@), k as int) == Some(gst),
            mode == gst.mode,
            from@ == gst.from,
            to@ == gst.to,
            order as int == gst.order,
            crate::graph::names_view(verts@) == gst.verts,
            crate::graph::arcs_view(arcs@) == gst.arcs,
        decreases n - k,
    {
        proof {
            lemma_tags();
            assert(eview(evs@)[k as int] == evs@[k as int]@);
        }
        let bad: bool;
        match &evs[k] {
            XmlItem::Start(name) => {
                match mode {
                    XMode::Waiting => {
                        if str_eq(name.as_str(), "graph") {
                            mode = XMode::InGraph;
                            bad = false;
                        } else {
                            bad = true;
                        }
                    },
                    XMode::InGraph => {
                        if str_eq(name.as_str(), "vertex") {
                            mode = XMode::InVertex;
                            bad = false;
                        } else if str_eq(name.as_str(), "arc") {
                            mode = XMode::InArc;
                            bad = false;
                        } else {
                            bad = true;
                        }
                    },
                    XMode::InArc => {
                        if str_eq(name.as_str(), "from") {
                            mode = XMode::InFrom;
                            bad = false;
                        } else if str_eq(name.as_str(), "to") {
                            mode = XMode::InTo;
                            bad = false;
                        } else if str_eq(name.as_str(), "order") {
                            mode = XMode::InOrder;
                            bad = false;
                        } else {
                            bad = true;
                        }
                    },
                    _ => {
                        bad = true;
                    },
                }
            },
            XmlItem::End(name) => {
                match mode {
                    XMode::InGraph => {
                        if str_eq(name.as_str(), "graph") {
                            mode = XMode::Waiting;
                            bad = false;
                        } else {
                            bad = true;
                        }
                    },
                    XMode::InVertex => {
                        if str_eq(name.as_str(), "vertex") {
                            mode = XMode::InGraph;
                            bad = false;
                        } else {
                            bad = true;
                        }
                    },
                    XMode::InArc => {
                        if str_eq(name.as_str(), "arc") {
                            let a = Arc { from: from.clone(), to: to.clone(), order };
                            arcs.push(a);
                            proof {
                                assert(crate::graph::arcs_view(arcs@) =~= gst.arcs.push(
                                    ArcM { from: gst.from, to: gst.to, order: gst.order },
                                ));
                            }
                            mode = XMode::InGraph;
                            bad = false;
                        } else {
                            bad = true;
                        }
                    },
                    XMode::InFrom => {
                        if str_eq(name.as_str(), "from") {
                            mode = XMode::InArc;
                            bad = false;
                        } else {
                            bad = true;
                        }
                    },
                    XMode::InTo => {
                        if str_eq(name.as_str(), "to") {
                            mode = XMode::InArc;
                            bad = false;
                        } else {
                            bad = true;
                        }
                    },
                    XMode::InOrder => {
                        if str_eq(name.as_str(), "order") {
                            mode = XMode::InArc;
                            bad = false;
                        } else {
                            bad = true;
                        }
                    },
                    XMode::Waiting => {
                        bad = true;
                    },
                }
            },
            XmlItem::Text(t) => {
                match mode {
                    XMode::InVertex => {
                        let ghost before = crate::graph::names_view(verts@);
                        verts.push(t.clone());
                        proof {
                            assert(crate::graph::names_view(verts@) =~= before.push(t@));
                        }
                        bad = false;
                    },
                    XMode::InFrom => {
                        from = t.clone();
                        bad = false;
                    },
                    XMode::InTo => {
                        to = t.clone();
                        bad = false;
                    },
                    XMode::InOrder => {
                        match parse_i32(t.as_str()) {
                            Some(v) => {
                                order = v;
                                bad = false;
                            },
                            None => {
                                bad = true;
                            },
                        }
                    },
                    _ => {
                        bad = true;
                    },
                }
            },
        }
        if bad {
            proof {
                lemma_xrun_to_none_sticky(eview(evs@), k + 1, eview(evs@).len() as int);
            }
            return None;
        }
        proof {
            gst = xstep(gst, eview(evs@)[k as int]).unwrap();
        }
        k = k + 1;
    }
    let g = Graph { vertices: verts, arcs };
    Some(g)
}

/// The events encoding one vertex list, in order.
pub open spec fn vertex_events(vs: Seq<Seq<char>>) -> Seq<XItemM>
    decreases vs.len(),
{
    if vs.len() == 0 {
        Seq::empty()
    } else {
        vertex_events(vs.drop_last()) + seq![
            XItemM::Start(tag_vertex()),
            XItemM::Text(vs.last()),
            XItemM::End(tag_vertex()),
        ]
    }
}

/// The events encoding one arc list, in order.
pub open spec fn arc_events(arcs: Seq<ArcM>) -> Seq<XItemM>
    decreases arcs.len(),
{
    if arcs.len() == 0 {
        Seq::empty()
    } else {
        arc_events(arcs.drop_last()) + seq![
            XItemM::Start(tag_arc()),
            XItemM::Start(tag_from()),
            XItemM::Text(arcs.last().from),
            XItemM::End(tag_from()),
            XItemM::Start(tag_to()),
            XItemM::Text(arcs.last().to),
            XItemM::End(tag_to()),
            XItemM::Start(tag_order()),
            XItemM::Text(i32_text(arcs.last().order)),
            XItemM::End(tag_order()),
            XItemM::End(tag_arc()),
        ]
    }
}

/// The full event stream a graph encodes to: the container, the vertex
/// leaves, then the arc elements.
pub open spec fn events_of(g: GraphM) -> Seq<XItemM> {
    seq![XItemM::Start(tag_graph())] + vertex_events(g.verts) + arc_events(g.arcs) + seq![
        XItemM::End(tag_graph()),
    ]
}

/// Encodes a graph as the event stream `events_of` describes.
pub fn graph_to_events(g: &Graph) -> (r: Vec<XmlItem>)
    ensures
        eview(r@) == events_of(g@),
{
    proof {
        lemma_tags();
    }
    let mut out: Vec<XmlItem> = Vec::new();
    out.push(XmlItem::Start(String::from_str("graph")));
    let nv = g.vertices.len();
    for i in 0..nv
        invariant
            nv == g.vertices.len(),
            "vertex"@ == tag_vertex(),
            eview(out@) =~= seq![XItemM::Start(tag_graph())] + vertex_events(
                g@.verts.take(i as int),
            ),
    {
        let ghost before = eview(out@);
        out.push(XmlItem::Start(String::from_str("vertex")));
        out.push(XmlItem::Text(g.vertices[i].clone()));
        out.push(XmlItem::End(String::from_str("vertex")));
        proof {
            assert(g@.verts.take(i + 1).drop_last() =~= g@.verts.take(i as int));
            assert(g@.verts.take(i + 1).last() == g.vertices@[i as int]@);
            assert(eview(out@) =~= before + seq![
                XItemM::Start(tag_vertex()),
                XItemM::Text(g.vertices@[i as int]@),
                XItemM::End(tag_vertex()),
            ]);
        }
    }
    proof {
        assert(g@.verts.take(nv as int) =~= g@.verts);
    }
    let na = g.arcs.len();
    for k in 0..na
        invariant
            na == g.arcs.len(),
            "arc"@ == tag_arc(),
            "from"@ == tag_from(),
            "to"@ == tag_to(),
            "order"@ == tag_order(),
            eview(out@) =~= seq![XItemM::Start(tag_graph())] + vertex_events(g@.verts)
                + arc_events(g@.arcs.take(k as int)),
    {
        let ghost before = eview(out@);
        out.push(XmlItem::Start(String::from_str("arc")));
        out.push(XmlItem::Start(String::from_str("from")));
        out.push(XmlItem::Text(g.arcs[k].from.clone()));
        out.push(XmlItem::End(String::from_str("from")));
        out.push(XmlItem::Start(String::from_str("to")));
        out.push(XmlItem::Text(g.arcs[k].to.clone()));
        out.push(XmlItem::End(String::from_str("to")));
        out.push(XmlItem::Start(String::from_str("order")));
        out.push(XmlItem::Text(order_text(g.arcs[k].order)));
        out.push(XmlItem::End(String::from_str("order")));
        out.push(XmlItem::End(String::from_str("arc")));
        proof {
            assert(g@.arcs.take(k + 1).drop_last() =~= g@.arcs.take(k as int));
            assert(g@.arcs.take(k + 1).last() == g.arcs@[k as int]@);
            assert(eview(out@) =~= before + seq![
                XItemM::Start(tag_arc()),
                XItemM::Start(tag_from()),
                XItemM::Text(g.arcs@[k as int]@.from),
                XItemM::End(tag_from()),
                XItemM::Start(tag_to()),
                XItemM::Text(g.arcs@[k as int]@.to),
                XItemM::End(tag_to()),
                XItemM::Start(tag_order()),
                XItemM::Text(i32_text(g.arcs@[k as int]@.order)),
                XItemM::End(tag_order()),
                XItemM::End(tag_arc()),
            ]);
        }
    }
    proof {
        assert(g@.arcs.take(na as int) =~= g@.arcs);
    }
    out.push(XmlItem::End(String::from_str("graph")));
    proof {
        assert(eview(out@) =~= events_of(g@));
    }
    out
}

} // verus!
