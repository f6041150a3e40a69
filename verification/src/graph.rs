//! The graph data model: vertices, arcs, and the error taxonomy shared by the
//! whole engine.

use vstd::prelude::*;

verus! {

/// An ordered edge of the graph. `order` is the argument-position hint used
/// to sort sibling arcs; it is a parse-order value, not necessarily
/// contiguous or starting at zero.
#[derive(Debug, Clone)]
pub struct Arc {
    pub from: String,
    pub to: String,
    pub order: i32,
}

/// A graph is a vertex list plus an arc list. Well-formed graphs list every
/// vertex once; the notation parser always produces a well-formed graph with
/// sorted vertices and arcs sorted by ascending `order`.
#[derive(Debug)]
pub struct Graph {
    pub vertices: Vec<String>,
    pub arcs: Vec<Arc>,
}

/// The mathematical shape of an arc: two names and an order value.
#[verifier::ext_equal]
pub ghost struct ArcM {
    pub from: Seq<char>,
    pub to: Seq<char>,
    pub order: int,
}

impl View for Arc {
    type V = ArcM;

    open spec fn view(&self) -> ArcM {
        ArcM { from: self.from@, to: self.to@, order: self.order as int }
    }
}

/// The mathematical shape of a graph: a name sequence and an arc sequence.
#[verifier::ext_equal]
pub ghost struct GraphM {
    pub verts: Seq<Seq<char>>,
    pub arcs: Seq<ArcM>,
}

impl View for Graph {
    type V = GraphM;

    open spec fn view(&self) -> GraphM {
        GraphM { verts: names_view(self.vertices@), arcs: arcs_view(self.arcs@) }
    }
}

/// Every failure the engine can report.
#[derive(Debug, PartialEq, Eq, Structural, Clone, Copy)]
pub enum GraphError {
    /// Malformed notation or a malformed decoded document.
    InvalidInput,
    /// An arc endpoint names a vertex absent from the vertex list.
    UnknownVertex,
    /// An operation table was supplied but lacks an entry for some vertex.
    MissingOperation,
    /// Zero or several extremal vertices in the requested direction.
    NoUniqueRoot,
    /// Some vertex can reach itself again through the graph's edges.
    CycleDetected,
}

/// The vertex list names each vertex exactly once.
pub open spec fn names_unique(vs: Seq<Seq<char>>) -> bool {
    forall|i: int, j: int| 0 <= i < j < vs.len() ==> vs[i] != vs[j]
}

/// View of a vertex list as a sequence of character sequences.
pub open spec fn names_view(vs: Seq<String>) -> Seq<Seq<char>> {
    vs.map_values(|s: String| s@)
}

/// View of an arc list as a sequence of arc models.
pub open spec fn arcs_view(arcs: Seq<Arc>) -> Seq<ArcM> {
    arcs.map_values(|a: Arc| a@)
}

impl Graph {
    /// The names of the graph's vertices, as ghost sequences.
    pub open spec fn names(&self) -> Seq<Seq<char>> {
        names_view(self.vertices@)
    }

    /// Whether the vertex list repeats no name.
    pub fn check_names_unique(&self) -> (r: bool)
        ensures
            r == names_unique(self.names()),
    {
        let n = self.vertices.len();
        for i in 0..n
            invariant
                n == self.vertices.len(),
                forall|p: int, q: int| 0 <= p < q < self.vertices.len() && p < i
                    ==> self.names()[p] != self.names()[q],
        {
            for j in (i + 1)..n
                invariant
                    i < n == self.vertices.len(),
                    forall|p: int, q: int| 0 <= p < q < self.vertices.len() && p < i
                        ==> self.names()[p] != self.names()[q],
                    forall|q: int| i < q < j ==> self.names()[i as int] != self.names()[q],
            {
                if self.vertices[i] == self.vertices[j] {
                    proof {
                        assert(self.names()[i as int] == self.vertices@[i as int]@);
                        assert(self.names()[j as int] == self.vertices@[j as int]@);
                    }
                    return false;
                }
            }
        }
        true
    }
}

} // verus!
