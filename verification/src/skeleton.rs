//! From a subdivision to its dual graph.

use vstd::prelude::*;
use crate::graph::{degree, in_range, Edge, Graph, GraphView};
use crate::subdivision::{
    cell_sides, on_boundary, same_segment, side_at, sides_of_first, CellView, Side, Subdivision,
};

verus! {

/// The inner edges that side `i` gives rise to with the sides after it, up to
/// side `upto`: one for every later side on the same segment, between the
/// cells that own the two sides.
pub open spec fn partner_edges(sides: Seq<Side>, i: int, upto: int) -> Seq<Edge>
    decreases upto - i,
{
    if upto <= i + 1 {
        Seq::empty()
    } else {
        let before = partner_edges(sides, i, upto - 1);
        if same_segment(sides[i], sides[upto - 1]) {
            before.push(Edge::Inner { a: sides[i].owner, b: sides[upto - 1].owner })
        } else {
            before
        }
    }
}

/// The leg of side `i`, if the side lies on the boundary of the polygon.
pub open spec fn leg_of(sides: Seq<Side>, i: int) -> Seq<Edge> {
    if on_boundary(sides, i) {
        seq![Edge::Leg { at: sides[i].owner }]
    } else {
        Seq::empty()
    }
}

/// The edges that side `i` gives rise to: its leg, if any, then its edges
/// with later sides.
pub open spec fn side_edges(sides: Seq<Side>, i: int) -> Seq<Edge> {
    leg_of(sides, i) + partner_edges(sides, i, sides.len() as int)
}

/// The edges that the first `n` sides give rise to.
pub open spec fn edges_of_first(sides: Seq<Side>, n: int) -> Seq<Edge>
    decreases n,
{
    if n <= 0 {
        Seq::empty()
    } else {
        edges_of_first(sides, n - 1) + side_edges(sides, n - 1)
    }
}

/// The dual graph of a subdivision. Every cell is a vertex, under its index.
/// Every pair of sides on one segment is an inner edge between the two cells
/// that own them, so cells that meet along several segments are joined by as
/// many edges, and a cell that meets itself carries a loop. Every side on the
/// boundary of the polygon is a leg of its cell.
pub open spec fn skeleton(cells: Seq<CellView>) -> GraphView {
    let sides = sides_of_first(cells, cells.len() as int);
    GraphView { vertices: cells.len(), edges: edges_of_first(sides, sides.len() as int) }
}

/// Why a subdivision has no dual graph: the vertex named has a degree other
/// than 3, and no vertex before it has.
#[derive(Clone, Copy, Debug, PartialEq, Eq, Structural)]
pub struct SkeletonError {
    pub vertex: usize,
}

/// The sides of all cells of `subdivision`, cell after cell.
fn collect_sides(subdivision: &Subdivision) -> (sides: Vec<Side>)
    ensures
        sides@ == subdivision.sides(),
        forall|k: int| 0 <= k < sides@.len() ==> (#[trigger] sides@[k]).owner < subdivision@.len(),
{
    let mut sides: Vec<Side> = Vec::new();
    let mut c: usize = 0;
    while c < subdivision.cells.len()
        invariant
            c <= subdivision.cells@.len(),
            sides@ == sides_of_first(subdivision@, c as int),
            forall|k: int| 0 <= k < sides@.len() ==> (#[trigger] sides@[k]).owner < subdivision@.len(),
        decreases subdivision.cells@.len() - c,
    {
        let cell = &subdivision.cells[c];
        let ghost base = sides@;
        let ghost all = cell_sides(subdivision@[c as int], c);
        assert(cell@ == subdivision@[c as int]);
        let mut k: usize = 0;
        while k < cell.sides.len()
            invariant
                k <= cell@.sides.len(),
                c < subdivision@.len(),
                cell@ == subdivision@[c as int],
                all == cell_sides(cell@, c),
                sides@ == base + all.take(k as int),
                forall|i: int| 0 <= i < base.len() ==> (#[trigger] base[i]).owner < subdivision@.len(),
            decreases cell@.sides.len() - k,
        {
            let (p, q) = cell.sides[k];
            let side = if p <= q {
                Side { owner: c, lo: p, hi: q }
            } else {
                Side { owner: c, lo: q, hi: p }
            };
            assert(side == side_at(cell@, c, k as int));
            sides.push(side);
            assert(all.take(k + 1) =~= all.take(k as int).push(all[k as int]));
            assert(sides@ =~= base + all.take(k + 1));
            k += 1;
        }
        assert(all.take(k as int) =~= all);
        c += 1;
    }
    sides
}

/// Whether no other side lies on the segment of side `i`.
fn is_outer(sides: &Vec<Side>, i: usize) -> (outer: bool)
    requires
        i < sides@.len(),
    ensures
        outer == on_boundary(sides@, i as int),
{
    let mut j: usize = 0;
    while j < sides.len()
        invariant
            j <= sides@.len(),
            i < sides@.len(),
            forall|k: int| 0 <= k < j && k != i ==> !same_segment(sides@[i as int], #[trigger] sides@[k]),
        decreases sides@.len() - j,
    {
        if j != i && sides[j].lo == sides[i].lo && sides[j].hi == sides[i].hi {
            return false;
        }
        j += 1;
    }
    true
}

/// The edges that the sides give rise to.
fn collect_edges(sides: &Vec<Side>, n: usize) -> (edges: Vec<Edge>)
    requires
        forall|k: int| 0 <= k < sides@.len() ==> (#[trigger] sides@[k]).owner < n,
    ensures
        edges@ == edges_of_first(sides@, sides@.len() as int),
        forall|k: int| 0 <= k < edges@.len() ==> in_range(#[trigger] edges@[k], n as int),
{
    let mut edges: Vec<Edge> = Vec::new();
    let mut i: usize = 0;
    while i < sides.len()
        invariant
            i <= sides@.len(),
            edges@ == edges_of_first(sides@, i as int),
            forall|k: int| 0 <= k < sides@.len() ==> (#[trigger] sides@[k]).owner < n,
            forall|k: int| 0 <= k < edges@.len() ==> in_range(#[trigger] edges@[k], n as int),
        decreases sides@.len() - i,
    {
        let ghost base = edges@;
        let ghost lead = leg_of(sides@, i as int);
        if is_outer(sides, i) {
            edges.push(Edge::Leg { at: sides[i].owner });
        }
        assert(edges@ =~= base + lead);
        let mut j: usize = i + 1;
        while j < sides.len()
            invariant
                i < j <= sides@.len(),
                edges@ == base + lead + partner_edges(sides@, i as int, j as int),
                forall|k: int| 0 <= k < sides@.len() ==> (#[trigger] sides@[k]).owner < n,
                forall|k: int| 0 <= k < edges@.len() ==> in_range(#[trigger] edges@[k], n as int),
            decreases sides@.len() - j,
        {
            if sides[j].lo == sides[i].lo && sides[j].hi == sides[i].hi {
                edges.push(Edge::Inner { a: sides[i].owner, b: sides[j].owner });
            }
            assert(edges@ =~= base + lead + partner_edges(sides@, i as int, j + 1));
            j += 1;
        }
        assert(edges@ =~= base + side_edges(sides@, i as int));
        i += 1;
    }
    edges
}

impl Graph {
    /// The dual graph of `subdivision`, with the class of every edge worked
    /// out. A subdivision whose dual graph has a vertex of a degree other
    /// than 3 is refused, and the error names the first such vertex.
    pub fn new_skeleton(subdivision: &Subdivision) -> (built: Result<Graph, SkeletonError>)
        ensures
            built is Ok <==> skeleton(subdivision@).trivalent(),
            built matches Ok(graph) ==> graph.wf() && graph@ == skeleton(subdivision@)
                && graph@.trivalent(),
            built matches Err(e) ==> e.vertex < subdivision@.len() && degree(
                skeleton(subdivision@).edges,
                e.vertex as int,
            ) != 3 && forall|u: int|
                0 <= u < e.vertex ==> #[trigger] degree(skeleton(subdivision@).edges, u) == 3,
    {
        let graph = Graph::dual(subdivision);
        match graph.first_irregular() {
            None => Ok(graph),
            Some(vertex) => Err(SkeletonError { vertex }),
        }
    }

    /// The dual graph of `subdivision`, whatever the degrees of its vertices.
    fn dual(subdivision: &Subdivision) -> (graph: Graph)
        ensures
            graph.wf(),
            graph@ == skeleton(subdivision@),
    {
        let sides = collect_sides(subdivision);
        let edges = collect_edges(&sides, subdivision.cells.len());
        Graph::assemble(subdivision.cells.len(), edges)
    }
}

} // verus!
