//! The dual multigraph of a subdivision, with every edge sorted into its
//! topological class.

use vstd::prelude::*;

verus! {

/// An edge of a dual graph. An inner edge joins two vertices (or one vertex
/// with itself); a leg starts at a vertex and runs out to the boundary of the
/// polygon, where it ends in no vertex.
#[derive(Clone, Copy, Debug, PartialEq, Eq, Structural)]
pub enum Edge {
    Inner { a: usize, b: usize },
    Leg { at: usize },
}

/// The topological role of an edge.
#[derive(Clone, Copy, Debug, PartialEq, Eq, Structural)]
pub enum EdgeClass {
    /// Both ends are the same vertex.
    Loop,
    /// Taking the edge away separates its two ends.
    Bridge,
    /// One of several edges between the same two vertices.
    BiEdge,
    /// A leg that runs out to the boundary.
    Sprawling,
    /// An inner edge of none of the other classes.
    Plain,
}

/// The edge `e` is an inner edge between `u` and `v`, in either direction.
pub open spec fn joins(e: Edge, u: int, v: int) -> bool {
    match e {
        Edge::Inner { a, b } => (a == u && b == v) || (a == v && b == u),
        Edge::Leg { .. } => false,
    }
}

/// Every end of `e` is one of the vertices `0 .. n`.
pub open spec fn in_range(e: Edge, n: int) -> bool {
    match e {
        Edge::Inner { a, b } => a < n && b < n,
        Edge::Leg { at } => at < n,
    }
}

/// Some edge other than number `skip` joins `u` and `v`.
pub open spec fn linked(edges: Seq<Edge>, skip: int, u: int, v: int) -> bool {
    exists|j: int| 0 <= j < edges.len() && j != skip && #[trigger] joins(edges[j], u, v)
}

/// `path` is a walk in the graph that never uses edge number `skip`.
pub open spec fn is_walk(edges: Seq<Edge>, skip: int, path: Seq<int>) -> bool {
    &&& path.len() > 0
    &&& forall|k: int|
        0 <= k < path.len() - 1 ==> linked(edges, skip, #[trigger] path[k], path[k + 1])
}

/// `u` and `v` are joined by a walk that never uses edge number `skip`. Legs
/// join nothing: each ends on the boundary by itself.
pub open spec fn connected_without(edges: Seq<Edge>, skip: int, u: int, v: int) -> bool {
    exists|path: Seq<int>| #[trigger]
        is_walk(edges, skip, path) && path[0] == u && path.last() == v
}

/// The class of edge number `i` of a graph with the edges `edges`.
///
/// A leg is sprawling. An inner edge from a vertex to itself is a loop. An
/// inner edge beside which another edge joins the same two vertices is a
/// bi-edge. Of the remaining edges, one whose ends are joined by no walk that
/// avoids it is a bridge, and the others are plain.
pub open spec fn class_at(edges: Seq<Edge>, i: int) -> EdgeClass {
    match edges[i] {
        Edge::Leg { .. } => EdgeClass::Sprawling,
        Edge::Inner { a, b } => if a == b {
            EdgeClass::Loop
        } else if linked(edges, i, a as int, b as int) {
            EdgeClass::BiEdge
        } else if !connected_without(edges, i, a as int, b as int) {
            EdgeClass::Bridge
        } else {
            EdgeClass::Plain
        },
    }
}

/// How many ends of `e` lie at `v`: an inner edge from `v` to `v` has two.
pub open spec fn ends_at(e: Edge, v: int) -> nat {
    match e {
        Edge::Inner { a, b } => (if a == v { 1nat } else { 0nat }) + (if b == v { 1nat } else { 0nat }),
        Edge::Leg { at } => if at == v { 1nat } else { 0nat },
    }
}

/// The number of edge ends at `v` among the first `n` edges.
pub open spec fn degree_upto(edges: Seq<Edge>, v: int, n: int) -> nat
    decreases n,
{
    if n <= 0 {
        0
    } else {
        degree_upto(edges, v, n - 1) + ends_at(edges[n - 1], v)
    }
}

/// The degree of vertex `v`: a loop counts twice, a leg once.
pub open spec fn degree(edges: Seq<Edge>, v: int) -> nat {
    degree_upto(edges, v, edges.len() as int)
}

/// The number of entries of `classes` that are `class`.
pub open spec fn class_count(classes: Seq<EdgeClass>, class: EdgeClass) -> nat
    decreases classes.len(),
{
    if classes.len() == 0 {
        0
    } else {
        class_count(classes.drop_last(), class) + if classes.last() == class { 1nat } else { 0nat }
    }
}

/// What a graph is: the number of its vertices, which are `0 .. vertices`,
/// and its edges in the order in which they were given.
pub struct GraphView {
    pub vertices: nat,
    pub edges: Seq<Edge>,
}

impl GraphView {
    /// The vertices can be counted by a machine word, and no edge ends
    /// outside them.
    pub open spec fn wf(self) -> bool {
        &&& self.vertices <= usize::MAX
        &&& forall|i: int|
            0 <= i < self.edges.len() ==> in_range(#[trigger] self.edges[i], self.vertices as int)
    }

    /// The class of every edge, in the order of the edges.
    pub open spec fn classes(self) -> Seq<EdgeClass> {
        Seq::new(self.edges.len(), |i: int| class_at(self.edges, i))
    }

    /// Every vertex has degree 3.
    pub open spec fn trivalent(self) -> bool {
        forall|v: int| 0 <= v < self.vertices ==> #[trigger] degree(self.edges, v) == 3
    }
}

/// A multigraph with legs. The class of every edge is worked out once, when
/// the graph is made, and kept beside the edge.
#[derive(Debug)]
pub struct Graph {
    vertices: usize,
    edges: Vec<Edge>,
    classes: Vec<EdgeClass>,
}

impl View for Graph {
    type V = GraphView;

    closed spec fn view(&self) -> GraphView {
        GraphView { vertices: self.vertices as nat, edges: self.edges@ }
    }
}

/// The number of entries of `seen` that are `false`.
spec fn unseen_count(seen: Seq<bool>) -> nat
    decreases seen.len(),
{
    if seen.len() == 0 {
        0
    } else {
        unseen_count(seen.drop_last()) + if seen.last() { 0nat } else { 1nat }
    }
}

proof fn lemma_unseen_mark(seen: Seq<bool>, w: int)
    requires
        0 <= w < seen.len(),
        !seen[w],
    ensures
        unseen_count(seen.update(w, true)) + 1 == unseen_count(seen),
    decreases seen.len(),
{
    let marked = seen.update(w, true);
    if w == seen.len() - 1 {
        assert(marked.drop_last() =~= seen.drop_last());
    } else {
        assert(marked.drop_last() =~= seen.drop_last().update(w, true));
        lemma_unseen_mark(seen.drop_last(), w);
    }
}

/// No edge other than `skip` leads from a seen vertex to an unseen one.
spec fn closed_under(edges: Seq<Edge>, skip: int, seen: Seq<bool>, upto: int) -> bool {
    forall|j: int|
        0 <= j < upto && j != skip ==> match #[trigger] edges[j] {
            Edge::Inner { a, b } => seen[a as int] == seen[b as int],
            Edge::Leg { .. } => true,
        }
}

proof fn lemma_walk_stays_seen(
    edges: Seq<Edge>,
    skip: int,
    seen: Seq<bool>,
    path: Seq<int>,
    k: int,
)
    requires
        closed_under(edges, skip, seen, edges.len() as int),
        forall|i: int| 0 <= i < edges.len() ==> in_range(#[trigger] edges[i], seen.len() as int),
        is_walk(edges, skip, path),
        0 <= path[0] < seen.len(),
        seen[path[0]],
        0 <= k < path.len(),
    ensures
        0 <= path[k] < seen.len(),
        seen[path[k]],
    decreases k,
{
    if k > 0 {
        lemma_walk_stays_seen(edges, skip, seen, path, k - 1);
        assert(linked(edges, skip, path[k - 1], path[k - 1 + 1]));
        let j = choose|j: int|
            0 <= j < edges.len() && j != skip && #[trigger] joins(edges[j], path[k - 1], path[k]);
        assert(in_range(edges[j], seen.len() as int));
    }
}

/// Whether `from` and `to` are joined by a walk that avoids edge `skip`.
fn reaches(edges: &Vec<Edge>, n: usize, skip: usize, from: usize, to: usize) -> (found: bool)
    requires
        from < n,
        to < n,
        forall|i: int| 0 <= i < edges@.len() ==> in_range(#[trigger] edges@[i], n as int),
    ensures
        found == connected_without(edges@, skip as int, from as int, to as int),
{
    let mut seen: Vec<bool> = Vec::new();
    while seen.len() < n
        invariant
            seen@.len() <= n,
            forall|v: int| 0 <= v < seen@.len() ==> !seen@[v],
            unseen_count(seen@) == seen@.len(),
        decreases n - seen@.len(),
    {
        let ghost before = seen@;
        seen.push(false);
        assert(seen@.drop_last() =~= before);
    }
    proof {
        lemma_unseen_mark(seen@, from as int);
    }
    seen.set(from, true);
    let ghost mut route: Seq<Seq<int>> = Seq::new(n as nat, |v: int| seq![from as int]);
    assert(is_walk(edges@, skip as int, seq![from as int]));
    let mut unseen: usize = n - 1;
    let mut grew = true;
    while grew
        invariant
            seen@.len() == n,
            route.len() == n,
            from < n,
            seen@[from as int],
            unseen == unseen_count(seen@),
            forall|i: int| 0 <= i < edges@.len() ==> in_range(#[trigger] edges@[i], n as int),
            forall|v: int|
                0 <= v < n && seen@[v] ==> is_walk(edges@, skip as int, #[trigger] route[v])
                    && route[v][0] == from && route[v].last() == v,
            !grew ==> closed_under(edges@, skip as int, seen@, edges@.len() as int),
        decreases unseen, (if grew { 1int } else { 0int }),
    {
        grew = false;
        let ghost start = unseen;
        let mut j: usize = 0;
        while j < edges.len()
            invariant
                j <= edges@.len(),
                seen@.len() == n,
                route.len() == n,
                from < n,
                seen@[from as int],
                unseen == unseen_count(seen@),
                forall|i: int| 0 <= i < edges@.len() ==> in_range(#[trigger] edges@[i], n as int),
                forall|v: int|
                    0 <= v < n && seen@[v] ==> is_walk(edges@, skip as int, #[trigger] route[v])
                        && route[v][0] == from && route[v].last() == v,
                !grew ==> closed_under(edges@, skip as int, seen@, j as int),
                unseen <= start,
                grew ==> unseen < start,
            decreases edges@.len() - j,
        {
            if j != skip {
                match edges[j] {
                    Edge::Inner { a, b } => {
                        assert(in_range(edges@[j as int], n as int));
                        if seen[a] != seen[b] {
                            let (u, w) = if seen[a] { (a, b) } else { (b, a) };
                            proof {
                                let longer = route[u as int].push(w as int);
                                assert(joins(edges@[j as int], u as int, w as int));
                                assert(linked(edges@, skip as int, u as int, w as int));
                                assert forall|k: int| 0 <= k < longer.len() - 1 implies linked(
                                    edges@,
                                    skip as int,
                                    #[trigger] longer[k],
                                    longer[k + 1],
                                ) by {
                                    if k < route[u as int].len() - 1 {
                                        assert(longer[k] == route[u as int][k]);
                                        assert(longer[k + 1] == route[u as int][k + 1]);
                                    }
                                }
                                assert(is_walk(edges@, skip as int, longer));
                                route = route.update(w as int, longer);
                                lemma_unseen_mark(seen@, w as int);
                            }
                            seen.set(w, true);
                            unseen = unseen - 1;
                            grew = true;
                        }
                    },
                    Edge::Leg { .. } => {},
                }
            }
            j += 1;
        }
    }
    let found = seen[to];
    proof {
        if found {
            assert(is_walk(edges@, skip as int, route[to as int]));
        }
        if connected_without(edges@, skip as int, from as int, to as int) {
            let path = choose|path: Seq<int>| #[trigger]
                is_walk(edges@, skip as int, path) && path[0] == from && path.last() == to;
            lemma_walk_stays_seen(edges@, skip as int, seen@, path, path.len() - 1);
        }
    }
    found
}

/// Whether an edge other than number `i` joins `a` and `b`.
fn has_twin(edges: &Vec<Edge>, i: usize, a: usize, b: usize) -> (found: bool)
    ensures
        found == linked(edges@, i as int, a as int, b as int),
{
    let mut j: usize = 0;
    while j < edges.len()
        invariant
            j <= edges@.len(),
            forall|k: int| 0 <= k < j && k != i ==> !#[trigger] joins(edges@[k], a as int, b as int),
        decreases edges@.len() - j,
    {
        if j != i {
            match edges[j] {
                Edge::Inner { a: p, b: q } => {
                    if (p == a && q == b) || (p == b && q == a) {
                        assert(joins(edges@[j as int], a as int, b as int));
                        return true;
                    }
                },
                Edge::Leg { .. } => {},
            }
        }
        j += 1;
    }
    false
}

/// The class of edge number `i`.
fn classify(edges: &Vec<Edge>, n: usize, i: usize) -> (class: EdgeClass)
    requires
        i < edges@.len(),
        forall|k: int| 0 <= k < edges@.len() ==> in_range(#[trigger] edges@[k], n as int),
    ensures
        class == class_at(edges@, i as int),
{
    match edges[i] {
        Edge::Leg { .. } => EdgeClass::Sprawling,
        Edge::Inner { a, b } => {
            assert(in_range(edges@[i as int], n as int));
            if a == b {
                EdgeClass::Loop
            } else if has_twin(edges, i, a, b) {
                EdgeClass::BiEdge
            } else if !reaches(edges, n, i, a, b) {
                EdgeClass::Bridge
            } else {
                EdgeClass::Plain
            }
        },
    }
}

/// Whether every end of `e` is below `n`.
fn fits(e: Edge, n: usize) -> (ok: bool)
    ensures
        ok == in_range(e, n as int),
{
    match e {
        Edge::Inner { a, b } => a < n && b < n,
        Edge::Leg { at } => at < n,
    }
}

/// Whether exactly three edge ends lie at `v`.
fn has_degree_three(edges: &Vec<Edge>, v: usize) -> (ok: bool)
    ensures
        ok == (degree(edges@, v as int) == 3),
{
    let mut ends: u8 = 0;
    let mut k: usize = 0;
    while k < edges.len()
        invariant
            k <= edges@.len(),
            ends <= 4,
            ends < 4 ==> ends == degree_upto(edges@, v as int, k as int),
            ends == 4 ==> degree_upto(edges@, v as int, k as int) >= 4,
        decreases edges@.len() - k,
    {
        let here: u8 = match edges[k] {
            Edge::Inner { a, b } => (if a == v { 1u8 } else { 0u8 }) + (if b == v { 1u8 } else { 0u8 }),
            Edge::Leg { at } => if at == v { 1u8 } else { 0u8 },
        };
        assert(here == ends_at(edges@[k as int], v as int));
        ends = if ends + here > 4 { 4 } else { ends + here };
        k += 1;
    }
    ends == 3
}

impl Graph {
    /// The classes kept beside the edges are the classes of the edges.
    pub closed spec fn classes_kept(&self) -> bool {
        self.classes@ == self@.classes()
    }

    /// The graph is well formed: no edge ends outside the vertices, and the
    /// classes that it keeps are right.
    pub open spec fn wf(&self) -> bool {
        self@.wf() && self.classes_kept()
    }

    /// The graph with the vertices `0 .. vertices` and the given edges, or
    /// nothing where an edge ends outside the vertices. The degrees are not
    /// looked at.
    pub fn from_edges(vertices: usize, edges: Vec<Edge>) -> (graph: Option<Graph>)
        ensures
            graph is Some <==> (forall|i: int|
                0 <= i < edges@.len() ==> in_range(#[trigger] edges@[i], vertices as int)),
            graph matches Some(g) ==> g.wf() && g@.vertices == vertices && g@.edges == edges@,
    {
        let mut i: usize = 0;
        while i < edges.len()
            invariant
                i <= edges@.len(),
                forall|k: int| 0 <= k < i ==> in_range(#[trigger] edges@[k], vertices as int),
            decreases edges@.len() - i,
        {
            if !fits(edges[i], vertices) {
                return None;
            }
            i += 1;
        }
        Some(Graph::assemble(vertices, edges))
    }

    /// The graph with the vertices `0 .. vertices` and the given edges, none
    /// of which ends outside the vertices.
    pub(crate) fn assemble(vertices: usize, edges: Vec<Edge>) -> (graph: Graph)
        requires
            forall|i: int| 0 <= i < edges@.len() ==> in_range(#[trigger] edges@[i], vertices as int),
        ensures
            graph.wf(),
            graph@.vertices == vertices,
            graph@.edges == edges@,
    {
        let mut classes: Vec<EdgeClass> = Vec::new();
        let mut i: usize = 0;
        while i < edges.len()
            invariant
                i <= edges@.len(),
                classes@.len() == i,
                forall|k: int| 0 <= k < edges@.len() ==> in_range(#[trigger] edges@[k], vertices as int),
                forall|k: int| 0 <= k < i ==> classes@[k] == class_at(edges@, k),
            decreases edges@.len() - i,
        {
            let class = classify(&edges, vertices, i);
            classes.push(class);
            i += 1;
        }
        let graph = Graph { vertices, edges, classes };
        assert(graph.classes@ =~= graph@.classes());
        graph
    }

    /// The number of vertices.
    pub fn vertex_count(&self) -> (n: usize)
        ensures
            n == self@.vertices,
    {
        self.vertices
    }

    /// The number of edges, legs included.
    pub fn edge_count(&self) -> (n: usize)
        ensures
            n == self@.edges.len(),
    {
        self.edges.len()
    }

    /// Edge number `i`.
    pub fn edge(&self, i: usize) -> (e: Edge)
        requires
            i < self@.edges.len(),
        ensures
            e == self@.edges[i as int],
    {
        self.edges[i]
    }

    /// The class of edge number `i`.
    pub fn class(&self, i: usize) -> (class: EdgeClass)
        requires
            self.wf(),
            i < self@.edges.len(),
        ensures
            class == class_at(self@.edges, i as int),
    {
        self.classes[i]
    }

    /// The number of edges of the given class.
    pub fn count_of(&self, class: EdgeClass) -> (n: usize)
        requires
            self.wf(),
        ensures
            n == class_count(self@.classes(), class),
    {
        let mut n: usize = 0;
        let mut k: usize = 0;
        while k < self.classes.len()
            invariant
                k <= self.classes@.len(),
                n <= k,
                n == class_count(self.classes@.take(k as int), class),
            decreases self.classes@.len() - k,
        {
            assert(self.classes@.take(k + 1).drop_last() =~= self.classes@.take(k as int));
            if self.classes[k] == class {
                n += 1;
            }
            k += 1;
        }
        assert(self.classes@.take(k as int) =~= self.classes@);
        n
    }

    /// The first vertex whose degree is not 3, or nothing where every vertex
    /// has degree 3.
    pub fn first_irregular(&self) -> (found: Option<usize>)
        ensures
            found is None <==> self@.trivalent(),
            found matches Some(v) ==> v < self@.vertices && degree(self@.edges, v as int) != 3
                && forall|u: int| 0 <= u < v ==> #[trigger] degree(self@.edges, u) == 3,
    {
        let mut v: usize = 0;
        while v < self.vertices
            invariant
                v <= self.vertices,
                forall|u: int| 0 <= u < v ==> #[trigger] degree(self@.edges, u) == 3,
            decreases self.vertices - v,
        {
            if !has_degree_three(&self.edges, v) {
                assert(degree(self@.edges, v as int) != 3);
                assert(!self@.trivalent());
                return Some(v);
            }
            v += 1;
        }
        None
    }
}

} // verus!
