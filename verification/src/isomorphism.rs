//! What it means for two graphs to be isomorphic, and the laws of that
//! relation.

use vstd::prelude::*;
use vstd::seq_lib::seq_to_set_is_finite;
use vstd::set_lib::{lemma_int_range, lemma_subset_equality, set_int_range};
use crate::counting::{
    after, count, count_if, is_value, lemma_count_if_congruent, lemma_count_if_map,
    lemma_count_map_injective, lemma_same_counts,
};
use crate::graph::{class_at, class_count, in_range, Edge, EdgeClass, GraphView};
use crate::signature::key_of;

verus! {

/// An edge together with its class.
pub struct Link {
    pub edge: Edge,
    pub class: EdgeClass,
}

/// An inner edge names its smaller end first.
pub open spec fn is_canon(e: Edge) -> bool {
    match e {
        Edge::Inner { a, b } => a <= b,
        Edge::Leg { .. } => true,
    }
}

/// The edge `e` with its smaller end named first: the two ways of writing
/// one inner edge become one.
pub open spec fn canon(e: Edge) -> Edge {
    match e {
        Edge::Inner { a, b } => if a <= b {
            e
        } else {
            Edge::Inner { a: b, b: a }
        },
        Edge::Leg { .. } => e,
    }
}

/// The edge `e` after every vertex `v` has been renamed to `f[v]`.
pub open spec fn relabel(f: Seq<usize>, e: Edge) -> Edge {
    match e {
        Edge::Inner { a, b } => canon(Edge::Inner { a: f[a as int], b: f[b as int] }),
        Edge::Leg { at } => Edge::Leg { at: f[at as int] },
    }
}

/// The link `l` after the renaming `f`: the edge is renamed, the class stays.
pub open spec fn move_link(f: Seq<usize>, l: Link) -> Link {
    Link { edge: relabel(f, l.edge), class: l.class }
}

/// The renaming `f` as a function on links.
pub open spec fn mover(f: Seq<usize>) -> spec_fn(Link) -> Link {
    |l: Link| move_link(f, l)
}

/// The property of having the class `class`.
pub open spec fn has_class(class: EdgeClass) -> spec_fn(Link) -> bool {
    |l: Link| l.class == class
}

/// The edges of a graph, each with its smaller end first and with its class.
pub open spec fn labelled(g: GraphView) -> Seq<Link> {
    Seq::new(g.edges.len(), |i: int| Link { edge: canon(g.edges[i]), class: class_at(g.edges, i) })
}

/// The labelled edges of a graph after the renaming `f` of its vertices.
pub open spec fn relabelled(g: GraphView, f: Seq<usize>) -> Seq<Link> {
    labelled(g).map_values(mover(f))
}

/// `f` renames the vertices `0 .. n` among themselves, no two to the same.
pub open spec fn is_perm(f: Seq<usize>, n: nat) -> bool {
    &&& f.len() == n
    &&& forall|i: int| 0 <= i < n ==> #[trigger] f[i] < n
    &&& forall|i: int, j: int| 0 <= i < n && 0 <= j < n && i != j ==> #[trigger] f[i] != #[trigger] f[j]
}

/// The renaming `f` of the vertices of `g1` turns `g1` into `g2`: the two
/// graphs have equally many vertices, and every edge with its class occurs in
/// the renamed `g1` exactly as often as in `g2`.
pub open spec fn iso_via(g1: GraphView, g2: GraphView, f: Seq<usize>) -> bool {
    &&& g1.vertices == g2.vertices
    &&& is_perm(f, g1.vertices)
    &&& forall|l: Link| #[trigger] count(relabelled(g1, f), l) == count(labelled(g2), l)
}

/// Two graphs are isomorphic when some renaming of the vertices of the first
/// turns it into the second, edge for edge and class for class.
pub open spec fn isomorphic(g1: GraphView, g2: GraphView) -> bool {
    exists|f: Seq<usize>| iso_via(g1, g2, f)
}

/// The link is written with its smaller end first and ends inside `0 .. n`.
pub open spec fn ok_link(l: Link, n: nat) -> bool {
    is_canon(l.edge) && in_range(l.edge, n as int)
}

/// The renaming that renames nothing.
pub open spec fn identity(n: nat) -> Seq<usize> {
    Seq::new(n, |i: int| i as usize)
}

/// The renaming `f` followed by the renaming `h`.
pub open spec fn then_by(f: Seq<usize>, h: Seq<usize>) -> Seq<usize> {
    Seq::new(f.len(), |i: int| h[f[i] as int])
}

/// The renaming that undoes `f`.
pub open spec fn inverse(f: Seq<usize>) -> Seq<usize> {
    Seq::new(f.len(), |y: int| (choose|i: int| 0 <= i < f.len() && f[i] == y) as usize)
}

pub proof fn lemma_labelled_ok(g: GraphView)
    requires
        g.wf(),
    ensures
        labelled(g).len() == g.edges.len(),
        forall|i: int| 0 <= i < g.edges.len() ==> ok_link(#[trigger] labelled(g)[i], g.vertices),
{
    assert forall|i: int| 0 <= i < g.edges.len() implies ok_link(
        #[trigger] labelled(g)[i],
        g.vertices,
    ) by {
        assert(in_range(g.edges[i], g.vertices as int));
    }
}

/// A renaming sends links inside the graph to links inside the graph.
pub proof fn lemma_moved_ok(f: Seq<usize>, n: nat, x: Link)
    requires
        is_perm(f, n),
        ok_link(x, n),
    ensures
        ok_link(move_link(f, x), n),
{
}

/// A renaming sends no two links to the same link.
pub proof fn lemma_mover_injective(f: Seq<usize>, n: nat, x: Link, y: Link)
    requires
        is_perm(f, n),
        ok_link(x, n),
        ok_link(y, n),
        move_link(f, x) == move_link(f, y),
    ensures
        x == y,
{
    match (x.edge, y.edge) {
        (Edge::Inner { a, b }, Edge::Inner { a: c, b: d }) => {
            let fa = f[a as int];
            let fb = f[b as int];
            let fc = f[c as int];
            let fd = f[d as int];
            assert(canon(Edge::Inner { a: fa, b: fb }) == canon(Edge::Inner { a: fc, b: fd }));
            assert((fa == fc && fb == fd) || (fa == fd && fb == fc));
            assert((a == c && b == d) || (a == d && b == c));
        },
        (Edge::Leg { at }, Edge::Leg { at: other }) => {
            assert(f[at as int] == f[other as int]);
        },
        _ => {},
    }
}

/// A link occurs in a graph as often as its image occurs in the renamed
/// graph.
pub proof fn lemma_moved_count(g: GraphView, f: Seq<usize>, x: Link)
    requires
        g.wf(),
        is_perm(f, g.vertices),
        ok_link(x, g.vertices),
    ensures
        count(relabelled(g, f), move_link(f, x)) == count(labelled(g), x),
{
    let links = labelled(g);
    lemma_labelled_ok(g);
    assert forall|i: int| 0 <= i < links.len() && mover(f)(#[trigger] links[i]) == mover(f)(
        x,
    ) implies links[i] == x by {
        lemma_mover_injective(f, g.vertices, links[i], x);
    }
    lemma_count_map_injective(links, mover(f), x);
}

/// A renaming reaches every vertex.
pub proof fn lemma_perm_onto(f: Seq<usize>, n: nat, y: int) -> (i: int)
    requires
        is_perm(f, n),
        0 <= y < n,
    ensures
        0 <= i < n,
        f[i] == y,
{
    let values = Seq::new(n, |k: int| f[k] as int);
    assert(values.no_duplicates());
    values.unique_seq_to_set();
    seq_to_set_is_finite(values);
    lemma_int_range(0, n as int);
    let reached = values.to_set();
    let all = set_int_range(0, n as int);
    assert(reached.subset_of(all)) by {
        assert forall|v: int| reached.contains(v) implies all.contains(v) by {
            let k = choose|k: int| 0 <= k < values.len() && values[k] == v;
            assert(f[k] < n);
        }
    }
    lemma_subset_equality(reached, all);
    assert(all.contains(y));
    assert(reached.contains(y));
    let i = choose|i: int| 0 <= i < values.len() && values[i] == y;
    i
}

/// The inverse of a renaming is a renaming, and undoes it on either side.
pub proof fn lemma_inverse(f: Seq<usize>, n: nat)
    requires
        is_perm(f, n),
        n <= usize::MAX,
    ensures
        is_perm(inverse(f), n),
        forall|i: int| 0 <= i < n ==> inverse(f)[#[trigger] f[i] as int] == i,
        forall|y: int| 0 <= y < n ==> f[#[trigger] inverse(f)[y] as int] == y,
{
    let g = inverse(f);
    assert forall|y: int| 0 <= y < n implies 0 <= #[trigger] g[y] < n && f[g[y] as int] == y by {
        let i = lemma_perm_onto(f, n, y);
    }
    assert forall|i: int| 0 <= i < n implies g[#[trigger] f[i] as int] == i by {
        let y = f[i] as int;
        assert(f[g[y] as int] == y);
    }
    assert forall|y: int, z: int| 0 <= y < n && 0 <= z < n && y != z implies #[trigger] g[y]
        != #[trigger] g[z] by {
        assert(f[g[y] as int] == y);
        assert(f[g[z] as int] == z);
    }
}

/// The number of edges of a class, counted among the labelled edges.
pub proof fn lemma_class_count_links(links: Seq<Link>, classes: Seq<EdgeClass>, class: EdgeClass)
    requires
        links.len() == classes.len(),
        forall|i: int| 0 <= i < links.len() ==> (#[trigger] links[i]).class == classes[i],
    ensures
        class_count(classes, class) == count_if(links, has_class(class)),
    decreases links.len(),
{
    if links.len() > 0 {
        assert(links[links.len() - 1].class == classes[classes.len() - 1]);
        assert forall|i: int| 0 <= i < links.drop_last().len() implies (
        #[trigger] links.drop_last()[i]).class == classes.drop_last()[i] by {
            assert(links[i].class == classes[i]);
        }
        lemma_class_count_links(links.drop_last(), classes.drop_last(), class);
    }
}

/// Every graph is isomorphic to itself.
pub proof fn lemma_isomorphic_reflexive(g: GraphView)
    requires
        g.wf(),
    ensures
        isomorphic(g, g),
{
    let f = identity(g.vertices);
    lemma_labelled_ok(g);
    assert(relabelled(g, f) =~= labelled(g)) by {
        assert forall|i: int| 0 <= i < g.edges.len() implies relabelled(g, f)[i] == labelled(
            g,
        )[i] by {
            assert(ok_link(labelled(g)[i], g.vertices));
        }
    }
    assert(iso_via(g, g, f));
}

/// If one graph is isomorphic to another, the other is isomorphic to it.
pub proof fn lemma_isomorphic_symmetric(g1: GraphView, g2: GraphView)
    requires
        g1.wf(),
        g2.wf(),
        isomorphic(g1, g2),
    ensures
        isomorphic(g2, g1),
{
    let f = choose|f: Seq<usize>| iso_via(g1, g2, f);
    let n = g1.vertices;
    let back = inverse(f);
    lemma_inverse(f, n);
    lemma_labelled_ok(g1);
    let l1 = labelled(g1);
    let l2 = labelled(g2);
    assert forall|l: Link| #[trigger] count(relabelled(g2, back), l) == count(l1, l) by {
        let p = is_value(l);
        lemma_count_if_map(l2, mover(back), p);
        lemma_same_counts(relabelled(g1, f), l2, after(mover(back), p));
        lemma_count_if_map(l1, mover(f), after(mover(back), p));
        assert forall|i: int| 0 <= i < l1.len() implies after(mover(f), after(mover(back), p))(
            #[trigger] l1[i],
        ) == p(l1[i]) by {
            assert(ok_link(l1[i], n));
            assert(move_link(back, move_link(f, l1[i])) == l1[i]);
        }
        lemma_count_if_congruent(l1, after(mover(f), after(mover(back), p)), p);
    }
    assert(iso_via(g2, g1, back));
}

/// If one graph is isomorphic to a second and the second to a third, the
/// first is isomorphic to the third.
pub proof fn lemma_isomorphic_transitive(g1: GraphView, g2: GraphView, g3: GraphView)
    requires
        g1.wf(),
        g2.wf(),
        g3.wf(),
        isomorphic(g1, g2),
        isomorphic(g2, g3),
    ensures
        isomorphic(g1, g3),
{
    let f = choose|f: Seq<usize>| iso_via(g1, g2, f);
    let h = choose|h: Seq<usize>| iso_via(g2, g3, h);
    let n = g1.vertices;
    let both = then_by(f, h);
    assert(is_perm(both, n));
    lemma_labelled_ok(g1);
    let l1 = labelled(g1);
    let l2 = labelled(g2);
    assert forall|l: Link| #[trigger] count(relabelled(g1, both), l) == count(labelled(g3), l) by {
        let p = is_value(l);
        lemma_count_if_map(l1, mover(both), p);
        assert forall|i: int| 0 <= i < l1.len() implies after(mover(both), p)(#[trigger] l1[i])
            == after(mover(f), after(mover(h), p))(l1[i]) by {
            assert(ok_link(l1[i], n));
            assert(move_link(both, l1[i]) == move_link(h, move_link(f, l1[i])));
        }
        lemma_count_if_congruent(l1, after(mover(both), p), after(mover(f), after(mover(h), p)));
        lemma_count_if_map(l1, mover(f), after(mover(h), p));
        lemma_same_counts(relabelled(g1, f), l2, after(mover(h), p));
        lemma_count_if_map(l2, mover(h), p);
        assert(count(relabelled(g2, h), l) == count(labelled(g3), l));
    }
    assert(iso_via(g1, g3, both));
}

/// Isomorphic graphs have equally many edges of every class.
pub proof fn lemma_isomorphic_same_counts(g1: GraphView, g2: GraphView, class: EdgeClass)
    requires
        g1.wf(),
        g2.wf(),
        isomorphic(g1, g2),
    ensures
        class_count(g1.classes(), class) == class_count(g2.classes(), class),
{
    let f = choose|f: Seq<usize>| iso_via(g1, g2, f);
    let l1 = labelled(g1);
    let l2 = labelled(g2);
    let p = has_class(class);
    lemma_class_count_links(l1, g1.classes(), class);
    lemma_class_count_links(l2, g2.classes(), class);
    lemma_count_if_map(l1, mover(f), p);
    lemma_count_if_congruent(l1, after(mover(f), p), p);
    lemma_same_counts(relabelled(g1, f), l2, p);
}

/// Isomorphic graphs have the same bucket key.
pub proof fn lemma_isomorphic_same_key(g1: GraphView, g2: GraphView)
    requires
        g1.wf(),
        g2.wf(),
        isomorphic(g1, g2),
    ensures
        key_of(g1) == key_of(g2),
{
    lemma_isomorphic_same_counts(g1, g2, EdgeClass::Loop);
    lemma_isomorphic_same_counts(g1, g2, EdgeClass::Bridge);
    lemma_isomorphic_same_counts(g1, g2, EdgeClass::BiEdge);
    lemma_isomorphic_same_counts(g1, g2, EdgeClass::Sprawling);
}

} // verus!
