//! The search that decides whether two graphs are isomorphic: it names the
//! vertices of the second graph after those of the first, one vertex at a
//! time, and gives a choice up as soon as the edges among the vertices named
//! so far cannot agree.

use vstd::prelude::*;
use crate::counting::{count, is_value, lemma_count_if_none};
use crate::graph::{Edge, EdgeClass, Graph, GraphView};
use crate::isomorphism::{
    canon, is_perm, iso_via, isomorphic, labelled, lemma_labelled_ok, lemma_moved_count,
    lemma_moved_ok, lemma_perm_onto, move_link, ok_link, relabelled, Link,
};

verus! {

/// How many edges of `g` are the edge `edge` with the class `class`.
pub open spec fn tally(g: GraphView, edge: Edge, class: EdgeClass) -> nat {
    count(labelled(g), Link { edge, class })
}

/// The edge `e1` occurs in `g1` as often as the edge `e2` in `g2`, class by
/// class.
pub open spec fn same_tally(g1: GraphView, g2: GraphView, e1: Edge, e2: Edge) -> bool {
    forall|class: EdgeClass| #[trigger] tally(g1, e1, class) == tally(g2, e2, class)
}

/// Under the naming `m`, the legs at vertex `i` agree.
pub open spec fn legs_match_at(g1: GraphView, g2: GraphView, m: Seq<usize>, i: int) -> bool {
    same_tally(g1, g2, Edge::Leg { at: i as usize }, Edge::Leg { at: m[i] })
}

/// Under the naming `m`, the edges between the vertices `i` and `j` agree.
pub open spec fn pairs_match_at(g1: GraphView, g2: GraphView, m: Seq<usize>, i: int, j: int) -> bool {
    same_tally(
        g1,
        g2,
        canon(Edge::Inner { a: i as usize, b: j as usize }),
        canon(Edge::Inner { a: m[i], b: m[j] }),
    )
}

/// The naming `m` of the first vertices of `g1` is free of contradiction:
/// the legs at every vertex named, and the edges between any two vertices
/// named, occur as often in `g2` under the new names.
pub open spec fn consistent(g1: GraphView, g2: GraphView, m: Seq<usize>) -> bool {
    &&& forall|i: int| 0 <= i < m.len() ==> #[trigger] legs_match_at(g1, g2, m, i)
    &&& forall|i: int, j: int|
        0 <= i < m.len() && 0 <= j < m.len() ==> #[trigger] pairs_match_at(g1, g2, m, i, j)
}

/// The naming `m` names the first vertices of `g1` by distinct vertices of
/// `g2`, free of contradiction.
pub open spec fn partial_ok(g1: GraphView, g2: GraphView, m: Seq<usize>) -> bool {
    &&& m.len() <= g1.vertices
    &&& forall|i: int| 0 <= i < m.len() ==> #[trigger] m[i] < g1.vertices
    &&& forall|i: int, j: int|
        0 <= i < m.len() && 0 <= j < m.len() && i != j ==> #[trigger] m[i] != #[trigger] m[j]
    &&& consistent(g1, g2, m)
}

/// The renaming `f` begins with the naming `m`.
pub open spec fn extends(f: Seq<usize>, m: Seq<usize>) -> bool {
    &&& m.len() <= f.len()
    &&& forall|i: int| 0 <= i < m.len() ==> #[trigger] f[i] == m[i]
}

/// Some renaming that begins with `m` turns `g1` into `g2`.
pub open spec fn completes(g1: GraphView, g2: GraphView, m: Seq<usize>) -> bool {
    exists|f: Seq<usize>| #[trigger] iso_via(g1, g2, f) && extends(f, m)
}

/// A naming of all vertices that is free of contradiction turns `g1` into
/// `g2`.
pub proof fn lemma_total_is_iso(g1: GraphView, g2: GraphView, m: Seq<usize>)
    requires
        g1.wf(),
        g2.wf(),
        g1.vertices == g2.vertices,
        partial_ok(g1, g2, m),
        m.len() == g1.vertices,
    ensures
        iso_via(g1, g2, m),
{
    let n = g1.vertices;
    let l1 = labelled(g1);
    let l2 = labelled(g2);
    lemma_labelled_ok(g1);
    lemma_labelled_ok(g2);
    assert(is_perm(m, n));
    assert forall|l: Link| #[trigger] count(relabelled(g1, m), l) == count(l2, l) by {
        if ok_link(l, n) {
            match l.edge {
                Edge::Inner { a: p, b: q } => {
                    let i = lemma_perm_onto(m, n, p as int);
                    let j = lemma_perm_onto(m, n, q as int);
                    let x = Link {
                        edge: canon(Edge::Inner { a: i as usize, b: j as usize }),
                        class: l.class,
                    };
                    assert(move_link(m, x) == l);
                    lemma_moved_count(g1, m, x);
                    assert(pairs_match_at(g1, g2, m, i, j));
                    assert(tally(g1, x.edge, l.class) == tally(g2, l.edge, l.class));
                },
                Edge::Leg { at } => {
                    let i = lemma_perm_onto(m, n, at as int);
                    let x = Link { edge: Edge::Leg { at: i as usize }, class: l.class };
                    assert(move_link(m, x) == l);
                    lemma_moved_count(g1, m, x);
                    assert(legs_match_at(g1, g2, m, i));
                    assert(tally(g1, x.edge, l.class) == tally(g2, l.edge, l.class));
                },
            }
        } else {
            lemma_count_if_none(l2, is_value(l));
            assert forall|k: int| 0 <= k < l1.len() implies !is_value(l)(
                #[trigger] relabelled(g1, m)[k],
            ) by {
                lemma_moved_ok(m, n, l1[k]);
            }
            lemma_count_if_none(relabelled(g1, m), is_value(l));
        }
    }
}

/// A renaming that turns `g1` into `g2` is free of contradiction on every
/// vertex and on every pair of vertices.
pub proof fn lemma_iso_is_consistent(g1: GraphView, g2: GraphView, f: Seq<usize>)
    requires
        g1.wf(),
        g2.wf(),
        iso_via(g1, g2, f),
    ensures
        consistent(g1, g2, f),
{
    let n = g1.vertices;
    assert forall|i: int| 0 <= i < f.len() implies #[trigger] legs_match_at(g1, g2, f, i) by {
        assert forall|class: EdgeClass| #[trigger]
            tally(g1, Edge::Leg { at: i as usize }, class) == tally(
                g2,
                Edge::Leg { at: f[i] },
                class,
            ) by {
            let x = Link { edge: Edge::Leg { at: i as usize }, class };
            lemma_moved_count(g1, f, x);
            assert(count(relabelled(g1, f), move_link(f, x)) == count(
                labelled(g2),
                move_link(f, x),
            ));
        }
    }
    assert forall|i: int, j: int| 0 <= i < f.len() && 0 <= j < f.len() implies #[trigger]
        pairs_match_at(g1, g2, f, i, j) by {
        let e1 = canon(Edge::Inner { a: i as usize, b: j as usize });
        let e2 = canon(Edge::Inner { a: f[i], b: f[j] });
        assert forall|class: EdgeClass| #[trigger] tally(g1, e1, class) == tally(g2, e2, class) by {
            let x = Link { edge: e1, class };
            lemma_moved_count(g1, f, x);
            assert(move_link(f, x) == Link { edge: e2, class });
            assert(count(relabelled(g1, f), move_link(f, x)) == count(
                labelled(g2),
                move_link(f, x),
            ));
        }
    }
}

/// The edge with its smaller end first.
fn ordered(e: Edge) -> (c: Edge)
    ensures
        c == canon(e),
{
    match e {
        Edge::Inner { a, b } => if a <= b {
            e
        } else {
            Edge::Inner { a: b, b: a }
        },
        Edge::Leg { .. } => e,
    }
}

/// How many edges of `g` are `edge`, with the class `class`.
fn occurrences(g: &Graph, edge: Edge, class: EdgeClass) -> (n: usize)
    requires
        g.wf(),
    ensures
        n == tally(g@, edge, class),
{
    let ghost links = labelled(g@);
    let ghost p = is_value(Link { edge, class });
    let mut n: usize = 0;
    let mut k: usize = 0;
    while k < g.edge_count()
        invariant
            g.wf(),
            k <= g@.edges.len(),
            n <= k,
            links == labelled(g@),
            p == is_value(Link { edge, class }),
            n == crate::counting::count_if(links.take(k as int), p),
        decreases g@.edges.len() - k,
    {
        assert(links.take(k + 1).drop_last() =~= links.take(k as int));
        assert(links.take(k + 1).last() == links[k as int]);
        if ordered(g.edge(k)) == edge && g.class(k) == class {
            n += 1;
        }
        k += 1;
    }
    assert(links.take(k as int) =~= links);
    n
}

/// Whether `e1` occurs in `g1` as often as `e2` in `g2`, class by class.
fn agree(g1: &Graph, g2: &Graph, e1: Edge, e2: Edge) -> (same: bool)
    requires
        g1.wf(),
        g2.wf(),
    ensures
        same == same_tally(g1@, g2@, e1, e2),
{
    let same = occurrences(g1, e1, EdgeClass::Loop) == occurrences(g2, e2, EdgeClass::Loop)
        && occurrences(g1, e1, EdgeClass::Bridge) == occurrences(g2, e2, EdgeClass::Bridge)
        && occurrences(g1, e1, EdgeClass::BiEdge) == occurrences(g2, e2, EdgeClass::BiEdge)
        && occurrences(g1, e1, EdgeClass::Sprawling) == occurrences(
        g2,
        e2,
        EdgeClass::Sprawling,
    ) && occurrences(g1, e1, EdgeClass::Plain) == occurrences(g2, e2, EdgeClass::Plain);
    proof {
        if same {
            assert forall|class: EdgeClass| #[trigger]
                tally(g1@, e1, class) == tally(g2@, e2, class) by {
                match class {
                    EdgeClass::Loop => {},
                    EdgeClass::Bridge => {},
                    EdgeClass::BiEdge => {},
                    EdgeClass::Sprawling => {},
                    EdgeClass::Plain => {},
                }
            }
        }
    }
    same
}

/// Whether `c` is one of the names given so far.
fn is_taken(m: &Vec<usize>, c: usize) -> (taken: bool)
    ensures
        taken == exists|i: int| 0 <= i < m@.len() && #[trigger] m@[i] == c,
{
    let mut i: usize = 0;
    while i < m.len()
        invariant
            i <= m@.len(),
            forall|k: int| 0 <= k < i ==> #[trigger] m@[k] != c,
        decreases m@.len() - i,
    {
        if m[i] == c {
            return true;
        }
        i += 1;
    }
    false
}

/// Whether the next vertex of `g1` can be named `c` without contradiction.
fn fits_next(g1: &Graph, g2: &Graph, m: &Vec<usize>, c: usize) -> (fits: bool)
    requires
        g1.wf(),
        g2.wf(),
        consistent(g1@, g2@, m@),
    ensures
        fits == consistent(g1@, g2@, m@.push(c)),
{
    let k = m.len();
    let ghost longer = m@.push(c);
    if !agree(g1, g2, Edge::Leg { at: k }, Edge::Leg { at: c }) {
        assert(!legs_match_at(g1@, g2@, longer, k as int));
        return false;
    }
    if !agree(g1, g2, Edge::Inner { a: k, b: k }, Edge::Inner { a: c, b: c }) {
        assert(!pairs_match_at(g1@, g2@, longer, k as int, k as int));
        return false;
    }
    let mut i: usize = 0;
    while i < k
        invariant
            i <= k,
            k == m@.len(),
            longer == m@.push(c),
            g1.wf(),
            g2.wf(),
            forall|j: int| 0 <= j < i ==> #[trigger] pairs_match_at(g1@, g2@, longer, j, k as int),
        decreases k - i,
    {
        let e1 = ordered(Edge::Inner { a: i, b: k });
        let e2 = ordered(Edge::Inner { a: m[i], b: c });
        if !agree(g1, g2, e1, e2) {
            assert(!pairs_match_at(g1@, g2@, longer, i as int, k as int));
            return false;
        }
        i += 1;
    }
    proof {
        assert(legs_match_at(g1@, g2@, longer, k as int));
        assert(pairs_match_at(g1@, g2@, longer, k as int, k as int));
        assert forall|i: int| 0 <= i < longer.len() implies #[trigger] legs_match_at(
            g1@,
            g2@,
            longer,
            i,
        ) by {
            if i < k {
                assert(legs_match_at(g1@, g2@, m@, i));
            }
        }
        assert forall|i: int, j: int| 0 <= i < longer.len() && 0 <= j < longer.len() implies #[trigger]
            pairs_match_at(g1@, g2@, longer, i, j) by {
            if i < k && j < k {
                assert(pairs_match_at(g1@, g2@, m@, i, j));
            } else if i < k {
                assert(pairs_match_at(g1@, g2@, longer, i, k as int));
            } else if j < k {
                assert(pairs_match_at(g1@, g2@, longer, j, k as int));
                assert(canon(Edge::Inner { a: i as usize, b: j as usize }) == canon(
                    Edge::Inner { a: j as usize, b: i as usize },
                ));
                assert(canon(Edge::Inner { a: longer[i], b: longer[j] }) == canon(
                    Edge::Inner { a: longer[j], b: longer[i] },
                ));
            }
        }
    }
    true
}

/// Whether the naming `m` can be carried on to a renaming that turns `g1`
/// into `g2`. Every name that is still free is tried for the next vertex.
fn extend(g1: &Graph, g2: &Graph, m: &mut Vec<usize>) -> (found: bool)
    requires
        g1.wf(),
        g2.wf(),
        g1@.vertices == g2@.vertices,
        partial_ok(g1@, g2@, old(m)@),
    ensures
        final(m)@ == old(m)@,
        found == completes(g1@, g2@, old(m)@),
    decreases g1@.vertices - old(m)@.len(),
{
    let n = g1.vertex_count();
    let k = m.len();
    if k == n {
        proof {
            lemma_total_is_iso(g1@, g2@, m@);
            assert(extends(m@, m@));
        }
        return true;
    }
    let ghost start = m@;
    let mut c: usize = 0;
    while c < n
        invariant
            c <= n,
            n == g1@.vertices,
            k == start.len(),
            k < n,
            m@ == start,
            start == old(m)@,
            g1.wf(),
            g2.wf(),
            g1@.vertices == g2@.vertices,
            partial_ok(g1@, g2@, start),
            forall|b: int| 0 <= b < c ==> !#[trigger] completes(g1@, g2@, start.push(b as usize)),
        decreases n - c,
    {
        let ghost longer = start.push(c);
        let mut found = false;
        if !is_taken(m, c) {
            if fits_next(g1, g2, m, c) {
                m.push(c);
                assert(m@ == longer);
                assert(partial_ok(g1@, g2@, longer));
                found = extend(g1, g2, m);
                m.pop();
                assert(m@ =~= start);
            } else {
                proof {
                    if completes(g1@, g2@, longer) {
                        let f = choose|f: Seq<usize>| #[trigger]
                            iso_via(g1@, g2@, f) && extends(f, longer);
                        lemma_iso_is_consistent(g1@, g2@, f);
                        lemma_prefix_consistent(g1@, g2@, f, longer);
                    }
                }
            }
        } else {
            proof {
                if completes(g1@, g2@, longer) {
                    let f = choose|f: Seq<usize>| #[trigger]
                        iso_via(g1@, g2@, f) && extends(f, longer);
                    let i = choose|i: int| 0 <= i < start.len() && #[trigger] start[i] == c;
                    assert(f[i] == longer[i]);
                    assert(f[k as int] == longer[k as int]);
                }
            }
        }
        if found {
            proof {
                let f = choose|f: Seq<usize>| #[trigger]
                    iso_via(g1@, g2@, f) && extends(f, longer);
                assert(extends(f, start)) by {
                    assert forall|i: int| 0 <= i < start.len() implies #[trigger] f[i]
                        == start[i] by {
                        assert(f[i] == longer[i]);
                    }
                }
            }
            return true;
        }
        c += 1;
    }
    proof {
        if completes(g1@, g2@, start) {
            let f = choose|f: Seq<usize>| #[trigger] iso_via(g1@, g2@, f) && extends(f, start);
            let b = f[k as int];
            assert(b < n);
            assert(extends(f, start.push(b)));
            assert(completes(g1@, g2@, start.push(b as int as usize)));
        }
    }
    false
}

/// What is free of contradiction stays so when cut short.
pub proof fn lemma_prefix_consistent(g1: GraphView, g2: GraphView, f: Seq<usize>, m: Seq<usize>)
    requires
        consistent(g1, g2, f),
        extends(f, m),
    ensures
        consistent(g1, g2, m),
{
    assert forall|i: int| 0 <= i < m.len() implies #[trigger] legs_match_at(g1, g2, m, i) by {
        assert(legs_match_at(g1, g2, f, i));
        assert(f[i] == m[i]);
    }
    assert forall|i: int, j: int| 0 <= i < m.len() && 0 <= j < m.len() implies #[trigger]
        pairs_match_at(g1, g2, m, i, j) by {
        assert(pairs_match_at(g1, g2, f, i, j));
        assert(f[i] == m[i]);
        assert(f[j] == m[j]);
    }
}

impl Graph {
    /// Whether the two graphs are isomorphic: whether the vertices of one can
    /// be renamed so that it becomes the other, edge for edge and class for
    /// class. The order in which either graph keeps its edges plays no part.
    pub fn is_isomorphic(&self, other: &Graph) -> (same: bool)
        requires
            self.wf(),
            other.wf(),
        ensures
            same == isomorphic(self@, other@),
    {
        if self.vertex_count() != other.vertex_count() {
            return false;
        }
        let mut m: Vec<usize> = Vec::new();
        assert(partial_ok(self@, other@, m@));
        let found = extend(self, other, &mut m);
        proof {
            if found {
                let f = choose|f: Seq<usize>| #[trigger]
                    iso_via(self@, other@, f) && extends(f, Seq::<usize>::empty());
                assert(iso_via(self@, other@, f));
            }
            if isomorphic(self@, other@) {
                let f = choose|f: Seq<usize>| iso_via(self@, other@, f);
                assert(extends(f, Seq::<usize>::empty()));
            }
        }
        found
    }
}

} // verus!
