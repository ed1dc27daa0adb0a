use tcn::graph::{Edge, Graph};

fn made(vertices: usize, edges: Vec<Edge>) -> Graph {
    match Graph::from_edges(vertices, edges) {
        Some(graph) => graph,
        None => panic!("an edge ends outside the vertices"),
    }
}

fn inner(a: usize, b: usize) -> Edge {
    Edge::Inner { a, b }
}

fn leg(at: usize) -> Edge {
    Edge::Leg { at }
}

fn prism() -> Graph {
    made(
        6,
        vec![
            inner(0, 1),
            inner(1, 2),
            inner(2, 0),
            inner(3, 4),
            inner(4, 5),
            inner(5, 3),
            inner(0, 3),
            inner(1, 4),
            inner(2, 5),
        ],
    )
}

fn prism_renamed() -> Graph {
    made(
        6,
        vec![
            inner(5, 3),
            inner(0, 4),
            inner(1, 5),
            inner(2, 4),
            inner(3, 1),
            inner(0, 2),
            inner(0, 3),
            inner(4, 5),
            inner(2, 1),
        ],
    )
}

fn two_by_three() -> Graph {
    made(
        6,
        vec![
            inner(0, 3),
            inner(0, 4),
            inner(0, 5),
            inner(1, 3),
            inner(1, 4),
            inner(1, 5),
            inner(2, 3),
            inner(2, 4),
            inner(2, 5),
        ],
    )
}

fn pair_with_legs() -> Graph {
    made(2, vec![inner(0, 1), inner(0, 1), leg(0), leg(1)])
}

fn pair_with_legs_renamed() -> Graph {
    made(2, vec![leg(1), inner(1, 0), leg(0), inner(0, 1)])
}

fn dumbbell() -> Graph {
    made(2, vec![inner(0, 0), inner(0, 1), inner(1, 1)])
}

fn dumbbell_turned() -> Graph {
    made(2, vec![inner(1, 1), inner(1, 0), inner(0, 0)])
}

fn theta() -> Graph {
    made(2, vec![inner(0, 1), inner(0, 1), inner(0, 1)])
}

fn sample() -> Vec<Graph> {
    vec![
        prism(),
        prism_renamed(),
        two_by_three(),
        pair_with_legs(),
        pair_with_legs_renamed(),
        dumbbell(),
        dumbbell_turned(),
        theta(),
        made(0, Vec::new()),
        made(1, vec![leg(0), leg(0), leg(0)]),
    ]
}

#[test]
fn renamed_bi_edge_pairs_are_isomorphic() {
    let one = pair_with_legs();
    let other = pair_with_legs_renamed();
    assert_eq!(one.categorizing_hash(), "0:0:2:2");
    assert_eq!(other.categorizing_hash(), "0:0:2:2");
    assert!(one.is_isomorphic(&other));
    assert!(other.is_isomorphic(&one));
}

#[test]
fn renamed_prisms_are_isomorphic() {
    assert!(prism().is_isomorphic(&prism_renamed()));
    assert!(prism_renamed().is_isomorphic(&prism()));
}

#[test]
fn graphs_with_one_key_need_not_be_isomorphic() {
    let one = prism();
    let other = two_by_three();
    assert_eq!(one.categorizing_hash(), "0:0:0:0");
    assert_eq!(other.categorizing_hash(), "0:0:0:0");
    assert_eq!(one.first_irregular(), None);
    assert_eq!(other.first_irregular(), None);
    assert!(!one.is_isomorphic(&other));
    assert!(!other.is_isomorphic(&one));
}

#[test]
fn graphs_with_different_vertex_counts_are_not_isomorphic() {
    let one = made(2, vec![inner(0, 1)]);
    let other = made(3, vec![inner(0, 1)]);
    assert_eq!(one.categorizing_hash(), other.categorizing_hash());
    assert!(!one.is_isomorphic(&other));
    assert!(!other.is_isomorphic(&one));
}

#[test]
fn the_place_of_a_leg_matters() {
    let at_the_end = made(3, vec![inner(0, 1), inner(1, 2), leg(0)]);
    let in_the_middle = made(3, vec![inner(0, 1), inner(1, 2), leg(1)]);
    let at_the_other_end = made(3, vec![leg(2), inner(2, 1), inner(1, 0)]);
    assert_eq!(at_the_end.categorizing_hash(), "0:2:0:1");
    assert_eq!(in_the_middle.categorizing_hash(), "0:2:0:1");
    assert!(!at_the_end.is_isomorphic(&in_the_middle));
    assert!(at_the_end.is_isomorphic(&at_the_other_end));
}

#[test]
fn the_number_of_parallel_edges_matters() {
    let double = made(2, vec![inner(0, 1), inner(0, 1), leg(0), leg(1)]);
    let apart = made(2, vec![inner(0, 1), leg(0), leg(0), leg(1)]);
    assert!(!double.is_isomorphic(&apart));
    let loops_here = made(2, vec![inner(0, 0), inner(0, 0)]);
    let loops_there = made(2, vec![inner(0, 0), inner(1, 1)]);
    assert_eq!(loops_here.categorizing_hash(), loops_there.categorizing_hash());
    assert!(!loops_here.is_isomorphic(&loops_there));
}

#[test]
fn the_order_of_the_edges_plays_no_part() {
    let one = made(3, vec![inner(0, 1), inner(1, 2), inner(2, 2), leg(0), leg(0)]);
    let other = made(3, vec![leg(0), inner(2, 2), inner(2, 1), leg(0), inner(1, 0)]);
    assert!(one.is_isomorphic(&other));
    assert!(other.is_isomorphic(&one));
}

#[test]
fn every_graph_is_isomorphic_to_itself() {
    for graph in sample() {
        assert!(graph.is_isomorphic(&graph));
    }
}

#[test]
fn isomorphism_is_symmetric() {
    let graphs = sample();
    for one in &graphs {
        for other in &graphs {
            assert_eq!(one.is_isomorphic(other), other.is_isomorphic(one));
        }
    }
}

#[test]
fn isomorphism_is_transitive() {
    let graphs = sample();
    for one in &graphs {
        for two in &graphs {
            for three in &graphs {
                if one.is_isomorphic(two) && two.is_isomorphic(three) {
                    assert!(one.is_isomorphic(three));
                }
            }
        }
    }
}

#[test]
fn isomorphic_graphs_have_the_same_key() {
    let graphs = sample();
    let mut pairs: usize = 0;
    for one in &graphs {
        for other in &graphs {
            if one.is_isomorphic(other) {
                assert_eq!(one.categorizing_hash(), other.categorizing_hash());
                pairs += 1;
            }
        }
    }
    assert_eq!(pairs, 16);
}
