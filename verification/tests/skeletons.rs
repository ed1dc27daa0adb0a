use tcn::graph::{Edge, EdgeClass, Graph};
use tcn::skeleton::SkeletonError;
use tcn::subdivision::{Cell, Subdivision};

fn built(subdivision: &Subdivision) -> Graph {
    match Graph::new_skeleton(subdivision) {
        Ok(graph) => graph,
        Err(e) => panic!("vertex {} has a degree other than 3", e.vertex),
    }
}

fn edges_of(graph: &Graph) -> Vec<Edge> {
    let mut edges: Vec<Edge> = Vec::new();
    let mut i: usize = 0;
    while i < graph.edge_count() {
        edges.push(graph.edge(i));
        i += 1;
    }
    edges
}

fn degree_in(graph: &Graph, v: usize) -> usize {
    let mut ends: usize = 0;
    for e in edges_of(graph) {
        match e {
            Edge::Inner { a, b } => {
                if a == v {
                    ends += 1;
                }
                if b == v {
                    ends += 1;
                }
            }
            Edge::Leg { at } => {
                if at == v {
                    ends += 1;
                }
            }
        }
    }
    ends
}

#[test]
fn polygon_is_bounded_by_the_segments_round_its_corners() {
    let cell = Cell::polygon(vec![4, 9, 2]);
    assert_eq!(cell.corners, vec![4, 9, 2]);
    assert_eq!(cell.sides, vec![(4, 9), (9, 2), (2, 4)]);
    assert_eq!(cell.side_count(), 3);
    let none = Cell::polygon(Vec::new());
    assert_eq!(none.side_count(), 0);
}

#[test]
fn single_triangle_has_three_legs() {
    let subdivision = Subdivision::new(vec![Cell::polygon(vec![1, 2, 3])]);
    let graph = built(&subdivision);
    assert_eq!(graph.vertex_count(), 1);
    assert_eq!(
        edges_of(&graph),
        vec![Edge::Leg { at: 0 }, Edge::Leg { at: 0 }, Edge::Leg { at: 0 }]
    );
    assert_eq!(graph.categorizing_hash(), "0:0:0:3");
}

#[test]
fn two_triangles_along_one_segment_are_joined_by_a_bridge() {
    let subdivision = Subdivision::new(vec![
        Cell::polygon(vec![1, 2, 3]),
        Cell::polygon(vec![3, 2, 4]),
    ]);
    let graph = built(&subdivision);
    assert_eq!(graph.vertex_count(), 2);
    assert_eq!(
        edges_of(&graph),
        vec![
            Edge::Leg { at: 0 },
            Edge::Inner { a: 0, b: 1 },
            Edge::Leg { at: 0 },
            Edge::Leg { at: 1 },
            Edge::Leg { at: 1 },
        ]
    );
    assert_eq!(graph.class(1), EdgeClass::Bridge);
    assert_eq!(graph.categorizing_hash(), "0:1:0:4");
}

#[test]
fn the_direction_of_a_segment_plays_no_part() {
    let subdivision = Subdivision::new(vec![
        Cell::new(vec![1, 2, 3], vec![(1, 2), (2, 3), (3, 1)]),
        Cell::new(vec![1, 3, 4], vec![(1, 3), (3, 4), (4, 1)]),
    ]);
    let graph = built(&subdivision);
    assert_eq!(graph.count_of(EdgeClass::Bridge), 1);
    assert_eq!(graph.count_of(EdgeClass::Sprawling), 4);
}

#[test]
fn every_vertex_of_an_accepted_skeleton_has_degree_three() {
    let subdivision = Subdivision::new(vec![
        Cell::polygon(vec![1, 2, 3]),
        Cell::polygon(vec![3, 2, 4]),
        Cell::polygon(vec![4, 2, 5]),
        Cell::new(vec![6, 7], vec![(6, 7), (6, 7), (2, 5)]),
    ]);
    let graph = built(&subdivision);
    assert_eq!(graph.vertex_count(), 4);
    let mut v: usize = 0;
    while v < graph.vertex_count() {
        assert_eq!(degree_in(&graph, v), 3);
        v += 1;
    }
    assert_eq!(graph.first_irregular(), None);
    assert_eq!(graph.categorizing_hash(), "1:3:0:4");
}

#[test]
fn a_cell_with_four_sides_is_refused() {
    let subdivision = Subdivision::new(vec![Cell::polygon(vec![1, 2, 3, 4])]);
    match Graph::new_skeleton(&subdivision) {
        Ok(_) => panic!("a vertex of degree 4 was accepted"),
        Err(e) => assert_eq!(e, SkeletonError { vertex: 0 }),
    }
}

#[test]
fn a_cell_with_two_sides_is_refused() {
    let subdivision = Subdivision::new(vec![
        Cell::polygon(vec![1, 2, 3]),
        Cell::new(vec![3, 1], vec![(3, 1), (8, 9)]),
        Cell::polygon(vec![1, 2, 3, 4]),
    ]);
    match Graph::new_skeleton(&subdivision) {
        Ok(_) => panic!("a vertex of degree 2 was accepted"),
        Err(e) => assert_eq!(e.vertex, 1),
    }
}

#[test]
fn a_loop_with_two_legs_is_refused_as_a_skeleton() {
    let subdivision = Subdivision::new(vec![Cell::new(
        vec![1, 2, 3],
        vec![(1, 2), (2, 1), (2, 3), (3, 1)],
    )]);
    match Graph::new_skeleton(&subdivision) {
        Ok(_) => panic!("a vertex of degree 4 was accepted"),
        Err(e) => assert_eq!(e, SkeletonError { vertex: 0 }),
    }
}

#[test]
fn a_cell_that_meets_itself_carries_a_loop() {
    let subdivision = Subdivision::new(vec![Cell::new(
        vec![1, 2],
        vec![(1, 2), (2, 1), (5, 6)],
    )]);
    let graph = built(&subdivision);
    assert_eq!(
        edges_of(&graph),
        vec![Edge::Inner { a: 0, b: 0 }, Edge::Leg { at: 0 }]
    );
    assert_eq!(graph.class(0), EdgeClass::Loop);
    assert_eq!(graph.class(1), EdgeClass::Sprawling);
    assert_eq!(graph.categorizing_hash(), "1:0:0:1");
}

#[test]
fn cells_that_meet_along_two_segments_are_joined_twice() {
    let subdivision = Subdivision::new(vec![
        Cell::new(vec![1, 2, 3], vec![(1, 2), (2, 3), (1, 3)]),
        Cell::new(vec![1, 2, 3, 4], vec![(2, 3), (1, 2), (3, 4)]),
    ]);
    let graph = built(&subdivision);
    assert_eq!(
        edges_of(&graph),
        vec![
            Edge::Inner { a: 0, b: 1 },
            Edge::Inner { a: 0, b: 1 },
            Edge::Leg { at: 0 },
            Edge::Leg { at: 1 },
        ]
    );
    assert_eq!(graph.class(0), EdgeClass::BiEdge);
    assert_eq!(graph.class(1), EdgeClass::BiEdge);
    assert_eq!(graph.categorizing_hash(), "0:0:2:2");
}

#[test]
fn three_sides_on_one_segment_give_three_edges() {
    let subdivision = Subdivision::new(vec![
        Cell::new(Vec::new(), vec![(1, 2)]),
        Cell::new(Vec::new(), vec![(2, 1)]),
        Cell::new(Vec::new(), vec![(1, 2)]),
    ]);
    match Graph::new_skeleton(&subdivision) {
        Ok(_) => panic!("vertices of degree 2 were accepted"),
        Err(e) => assert_eq!(e.vertex, 0),
    }
}

#[test]
fn the_empty_subdivision_has_the_empty_graph() {
    let subdivision = Subdivision::new(Vec::new());
    let graph = built(&subdivision);
    assert_eq!(graph.vertex_count(), 0);
    assert_eq!(graph.edge_count(), 0);
    assert_eq!(graph.categorizing_hash(), "0:0:0:0");
}

#[test]
fn cells_and_subdivisions_are_compared_by_what_they_hold() {
    let one = Cell::polygon(vec![1, 2, 3]);
    let same = Cell::new(vec![1, 2, 3], vec![(1, 2), (2, 3), (3, 1)]);
    let turned = Cell::polygon(vec![2, 3, 1]);
    let other_sides = Cell::new(vec![1, 2, 3], vec![(1, 2), (2, 3), (1, 3)]);
    assert!(one.same_as(&same));
    assert!(!one.same_as(&turned));
    assert!(!one.same_as(&other_sides));
    assert!(one.clone().same_as(&one));
    let first = Subdivision::new(vec![one.clone(), turned.clone()]);
    let second = Subdivision::new(vec![same, turned.clone()]);
    let third = Subdivision::new(vec![turned, one]);
    assert!(first.same_as(&second));
    assert!(!first.same_as(&third));
    assert!(first.clone().same_as(&first));
    assert_eq!(first.cell_count(), 2);
}
