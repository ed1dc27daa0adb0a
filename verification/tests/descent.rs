use tcn::dedup::DedupError;
use tcn::descent::{descent_depth, genus_step, level_name, StepError};
use tcn::flips::{Flip, FlipError};
use tcn::subdivision::{Cell, Subdivision};

fn corner(a: u32, b: u32, c: u32) -> Cell {
    Cell::polygon(vec![a, b, c])
}

fn fan() -> Subdivision {
    Subdivision::new(vec![corner(1, 2, 3), corner(1, 3, 4)])
}

#[test]
fn a_descent_has_one_step_for_every_genus_down_to_three() {
    assert_eq!(descent_depth(4), Some(1));
    assert_eq!(descent_depth(5), Some(2));
    assert_eq!(descent_depth(8), Some(5));
}

#[test]
fn there_is_no_descent_from_a_genus_out_of_range() {
    assert_eq!(descent_depth(0), None);
    assert_eq!(descent_depth(3), None);
    assert_eq!(descent_depth(9), None);
    assert_eq!(descent_depth(usize::MAX), None);
}

#[test]
fn a_level_is_called_by_its_genus() {
    assert_eq!(level_name(7, 1), "genus6");
    assert_eq!(level_name(4, 1), "genus3");
    assert_eq!(level_name(8, 5), "genus3");
    assert_eq!(level_name(12, 0), "genus12");
    assert_eq!(level_name(5, 5), "genus0");
}

#[test]
fn a_step_applies_the_flips_and_sorts_the_children() {
    let subdivisions = vec![fan(), fan()];
    let flips = vec![
        Flip::new(
            0,
            vec![corner(1, 2, 3), corner(1, 3, 4)],
            vec![corner(1, 2, 4), corner(2, 3, 4)],
        ),
        Flip::new(1, vec![corner(1, 3, 4)], Vec::new()),
    ];
    let provenance: Vec<usize> = vec![0, 1];
    let level = match genus_step(&subdivisions, &flips, &provenance, None) {
        Ok(level) => level,
        Err(_) => panic!("the step has no reason to fail"),
    };
    assert_eq!(level.provenance, vec![0, 1]);
    assert_eq!(level.subdivisions.len(), 2);
    assert!(level.subdivisions[0]
        .same_as(&Subdivision::new(vec![corner(1, 2, 4), corner(2, 3, 4)])));
    assert!(level.subdivisions[1].same_as(&Subdivision::new(vec![corner(1, 2, 3)])));
    assert_eq!(level.buckets.len(), 2);
    assert_eq!(level.buckets[0].key, "0:1:0:4");
    assert_eq!(level.buckets[1].key, "0:0:0:3");
    assert!(level.buckets[0].entries[0].1.same_as(&level.subdivisions[0]));
    assert!(level.buckets[1].entries[0].1.same_as(&level.subdivisions[1]));
}

#[test]
fn a_step_passes_the_filter_on() {
    let subdivisions = vec![fan(), fan()];
    let flips = vec![
        Flip::new(0, Vec::new(), Vec::new()),
        Flip::new(1, vec![corner(1, 3, 4)], Vec::new()),
    ];
    let provenance: Vec<usize> = vec![0, 1];
    let filter: Vec<String> = vec![String::from("0:0:0:3")];
    let level = match genus_step(&subdivisions, &flips, &provenance, Some(&filter)) {
        Ok(level) => level,
        Err(_) => panic!("the step has no reason to fail"),
    };
    assert_eq!(level.subdivisions.len(), 2);
    assert_eq!(level.buckets.len(), 1);
    assert_eq!(level.buckets[0].key, "0:0:0:3");
}

#[test]
fn a_step_fails_on_a_flip_out_of_range() {
    let subdivisions = vec![fan(), fan(), fan()];
    let flips = vec![Flip::new(5, Vec::new(), Vec::new())];
    let provenance: Vec<usize> = vec![0, 1, 2];
    match genus_step(&subdivisions, &flips, &provenance, None) {
        Ok(_) => panic!("a flip to ancestor 5 of 3 was passed over"),
        Err(e) => assert_eq!(
            e,
            StepError::Flips(FlipError::AncestorOutOfRange { flip: 0, ancestor: 5 })
        ),
    }
}

#[test]
fn a_step_fails_on_a_child_without_a_dual_graph() {
    let subdivisions = vec![fan(), fan()];
    let flips = vec![
        Flip::new(0, Vec::new(), Vec::new()),
        Flip::new(
            1,
            vec![corner(1, 2, 3), corner(1, 3, 4)],
            vec![Cell::polygon(vec![1, 2, 3, 4])],
        ),
    ];
    let provenance: Vec<usize> = vec![0, 1];
    match genus_step(&subdivisions, &flips, &provenance, None) {
        Ok(_) => panic!("a vertex of degree 4 was accepted"),
        Err(e) => assert_eq!(e, StepError::Skeleton(DedupError { subdivision: 1, vertex: 0 })),
    }
}
