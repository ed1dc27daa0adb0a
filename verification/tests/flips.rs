use tcn::flips::{apply_flips, Flip, FlipError};
use tcn::subdivision::{Cell, Subdivision};

fn triangle(a: u32, b: u32, c: u32) -> Cell {
    Cell::polygon(vec![a, b, c])
}

fn square_cut_one_way() -> Subdivision {
    Subdivision::new(vec![triangle(1, 2, 3), triangle(1, 3, 4)])
}

fn square_cut_the_other_way() -> Subdivision {
    Subdivision::new(vec![triangle(1, 2, 4), triangle(2, 3, 4)])
}

fn turn_the_diagonal(ancestor: usize) -> Flip {
    Flip::new(
        ancestor,
        vec![triangle(1, 2, 3), triangle(1, 3, 4)],
        vec![triangle(1, 2, 4), triangle(2, 3, 4)],
    )
}

fn turn_it_back(ancestor: usize) -> Flip {
    Flip::new(
        ancestor,
        vec![triangle(2, 3, 4), triangle(1, 2, 4)],
        vec![triangle(1, 2, 3), triangle(1, 3, 4)],
    )
}

fn same_all(one: &Vec<Subdivision>, other: &Vec<Subdivision>) -> bool {
    if one.len() != other.len() {
        return false;
    }
    let mut i: usize = 0;
    while i < one.len() {
        if !one[i].same_as(&other[i]) {
            return false;
        }
        i += 1;
    }
    true
}

#[test]
fn a_flip_takes_cells_out_and_puts_cells_in() {
    let child = turn_the_diagonal(0).apply(&square_cut_one_way());
    assert!(child.same_as(&square_cut_the_other_way()));
}

#[test]
fn a_flip_keeps_the_other_cells_in_their_order() {
    let parent = Subdivision::new(vec![
        triangle(7, 8, 9),
        triangle(1, 2, 3),
        triangle(5, 6, 7),
        triangle(1, 3, 4),
        triangle(1, 2, 3),
    ]);
    let child = turn_the_diagonal(0).apply(&parent);
    let expected = Subdivision::new(vec![
        triangle(7, 8, 9),
        triangle(5, 6, 7),
        triangle(1, 2, 4),
        triangle(2, 3, 4),
    ]);
    assert!(child.same_as(&expected));
}

#[test]
fn a_flip_that_finds_none_of_its_cells_only_adds() {
    let parent = Subdivision::new(vec![triangle(7, 8, 9)]);
    let child = turn_the_diagonal(0).apply(&parent);
    let expected = Subdivision::new(vec![triangle(7, 8, 9), triangle(1, 2, 4), triangle(2, 3, 4)]);
    assert!(child.same_as(&expected));
    let turned = Subdivision::new(vec![triangle(2, 3, 1)]);
    let kept = Flip::new(0, vec![triangle(1, 2, 3)], Vec::new()).apply(&turned);
    assert!(kept.same_as(&turned));
}

#[test]
fn a_flip_to_an_ancestor_that_is_not_there_fails() {
    let subdivisions = vec![square_cut_one_way(), square_cut_the_other_way(), square_cut_one_way()];
    let flips = vec![turn_the_diagonal(0), turn_it_back(5), turn_the_diagonal(2)];
    let provenance: Vec<usize> = vec![0, 1, 2];
    match apply_flips(&subdivisions, &flips, &provenance, 3) {
        Ok(_) => panic!("a flip to ancestor 5 of 3 was passed over"),
        Err(e) => assert_eq!(e, FlipError::AncestorOutOfRange { flip: 1, ancestor: 5 }),
    }
}

#[test]
fn the_first_flip_out_of_range_is_named() {
    let subdivisions = vec![square_cut_one_way()];
    let flips = vec![turn_the_diagonal(0), turn_it_back(1), turn_the_diagonal(7)];
    let provenance: Vec<usize> = vec![0];
    match apply_flips(&subdivisions, &flips, &provenance, 1) {
        Ok(_) => panic!("a flip out of range was passed over"),
        Err(e) => assert_eq!(e, FlipError::AncestorOutOfRange { flip: 1, ancestor: 1 }),
    }
    match apply_flips(&subdivisions, &flips, &provenance, 0) {
        Ok(_) => panic!("a flip out of range was passed over"),
        Err(e) => assert_eq!(e, FlipError::AncestorOutOfRange { flip: 0, ancestor: 0 }),
    }
}

#[test]
fn a_provenance_of_the_wrong_length_fails() {
    let subdivisions = vec![square_cut_one_way(), square_cut_the_other_way()];
    let flips = vec![turn_the_diagonal(0)];
    let provenance: Vec<usize> = vec![0];
    match apply_flips(&subdivisions, &flips, &provenance, 2) {
        Ok(_) => panic!("a provenance with one entry for two subdivisions was accepted"),
        Err(e) => assert_eq!(e, FlipError::ProvenanceLength { subdivisions: 2, provenance: 1 }),
    }
    let stray = vec![turn_the_diagonal(2)];
    match apply_flips(&subdivisions, &stray, &provenance, 2) {
        Ok(_) => panic!("a flip out of range was passed over"),
        Err(e) => assert_eq!(e, FlipError::AncestorOutOfRange { flip: 0, ancestor: 2 }),
    }
}

#[test]
fn children_come_in_the_order_of_subdivisions_and_flips() {
    let subdivisions = vec![square_cut_one_way(), square_cut_the_other_way(), square_cut_one_way()];
    let add_a = Flip::new(1, Vec::new(), vec![triangle(10, 11, 12)]);
    let add_b = Flip::new(0, Vec::new(), vec![triangle(20, 21, 22)]);
    let add_c = Flip::new(1, Vec::new(), vec![triangle(30, 31, 32)]);
    let flips = vec![add_a, add_b, add_c];
    let provenance: Vec<usize> = vec![1, 0, 1];
    let (children, origin) = match apply_flips(&subdivisions, &flips, &provenance, 3) {
        Ok(next) => next,
        Err(_) => panic!("the flips fit the generation"),
    };
    assert_eq!(origin, vec![0, 0, 1, 2, 2]);
    let expected = vec![
        Subdivision::new(vec![triangle(1, 2, 3), triangle(1, 3, 4), triangle(10, 11, 12)]),
        Subdivision::new(vec![triangle(1, 2, 3), triangle(1, 3, 4), triangle(30, 31, 32)]),
        Subdivision::new(vec![triangle(1, 2, 4), triangle(2, 3, 4), triangle(20, 21, 22)]),
        Subdivision::new(vec![triangle(1, 2, 3), triangle(1, 3, 4), triangle(10, 11, 12)]),
        Subdivision::new(vec![triangle(1, 2, 3), triangle(1, 3, 4), triangle(30, 31, 32)]),
    ];
    assert!(same_all(&children, &expected));
}

#[test]
fn a_subdivision_without_flips_has_no_children() {
    let subdivisions = vec![square_cut_one_way(), square_cut_the_other_way()];
    let flips = vec![turn_it_back(1)];
    let provenance: Vec<usize> = vec![0, 1];
    let (children, origin) = match apply_flips(&subdivisions, &flips, &provenance, 2) {
        Ok(next) => next,
        Err(_) => panic!("the flips fit the generation"),
    };
    assert_eq!(origin, vec![1]);
    assert!(same_all(&children, &vec![square_cut_one_way()]));
    let none: Vec<Flip> = Vec::new();
    let (children, origin) = match apply_flips(&subdivisions, &none, &provenance, 2) {
        Ok(next) => next,
        Err(_) => panic!("no flips fit every generation"),
    };
    assert!(children.is_empty());
    assert!(origin.is_empty());
}

#[test]
fn the_empty_generation_has_the_empty_successor() {
    let subdivisions: Vec<Subdivision> = Vec::new();
    let flips: Vec<Flip> = Vec::new();
    let provenance: Vec<usize> = Vec::new();
    let (children, origin) = match apply_flips(&subdivisions, &flips, &provenance, 0) {
        Ok(next) => next,
        Err(_) => panic!("nothing can fail"),
    };
    assert!(children.is_empty());
    assert!(origin.is_empty());
}

#[test]
fn applying_the_flips_twice_gives_the_same_twice() {
    let subdivisions = vec![square_cut_one_way(), square_cut_the_other_way(), square_cut_one_way()];
    let flips = vec![turn_the_diagonal(0), turn_it_back(1), turn_the_diagonal(0)];
    let provenance: Vec<usize> = vec![0, 1, 0];
    let (first, first_origin) = match apply_flips(&subdivisions, &flips, &provenance, 3) {
        Ok(next) => next,
        Err(_) => panic!("the flips fit the generation"),
    };
    let (second, second_origin) = match apply_flips(&subdivisions, &flips, &provenance, 3) {
        Ok(next) => next,
        Err(_) => panic!("the flips fit the generation"),
    };
    assert_eq!(first_origin, vec![0, 0, 1, 2, 2]);
    assert_eq!(first_origin, second_origin);
    assert!(same_all(&first, &second));
    assert_eq!(first.len(), 5);
    assert!(first[0].same_as(&square_cut_the_other_way()));
    assert!(first[2].same_as(&square_cut_one_way()));
}

#[test]
fn the_new_provenance_leads_into_the_next_step() {
    let subdivisions = vec![square_cut_one_way(), square_cut_the_other_way()];
    let flips = vec![turn_the_diagonal(0), turn_it_back(1), turn_it_back(0)];
    let provenance: Vec<usize> = vec![0, 1];
    let (children, origin) = match apply_flips(&subdivisions, &flips, &provenance, 2) {
        Ok(next) => next,
        Err(_) => panic!("the flips fit the generation"),
    };
    assert_eq!(origin, vec![0, 0, 1]);
    let (grandchildren, next_origin) = match apply_flips(&children, &flips, &origin, children.len())
    {
        Ok(next) => next,
        Err(_) => panic!("the flips fit the generation"),
    };
    assert_eq!(next_origin, vec![0, 0, 1, 1, 2]);
    assert_eq!(grandchildren.len(), 5);
}
