use genetic_algorithm::cell::Cell;
use genetic_algorithm::errors::FacilityError;
use genetic_algorithm::facility::Facility;
use genetic_algorithm::facility_configuration::Dimensions;

fn grid(ids: &[Option<u64>], width: u64) -> Facility {
    let cells: Vec<Cell> = ids
        .iter()
        .map(|c| match c {
            Some(v) => Cell::Occupied(*v),
            None => Cell::Empty,
        })
        .collect();
    Facility::from_cells(cells, width).unwrap()
}

fn sorted_uniques(facility: &Facility) -> Vec<u64> {
    let mut uniques = facility.get_uniques();
    uniques.sort();
    uniques
}

#[test]
fn create_crossover_exchanges_rows() {
    let a = grid(&[Some(0), Some(1), Some(2), Some(3)], 2);
    let b = grid(&[Some(3), Some(2), Some(1), Some(0)], 2);
    let child = a.create_crossover(&b, 1);
    assert_eq!(
        child.cells(),
        vec![
            Cell::Occupied(0),
            Cell::Occupied(1),
            Cell::Occupied(1),
            Cell::Occupied(0),
        ]
    );
}

#[test]
fn create_crossover_children_are_complementary() {
    let a = grid(&[Some(0), Some(1), Some(2), Some(3)], 2);
    let b = grid(&[Some(3), Some(2), Some(1), Some(0)], 2);
    let child_ab = a.create_crossover(&b, 1);
    let child_ba = b.create_crossover(&a, 1);
    let cells_a = a.cells();
    let cells_b = b.cells();
    let cells_ab = child_ab.cells();
    let cells_ba = child_ba.cells();
    for k in 0..cells_a.len() {
        let straight = cells_ab[k] == cells_a[k] && cells_ba[k] == cells_b[k];
        let crossed = cells_ab[k] == cells_b[k] && cells_ba[k] == cells_a[k];
        assert!(straight || crossed);
    }
}

#[test]
fn crossover_restores_machine_set_and_empties() {
    // two permutations of machines 0..8 on a 3x3 grid with one empty cell
    let a = grid(
        &[
            Some(0),
            Some(1),
            Some(2),
            Some(3),
            None,
            Some(4),
            Some(5),
            Some(6),
            Some(7),
        ],
        3,
    );
    let b = grid(
        &[
            Some(7),
            Some(6),
            Some(5),
            Some(4),
            Some(3),
            Some(2),
            Some(1),
            None,
            Some(0),
        ],
        3,
    );
    let (child_a, child_b) = a.crossover(&b).unwrap();
    let expected: Vec<u64> = (0..8).collect();
    assert_eq!(sorted_uniques(&child_a), expected);
    assert_eq!(sorted_uniques(&child_b), expected);
    assert_eq!(child_a.count_empty_spaces(), 1);
    assert_eq!(child_b.count_empty_spaces(), 1);
    assert_eq!(child_a.get_width(), 3);
    assert_eq!(child_b.get_width(), 3);
}

#[test]
fn crossover_rejects_mismatched_dimensions() {
    let a = grid(&[Some(0), Some(1), Some(2), Some(3)], 2);
    let b = grid(&[Some(0), Some(1), Some(2), Some(3)], 1);
    assert!(matches!(
        a.crossover(&b),
        Err(FacilityError::DimensionMismatch)
    ));
}

#[test]
fn mutation_with_zero_probability_is_identity() {
    let mut facility = grid(&[Some(0), Some(2), None, Some(1)], 2);
    let before = facility.cells();
    facility.mutate(0, 2);
    assert_eq!(facility.cells(), before);
}

#[test]
fn mutation_preserves_machine_set_and_empties() {
    let mut facility = grid(&[Some(0), Some(2), None, Some(1)], 2);
    let before = facility.cells();
    facility.mutate(100, 2);
    assert_eq!(sorted_uniques(&facility), vec![0, 1, 2]);
    assert_eq!(facility.count_empty_spaces(), 1);
    // the empty cell never moves, and full-rate mutation changes the grid
    assert_eq!(facility.cells()[2], Cell::Empty);
    assert_ne!(facility.cells(), before);
}

#[test]
fn generated_facility_places_each_machine_once() {
    let dimensions = Dimensions {
        width: 3,
        height: 3,
        machines: (0..7).collect(),
    };
    let facility = Facility::generate_randomised_facility(&dimensions).unwrap();
    let expected: Vec<u64> = (0..7).collect();
    assert_eq!(sorted_uniques(&facility), expected);
    assert_eq!(facility.count_empty_spaces(), 2);
    assert_eq!(facility.get_width(), 3);
    assert_eq!(facility.get_height(), 3);
}

#[test]
fn generation_rejects_overfull_grid() {
    let dimensions = Dimensions {
        width: 2,
        height: 1,
        machines: vec![0, 1, 2],
    };
    assert!(matches!(
        Facility::generate_randomised_facility(&dimensions),
        Err(FacilityError::CapacityError)
    ));
}
