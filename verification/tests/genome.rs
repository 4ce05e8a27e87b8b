use genetic_algorithm::cell::Cell;
use genetic_algorithm::errors::FacilityError;
use genetic_algorithm::facility::Facility;
use genetic_algorithm::facility_layout::{FacilityFlow, FacilityLayout};

fn grid(ids: &[Option<u64>], width: u64) -> Facility {
    let cells: Vec<Cell> = ids
        .iter()
        .map(|c| match c {
            Some(v) => Cell::Occupied(*v),
            None => Cell::Empty,
        })
        .collect();
    Facility::from_cells(cells, width).unwrap()
}

fn ordered_nine() -> Facility {
    grid(
        &[
            Some(0),
            Some(1),
            Some(2),
            Some(3),
            Some(4),
            Some(5),
            Some(6),
            Some(7),
            Some(8),
        ],
        3,
    )
}

fn single_flow(source: u64, dest: u64, amount: u64, cost: u64) -> FacilityLayout {
    FacilityLayout {
        facility_flows: vec![FacilityFlow {
            source,
            dest,
            amount,
            cost,
        }],
    }
}

#[test]
fn fitness_of_three_by_three_grid() {
    // machine 0 sits at (0,0) and machine 8 at (2,2): distance 4, times
    // amount 2, times cost 3
    let facility = ordered_nine();
    let layout = single_flow(0, 8, 2, 3);
    assert_eq!(facility.calculate_fitness(&layout), 24);
}

#[test]
fn fitness_is_deterministic() {
    let facility = ordered_nine();
    let layout = single_flow(0, 8, 2, 3);
    let first = facility.calculate_fitness(&layout);
    let second = facility.calculate_fitness(&layout);
    let third = facility.calculate_fitness(&layout);
    assert_eq!(first, second);
    assert_eq!(second, third);
}

#[test]
fn fitness_sums_multiple_flows() {
    let facility = ordered_nine();
    let layout = FacilityLayout {
        facility_flows: vec![
            FacilityFlow {
                source: 0,
                dest: 8,
                amount: 2,
                cost: 3,
            },
            FacilityFlow {
                source: 1,
                dest: 2,
                amount: 5,
                cost: 7,
            },
        ],
    };
    // 4 * 2 * 3 + 1 * 5 * 7
    assert_eq!(facility.calculate_fitness(&layout), 24 + 35);
}

#[test]
fn fitness_ignores_missing_machines() {
    let facility = ordered_nine();
    let layout = single_flow(0, 42, 2, 3);
    assert_eq!(facility.calculate_fitness(&layout), 0);
}

#[test]
fn fitness_strict_rejects_missing_machines() {
    let facility = ordered_nine();
    let layout = single_flow(0, 42, 2, 3);
    assert_eq!(
        facility.calculate_fitness_strict(&layout),
        Err(FacilityError::InconsistentFlowReference)
    );
}

#[test]
fn fitness_strict_agrees_on_consistent_flows() {
    let facility = ordered_nine();
    let layout = single_flow(0, 8, 2, 3);
    assert_eq!(facility.calculate_fitness_strict(&layout), Ok(24));
}

#[test]
fn fitness_saturates_instead_of_wrapping() {
    let facility = grid(&[Some(0), Some(1)], 1);
    let layout = single_flow(0, 1, u64::MAX, 2);
    assert_eq!(facility.calculate_fitness(&layout), u64::MAX);
}

#[test]
fn position_of_finds_row_and_column() {
    let facility = ordered_nine();
    assert_eq!(facility.position_of(0), Some((0, 0)));
    assert_eq!(facility.position_of(5), Some((1, 2)));
    assert_eq!(facility.position_of(8), Some((2, 2)));
}

#[test]
fn position_of_absent_machine_is_none() {
    let facility = ordered_nine();
    assert_eq!(facility.position_of(9), None);
}

#[test]
fn distance_is_manhattan() {
    let facility = ordered_nine();
    assert_eq!(facility.calculate_distance(0, 8), Some(4));
    assert_eq!(facility.calculate_distance(0, 1), Some(1));
    assert_eq!(facility.calculate_distance(3, 5), Some(2));
    assert_eq!(facility.calculate_distance(0, 99), None);
}

#[test]
fn from_cells_rejects_zero_width() {
    assert!(matches!(
        Facility::from_cells(vec![Cell::Empty], 0),
        Err(FacilityError::DimensionMismatch)
    ));
}

#[test]
fn from_cells_rejects_ragged_grid() {
    assert!(matches!(
        Facility::from_cells(vec![Cell::Empty, Cell::Empty, Cell::Empty], 2),
        Err(FacilityError::DimensionMismatch)
    ));
}

#[test]
fn find_max_machine_returns_largest() {
    let facility = grid(&[Some(3), None, Some(7), Some(1)], 2);
    assert_eq!(facility.find_max_machine(), Some(7));
}

#[test]
fn find_max_machine_of_empty_grid_is_none() {
    let facility = grid(&[None, None], 2);
    assert_eq!(facility.find_max_machine(), None);
}

#[test]
fn get_uniques_lists_each_machine_once() {
    let facility = grid(&[Some(3), Some(1), Some(3), None], 2);
    assert_eq!(facility.get_uniques(), vec![3, 1]);
}

#[test]
fn count_empty_spaces_counts_empty_cells() {
    let facility = grid(&[Some(3), None, Some(7), None], 2);
    assert_eq!(facility.count_empty_spaces(), 2);
}

#[test]
fn get_height_divides_cells_by_width() {
    let facility = grid(&[None, None, None, None, None, None], 3);
    assert_eq!(facility.get_height(), 2);
    assert_eq!(facility.get_width(), 3);
}

#[test]
fn error_descriptions_match_their_cases() {
    assert_eq!(
        FacilityError::InvalidTournamentSize.describe(),
        "The tournament size must be less than or equal the total specimen count."
    );
    assert_eq!(
        FacilityError::CapacityError.describe(),
        "The interior must be able to fit all of the machines!"
    );
    assert_eq!(
        FacilityError::EmptyPopulation.describe(),
        "There are no specimens to choose from."
    );
}
