use genetic_algorithm::errors::FacilityError;
use genetic_algorithm::facility_configuration::{Dimensions, FacilityConfig};
use genetic_algorithm::facility_layout::{FacilityFlow, FacilityLayout};
use genetic_algorithm::simulation::{SelectionMode, SimulationOutcome};
use genetic_algorithm::specimen::Population;

fn easy_dimensions() -> Dimensions {
    FacilityConfig::get_easy_config().unwrap().dimensions
}

fn easy_layout() -> FacilityLayout {
    FacilityLayout {
        facility_flows: vec![
            FacilityFlow {
                source: 0,
                dest: 8,
                amount: 2,
                cost: 3,
            },
            FacilityFlow {
                source: 1,
                dest: 4,
                amount: 1,
                cost: 5,
            },
            FacilityFlow {
                source: 2,
                dest: 7,
                amount: 4,
                cost: 1,
            },
        ],
    }
}

fn check_outcome(outcome: &SimulationOutcome, population_size: usize, runs: usize) {
    assert_eq!(outcome.statistics.len(), runs + 1);
    assert_eq!(outcome.final_population.specimens.len(), population_size);
    let min_fitness = outcome
        .final_population
        .specimens
        .iter()
        .map(|sp| sp.fitness)
        .min()
        .unwrap();
    assert_eq!(outcome.best_fitness, min_fitness);
    // every surviving genome still places machines 0..9 exactly once
    for sp in &outcome.final_population.specimens {
        let mut uniques = sp.facility.get_uniques();
        uniques.sort();
        let expected: Vec<u64> = (0..9).collect();
        assert_eq!(uniques, expected);
        assert_eq!(sp.facility.count_empty_spaces(), 0);
    }
}

#[test]
fn tournament_simulation_runs_to_completion() {
    let dimensions = easy_dimensions();
    let layout = easy_layout();
    let outcome = Population::simulate_tournament(
        4,
        &dimensions,
        &layout,
        SelectionMode::Tournament(2),
        75,
        25,
        3,
    )
    .unwrap();
    check_outcome(&outcome, 4, 3);
}

#[test]
fn roulette_simulation_runs_to_completion() {
    let dimensions = easy_dimensions();
    let layout = easy_layout();
    let outcome = Population::simulate_tournament(
        5,
        &dimensions,
        &layout,
        SelectionMode::Roulette,
        50,
        10,
        2,
    )
    .unwrap();
    check_outcome(&outcome, 5, 2);
}

#[test]
fn zero_generation_simulation_only_reports_the_initial_population() {
    let dimensions = easy_dimensions();
    let layout = easy_layout();
    // with no generations to run, even an oversized tournament never fires
    let outcome = Population::simulate_tournament(
        3,
        &dimensions,
        &layout,
        SelectionMode::Tournament(99),
        75,
        25,
        0,
    )
    .unwrap();
    check_outcome(&outcome, 3, 0);
}

#[test]
fn oversized_tournament_stops_the_simulation() {
    let dimensions = easy_dimensions();
    let layout = easy_layout();
    let result = Population::simulate_tournament(
        4,
        &dimensions,
        &layout,
        SelectionMode::Tournament(10),
        75,
        25,
        1,
    );
    assert!(matches!(result, Err(FacilityError::InvalidTournamentSize)));
}

#[test]
fn zero_tournament_stops_the_simulation() {
    let dimensions = easy_dimensions();
    let layout = easy_layout();
    let result = Population::simulate_tournament(
        4,
        &dimensions,
        &layout,
        SelectionMode::Tournament(0),
        75,
        25,
        1,
    );
    assert!(matches!(result, Err(FacilityError::EmptyPopulation)));
}

#[test]
fn overfull_grid_stops_the_simulation() {
    let dimensions = Dimensions {
        width: 2,
        height: 2,
        machines: (0..5).collect(),
    };
    let layout = easy_layout();
    let result = Population::simulate_tournament(
        4,
        &dimensions,
        &layout,
        SelectionMode::Tournament(2),
        75,
        25,
        1,
    );
    assert!(matches!(result, Err(FacilityError::CapacityError)));
}

#[test]
fn single_row_grid_works_without_crossover() {
    // a one-row grid can never split, but with crossover disabled the
    // simulation still runs
    let dimensions = Dimensions {
        width: 4,
        height: 1,
        machines: (0..3).collect(),
    };
    let layout = easy_layout();
    let outcome = Population::simulate_tournament(
        3,
        &dimensions,
        &layout,
        SelectionMode::Tournament(2),
        0,
        25,
        2,
    )
    .unwrap();
    assert_eq!(outcome.statistics.len(), 3);
    assert_eq!(outcome.final_population.specimens.len(), 3);
}

#[test]
fn statistics_stream_reflects_each_generation() {
    let dimensions = easy_dimensions();
    let layout = easy_layout();
    let outcome = Population::simulate_tournament(
        4,
        &dimensions,
        &layout,
        SelectionMode::Tournament(2),
        100,
        0,
        2,
    )
    .unwrap();
    for stats in &outcome.statistics {
        assert!(stats.best <= stats.worst);
        assert!(stats.fitness_sum >= stats.best as u128);
    }
}
