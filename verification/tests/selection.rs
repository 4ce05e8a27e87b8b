use genetic_algorithm::cell::Cell;
use genetic_algorithm::errors::FacilityError;
use genetic_algorithm::facility::Facility;
use genetic_algorithm::specimen::{best_specimen, build_roulette_bounds, Population, Specimen};

fn specimen_with(id: u64, fitness: u64) -> Specimen {
    let facility = Facility::from_cells(vec![Cell::Occupied(id)], 1).unwrap();
    Specimen::new(facility, fitness)
}

fn population_with(fitnesses: &[u64]) -> Population {
    Population {
        specimens: fitnesses
            .iter()
            .enumerate()
            .map(|(i, f)| specimen_with(i as u64, *f))
            .collect(),
    }
}

#[test]
fn oversized_tournament_fails() {
    let population = population_with(&[5, 3, 8]);
    assert!(matches!(
        population.select_by_tournament(4),
        Err(FacilityError::InvalidTournamentSize)
    ));
}

#[test]
fn zero_tournament_selects_nobody() {
    let population = population_with(&[5, 3, 8]);
    assert!(matches!(
        population.select_by_tournament(0),
        Err(FacilityError::EmptyPopulation)
    ));
}

#[test]
fn full_tournament_returns_the_fittest() {
    let population = population_with(&[5, 3, 8]);
    // a tournament over the whole population always finds the minimum
    let winner = population.select_by_tournament(3).unwrap();
    assert_eq!(winner.fitness, 3);
}

#[test]
fn tournament_returns_a_population_member() {
    let population = population_with(&[5, 3, 8]);
    let winner = population.select_by_tournament(2).unwrap();
    assert!([5u64, 3, 8].contains(&winner.fitness));
}

#[test]
fn best_specimen_breaks_ties_in_favour_of_the_first() {
    let sample = vec![
        specimen_with(0, 4),
        specimen_with(1, 2),
        specimen_with(2, 2),
    ];
    let best = best_specimen(&sample).unwrap();
    assert_eq!(best.fitness, 2);
    assert_eq!(best.facility.cells(), vec![Cell::Occupied(1)]);
}

#[test]
fn best_specimen_of_empty_sample_fails() {
    let sample: Vec<Specimen> = Vec::new();
    assert!(matches!(
        best_specimen(&sample),
        Err(FacilityError::EmptyPopulation)
    ));
}

#[test]
fn roulette_bounds_accumulate_inverted_weights() {
    // fitness 1, 2, 3: min^2 = 1, max^2 = 9, weights 9, 6, 1
    let population = population_with(&[1, 2, 3]);
    let bounds = build_roulette_bounds(&population.specimens);
    assert_eq!(bounds, vec![9, 15, 16]);
}

#[test]
fn roulette_bounds_are_nondecreasing() {
    let population = population_with(&[7, 7, 1, 9, 4]);
    let bounds = build_roulette_bounds(&population.specimens);
    for k in 1..bounds.len() {
        assert!(bounds[k - 1] <= bounds[k]);
    }
}

#[test]
fn roulette_returns_a_population_member() {
    let population = population_with(&[5, 3, 8]);
    let chosen = population.select_by_roulette().unwrap();
    assert!([5u64, 3, 8].contains(&chosen.fitness));
}

#[test]
fn roulette_on_empty_population_fails() {
    let population = Population {
        specimens: Vec::new(),
    };
    assert!(matches!(
        population.select_by_roulette(),
        Err(FacilityError::EmptyPopulation)
    ));
}

#[test]
fn roulette_on_uniform_fitness_still_selects() {
    // all weights are equal, the total may be zero only if all are zero
    let population = population_with(&[0, 0, 0]);
    let chosen = population.select_by_roulette().unwrap();
    assert_eq!(chosen.fitness, 0);
}

#[test]
fn statistics_report_extremes_and_sums() {
    let population = population_with(&[1, 2, 3]);
    let stats = Population::calculate_statistics(&population.specimens).unwrap();
    assert_eq!(stats.best, 1);
    assert_eq!(stats.worst, 3);
    assert_eq!(stats.fitness_sum, 6);
    assert_eq!(stats.square_sum, 14);
}

#[test]
fn statistics_square_sum_saturates() {
    let population = population_with(&[u64::MAX, u64::MAX]);
    let stats = Population::calculate_statistics(&population.specimens).unwrap();
    assert_eq!(stats.best, u64::MAX);
    assert_eq!(stats.worst, u64::MAX);
    assert_eq!(stats.fitness_sum, 2 * (u64::MAX as u128));
    // two squares of u64::MAX overflow u128 and clamp at its top
    assert_eq!(stats.square_sum, u128::MAX);
}

#[test]
fn roulette_bounds_saturate() {
    let population = population_with(&[u64::MAX, u64::MAX]);
    let bounds = build_roulette_bounds(&population.specimens);
    let max_square = (u64::MAX as u128) * (u64::MAX as u128);
    assert_eq!(bounds[0], max_square);
    assert_eq!(bounds[1], u128::MAX);
}

#[test]
fn statistics_of_empty_population_fail() {
    let specimens: Vec<Specimen> = Vec::new();
    assert!(matches!(
        Population::calculate_statistics(&specimens),
        Err(FacilityError::EmptyPopulation)
    ));
}

#[test]
fn first_reaching_bound_picks_the_first() {
    // fitness 1, 2, 3 gives bounds 9, 15, 16; a guess of 10 lands on the
    // second specimen, the first whose bound reaches it
    let population = population_with(&[1, 2, 3]);
    let bounds = build_roulette_bounds(&population.specimens);
    let chosen = Population::first_reaching_bound(&population.specimens, &bounds, 10).unwrap();
    assert_eq!(chosen.fitness, 2);
    let lowest = Population::first_reaching_bound(&population.specimens, &bounds, 0).unwrap();
    assert_eq!(lowest.fitness, 1);
    let exhausted = Population::first_reaching_bound(&population.specimens, &bounds, 17);
    assert!(matches!(exhausted, Err(FacilityError::SelectionExhausted)));
}
