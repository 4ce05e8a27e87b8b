//! The multi-generation simulation driver: selection, pairing and
//! crossover, mutation, re-evaluation and statistics, repeated for a fixed
//! number of generations.

use vstd::prelude::*;

use crate::cell::{empty_count, has_id};
use crate::errors::FacilityError;
use crate::facility::{lemma_fitness_depends_on_view, Facility};
use crate::facility_configuration::Dimensions;
use crate::facility_layout::FacilityLayout;
use crate::arith::clamp_u128;
use crate::specimen::{
    best_specimen, lemma_min_max_fit_bounds, same_specimen, spec_fit_sum, spec_max_fit,
    spec_min_fit, spec_square_sum, FitnessStatistics, Population, Specimen,
};

verus! {

/// Which selection policy the driver applies each generation.
#[derive(Clone, Copy, Debug, PartialEq, Eq, Structural)]
pub enum SelectionMode {
    /// Pick the best of a uniformly drawn sample of the given size.
    Tournament(u64),
    /// Fitness-proportionate selection with inverted likelihoods.
    Roulette,
}

/// What a finished simulation hands back: the best fitness found in the
/// final population, the per-generation statistics stream, and the final
/// population itself.
pub struct SimulationOutcome {
    pub best_fitness: u64,
    pub statistics: Vec<FitnessStatistics>,
    pub final_population: Population,
}

/// The layout invariant the driver maintains for every specimen: a
/// well-formed grid of the configured shape placing exactly the
/// configured machines, with an up-to-date fitness cache.
pub open spec fn specimen_valid(sp: Specimen, dims: Dimensions, layout: FacilityLayout) -> bool {
    &&& sp.facility.wf()
    &&& sp.facility.one_of_each()
    &&& sp.facility.spec_width() == dims.width
    &&& sp.facility@.len() as int == dims.spec_cell_count()
    &&& (forall|v: u64| has_id(sp.facility@, v) <==> dims.machines@.contains(v))
    &&& empty_count(sp.facility@) as int == dims.spec_cell_count() - dims.machines@.len()
    &&& sp.fitness as int == sp.facility.spec_fitness(layout)
}

/// Every specimen of the list satisfies the layout invariant.
pub open spec fn population_valid(s: Seq<Specimen>, dims: Dimensions, layout: FacilityLayout) -> bool {
    forall|i: int| 0 <= i < s.len() ==> specimen_valid(#[trigger] s[i], dims, layout)
}

/// A statistics record that truly summarizes some valid population of
/// the given size: its best and worst are that population's least and
/// greatest fitness, and its sums are that population's fitness sums.
pub open spec fn stats_of_valid_population(
    st: FitnessStatistics,
    dims: Dimensions,
    layout: FacilityLayout,
    population_size: int,
) -> bool {
    exists|p: Seq<Specimen>|
        {
            &&& #[trigger] population_valid(p, dims, layout)
            &&& p.len() == population_size
            &&& st.best as int == spec_min_fit(p)
            &&& st.worst as int == spec_max_fit(p)
            &&& st.fitness_sum as int == spec_fit_sum(p)
            &&& st.square_sum as int == clamp_u128(spec_square_sum(p))
        }
}

/// The layout invariant carries over to any equal-view copy of a
/// specimen, such as one handed back by a selection function.
pub proof fn lemma_same_specimen_valid(
    a: Specimen,
    b: Specimen,
    dims: Dimensions,
    layout: FacilityLayout,
)
    requires
        same_specimen(a, b),
        specimen_valid(b, dims, layout),
    ensures
        specimen_valid(a, dims, layout),
{
    lemma_fitness_depends_on_view(a.facility, b.facility, layout.facility_flows@);
}

impl Population {
    /// Runs the full evolutionary pipeline: a random initial population is
    /// evaluated, and each generation is selected, paired and crossed
    /// over, mutated, re-evaluated and recorded, for exactly `runs`
    /// generations. The outcome carries `runs + 1` statistics records, the
    /// final population (every specimen of which still places exactly the
    /// configured machines) and its least fitness.
    ///
    /// The machine ids must be `0 .. n` in order: mutation wraps ids
    /// modulo the largest id plus one, and only that contiguous set keeps
    /// the placement invariant across the wrap-around (all presets use
    /// such a set).
    pub fn simulate_tournament(
        population_size: u32,
        dimensions: &Dimensions,
        facility_layout: &FacilityLayout,
        selection: SelectionMode,
        crossover_factor: u8,
        mutation_factor: u8,
        runs: u32,
    ) -> (r: Result<SimulationOutcome, FacilityError>)
        requires
            dimensions.wf(),
            dimensions.height >= 2 || crossover_factor == 0,
            dimensions.spec_cell_count() <= usize::MAX as int,
            dimensions.machines@.len() >= 1,
            population_size >= 1,
            crossover_factor <= 100,
            mutation_factor <= 100,
            forall|j: int| 0 <= j < dimensions.machines@.len() ==> dimensions.machines@[j] == j,
        ensures
            match r {
                Ok(out) => {
                    &&& dimensions.machines@.len() as int <= dimensions.spec_cell_count()
                    &&& out.statistics@.len() == runs as int + 1
                    &&& out.final_population.specimens@.len() == population_size as int
                    &&& population_valid(
                        out.final_population.specimens@,
                        *dimensions,
                        *facility_layout,
                    )
                    &&& out.best_fitness as int == spec_min_fit(out.final_population.specimens@)
                    &&& out.statistics@[runs as int].best == out.best_fitness
                    &&& (forall|g: int|
                        0 <= g < out.statistics@.len() ==> stats_of_valid_population(
                            #[trigger] out.statistics@[g],
                            *dimensions,
                            *facility_layout,
                            population_size as int,
                        ))
                },
                Err(e) => match selection {
                    SelectionMode::Tournament(k) => (e == FacilityError::CapacityError
                        && dimensions.machines@.len() as int > dimensions.spec_cell_count()) || (
                    runs >= 1 && ((e == FacilityError::InvalidTournamentSize && k as int
                        > population_size as int) || (e == FacilityError::EmptyPopulation && k
                        == 0))),
                    SelectionMode::Roulette => e == FacilityError::CapacityError
                        && dimensions.machines@.len() as int > dimensions.spec_cell_count(),
                },
            },
            r is Ok <==> (dimensions.machines@.len() as int <= dimensions.spec_cell_count() && (
            runs == 0 || match selection {
                SelectionMode::Tournament(k) => 1 <= k as int <= population_size as int,
                SelectionMode::Roulette => true,
            })),
    {
        let ghost dims = *dimensions;
        let ghost layout = *facility_layout;
        // initial population
        let mut facilities: Vec<Facility> = Vec::new();
        let mut c: u32 = 0;
        while c < population_size
            invariant
                c <= population_size,
                facilities@.len() == c as int,
                dims == *dimensions,
                dimensions.wf(),
                dims.spec_cell_count() <= usize::MAX as int,
                c >= 1 ==> dims.machines@.len() as int <= dims.spec_cell_count(),
                forall|i: int|
                    0 <= i < facilities@.len() ==> {
                        let f = #[trigger] facilities@[i];
                        &&& f.wf()
                        &&& f.one_of_each()
                        &&& f.spec_width() == dims.width
                        &&& f@.len() as int == dims.spec_cell_count()
                        &&& (forall|v: u64| has_id(f@, v) <==> dims.machines@.contains(v))
                        &&& empty_count(f@) as int == dims.spec_cell_count()
                            - dims.machines@.len()
                    },
            decreases population_size - c,
        {
            match Facility::generate_randomised_facility(dimensions) {
                Ok(f) => facilities.push(f),
                Err(e) => {
                    return Err(e);
                },
            }
            c += 1;
        }
        proof {
            assert(dims.machines@.len() as int <= dims.spec_cell_count());
        }
        let population = Population::fit_facilities(facilities, facility_layout);
        proof {
            assert forall|i: int|
                0 <= i < population.specimens@.len() implies specimen_valid(
                #[trigger] population.specimens@[i],
                dims,
                layout,
            ) by {};
        }

        // the population-wide largest machine id, fixed for all generations
        let first = &population.specimens[0];
        let max_machine = match first.facility.find_max_machine() {
            Some(m) => m,
            None => {
                proof {
                    assert(dims.machines@.contains(dims.machines@[0]));
                    assert(false);
                }
                0
            },
        };
        proof {
            assert(max_machine as int == dims.machines@.len() - 1) by {
                assert(dims.machines@.contains(dims.machines@[dims.machines@.len() - 1]));
                assert(has_id(first.facility@, (dims.machines@.len() - 1) as u64));
                if max_machine as int >= dims.machines@.len() {
                    assert(dims.machines@.contains(max_machine));
                }
            };
        }

        let mut current = population;
        let mut statistics: Vec<FitnessStatistics> = Vec::new();
        let mut runs_elapsed: u32 = 0;
        while runs_elapsed < runs
            invariant
                runs_elapsed <= runs,
                statistics@.len() == runs_elapsed as int,
                forall|g: int|
                    0 <= g < statistics@.len() ==> stats_of_valid_population(
                        #[trigger] statistics@[g],
                        dims,
                        layout,
                        population_size as int,
                    ),
                current.specimens@.len() == population_size as int,
                population_valid(current.specimens@, dims, layout),
                dims == *dimensions,
                layout == *facility_layout,
                dimensions.wf(),
                dims.height >= 2 || crossover_factor == 0,
                dims.spec_cell_count() <= usize::MAX as int,
                dims.machines@.len() >= 1,
                population_size >= 1,
                crossover_factor <= 100,
                mutation_factor <= 100,
                forall|j: int| 0 <= j < dims.machines@.len() ==> dims.machines@[j] == j,
                dims.machines@.len() as int <= dims.spec_cell_count(),
                max_machine as int == dims.machines@.len() - 1,
                runs >= 1 ==> match selection {
                    SelectionMode::Tournament(k) => 1 <= k as int <= population_size as int
                        || runs_elapsed == 0,
                    SelectionMode::Roulette => true,
                },
            decreases runs - runs_elapsed,
        {
            // record the statistics of the population entering this generation
            match Population::calculate_statistics(&current.specimens) {
                Ok(st) => {
                    let ghost prior_stats = statistics@;
                    proof {
                        assert(stats_of_valid_population(
                            st,
                            dims,
                            layout,
                            population_size as int,
                        )) by {
                            assert(population_valid(current.specimens@, dims, layout));
                        };
                    }
                    statistics.push(st);
                    proof {
                        assert(forall|g: int|
                            0 <= g < prior_stats.len() ==> statistics@[g] == prior_stats[g]);
                        assert(statistics@[statistics@.len() - 1] == st);
                    }
                },
                Err(_) => {
                    proof {
                        assert(false);
                    }
                },
            }

            // selection: one draw per population slot, with replacement
            let mut selected: Vec<Specimen> = Vec::new();
            let mut t: u32 = 0;
            while t < population_size
                invariant
                    t <= population_size,
                    selected@.len() == t as int,
                    current.specimens@.len() == population_size as int,
                    population_valid(current.specimens@, dims, layout),
                    population_valid(selected@, dims, layout),
                    population_size >= 1,
                    runs >= 1,
                    match selection {
                        SelectionMode::Tournament(k) => t >= 1 ==> 1 <= k as int
                            <= population_size as int,
                        SelectionMode::Roulette => true,
                    },
                decreases population_size - t,
            {
                let chosen = match selection {
                    SelectionMode::Tournament(k) => current.select_by_tournament(k),
                    SelectionMode::Roulette => current.select_by_roulette(),
                };
                match chosen {
                    Ok(sp) => {
                        proof {
                            let i = choose|i: int|
                                0 <= i < current.specimens@.len() && same_specimen(
                                    sp,
                                    #[trigger] current.specimens@[i],
                                );
                            lemma_same_specimen_valid(sp, current.specimens@[i], dims, layout);
                            let ghost prior = selected@;
                            assert(forall|q: int|
                                0 <= q < prior.len() ==> prior[q] == selected@.push(sp)[q]);
                        }
                        selected.push(sp);
                    },
                    Err(e) => {
                        return Err(e);
                    },
                }
                t += 1;
            }

            // partition into crossover-bound and copied-through specimens
            let mut new_population: Vec<Specimen> = Vec::new();
            let mut crossover_specimens: Vec<Specimen> = Vec::new();
            while selected.len() > 0
                invariant
                    population_valid(selected@, dims, layout),
                    population_valid(new_population@, dims, layout),
                    population_valid(crossover_specimens@, dims, layout),
                    new_population@.len() + crossover_specimens@.len() + selected@.len()
                        == population_size as int,
                    crossover_factor == 0 ==> crossover_specimens@.len() == 0,
                    crossover_factor <= 100,
                decreases selected@.len(),
            {
                let sp = selected.remove(0);
                if crate::randomness::random_in_range(0, 100) < crossover_factor as u64 {
                    crossover_specimens.push(sp);
                } else {
                    new_population.push(sp);
                }
            }

            // pair the crossover-bound specimens in random order
            let ghost before_shuffle = crossover_specimens@;
            crate::randomness::shuffle_in_place(&mut crossover_specimens);
            proof {
                broadcast use vstd::seq_lib::group_to_multiset_ensures;

                assert forall|i: int|
                    0 <= i < crossover_specimens@.len() implies specimen_valid(
                    #[trigger] crossover_specimens@[i],
                    dims,
                    layout,
                ) by {
                    assert(crossover_specimens@.contains(crossover_specimens@[i]));
                    assert(crossover_specimens@.to_multiset().count(crossover_specimens@[i]) > 0);
                    assert(before_shuffle.to_multiset().count(crossover_specimens@[i]) > 0);
                    assert(before_shuffle.contains(crossover_specimens@[i]));
                    let j = choose|j: int|
                        0 <= j < before_shuffle.len() && before_shuffle[j]
                            == crossover_specimens@[i];
                };
            }

            // an unpaired straggler is copied through unchanged
            if crossover_specimens.len() % 2 != 0 {
                match crossover_specimens.pop() {
                    Some(sp) => new_population.push(sp),
                    None => {
                        proof {
                            assert(false);
                        }
                    },
                }
            }

            // adjacent pairs are crossed over; both children join the new
            // population with freshly computed fitness
            proof {
                assert(dims.width as int * dims.height as int == dims.height as int
                    * dims.width as int) by (nonlinear_arith);
                vstd::arithmetic::div_mod::lemma_fundamental_div_mod_converse(
                    dims.spec_cell_count(),
                    dims.width as int,
                    dims.height as int,
                    0,
                );
            }
            while crossover_specimens.len() >= 2
                invariant
                    population_valid(crossover_specimens@, dims, layout),
                    population_valid(new_population@, dims, layout),
                    new_population@.len() + crossover_specimens@.len() == population_size as int,
                    crossover_specimens@.len() % 2 == 0,
                    crossover_factor == 0 ==> crossover_specimens@.len() == 0,
                    dims.height >= 2 || crossover_factor == 0,
                    dims.spec_cell_count() == dims.width as int * dims.height as int,
                    dims.height as int == dims.spec_cell_count() / dims.width as int,
                    dims.width >= 1,
                    layout == *facility_layout,
                decreases crossover_specimens@.len(),
            {
                let first_parent = crossover_specimens.remove(0);
                let second_parent = crossover_specimens.remove(0);
                match first_parent.facility.crossover(&second_parent.facility) {
                    Ok(children) => {
                        let (child_a, child_b) = children;
                        let fitness_a = child_a.calculate_fitness(facility_layout);
                        new_population.push(Specimen::new(child_a, fitness_a));
                        let fitness_b = child_b.calculate_fitness(facility_layout);
                        new_population.push(Specimen::new(child_b, fitness_b));
                    },
                    Err(_) => {
                        proof {
                            assert(false);
                        }
                    },
                }
            }
            // mutate every specimen and refit the population
            proof {
                assert(crossover_specimens@.len() == 0);
                assert(new_population@.len() == population_size as int);
            }
            let mut mutated: Vec<Specimen> = Vec::new();
            while new_population.len() > 0
                invariant
                    population_valid(new_population@, dims, layout),
                    population_valid(mutated@, dims, layout),
                    mutated@.len() + new_population@.len() == population_size as int,
                    mutation_factor <= 100,
                    max_machine as int == dims.machines@.len() - 1,
                    dims.machines@.len() >= 1,
                    dims.machines@.len() as int <= dims.spec_cell_count(),
                    dims.spec_cell_count() <= usize::MAX as int,
                    forall|j: int| 0 <= j < dims.machines@.len() ==> dims.machines@[j] == j,
                    layout == *facility_layout,
                decreases new_population@.len(),
            {
                let sp = new_population.remove(0);
                let mut facility = sp.facility;
                proof {
                    assert((max_machine as int) < dims.spec_cell_count());
                    assert forall|v: u64| has_id(facility@, v) implies v <= max_machine by {
                        assert(dims.machines@.contains(v));
                        let j = choose|j: int|
                            0 <= j < dims.machines@.len() && dims.machines@[j] == v;
                    };
                    assert forall|v: u64| v <= max_machine implies has_id(facility@, v) by {
                        assert(dims.machines@[v as int] == v);
                        assert(dims.machines@.contains(v));
                    };
                }
                facility.mutate(mutation_factor, max_machine);
                let fitness = facility.calculate_fitness(facility_layout);
                mutated.push(Specimen::new(facility, fitness));
            }

            current = Population { specimens: mutated };
            runs_elapsed += 1;
        }

        // record the final population and report its least fitness
        match Population::calculate_statistics(&current.specimens) {
            Ok(st) => {
                let ghost prior_stats = statistics@;
                proof {
                    assert(stats_of_valid_population(st, dims, layout, population_size as int))
                        by {
                        assert(population_valid(current.specimens@, dims, layout));
                    };
                }
                statistics.push(st);
                proof {
                    assert(forall|g: int|
                        0 <= g < prior_stats.len() ==> statistics@[g] == prior_stats[g]);
                    assert(statistics@[statistics@.len() - 1] == st);
                }
            },
            Err(_) => {
                proof {
                    assert(false);
                }
            },
        }
        let best_fitness = match best_specimen(&current.specimens) {
            Ok(sp) => sp.fitness,
            Err(_) => {
                proof {
                    assert(false);
                }
                0
            },
        };
        proof {
            lemma_min_max_fit_bounds(current.specimens@);
        }
        Ok(SimulationOutcome { best_fitness, statistics, final_population: current })
    }
}

} // verus!
