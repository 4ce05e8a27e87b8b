//! Specimens and populations: fitness-tagged facilities, the two selection
//! policies (tournament and inverted-roulette), and per-generation fitness
//! statistics.

use vstd::prelude::*;

use rand::seq::SliceRandom;

use crate::arith::{clamp_u128, sat_add_u128, square_u64, lemma_clamp_u128_add, lemma_square_le};
use crate::errors::FacilityError;
use crate::facility::Facility;
use crate::facility_layout::FacilityLayout;

verus! {

/// A facility together with its cached fitness. The cache is a derived
/// value: the driver recomputes it whenever the facility changes.
#[derive(Clone, Debug)]
pub struct Specimen {
    pub facility: Facility,
    pub fitness: u64,
}

/// Two specimens carry the same layout and the same cached fitness.
pub open spec fn same_specimen(a: Specimen, b: Specimen) -> bool {
    &&& a.facility@ == b.facility@
    &&& a.facility.spec_width() == b.facility.spec_width()
    &&& a.fitness == b.fitness
}

impl Specimen {
    /// Pairs a facility with its fitness value.
    pub fn new(facility: Facility, fitness: u64) -> (r: Specimen)
        ensures
            r.facility == facility,
            r.fitness == fitness,
    {
        Specimen { facility, fitness }
    }

    /// A deep copy of this specimen.
    pub fn duplicate(&self) -> (r: Specimen)
        ensures
            same_specimen(r, *self),
    {
        Specimen { facility: self.facility.duplicate(), fitness: self.fitness }
    }
}

/// An ordered collection of specimens; the order carries no meaning but
/// makes pairing during crossover convenient.
pub struct Population {
    pub specimens: Vec<Specimen>,
}

/// The smallest cached fitness of the list (`0` when it is empty).
pub open spec fn spec_min_fit(s: Seq<Specimen>) -> int
    decreases s.len(),
{
    if s.len() == 0 {
        0
    } else if s.len() == 1 {
        s[0].fitness as int
    } else {
        vstd::math::min(spec_min_fit(s.drop_last()), s.last().fitness as int)
    }
}

/// The largest cached fitness of the list (`0` when it is empty).
pub open spec fn spec_max_fit(s: Seq<Specimen>) -> int
    decreases s.len(),
{
    if s.len() == 0 {
        0
    } else if s.len() == 1 {
        s[0].fitness as int
    } else {
        vstd::math::max(spec_max_fit(s.drop_last()), s.last().fitness as int)
    }
}

/// The least and greatest fitness really bound every specimen and are
/// attained by one.
pub proof fn lemma_min_max_fit_bounds(s: Seq<Specimen>)
    requires
        s.len() >= 1,
    ensures
        forall|i: int|
            0 <= i < s.len() ==> spec_min_fit(s) <= (#[trigger] s[i]).fitness as int
                <= spec_max_fit(s),
        exists|i: int| 0 <= i < s.len() && s[i].fitness as int == spec_min_fit(s),
        exists|i: int| 0 <= i < s.len() && s[i].fitness as int == spec_max_fit(s),
    decreases s.len(),
{
    if s.len() == 1 {
        assert(s[0].fitness as int == spec_min_fit(s));
        assert(s[0].fitness as int == spec_max_fit(s));
    } else {
        lemma_min_max_fit_bounds(s.drop_last());
        assert(forall|i: int| 0 <= i < s.len() - 1 ==> s.drop_last()[i] == s[i]);
        if spec_min_fit(s) == s.last().fitness as int {
            assert(s[s.len() - 1].fitness as int == spec_min_fit(s));
        } else {
            let i = choose|i: int|
                0 <= i < s.drop_last().len() && s.drop_last()[i].fitness as int == spec_min_fit(
                    s.drop_last(),
                );
            assert(s[i].fitness as int == spec_min_fit(s));
        }
        if spec_max_fit(s) == s.last().fitness as int {
            assert(s[s.len() - 1].fitness as int == spec_max_fit(s));
        } else {
            let i = choose|i: int|
                0 <= i < s.drop_last().len() && s.drop_last()[i].fitness as int == spec_max_fit(
                    s.drop_last(),
                );
            assert(s[i].fitness as int == spec_max_fit(s));
        }
    }
}

/// The inverted roulette weight of specimen `i`: the squares of the least
/// and greatest fitness, minus the specimen's own squared fitness. Low
/// fitness (a good layout) gets a large weight.
pub open spec fn roulette_weight(s: Seq<Specimen>, i: int) -> int {
    spec_min_fit(s) * spec_min_fit(s) + spec_max_fit(s) * spec_max_fit(s) - s[i].fitness as int
        * s[i].fitness as int
}

/// The sum of the first `k` inverted roulette weights.
pub open spec fn roulette_weight_sum(s: Seq<Specimen>, k: int) -> int
    decreases k,
{
    if k <= 0 {
        0
    } else {
        roulette_weight_sum(s, k - 1) + roulette_weight(s, k - 1)
    }
}

/// Every inverted weight is non-negative, so the weight sums grow
/// monotonically with their length.
pub proof fn lemma_roulette_weight_bounds(s: Seq<Specimen>, i: int)
    requires
        s.len() >= 1,
        0 <= i < s.len(),
    ensures
        0 <= roulette_weight(s, i),
        roulette_weight(s, i) <= spec_min_fit(s) * spec_min_fit(s) + spec_max_fit(s) * spec_max_fit(
            s,
        ),
{
    lemma_min_max_fit_bounds(s);
    lemma_square_le(spec_min_fit(s), s[i].fitness as int);
    lemma_square_le(s[i].fitness as int, spec_max_fit(s));
}

/// The cumulative inverted-likelihood bounds of a population, saturating
/// at `u128::MAX`: entry `i` is the clamped sum of the first `i + 1`
/// weights. The bounds are non-decreasing and the last one is the clamped
/// total weight.
pub fn build_roulette_bounds(specimens: &Vec<Specimen>) -> (r: Vec<u128>)
    requires
        specimens@.len() >= 1,
    ensures
        r@.len() == specimens@.len(),
        forall|i: int|
            0 <= i < r@.len() ==> r@[i] as int == clamp_u128(roulette_weight_sum(specimens@, i + 1)),
        forall|i: int, j: int| 0 <= i <= j < r@.len() ==> r@[i] <= r@[j],
        r@[r@.len() - 1] as int == clamp_u128(
            roulette_weight_sum(specimens@, specimens@.len() as int),
        ),
{
    let s = specimens;
    let n = s.len();
    let mut min_fit: u64 = s[0].fitness;
    let mut max_fit: u64 = s[0].fitness;
    let mut i: usize = 1;
    proof {
        assert(s@.subrange(0, 1) =~= seq![s@[0]]);
        assert(spec_min_fit(s@.subrange(0, 1)) == s@[0].fitness as int);
        assert(spec_max_fit(s@.subrange(0, 1)) == s@[0].fitness as int);
    }
    while i < n
        invariant
            1 <= i <= n,
            n == s@.len(),
            min_fit as int == spec_min_fit(s@.subrange(0, i as int)),
            max_fit as int == spec_max_fit(s@.subrange(0, i as int)),
        decreases n - i,
    {
        let ghost prefix = s@.subrange(0, i as int);
        proof {
            assert(s@.subrange(0, i + 1) =~= prefix.push(s@[i as int]));
            assert(s@.subrange(0, i + 1).drop_last() =~= prefix);
        }
        let f = s[i].fitness;
        if f < min_fit {
            min_fit = f;
        }
        if f > max_fit {
            max_fit = f;
        }
        i += 1;
    }
    proof {
        assert(s@.subrange(0, n as int) =~= s@);
    }

    let min_sq = square_u64(min_fit);
    let max_sq = square_u64(max_fit);
    let mut bounds: Vec<u128> = Vec::new();
    let mut cumulative: u128 = 0;
    let mut k: usize = 0;
    while k < n
        invariant
            k <= n,
            n == s@.len(),
            1 <= n,
            bounds@.len() == k,
            min_sq as int == spec_min_fit(s@) * spec_min_fit(s@),
            max_sq as int == spec_max_fit(s@) * spec_max_fit(s@),
            min_fit as int == spec_min_fit(s@),
            max_fit as int == spec_max_fit(s@),
            cumulative as int == clamp_u128(roulette_weight_sum(s@, k as int)),
            forall|i: int|
                0 <= i < k ==> bounds@[i] as int == clamp_u128(roulette_weight_sum(s@, i + 1)),
            forall|i: int, j: int| 0 <= i <= j < k ==> bounds@[i] <= bounds@[j],
        decreases n - k,
    {
        let f_sq = square_u64(s[k].fitness);
        proof {
            lemma_min_max_fit_bounds(s@);
            lemma_square_le(spec_min_fit(s@), s@[k as int].fitness as int);
            lemma_square_le(s@[k as int].fitness as int, spec_max_fit(s@));
        }
        let weight: u128 = max_sq - (f_sq - min_sq);
        proof {
            assert(weight as int == roulette_weight(s@, k as int));
            lemma_roulette_weight_bounds(s@, k as int);
            assert(roulette_weight_sum(s@, k as int) >= 0) by {
                lemma_roulette_weight_sum_nonneg(s@, k as int);
            };
            lemma_clamp_u128_add(roulette_weight_sum(s@, k as int), weight as int);
        }
        cumulative = sat_add_u128(cumulative, weight);
        bounds.push(cumulative);
        proof {
            assert forall|i: int, j: int| 0 <= i <= j < bounds@.len() implies bounds@[i]
                <= bounds@[j] by {
                if j == bounds@.len() - 1 && i < j {
                    assert(roulette_weight_sum(s@, i + 1) <= roulette_weight_sum(s@, k + 1)) by {
                        lemma_roulette_weight_sum_mono(s@, i + 1, k + 1);
                    };
                }
            };
        }
        k += 1;
    }
    bounds
}

/// The sample copies population entries at the positions of a
/// duplicate-free index list: a draw without replacement.
pub open spec fn sampled_without_replacement(
    population: Seq<Specimen>,
    sample: Seq<Specimen>,
    idx: Seq<int>,
) -> bool {
    &&& idx.no_duplicates()
    &&& idx.len() == sample.len()
    &&& forall|i: int|
        0 <= i < idx.len() ==> 0 <= #[trigger] idx[i] < population.len() && same_specimen(
            sample[i],
            population[idx[i]],
        )
}

/// A duplicate-free index list as long as the population covers every
/// population index.
proof fn lemma_full_sample_covers(population: Seq<Specimen>, sample: Seq<Specimen>, idx: Seq<int>)
    requires
        sampled_without_replacement(population, sample, idx),
        sample.len() == population.len(),
    ensures
        forall|j: int| 0 <= j < population.len() ==> #[trigger] idx.contains(j),
{
    broadcast use vstd::seq_lib::seq_to_set_is_finite;

    let n = population.len() as int;
    idx.unique_seq_to_set();
    vstd::set_lib::lemma_int_range(0, n);
    assert(idx.to_set().subset_of(vstd::set_lib::set_int_range(0, n))) by {
        assert forall|x: int| idx.to_set().contains(x) implies vstd::set_lib::set_int_range(
            0,
            n,
        ).contains(x) by {
            let i = choose|i: int| 0 <= i < idx.len() && idx[i] == x;
        };
    };
    vstd::set_lib::lemma_subset_equality(idx.to_set(), vstd::set_lib::set_int_range(0, n));
    assert forall|j: int| 0 <= j < n implies #[trigger] idx.contains(j) by {
        assert(vstd::set_lib::set_int_range(0, n).contains(j));
        assert(idx.to_set().contains(j));
    };
}

/// Relies on rand's `SliceRandom::choose_multiple`: with `amount` at most
/// the slice length it yields `amount` elements drawn at distinct indices
/// ("without repetition"); each returned specimen is a copy of the
/// population entry at its drawn index.
#[verifier::external_body]
fn sample_specimens(specimens: &Vec<Specimen>, amount: usize) -> (r: Vec<Specimen>)
    requires
        amount <= specimens@.len(),
    ensures
        r@.len() == amount,
        forall|i: int|
            0 <= i < r@.len() ==> exists|j: int|
                0 <= j < specimens@.len() && same_specimen(#[trigger] r@[i], specimens@[j]),
        exists|idx: Seq<int>| sampled_without_replacement(specimens@, r@, idx),
{
    specimens.choose_multiple(&mut rand::thread_rng(), amount).cloned().collect()
}

/// The specimen with the least fitness in the sample, ties broken in
/// favour of the first one encountered. Fails with `EmptyPopulation` on an
/// empty sample.
pub fn best_specimen(sample: &Vec<Specimen>) -> (r: Result<Specimen, FacilityError>)
    ensures
        match r {
            Ok(s) => {
                &&& sample@.len() >= 1
                &&& forall|j: int| 0 <= j < sample@.len() ==> s.fitness <= (#[trigger] sample@[j]).fitness
                &&& exists|i: int|
                    0 <= i < sample@.len() && same_specimen(s, #[trigger] sample@[i]) && (forall|
                        j: int,
                    |
                        0 <= j < i ==> (#[trigger] sample@[j]).fitness > s.fitness)
            },
            Err(e) => {
                &&& e == FacilityError::EmptyPopulation
                &&& sample@.len() == 0
            },
        },
{
    if sample.len() == 0 {
        return Err(FacilityError::EmptyPopulation);
    }
    let mut best_index: usize = 0;
    let mut i: usize = 1;
    while i < sample.len()
        invariant
            best_index < i <= sample@.len(),
            forall|j: int|
                0 <= j < i ==> sample@[best_index as int].fitness <= (#[trigger] sample@[j]).fitness,
            forall|j: int|
                0 <= j < best_index ==> (#[trigger] sample@[j]).fitness > sample@[best_index as int].fitness,
        decreases sample@.len() - i,
    {
        if sample[i].fitness < sample[best_index].fitness {
            best_index = i;
        }
        i += 1;
    }
    let chosen = &sample[best_index];
    Ok(chosen.duplicate())
}

impl Population {
    /// Computes each facility's fitness against the flow table and wraps
    /// the pairs into a population, keeping the order.
    pub fn fit_facilities(facility_population: Vec<Facility>, layout: &FacilityLayout) -> (r:
        Population)
        requires
            forall|i: int|
                0 <= i < facility_population@.len() ==> (#[trigger] facility_population@[i]).wf(),
        ensures
            r.specimens@.len() == facility_population@.len(),
            forall|i: int|
                0 <= i < r.specimens@.len() ==> (#[trigger] r.specimens@[i]).facility
                    == facility_population@[i] && r.specimens@[i].fitness as int
                    == facility_population@[i].spec_fitness(*layout),
    {
        let ghost orig = facility_population@;
        let mut remaining = facility_population;
        let mut specimens: Vec<Specimen> = Vec::new();
        proof {
            assert(remaining@ =~= orig.subrange(0, orig.len() as int));
        }
        while remaining.len() > 0
            invariant
                specimens@.len() + remaining@.len() == orig.len(),
                remaining@ == orig.subrange(specimens@.len() as int, orig.len() as int),
                forall|i: int| 0 <= i < orig.len() ==> (#[trigger] orig[i]).wf(),
                forall|i: int|
                    0 <= i < specimens@.len() ==> (#[trigger] specimens@[i]).facility == orig[i]
                        && specimens@[i].fitness as int == orig[i].spec_fitness(*layout),
            decreases remaining@.len(),
        {
            let ghost k = specimens@.len() as int;
            let facility = remaining.remove(0);
            proof {
                assert(facility == orig[k]);
                assert(remaining@ =~= orig.subrange(k + 1, orig.len() as int));
            }
            let fitness = facility.calculate_fitness(layout);
            specimens.push(Specimen::new(facility, fitness));
        }
        Population { specimens }
    }

    /// Tournament selection: draws `tournament_size` specimens without
    /// replacement and returns a copy of the fittest (least-fitness) one.
    /// A tournament over the whole population therefore returns one with
    /// the population's least fitness. Fails with `InvalidTournamentSize`
    /// when the tournament is larger than the population, and with
    /// `EmptyPopulation` when the sample is empty.
    pub fn select_by_tournament(&self, tournament_size: u64) -> (r: Result<
        Specimen,
        FacilityError,
    >)
        ensures
            match r {
                Ok(s) => (exists|i: int|
                    0 <= i < self.specimens@.len() && same_specimen(s, #[trigger] self.specimens@[i]))
                    && (tournament_size as int == self.specimens@.len()
                    ==> s.fitness as int == spec_min_fit(self.specimens@)),
                Err(e) => (e == FacilityError::InvalidTournamentSize && tournament_size as int
                    > self.specimens@.len()) || (e == FacilityError::EmptyPopulation
                    && tournament_size == 0),
            },
            r is Ok <==> 1 <= tournament_size as int <= self.specimens@.len(),
    {
        if tournament_size > self.specimens.len() as u64 {
            return Err(FacilityError::InvalidTournamentSize);
        }
        let sample = sample_specimens(&self.specimens, tournament_size as usize);
        match best_specimen(&sample) {
            Ok(s) => {
                proof {
                    let i = choose|i: int|
                        0 <= i < sample@.len() && same_specimen(s, #[trigger] sample@[i]) && (
                        forall|j: int| 0 <= j < i ==> (#[trigger] sample@[j]).fitness > s.fitness);
                    let j = choose|j: int|
                        0 <= j < self.specimens@.len() && same_specimen(
                            sample@[i],
                            self.specimens@[j],
                        );
                    assert(same_specimen(s, self.specimens@[j]));
                    if tournament_size as int == self.specimens@.len() {
                        let idx = choose|idx: Seq<int>|
                            sampled_without_replacement(self.specimens@, sample@, idx);
                        lemma_full_sample_covers(self.specimens@, sample@, idx);
                        lemma_min_max_fit_bounds(self.specimens@);
                        let j_min = choose|j: int|
                            0 <= j < self.specimens@.len() && self.specimens@[j].fitness as int
                                == spec_min_fit(self.specimens@);
                        assert(idx.contains(j_min));
                        let i_min = choose|i: int| 0 <= i < idx.len() && idx[i] == j_min;
                        assert(same_specimen(sample@[i_min], self.specimens@[j_min]));
                        assert(s.fitness <= sample@[i_min].fitness);
                        assert(s.fitness as int >= spec_min_fit(self.specimens@)) by {
                            assert(same_specimen(sample@[i], self.specimens@[idx[i]]));
                        };
                    }
                }
                Ok(s)
            },
            Err(_) => Err(FacilityError::EmptyPopulation),
        }
    }

    /// The roulette decision for a drawn guess: a copy of the first
    /// specimen whose cumulative bound reaches it, ties and order exactly
    /// as the bounds list stands. Fails with `SelectionExhausted` when no
    /// bound reaches the guess.
    pub fn first_reaching_bound(specimens: &Vec<Specimen>, bounds: &Vec<u128>, guess: u128) -> (r:
        Result<Specimen, FacilityError>)
        requires
            bounds@.len() == specimens@.len(),
        ensures
            match r {
                Ok(s) => exists|k: int|
                    0 <= k < bounds@.len() && guess <= bounds@[k] && (forall|j: int|
                        0 <= j < k ==> bounds@[j] < guess) && same_specimen(
                        s,
                        #[trigger] specimens@[k],
                    ),
                Err(e) => {
                    &&& e == FacilityError::SelectionExhausted
                    &&& forall|k: int| 0 <= k < bounds@.len() ==> (#[trigger] bounds@[k]) < guess
                },
            },
    {
        let mut i: usize = 0;
        while i < bounds.len()
            invariant
                i <= bounds@.len(),
                bounds@.len() == specimens@.len(),
                forall|j: int| 0 <= j < i ==> (#[trigger] bounds@[j]) < guess,
            decreases bounds@.len() - i,
        {
            if guess <= bounds[i] {
                let chosen = &specimens[i];
                let copy = chosen.duplicate();
                proof {
                    assert(same_specimen(copy, specimens@[i as int]));
                }
                return Ok(copy);
            }
            i += 1;
        }
        Err(FacilityError::SelectionExhausted)
    }

    /// Roulette selection with inverted likelihoods: a guess is drawn
    /// uniformly from `0 ..= total weight` and the first specimen whose
    /// cumulative bound reaches it is returned, so low-fitness (good)
    /// layouts are favoured. Fails with `EmptyPopulation` when there are
    /// no specimens; with exact integer bounds the draw always lands.
    pub fn select_by_roulette(&self) -> (r: Result<Specimen, FacilityError>)
        ensures
            match r {
                Ok(s) => exists|i: int|
                    0 <= i < self.specimens@.len() && same_specimen(s, #[trigger] self.specimens@[i]),
                Err(e) => {
                    &&& e == FacilityError::EmptyPopulation
                    &&& self.specimens@.len() == 0
                },
            },
            r is Ok <==> self.specimens@.len() >= 1,
    {
        let n = self.specimens.len();
        if n == 0 {
            return Err(FacilityError::EmptyPopulation);
        }
        let bounds = build_roulette_bounds(&self.specimens);
        let total = bounds[n - 1];
        let guess = crate::randomness::random_up_to(total);
        match Population::first_reaching_bound(&self.specimens, &bounds, guess) {
            Ok(s) => Ok(s),
            Err(_) => {
                proof {
                    assert(bounds@[n - 1] < guess);
                    assert(false);
                }
                Err(FacilityError::SelectionExhausted)
            },
        }
    }
}

/// Integer fitness statistics of one generation. The mean and standard
/// deviation are derived outside the optimiser from the exact sum, the
/// clamped square sum and the population size.
#[derive(Clone, Copy, Debug, PartialEq, Eq, Structural)]
pub struct FitnessStatistics {
    pub best: u64,
    pub worst: u64,
    pub fitness_sum: u128,
    pub square_sum: u128,
}

/// The sum of all cached fitness values.
pub open spec fn spec_fit_sum(s: Seq<Specimen>) -> int
    decreases s.len(),
{
    if s.len() == 0 {
        0
    } else {
        spec_fit_sum(s.drop_last()) + s.last().fitness as int
    }
}

/// The sum of all squared fitness values.
pub open spec fn spec_square_sum(s: Seq<Specimen>) -> int
    decreases s.len(),
{
    if s.len() == 0 {
        0
    } else {
        spec_square_sum(s.drop_last()) + s.last().fitness as int * s.last().fitness as int
    }
}

/// A square sum is never negative.
pub proof fn lemma_square_sum_nonneg(s: Seq<Specimen>)
    ensures
        spec_square_sum(s) >= 0,
    decreases s.len(),
{
    if s.len() > 0 {
        lemma_square_sum_nonneg(s.drop_last());
        lemma_square_le(0, s.last().fitness as int);
    }
}

impl Population {
    /// The per-generation statistics of a specimen list: least and
    /// greatest fitness, the exact fitness sum, and the square sum clamped
    /// at `u128::MAX`. Fails with `EmptyPopulation` on an empty list.
    pub fn calculate_statistics(specimens: &Vec<Specimen>) -> (r: Result<
        FitnessStatistics,
        FacilityError,
    >)
        ensures
            match r {
                Ok(st) => {
                    &&& specimens@.len() >= 1
                    &&& st.best as int == spec_min_fit(specimens@)
                    &&& st.worst as int == spec_max_fit(specimens@)
                    &&& st.fitness_sum as int == spec_fit_sum(specimens@)
                    &&& st.square_sum as int == clamp_u128(spec_square_sum(specimens@))
                },
                Err(e) => {
                    &&& e == FacilityError::EmptyPopulation
                    &&& specimens@.len() == 0
                },
            },
    {
        let s = specimens;
        let n = s.len();
        if n == 0 {
            return Err(FacilityError::EmptyPopulation);
        }
        let mut best: u64 = s[0].fitness;
        let mut worst: u64 = s[0].fitness;
        let mut fitness_sum: u128 = s[0].fitness as u128;
        let mut square_sum: u128 = square_u64(s[0].fitness);
        let mut i: usize = 1;
        proof {
            assert(s@.subrange(0, 1) =~= seq![s@[0]]);
            assert(s@.subrange(0, 1).drop_last() =~= Seq::<Specimen>::empty());
            assert(spec_fit_sum(Seq::<Specimen>::empty()) == 0);
            assert(spec_square_sum(Seq::<Specimen>::empty()) == 0);
            assert(spec_fit_sum(s@.subrange(0, 1)) == s@[0].fitness as int);
            assert(spec_square_sum(s@.subrange(0, 1)) == s@[0].fitness as int * s@[0].fitness as int);
        }
        while i < n
            invariant
                1 <= i <= n,
                n == s@.len(),
                best as int == spec_min_fit(s@.subrange(0, i as int)),
                worst as int == spec_max_fit(s@.subrange(0, i as int)),
                fitness_sum as int == spec_fit_sum(s@.subrange(0, i as int)),
                fitness_sum as int <= i as int * (u64::MAX as int),
                square_sum as int == clamp_u128(spec_square_sum(s@.subrange(0, i as int))),
            decreases n - i,
        {
            let ghost prefix = s@.subrange(0, i as int);
            proof {
                assert(s@.subrange(0, i + 1) =~= prefix.push(s@[i as int]));
                assert(s@.subrange(0, i + 1).drop_last() =~= prefix);
            }
            let f = s[i].fitness;
            if f < best {
                best = f;
            }
            if f > worst {
                worst = f;
            }
            proof {
                assert(fitness_sum as int + f as int <= u128::MAX as int) by (nonlinear_arith)
                    requires
                        0 <= fitness_sum as int,
                        fitness_sum as int <= i as int * (u64::MAX as int),
                        0 <= f as int <= u64::MAX as int,
                        0 <= i as int <= u64::MAX as int,
                ;
                assert(fitness_sum as int + f as int <= (i as int + 1) * (u64::MAX as int))
                    by (nonlinear_arith)
                    requires
                        fitness_sum as int <= i as int * (u64::MAX as int),
                        f as int <= u64::MAX as int,
                ;
            }
            fitness_sum = fitness_sum + (f as u128);
            let f_sq = square_u64(f);
            proof {
                lemma_square_sum_nonneg(prefix);
                lemma_square_le(0, f as int);
                lemma_square_le(f as int, u64::MAX as int);
                lemma_clamp_u128_add(spec_square_sum(prefix), f_sq as int);
            }
            square_sum = sat_add_u128(square_sum, f_sq);
            i += 1;
        }
        proof {
            assert(s@.subrange(0, n as int) =~= s@);
        }
        Ok(FitnessStatistics { best, worst, fitness_sum, square_sum })
    }
}

/// A sum of inverted weights is never negative.
pub proof fn lemma_roulette_weight_sum_nonneg(s: Seq<Specimen>, k: int)
    requires
        s.len() >= 1,
        k <= s.len(),
    ensures
        roulette_weight_sum(s, k) >= 0,
    decreases k,
{
    if k > 0 {
        lemma_roulette_weight_sum_nonneg(s, k - 1);
        lemma_roulette_weight_bounds(s, k - 1);
    }
}

/// Longer weight sums are at least as large.
pub proof fn lemma_roulette_weight_sum_mono(s: Seq<Specimen>, a: int, b: int)
    requires
        s.len() >= 1,
        0 <= a <= b <= s.len(),
    ensures
        roulette_weight_sum(s, a) <= roulette_weight_sum(s, b),
    decreases b - a,
{
    if a < b {
        lemma_roulette_weight_sum_mono(s, a, b - 1);
        lemma_roulette_weight_bounds(s, b - 1);
    }
}

} // verus!
