//! The genome of the optimiser: a rectangular grid of cells holding machine
//! ids, with position lookup, the material-flow fitness function, and the
//! stochastic crossover and mutation operators with their repair step.

use vstd::prelude::*;

use std::collections::HashSet;

use crate::arith::{clamp_u64, sat_add_u64, sat_mul_u64};
use crate::cell::{
    distinct_ids, dup_count, empty_count, first_index, has_id, id_count,
    lemma_distinct_no_dups, lemma_dup_count_prefix_mono, lemma_dup_count_push,
    lemma_empty_count_occurrence,
    lemma_empty_count_push, lemma_empty_count_update, lemma_first_index, lemma_first_index_valid,
    lemma_id_count_occurrence, lemma_id_count_push, lemma_id_count_update,
    lemma_repeated_at_prefix, lemma_two_positions_two_count, repeated_at, Cell,
};
use crate::errors::FacilityError;
use crate::facility_configuration::Dimensions;
use crate::facility_layout::{FacilityFlow, FacilityLayout};

verus! {

broadcast use vstd::std_specs::hash::group_hash_axioms;

/// A candidate machine arrangement: a `width`-column grid stored row by row.
#[derive(Clone, Debug)]
pub struct Facility {
    interior: Vec<Cell>,
    width: u64,
}

impl View for Facility {
    type V = Seq<Cell>;

    closed spec fn view(&self) -> Seq<Cell> {
        self.interior@
    }
}

/// Whether `x` occurs in the vector, by linear scan.
pub fn vec_contains(v: &Vec<u64>, x: u64) -> (r: bool)
    ensures
        r == v@.contains(x),
{
    let mut i: usize = 0;
    while i < v.len()
        invariant
            i <= v@.len(),
            forall|j: int| 0 <= j < i ==> v@[j] != x,
        decreases v@.len() - i,
    {
        if v[i] == x {
            return true;
        }
        i += 1;
    }
    false
}

impl Facility {
    /// The configured number of columns.
    pub closed spec fn spec_width(self) -> u64 {
        self.width
    }

    /// The grid is a proper rectangle: a positive width dividing the cell
    /// count.
    pub open spec fn wf(self) -> bool {
        &&& self.spec_width() >= 1
        &&& self@.len() as int % self.spec_width() as int == 0
    }

    /// The number of rows.
    pub open spec fn spec_height(self) -> int {
        self@.len() as int / self.spec_width() as int
    }

    /// Each machine id occupies at most one cell.
    pub open spec fn one_of_each(self) -> bool {
        distinct_ids(self@)
    }

    /// Same grid shape as `other`.
    pub open spec fn same_dimensions(self, other: Facility) -> bool {
        self.spec_width() == other.spec_width() && self@.len() == other@.len()
    }

    /// Exactly the same machine ids are placed in both facilities.
    pub open spec fn same_machines(self, other: Facility) -> bool {
        forall|v: u64| has_id(self@, v) <==> has_id(other@, v)
    }

    /// The row of the first cell holding `v`.
    pub open spec fn spec_row(self, v: u64) -> int {
        first_index(self@, v) / self.spec_width() as int
    }

    /// The column of the first cell holding `v`.
    pub open spec fn spec_col(self, v: u64) -> int {
        first_index(self@, v) % self.spec_width() as int
    }

    /// The Manhattan distance between the cells of two placed machines.
    pub open spec fn spec_distance(self, from: u64, to: u64) -> int {
        vstd::math::abs(self.spec_row(from) - self.spec_row(to)) as int + vstd::math::abs(
            self.spec_col(from) - self.spec_col(to),
        ) as int
    }

    /// The cost contribution of one flow record: distance times amount
    /// times cost, clamped at `u64::MAX`; zero when either endpoint is
    /// absent from the grid.
    pub open spec fn flow_term(self, flow: FacilityFlow) -> int {
        if has_id(self@, flow.source) && has_id(self@, flow.dest) {
            clamp_u64(self.spec_distance(flow.source, flow.dest) * flow.amount * flow.cost)
        } else {
            0
        }
    }

    /// The sum of the cost contributions of a list of flows.
    pub open spec fn fitness_sum(self, flows: Seq<FacilityFlow>) -> int
        decreases flows.len(),
    {
        if flows.len() == 0 {
            0
        } else {
            self.fitness_sum(flows.drop_last()) + self.flow_term(flows.last())
        }
    }

    /// The fitness of this layout against a flow table, clamped at
    /// `u64::MAX`. Lower is better.
    pub open spec fn spec_fitness(self, layout: FacilityLayout) -> int {
        clamp_u64(self.fitness_sum(layout.facility_flows@))
    }

    /// Builds a facility from an explicit cell list. Fails with
    /// `DimensionMismatch` unless the cells fill a rectangle of the given
    /// positive width.
    pub fn from_cells(cells: Vec<Cell>, width: u64) -> (r: Result<Facility, FacilityError>)
        ensures
            match r {
                Ok(f) => {
                    &&& f@ == cells@
                    &&& f.spec_width() == width
                    &&& f.wf()
                },
                Err(e) => {
                    &&& e == FacilityError::DimensionMismatch
                    &&& !(width >= 1 && cells@.len() as int % width as int == 0)
                },
            },
    {
        if width == 0 {
            return Err(FacilityError::DimensionMismatch);
        }
        if (cells.len() as u64) % width != 0 {
            return Err(FacilityError::DimensionMismatch);
        }
        Ok(Facility { interior: cells, width })
    }

    /// A deep copy of this facility with the same grid and width.
    pub fn duplicate(&self) -> (r: Facility)
        ensures
            r@ == self@,
            r.spec_width() == self.spec_width(),
    {
        Facility { interior: self.interior.clone(), width: self.width }
    }

    /// A copy of the grid contents, row by row.
    pub fn cells(&self) -> (r: Vec<Cell>)
        ensures
            r@ == self@,
    {
        self.interior.clone()
    }

    /// The configured number of columns.
    pub fn get_width(&self) -> (w: u64)
        ensures
            w == self.spec_width(),
    {
        self.width
    }

    /// The number of rows of the grid.
    pub fn get_height(&self) -> (h: u64)
        requires
            self.wf(),
        ensures
            h as int == self.spec_height(),
    {
        (self.interior.len() as u64) / self.width
    }

    /// How many cells are empty floor.
    pub fn count_empty_spaces(&self) -> (n: usize)
        ensures
            n as nat == empty_count(self@),
    {
        let mut n: usize = 0;
        let mut i: usize = 0;
        while i < self.interior.len()
            invariant
                i <= self.interior@.len(),
                n as nat == empty_count(self.interior@.subrange(0, i as int)),
                n <= i,
            decreases self.interior@.len() - i,
        {
            proof {
                assert(self.interior@.subrange(0, i + 1) =~= self.interior@.subrange(
                    0,
                    i as int,
                ).push(self.interior@[i as int]));
                lemma_empty_count_push(self.interior@.subrange(0, i as int), self.interior@[i as int]);
            }
            match self.interior[i] {
                Cell::Empty => n += 1,
                Cell::Occupied(_) => (),
            }
            i += 1;
        }
        proof {
            assert(self.interior@.subrange(0, self.interior@.len() as int) =~= self.interior@);
        }
        n
    }

    /// Looks up the grid coordinates of a machine: the row and column of
    /// its first occurrence, or `None` if it is absent.
    pub fn position_of(&self, machine: u64) -> (r: Option<(u64, u64)>)
        requires
            self.wf(),
        ensures
            match r {
                Some(p) => {
                    &&& has_id(self@, machine)
                    &&& p.0 as int == self.spec_row(machine)
                    &&& p.1 as int == self.spec_col(machine)
                },
                None => !has_id(self@, machine),
            },
    {
        let mut i: usize = 0;
        while i < self.interior.len()
            invariant
                i <= self.interior@.len(),
                forall|j: int| 0 <= j < i ==> self.interior@[j] != Cell::Occupied(machine),
                self.wf(),
            decreases self.interior@.len() - i,
        {
            if let Cell::Occupied(v) = self.interior[i] {
                if v == machine {
                    proof {
                        lemma_first_index(self@, machine, i as int);
                        lemma_id_count_occurrence(self@, machine);
                    }
                    return Some(((i as u64) / self.width, (i as u64) % self.width));
                }
            }
            i += 1;
        }
        proof {
            lemma_id_count_occurrence(self@, machine);
        }
        None
    }

    /// Generates a uniformly random arrangement for the given dimensions:
    /// the grid indices are shuffled and the machines are placed, in input
    /// order, on the first `machines.len()` shuffled indices; every other
    /// cell stays empty. Fails with `CapacityError` when there are more
    /// machines than cells.
    pub fn generate_randomised_facility(dimensions: &Dimensions) -> (r: Result<
        Facility,
        FacilityError,
    >)
        requires
            dimensions.wf(),
            dimensions.spec_cell_count() <= usize::MAX as int,
        ensures
            match r {
                Ok(f) => {
                    &&& f.wf()
                    &&& f.one_of_each()
                    &&& f.spec_width() == dimensions.width
                    &&& f@.len() as int == dimensions.spec_cell_count()
                    &&& forall|v: u64|
                        id_count(f@, v) == if dimensions.machines@.contains(v) {
                            1nat
                        } else {
                            0nat
                        }
                    &&& empty_count(f@) as int == dimensions.spec_cell_count()
                        - dimensions.machines@.len()
                },
                Err(e) => {
                    &&& e == FacilityError::CapacityError
                    &&& dimensions.machines@.len() > dimensions.spec_cell_count()
                },
            },
    {
        let interior_size = dimensions.height * dimensions.width;
        proof {
            assert(interior_size as int == dimensions.spec_cell_count());
        }
        if (interior_size as usize) < dimensions.machines.len() {
            return Err(FacilityError::CapacityError);
        }

        let mut shuffled_facility_indices: Vec<u64> = Vec::new();
        let mut k: u64 = 0;
        while k < interior_size
            invariant
                k <= interior_size,
                shuffled_facility_indices@.len() == k,
                forall|j: int| 0 <= j < k ==> shuffled_facility_indices@[j] == j,
            decreases interior_size - k,
        {
            shuffled_facility_indices.push(k);
            k += 1;
        }
        let ghost ordered = shuffled_facility_indices@;
        crate::randomness::shuffle_in_place(&mut shuffled_facility_indices);
        let ghost indices = shuffled_facility_indices@;
        proof {
            broadcast use vstd::seq_lib::group_to_multiset_ensures;

            assert(ordered.no_duplicates());
            ordered.lemma_multiset_has_no_duplicates();
            indices.lemma_multiset_has_no_duplicates_conv();
            assert forall|t: int| 0 <= t < indices.len() implies indices[t]
                < interior_size by {
                assert(indices.contains(indices[t]));
                assert(indices.to_multiset().count(indices[t]) > 0);
                assert(ordered.to_multiset().count(indices[t]) > 0);
                assert(ordered.contains(indices[t]));
                let j = choose|j: int| 0 <= j < ordered.len() && ordered[j] == indices[t];
            };
        }

        let mut interior: Vec<Cell> = Vec::new();
        let mut p: usize = 0;
        let size = interior_size as usize;
        while p < size
            invariant
                p <= size,
                interior@.len() == p,
                forall|q: int| 0 <= q < p ==> interior@[q] == Cell::Empty,
                forall|v: u64| id_count(interior@, v) == 0,
                empty_count(interior@) == p,
            decreases size - p,
        {
            let ghost prior = interior@;
            interior.push(Cell::Empty);
            proof {
                lemma_empty_count_push(prior, Cell::Empty);
                assert forall|v: u64| id_count(interior@, v) == 0 by {
                    lemma_id_count_push(prior, Cell::Empty, v);
                };
            }
            p += 1;
        }

        let ghost machines = dimensions.machines@;
        let ghost n = interior_size as int;
        let mut j: usize = 0;
        while j < dimensions.machines.len()
            invariant
                j <= machines.len(),
                machines == dimensions.machines@,
                machines.no_duplicates(),
                machines.len() <= n,
                interior@.len() == n,
                indices == shuffled_facility_indices@,
                indices.no_duplicates(),
                indices.len() == n,
                n <= usize::MAX as int,
                forall|t: int| 0 <= t < n ==> indices[t] < n,
                forall|q: int|
                    0 <= q < n && interior@[q] != Cell::Empty ==> exists|t: int|
                        0 <= t < j && indices[t] == q,
                forall|v: u64|
                    id_count(interior@, v) == if machines.subrange(0, j as int).contains(v) {
                        1nat
                    } else {
                        0nat
                    },
                empty_count(interior@) as int == n - j,
            decreases machines.len() - j,
        {
            let idx = shuffled_facility_indices[j];
            let machine = dimensions.machines[j];
            let ghost prefix = machines.subrange(0, j as int);
            let ghost pre = interior@;
            proof {
                assert(machines.subrange(0, j + 1) =~= prefix.push(machine));
                lemma_push_membership(prefix, machine);
                assert(!prefix.contains(machine)) by {
                    if prefix.contains(machine) {
                        let t = choose|t: int| 0 <= t < prefix.len() && prefix[t] == machine;
                        assert(machines[t] == machines[j as int]);
                    }
                };
                assert(pre[idx as int] == Cell::Empty) by {
                    if pre[idx as int] != Cell::Empty {
                        let t = choose|t: int| 0 <= t < j && indices[t] == idx as int as u64;
                        assert(indices[t] == indices[j as int]);
                    }
                };
            }
            interior.set(idx as usize, Cell::Occupied(machine));
            proof {
                lemma_empty_count_update(pre, idx as int, Cell::Occupied(machine));
                assert forall|v: u64|
                    id_count(interior@, v) == (if machines.subrange(0, j + 1).contains(v) {
                        1nat
                    } else {
                        0nat
                    }) by {
                    assert(interior@ == pre.update(idx as int, Cell::Occupied(machine)));
                    lemma_id_count_update(pre, idx as int, Cell::Occupied(machine), v);
                    assert(id_count(pre, v) == if prefix.contains(v) {
                        1nat
                    } else {
                        0nat
                    });
                    assert(machines.subrange(0, j + 1).contains(v) <==> (prefix.contains(v) || v
                        == machine));
                    if v == machine {
                        assert(id_count(interior@, v) == 1);
                    } else {
                        assert(id_count(interior@, v) == id_count(pre, v));
                    }
                };
                assert forall|q: int| 0 <= q < n && interior@[q] != Cell::Empty implies exists|
                    t: int,
                |
                    0 <= t < j + 1 && indices[t] == q by {
                    if q == idx as int {
                        assert(indices[j as int] == q);
                    } else {
                        assert(pre[q] == interior@[q]);
                        let t = choose|t: int| 0 <= t < j && indices[t] == q;
                        assert(0 <= t < j + 1 && indices[t] == q);
                    }
                };
            }
            j += 1;
        }
        proof {
            assert(machines.subrange(0, machines.len() as int) =~= machines);
            let w = dimensions.width as int;
            let h = dimensions.height as int;
            vstd::arithmetic::div_mod::lemma_fundamental_div_mod_converse(n, w, h, 0);
        }
        Ok(Facility { interior, width: dimensions.width })
    }

    /// The Manhattan distance between two placed machines, or `None` when
    /// either is absent from the grid.
    pub fn calculate_distance(&self, from: u64, to: u64) -> (r: Option<u64>)
        requires
            self.wf(),
        ensures
            match r {
                Some(d) => {
                    &&& has_id(self@, from)
                    &&& has_id(self@, to)
                    &&& d as int == self.spec_distance(from, to)
                },
                None => !(has_id(self@, from) && has_id(self@, to)),
            },
    {
        let (from_row, from_col) = match self.position_of(from) {
            Some(p) => p,
            None => {
                return None;
            },
        };
        let (to_row, to_col) = match self.position_of(to) {
            Some(p) => p,
            None => {
                return None;
            },
        };
        let n_cells = self.interior.len();
        proof {
            lemma_position_bounds(*self, from);
            lemma_position_bounds(*self, to);
            assert((self.spec_height() - 1) + (self.spec_width() as int - 1) <= n_cells as int - 1)
                by (nonlinear_arith)
                requires
                    self.spec_height() >= 1,
                    self.spec_width() >= 1,
                    self.spec_height() * self.spec_width() as int == n_cells as int,
            ;
        }
        let row_diff = if from_row >= to_row {
            from_row - to_row
        } else {
            to_row - from_row
        };
        let col_diff = if from_col >= to_col {
            from_col - to_col
        } else {
            to_col - from_col
        };
        Some(row_diff + col_diff)
    }

    /// Scores this layout against a flow table: the sum over all flows of
    /// Manhattan distance times amount times cost, saturating at
    /// `u64::MAX`. A flow whose endpoints are not both placed contributes
    /// nothing.
    pub fn calculate_fitness(&self, facility_layout: &FacilityLayout) -> (r: u64)
        requires
            self.wf(),
        ensures
            r as int == self.spec_fitness(*facility_layout),
    {
        let flows = &facility_layout.facility_flows;
        let mut total: u64 = 0;
        let mut i: usize = 0;
        while i < flows.len()
            invariant
                i <= flows@.len(),
                self.wf(),
                total as int == clamp_u64(self.fitness_sum(flows@.subrange(0, i as int))),
            decreases flows@.len() - i,
        {
            let flow = flows[i];
            let term: u64 = match self.calculate_distance(flow.source, flow.dest) {
                Some(d) => {
                    proof {
                        lemma_clamp_mul_chain(d as int * flow.amount as int, flow.cost as int);
                    }
                    sat_mul_u64(sat_mul_u64(d, flow.amount), flow.cost)
                },
                None => 0,
            };
            proof {
                assert(term as int == self.flow_term(flow));
                assert(flows@.subrange(0, i + 1) =~= flows@.subrange(0, i as int).push(flow));
                lemma_fitness_sum_push(*self, flows@.subrange(0, i as int), flow);
                lemma_fitness_sum_nonneg(*self, flows@.subrange(0, i as int));
                lemma_flow_term_bounds(*self, flow);
                crate::arith::lemma_clamp_u64_add(
                    self.fitness_sum(flows@.subrange(0, i as int)),
                    term as int,
                );
            }
            total = sat_add_u64(total, term);
            i += 1;
        }
        proof {
            assert(flows@.subrange(0, flows@.len() as int) =~= flows@);
        }
        total
    }

    /// The strict scoring mode: as `calculate_fitness`, but a flow whose
    /// endpoints are not both placed is rejected with
    /// `InconsistentFlowReference` instead of silently contributing zero.
    pub fn calculate_fitness_strict(&self, facility_layout: &FacilityLayout) -> (r: Result<
        u64,
        FacilityError,
    >)
        requires
            self.wf(),
        ensures
            match r {
                Ok(f) => {
                    &&& forall|i: int|
                        0 <= i < facility_layout.facility_flows@.len() ==> has_id(
                            self@,
                            (#[trigger] facility_layout.facility_flows@[i]).source,
                        ) && has_id(self@, facility_layout.facility_flows@[i].dest)
                    &&& f as int == self.spec_fitness(*facility_layout)
                },
                Err(e) => {
                    &&& e == FacilityError::InconsistentFlowReference
                    &&& exists|i: int|
                        0 <= i < facility_layout.facility_flows@.len() && !(has_id(
                            self@,
                            (#[trigger] facility_layout.facility_flows@[i]).source,
                        ) && has_id(self@, facility_layout.facility_flows@[i].dest))
                },
            },
    {
        let flows = &facility_layout.facility_flows;
        let mut i: usize = 0;
        while i < flows.len()
            invariant
                i <= flows@.len(),
                self.wf(),
                flows@ == facility_layout.facility_flows@,
                forall|j: int|
                    0 <= j < i ==> has_id(self@, (#[trigger] flows@[j]).source) && has_id(
                        self@,
                        flows@[j].dest,
                    ),
            decreases flows@.len() - i,
        {
            let flow = flows[i];
            if self.position_of(flow.source).is_none() || self.position_of(flow.dest).is_none() {
                proof {
                    assert(facility_layout.facility_flows@[i as int] == flow);
                    assert(exists|j: int|
                        0 <= j < facility_layout.facility_flows@.len() && !(has_id(
                            self@,
                            (#[trigger] facility_layout.facility_flows@[j]).source,
                        ) && has_id(self@, facility_layout.facility_flows@[j].dest))) by {
                        assert(!(has_id(
                            self@,
                            (#[trigger] facility_layout.facility_flows@[i as int]).source,
                        ) && has_id(self@, facility_layout.facility_flows@[i as int].dest)));
                    };
                }
                return Err(FacilityError::InconsistentFlowReference);
            }
            i += 1;
        }
        Ok(self.calculate_fitness(facility_layout))
    }

    /// The largest machine id placed anywhere in the grid, or `None` when
    /// every cell is empty.
    pub fn find_max_machine(&self) -> (r: Option<u64>)
        ensures
            match r {
                Some(m) => has_id(self@, m) && forall|v: u64| has_id(self@, v) ==> v <= m,
                None => forall|v: u64| !has_id(self@, v),
            },
    {
        let mut best: Option<u64> = None;
        let mut i: usize = 0;
        while i < self.interior.len()
            invariant
                i <= self.interior@.len(),
                match best {
                    Some(m) => (exists|j: int|
                        0 <= j < i && self.interior@[j] == Cell::Occupied(m)) && forall|j: int, v: u64|
                        0 <= j < i && self.interior@[j] == Cell::Occupied(v) ==> v <= m,
                    None => forall|j: int, v: u64|
                        0 <= j < i ==> self.interior@[j] != Cell::Occupied(v),
                },
            decreases self.interior@.len() - i,
        {
            if let Cell::Occupied(v) = self.interior[i] {
                best = match best {
                    Some(m) => if v > m {
                        Some(v)
                    } else {
                        Some(m)
                    },
                    None => Some(v),
                };
            }
            i += 1;
        }
        proof {
            match best {
                Some(m) => {
                    lemma_id_count_occurrence(self@, m);
                    assert forall|v: u64| has_id(self@, v) implies v <= m by {
                        lemma_id_count_occurrence(self@, v);
                    };
                },
                None => {
                    assert forall|v: u64| !has_id(self@, v) by {
                        lemma_id_count_occurrence(self@, v);
                    };
                },
            }
        }
        best
    }

    /// The distinct machine ids of the grid, each exactly once, in order of
    /// first occurrence. The length bookkeeping relates the number of
    /// distinct ids to the duplicate and empty cell counts.
    pub fn get_uniques(&self) -> (u: Vec<u64>)
        ensures
            u@.no_duplicates(),
            forall|v: u64| u@.contains(v) <==> has_id(self@, v),
            u@.len() + dup_count(self@) + empty_count(self@) == self@.len(),
            forall|a: int, b: int|
                0 <= a < b < u@.len() ==> first_index(self@, u@[a]) < first_index(self@, u@[b]),
    {
        let mut uniques: Vec<u64> = Vec::new();
        let mut i: usize = 0;
        while i < self.interior.len()
            invariant
                i <= self.interior@.len(),
                uniques@.no_duplicates(),
                forall|v: u64|
                    uniques@.contains(v) <==> has_id(self.interior@.subrange(0, i as int), v),
                forall|a: int|
                    0 <= a < uniques@.len() ==> 0 <= first_index(
                        self.interior@,
                        #[trigger] uniques@[a],
                    ) < i,
                forall|a: int, b: int|
                    0 <= a < b < uniques@.len() ==> first_index(self.interior@, uniques@[a])
                        < first_index(self.interior@, uniques@[b]),
                uniques@.len() + dup_count(self.interior@.subrange(0, i as int)) + empty_count(
                    self.interior@.subrange(0, i as int),
                ) == i,
            decreases self.interior@.len() - i,
        {
            let ghost prefix = self.interior@.subrange(0, i as int);
            let ghost c = self.interior@[i as int];
            proof {
                assert(self.interior@.subrange(0, i + 1) =~= prefix.push(c));
                lemma_empty_count_push(prefix, c);
                lemma_dup_count_push(prefix, c);
            }
            match self.interior[i] {
                Cell::Empty => {
                    proof {
                        assert forall|w: u64| uniques@.contains(w) <==> has_id(
                            prefix.push(c),
                            w,
                        ) by {
                            lemma_id_count_push(prefix, c, w);
                        };
                    }
                },
                Cell::Occupied(v) => {
                    if !vec_contains(&uniques, v) {
                        let ghost prior = uniques@;
                        proof {
                            assert(!has_id(prefix, v));
                            lemma_id_count_occurrence(prefix, v);
                            assert forall|j: int| 0 <= j < i implies self.interior@[j]
                                != Cell::Occupied(v) by {
                                assert(prefix[j] == self.interior@[j]);
                            };
                            lemma_first_index(self.interior@, v, i as int);
                        }
                        uniques.push(v);
                        proof {
                            assert(forall|k: int| 0 <= k < prior.len() ==> uniques@[k] == prior[k]);
                            assert(uniques@[prior.len() as int] == v);
                            assert(uniques@.no_duplicates());
                            assert forall|w: u64| uniques@.contains(w) <==> has_id(
                                prefix.push(c),
                                w,
                            ) by {
                                lemma_id_count_push(prefix, c, w);
                                assert(prior.contains(w) <==> has_id(prefix, w));
                                if prior.contains(w) {
                                    let k = choose|k: int| 0 <= k < prior.len() && prior[k] == w;
                                    assert(uniques@[k] == w);
                                }
                                if uniques@.contains(w) {
                                    let k = choose|k: int|
                                        0 <= k < uniques@.len() && uniques@[k] == w;
                                    if k < prior.len() {
                                        assert(prior[k] == w);
                                    } else {
                                        assert(w == v);
                                    }
                                }
                            };
                            assert(id_count(prefix, v) == 0);
                        }
                    } else {
                        proof {
                            assert(has_id(prefix, v));
                            assert forall|w: u64| uniques@.contains(w) <==> has_id(
                                prefix.push(c),
                                w,
                            ) by {
                                lemma_id_count_push(prefix, c, w);
                            };
                        }
                    }
                },
            }
            i += 1;
        }
        proof {
            assert(self.interior@.subrange(0, self.interior@.len() as int) =~= self.interior@);
        }
        uniques
    }

    /// The raw one-point, row-granular crossover: rows above
    /// `crossover_row` are taken from this facility, the remaining rows
    /// from `other`. The result usually violates the uniqueness invariant
    /// and is repaired by the caller.
    pub fn create_crossover(&self, other: &Facility, crossover_row: u64) -> (r: Facility)
        requires
            self.wf(),
            other.wf(),
            self.same_dimensions(*other),
            crossover_row as int <= self.spec_height(),
        ensures
            r.spec_width() == self.spec_width(),
            r@.len() == self@.len(),
            r.wf(),
            forall|k: int|
                0 <= k < crossover_row as int * self.spec_width() as int ==> r@[k] == self@[k],
            forall|k: int|
                crossover_row as int * self.spec_width() as int <= k < r@.len() ==> r@[k]
                    == other@[k],
    {
        let cell_count = self.interior.len();
        proof {
            let w = self.spec_width() as int;
            let n = self@.len() as int;
            let h = self.spec_height();
            vstd::arithmetic::div_mod::lemma_fundamental_div_mod(n, w);
            assert(crossover_row as int * w <= h * w) by (nonlinear_arith)
                requires
                    crossover_row as int <= h,
                    w >= 1,
            ;
            assert(h * w == w * h) by (nonlinear_arith);
        }
        let split = (crossover_row * self.width) as usize;
        let mut crossover: Vec<Cell> = Vec::new();
        let mut i: usize = 0;
        while i < split
            invariant
                i <= split,
                split <= self.interior@.len(),
                crossover@.len() == i,
                forall|k: int| 0 <= k < i ==> crossover@[k] == self.interior@[k],
            decreases split - i,
        {
            crossover.push(self.interior[i]);
            i += 1;
        }
        while i < cell_count
            invariant
                split <= i <= cell_count,
                cell_count == self.interior@.len(),
                other.interior@.len() == cell_count,
                crossover@.len() == i,
                forall|k: int| 0 <= k < split ==> crossover@[k] == self.interior@[k],
                forall|k: int| split <= k < i ==> crossover@[k] == other.interior@[k],
            decreases cell_count - i,
        {
            crossover.push(other.interior[i]);
            i += 1;
        }
        Facility { interior: crossover, width: self.width }
    }

    /// One-point crossover of two equally shaped facilities that place the
    /// same machines. A split row is drawn uniformly from `1..height`, the
    /// two row-exchanged children are built, and each child is repaired
    /// against its own parent, so both children place exactly the parents'
    /// machine set again. Fails with `DimensionMismatch` when the shapes
    /// differ.
    pub fn crossover(&self, other: &Facility) -> (r: Result<(Facility, Facility), FacilityError>)
        requires
            self.wf(),
            other.wf(),
            self.one_of_each(),
            other.one_of_each(),
            self.same_machines(*other),
            self.spec_height() >= 2,
        ensures
            match r {
                Ok(children) => {
                    &&& children.0.wf() && children.1.wf()
                    &&& children.0.same_dimensions(*self) && children.1.same_dimensions(*self)
                    &&& children.0.one_of_each() && children.1.one_of_each()
                    &&& children.0.same_machines(*self) && children.1.same_machines(*self)
                    &&& empty_count(children.0@) == empty_count(self@)
                    &&& empty_count(children.1@) == empty_count(other@)
                    &&& self.same_dimensions(*other)
                    &&& (exists|row: int|
                        1 <= row < self.spec_height() && splice_preserved(
                            self@,
                            other@,
                            children.0@,
                            row,
                            self.spec_width() as int,
                        ) && splice_preserved(
                            other@,
                            self@,
                            children.1@,
                            row,
                            self.spec_width() as int,
                        ))
                },
                Err(e) => {
                    &&& e == FacilityError::DimensionMismatch
                    &&& !self.same_dimensions(*other)
                },
            },
    {
        if self.width != other.width || self.interior.len() != other.interior.len() {
            return Err(FacilityError::DimensionMismatch);
        }
        let height = self.get_height();
        let crossover_row = crate::randomness::random_in_range(1, height);

        let mut self_crossover = self.create_crossover(other, crossover_row);
        let mut other_crossover = other.create_crossover(self, crossover_row);

        let parent_uniques = self.get_uniques();
        let other_uniques = other.get_uniques();
        let empties_self = self.count_empty_spaces();
        let empties_other = other.count_empty_spaces();
        proof {
            lemma_distinct_no_dups(self@);
            lemma_distinct_no_dups(other@);
            let ghost split = crossover_row as int * self.spec_width() as int;
            assert forall|v: u64| has_id(self_crossover@, v) implies parent_uniques@.contains(
                v,
            ) by {
                lemma_id_count_occurrence(self_crossover@, v);
                let k = choose|k: int|
                    0 <= k < self_crossover@.len() && self_crossover@[k] == Cell::Occupied(v);
                lemma_id_count_occurrence(self@, v);
                lemma_id_count_occurrence(other@, v);
            };
            assert forall|v: u64| has_id(other_crossover@, v) implies other_uniques@.contains(
                v,
            ) by {
                lemma_id_count_occurrence(other_crossover@, v);
                let k = choose|k: int|
                    0 <= k < other_crossover@.len() && other_crossover@[k] == Cell::Occupied(v);
                lemma_id_count_occurrence(self@, v);
                lemma_id_count_occurrence(other@, v);
            };
        }
        let ghost pre0 = self_crossover@;
        let ghost pre1 = other_crossover@;
        self_crossover.normalise(parent_uniques, empties_self as u64);
        other_crossover.normalise(other_uniques, empties_other as u64);
        proof {
            assert forall|v: u64| has_id(self_crossover@, v) <==> has_id(self@, v) by {};
            assert forall|v: u64| has_id(other_crossover@, v) <==> has_id(self@, v) by {};
            let split = crossover_row as int * self.spec_width() as int;
            let w = self.spec_width() as int;
            let n = self@.len() as int;
            let h = self.spec_height();
            vstd::arithmetic::div_mod::lemma_fundamental_div_mod(n, w);
            assert(crossover_row as int * w <= (h - 1) * w) by (nonlinear_arith)
                requires
                    crossover_row as int <= h - 1,
                    w >= 1,
            ;
            assert((h - 1) * w == h * w - w) by (nonlinear_arith);
            assert(h * w == w * h) by (nonlinear_arith);
            assert(split <= n);
            lemma_splice_preserved(
                *self,
                *other,
                pre0,
                self_crossover@,
                crossover_row as int,
                w,
            );
            lemma_splice_preserved(
                *other,
                *self,
                pre1,
                other_crossover@,
                crossover_row as int,
                w,
            );
            assert(1 <= crossover_row as int && (crossover_row as int) < self.spec_height());
        }
        Ok((self_crossover, other_crossover))
    }

    /// Restores the one-machine-per-id invariant after crossover or
    /// mutation. The reference parent is given by its distinct machine ids
    /// and its empty-cell count; afterwards this grid places exactly those
    /// ids, once each, with exactly that many empty cells. A grid that
    /// already satisfies the reference is left unchanged.
    fn normalise(&mut self, uniques_in_parent: Vec<u64>, empties_in_parent: u64)
        requires
            uniques_in_parent@.no_duplicates(),
            forall|v: u64| has_id(old(self)@, v) ==> uniques_in_parent@.contains(v),
            old(self)@.len() as int == uniques_in_parent@.len() + empties_in_parent as int,
        ensures
            final(self).spec_width() == old(self).spec_width(),
            final(self)@.len() == old(self)@.len(),
            forall|v: u64|
                id_count(final(self)@, v) == if uniques_in_parent@.contains(v) {
                    1nat
                } else {
                    0nat
                },
            empty_count(final(self)@) == empties_in_parent,
            (dup_count(old(self)@) == 0 && empty_count(old(self)@) == empties_in_parent && (
            forall|v: u64|
                uniques_in_parent@.contains(v) ==> has_id(old(self)@, v))) ==> final(self)@ == old(
                self,
            )@,
            forall|i: int|
                0 <= i < old(self)@.len() && old(self)@[i] != Cell::Empty && !repeated_at(
                    old(self)@,
                    i,
                ) ==> final(self)@[i] == old(self)@[i],
            empty_count(old(self)@) == empties_in_parent ==> (forall|i: int|
                0 <= i < old(self)@.len() ==> ((final(self)@[i] == Cell::Empty) <==> (old(
                    self,
                )@[i] == Cell::Empty))),
    {
        let ghost c0 = self@;
        let ghost w0 = self.spec_width();
        let ghost parent = uniques_in_parent@;
        let uniques_in_normalised = self.get_uniques();
        let mut free_machines: Vec<u64> = Vec::new();
        let ghost mut present: Seq<u64> = Seq::<u64>::empty();
        let mut j: usize = 0;
        while j < uniques_in_parent.len()
            invariant
                self@ == c0,
                self.spec_width() == w0,
                j <= parent.len(),
                parent == uniques_in_parent@,
                parent.no_duplicates(),
                uniques_in_normalised@.no_duplicates(),
                forall|v: u64| uniques_in_normalised@.contains(v) <==> has_id(c0, v),
                uniques_in_normalised@.len() + dup_count(c0) + empty_count(c0) == c0.len(),
                free_machines@.no_duplicates(),
                forall|v: u64| #[trigger]
                    free_machines@.contains(v) <==> (parent.subrange(0, j as int).contains(v)
                        && !has_id(c0, v)),
                present.no_duplicates(),
                forall|v: u64| #[trigger]
                    present.contains(v) <==> (parent.subrange(0, j as int).contains(v) && has_id(
                        c0,
                        v,
                    )),
                free_machines@.len() + present.len() == j,
            decreases parent.len() - j,
        {
            let v = uniques_in_parent[j];
            let ghost prefix = parent.subrange(0, j as int);
            let in_child = vec_contains(&uniques_in_normalised, v);
            proof {
                assert(parent.subrange(0, j + 1) =~= prefix.push(v));
                lemma_push_membership(prefix, v);
                assert(!prefix.contains(v)) by {
                    if prefix.contains(v) {
                        let k = choose|k: int| 0 <= k < prefix.len() && prefix[k] == v;
                        assert(parent[k] == parent[j as int]);
                    }
                };
                assert(in_child <==> has_id(c0, v));
            }
            if !in_child {
                let ghost fprior = free_machines@;
                proof {
                    assert(!fprior.contains(v)) by {
                        if fprior.contains(v) {
                            assert(prefix.contains(v));
                        }
                    };
                }
                free_machines.push(v);
                proof {
                    lemma_push_membership(fprior, v);
                    lemma_push_keeps_distinct(fprior, v);
                    assert forall|w: u64| #[trigger]
                    free_machines@.contains(w) <==> (parent.subrange(0, j + 1).contains(w)
                        && !has_id(c0, w)) by {
                        assert(fprior.contains(w) <==> (prefix.contains(w) && !has_id(c0, w)));
                        assert(free_machines@.contains(w) <==> (fprior.contains(w) || w == v));
                        assert(parent.subrange(0, j + 1).contains(w) <==> (prefix.contains(w) || w
                            == v));
                    };
                    assert forall|w: u64| #[trigger]
                    present.contains(w) <==> (parent.subrange(0, j + 1).contains(w) && has_id(
                        c0,
                        w,
                    )) by {
                        assert(parent.subrange(0, j + 1).contains(w) <==> (prefix.contains(w) || w
                            == v));
                    };
                }
            } else {
                proof {
                    assert(!present.contains(v)) by {
                        if present.contains(v) {
                            assert(prefix.contains(v));
                        }
                    };
                    lemma_push_membership(present, v);
                    lemma_push_keeps_distinct(present, v);
                    let ghost pprior = present;
                    present = present.push(v);
                    assert forall|w: u64| #[trigger]
                    present.contains(w) <==> (parent.subrange(0, j + 1).contains(w) && has_id(
                        c0,
                        w,
                    )) by {
                        assert(present.contains(w) <==> (pprior.contains(w) || w == v));
                        assert(parent.subrange(0, j + 1).contains(w) <==> (prefix.contains(w) || w
                            == v));
                    };
                    assert forall|w: u64| #[trigger]
                    free_machines@.contains(w) <==> (parent.subrange(0, j + 1).contains(w)
                        && !has_id(c0, w)) by {
                        assert(parent.subrange(0, j + 1).contains(w) <==> (prefix.contains(w) || w
                            == v));
                    };
                }
            }
            j += 1;
        }
        proof {
            assert(parent.subrange(0, parent.len() as int) =~= parent);
            assert forall|v: u64| present.contains(v) <==> uniques_in_normalised@.contains(v) by {}
            lemma_distinct_equinumerous(present, uniques_in_normalised@);
        }
        let ghost pre_shuffle = free_machines@;
        crate::randomness::shuffle_in_place(&mut free_machines);
        proof {
            broadcast use vstd::seq_lib::group_to_multiset_ensures;

            pre_shuffle.lemma_multiset_has_no_duplicates();
            free_machines@.lemma_multiset_has_no_duplicates_conv();
            assert forall|v: u64| free_machines@.contains(v) <==> pre_shuffle.contains(v) by {
                assert(free_machines@.to_multiset().count(v) == pre_shuffle.to_multiset().count(v));
            };
        }
        let empties = self.count_empty_spaces();
        let missing_empties: u64 = if (empties as u64) < empties_in_parent {
            empties_in_parent - (empties as u64)
        } else {
            0
        };
        let ghost d = dup_count(c0) as int;
        let ghost e_c = empty_count(c0) as int;
        let ghost e_p = empties_in_parent as int;
        proof {
            assert(free_machines@.len() as int == parent.len() - uniques_in_normalised@.len());
            assert(d == free_machines@.len() + e_p - e_c);
            assert forall|v: u64| free_machines@.contains(v) implies id_count(c0, v) == 0 by {
                assert(pre_shuffle.contains(v));
                assert(!has_id(c0, v));
            }
        }
        self.remove_duplicates(free_machines, missing_empties);
        proof {
            assert forall|v: u64|
                id_count(self@, v) == if parent.contains(v) {
                    1nat
                } else {
                    0nat
                } by {
                assert((has_id(c0, v) || pre_shuffle.contains(v)) <==> parent.contains(v));
            };
        }
    }

    /// Mutates every occupied cell independently: with `mutation_factor`
    /// per cent probability its machine id moves to a neighbouring value
    /// modulo `max_cell_value + 1`, half the time up, half the time down.
    /// The grid is then repaired against its own pre-mutation state, so
    /// the placed machine set and the empty cells are preserved exactly.
    /// With a zero factor the grid is left untouched.
    ///
    /// The placed ids must be exactly `0 ..= max_cell_value`: only that
    /// contiguous set is closed under the wrap-around step, and on any
    /// other set the repair would plant ids the grid never held and lose
    /// the preservation promised here.
    pub fn mutate(&mut self, mutation_factor: u8, max_cell_value: u64)
        requires
            old(self).wf(),
            old(self).one_of_each(),
            mutation_factor <= 100,
            max_cell_value < u64::MAX,
            forall|v: u64| has_id(old(self)@, v) ==> v <= max_cell_value,
            forall|v: u64| v <= max_cell_value ==> has_id(old(self)@, v),
        ensures
            final(self).spec_width() == old(self).spec_width(),
            final(self)@.len() == old(self)@.len(),
            final(self).wf(),
            final(self).one_of_each(),
            final(self).same_machines(*old(self)),
            empty_count(final(self)@) == empty_count(old(self)@),
            forall|i: int|
                0 <= i < old(self)@.len() ==> ((final(self)@[i] == Cell::Empty) <==> (old(
                    self,
                )@[i] == Cell::Empty)),
            mutation_factor == 0 ==> final(self)@ == old(self)@,
            (mutation_factor == 100 && max_cell_value >= 1) ==> final(self)@ != old(self)@,
    {
        let ghost c0 = self@;
        let ghost w0 = self.spec_width();
        let ghost n = c0.len() as int;
        let original_uniques = self.get_uniques();
        let empties = self.count_empty_spaces();
        let overflow = max_cell_value + 1;
        let ghost i0 = crate::cell::first_occupied(c0);
        proof {
            lemma_distinct_no_dups(c0);
            assert forall|j: int, x: u64| 0 <= j < n && c0[j] == Cell::Occupied(x) implies has_id(
                c0,
                x,
            ) by {
                lemma_id_count_occurrence(c0, x);
            };
            assert(has_id(c0, 0));
            lemma_id_count_occurrence(c0, 0);
            let k = choose|k: int| 0 <= k < c0.len() && c0[k] == Cell::Occupied(0);
            assert(c0[k] != Cell::Empty);
            crate::cell::lemma_first_occupied_valid(c0);
        }
        let mut i: usize = 0;
        while i < self.interior.len()
            invariant
                self@.len() == n,
                self.spec_width() == w0,
                i <= n,
                forall|j: int| i <= j < n ==> self@[j] == c0[j],
                empty_count(self@) == empty_count(c0),
                forall|j: int, x: u64|
                    0 <= j < n && self@[j] == Cell::Occupied(x) ==> has_id(c0, x),
                mutation_factor == 0 ==> self@ == c0,
                forall|v: u64| has_id(c0, v) ==> v <= max_cell_value,
                forall|v: u64| v <= max_cell_value ==> has_id(c0, v),
                forall|j: int, x: u64| 0 <= j < n && c0[j] == Cell::Occupied(x) ==> has_id(c0, x),
                forall|j: int|
                    0 <= j < i ==> ((self@[j] == Cell::Empty) <==> (c0[j] == Cell::Empty)),
                (mutation_factor == 100 && max_cell_value >= 1 && i0 < i) ==> (self@[i0] != c0[i0]
                    && self@[i0] != Cell::Empty),
                0 <= i0 < n,
                c0[i0] != Cell::Empty,
                forall|j: int| 0 <= j < i0 ==> c0[j] == Cell::Empty,
                overflow as int == max_cell_value as int + 1,
                n == c0.len() as int,
            decreases n - i,
        {
            if let Cell::Occupied(value) = self.interior[i] {
                let draw = crate::randomness::random_in_range(0, 100);
                if draw < mutation_factor as u64 {
                    proof {
                        assert(c0[i as int] == Cell::Occupied(value));
                        lemma_id_count_occurrence(c0, value);
                        assert(has_id(c0, value));
                        assert(value <= max_cell_value);
                    }
                    let new_value = if crate::randomness::random_bool() {
                        let up = (value + 1) % overflow;
                        proof {
                            if value < max_cell_value {
                                vstd::arithmetic::div_mod::lemma_small_mod(
                                    (value + 1) as nat,
                                    overflow as nat,
                                );
                            } else {
                                vstd::arithmetic::div_mod::lemma_mod_self_0(overflow as int);
                            }
                            assert(max_cell_value >= 1 ==> up != value);
                        }
                        up
                    } else if value == 0 {
                        max_cell_value
                    } else {
                        value - 1
                    };
                    let ghost pre = self@;
                    self.interior.set(i, Cell::Occupied(new_value));
                    proof {
                        assert(new_value <= max_cell_value);
                        lemma_empty_count_update(pre, i as int, Cell::Occupied(new_value));
                        assert(max_cell_value >= 1 ==> new_value != value);
                    }
                }
            }
            i += 1;
        }
        proof {
            if mutation_factor == 0 {
                assert(self@ =~= c0);
            }
            assert forall|v: u64| has_id(self@, v) implies original_uniques@.contains(v) by {
                lemma_id_count_occurrence(self@, v);
            };
        }
        let ghost mutated = self@;
        self.normalise(original_uniques, empties as u64);
        proof {
            assert forall|v: u64| has_id(self@, v) <==> has_id(c0, v) by {};
            if mutation_factor == 100 && max_cell_value >= 1 {
                assert(!repeated_at(mutated, i0)) by {
                    if repeated_at(mutated, i0) {
                        let v = choose|v: u64|
                            mutated[i0] == Cell::Occupied(v) && first_index(mutated, v) < i0;
                        lemma_id_count_occurrence(mutated, v);
                        lemma_first_index_valid(mutated, v);
                        assert(mutated[first_index(mutated, v)] == Cell::Occupied(v));
                        assert(c0[first_index(mutated, v)] == Cell::Empty);
                    }
                };
                assert(self@[i0] == mutated[i0]);
                assert(self@[i0] != c0[i0]);
                assert(self@ != c0) by {
                    if self@ == c0 {
                        assert(self@[i0] == c0[i0]);
                    }
                };
            }
        }
    }

    /// Walks the grid once, replacing every repeated machine id: while the
    /// grid is short of empty cells the duplicate becomes empty floor,
    /// afterwards it takes the next free machine; leftover free machines
    /// then back-fill empty cells. The preconditions are the exact budget
    /// accounting under which the walk can never run out of free machines
    /// nor the back-fill out of empty cells.
    fn remove_duplicates(&mut self, free_machines: Vec<u64>, missing_empties: u64)
        requires
            free_machines@.no_duplicates(),
            forall|v: u64| free_machines@.contains(v) ==> id_count(old(self)@, v) == 0,
            missing_empties as int <= dup_count(old(self)@) as int,
            dup_count(old(self)@) as int <= missing_empties as int + free_machines@.len(),
            free_machines@.len() <= dup_count(old(self)@) as int + empty_count(old(self)@) as int,
        ensures
            final(self).spec_width() == old(self).spec_width(),
            final(self)@.len() == old(self)@.len(),
            forall|v: u64|
                id_count(final(self)@, v) == if has_id(old(self)@, v) || free_machines@.contains(v) {
                    1nat
                } else {
                    0nat
                },
            empty_count(final(self)@) as int == empty_count(old(self)@) as int + dup_count(
                old(self)@,
            ) as int - free_machines@.len(),
            (dup_count(old(self)@) == 0 && missing_empties == 0 && free_machines@.len() == 0)
                ==> final(self)@ == old(self)@,
            forall|i: int|
                0 <= i < old(self)@.len() && old(self)@[i] != Cell::Empty && !repeated_at(
                    old(self)@,
                    i,
                ) ==> final(self)@[i] == old(self)@[i],
            (missing_empties == 0 && free_machines@.len() <= dup_count(old(self)@)) ==> (forall|
                i: int,
            |
                0 <= i < old(self)@.len() ==> ((final(self)@[i] == Cell::Empty) <==> (old(
                    self,
                )@[i] == Cell::Empty))),
            forall|i: int|
                0 <= i < old(self)@.len() && repeated_at(old(self)@, i) ==> (final(self)@[i]
                    == Cell::Empty || exists|f: u64|
                    free_machines@.contains(f) && final(self)@[i] == Cell::Occupied(f)),
            (missing_empties == 0 || missing_empties as int + free_machines@.len() <= dup_count(
                old(self)@,
            ) as int) ==> (forall|i1: int, i2: int|
                0 <= i1 < i2 < old(self)@.len() && repeated_at(old(self)@, i1) && repeated_at(
                    old(self)@,
                    i2,
                ) && final(self)@[i1] != Cell::Empty ==> final(self)@[i2] != Cell::Empty),
    {
        let ghost c0 = self@;
        let ghost f0 = free_machines@;
        let ghost n = c0.len() as int;
        let ghost m0 = missing_empties as int;
        let ghost d0 = dup_count(c0) as int;
        let ghost e0 = empty_count(c0) as int;
        let ghost w0 = self.spec_width();

        let mut free = free_machines;
        let mut budget = missing_empties;
        let mut visited: HashSet<u64> = HashSet::new();
        proof {
            assert(f0.subrange(0, f0.len() as int) =~= f0);
            assert(c0.subrange(0, 0) =~= Seq::<Cell>::empty());
            assert(self@.subrange(0, 0) =~= Seq::<Cell>::empty());
        }
        let mut i: usize = 0;
        while i < self.interior.len()
            invariant
                self@.len() == n,
                self.spec_width() == w0,
                i <= n,
                forall|j: int| i <= j < n ==> self@[j] == c0[j],
                free@ == f0.subrange(0, free@.len() as int),
                free@.len() <= f0.len(),
                budget <= missing_empties,
                (m0 - budget as int) + (f0.len() - free@.len()) == dup_count(
                    c0.subrange(0, i as int),
                ) as int,
                budget > 0 ==> free@.len() == f0.len(),
                forall|v: u64|
                    id_count(self@.subrange(0, i as int), v) as int == (if has_id(
                        c0.subrange(0, i as int),
                        v,
                    ) {
                        1int
                    } else {
                        0int
                    }) + (if f0.subrange(free@.len() as int, f0.len() as int).contains(v) {
                        1int
                    } else {
                        0int
                    }),
                empty_count(self@.subrange(0, i as int)) as int == empty_count(
                    c0.subrange(0, i as int),
                ) as int + (m0 - budget as int),
                forall|v: u64| visited@.contains(v) <==> has_id(c0.subrange(0, i as int), v),
                (d0 == 0 && m0 == 0 && f0.len() == 0) ==> self@ == c0,
                forall|j: int|
                    0 <= j < i && c0[j] != Cell::Empty && !repeated_at(c0, j) ==> self@[j] == c0[j],
                m0 == 0 ==> (forall|j: int|
                    0 <= j < i ==> ((self@[j] == Cell::Empty) <==> (c0[j] == Cell::Empty))),
                forall|j: int|
                    0 <= j < i && repeated_at(c0, j) ==> (self@[j] == Cell::Empty || exists|f: u64|
                        f0.contains(f) && self@[j] == Cell::Occupied(f)),
                budget > 0 ==> (forall|j: int|
                    0 <= j < i && repeated_at(c0, j) ==> self@[j] == Cell::Empty),
                m0 == 0 ==> (forall|j: int|
                    0 <= j < i && repeated_at(c0, j) ==> self@[j] != Cell::Empty),
                forall|j1: int, j2: int|
                    0 <= j1 < j2 < i && repeated_at(c0, j1) && repeated_at(c0, j2) && self@[j1]
                        != Cell::Empty ==> self@[j2] != Cell::Empty,
                f0.no_duplicates(),
                forall|v: u64| f0.contains(v) ==> id_count(c0, v) == 0,
                m0 <= d0,
                d0 <= m0 + f0.len(),
                f0.len() <= d0 + e0,
                d0 == dup_count(c0) as int,
                e0 == empty_count(c0) as int,
                n == c0.len() as int,
                m0 == missing_empties as int,
            decreases n - i,
        {
            let ghost prefix_c0 = c0.subrange(0, i as int);
            let ghost cur_prefix = self@.subrange(0, i as int);
            let ghost suffix_free = f0.subrange(free@.len() as int, f0.len() as int);
            let cell = self.interior[i];
            proof {
                assert(cell == c0[i as int]);
                assert(c0.subrange(0, i + 1) =~= prefix_c0.push(c0[i as int]));
                lemma_dup_count_push(prefix_c0, c0[i as int]);
                lemma_empty_count_push(prefix_c0, c0[i as int]);
            }
            match cell {
                Cell::Empty => {
                    proof {
                        assert(self@.subrange(0, i + 1) =~= cur_prefix.push(Cell::Empty));
                        lemma_empty_count_push(cur_prefix, Cell::Empty);
                        assert forall|v: u64|
                            id_count(self@.subrange(0, i + 1), v) as int == (if has_id(
                                c0.subrange(0, i + 1),
                                v,
                            ) {
                                1int
                            } else {
                                0int
                            }) + (if suffix_free.contains(v) {
                                1int
                            } else {
                                0int
                            }) by {
                            lemma_id_count_push(cur_prefix, Cell::Empty, v);
                            lemma_id_count_push(prefix_c0, Cell::Empty, v);
                        };
                        assert forall|w: u64| visited@.contains(w) <==> has_id(
                            c0.subrange(0, i + 1),
                            w,
                        ) by {
                            lemma_id_count_push(prefix_c0, Cell::Empty, w);
                        };
                    }
                },
                Cell::Occupied(v) => {
                    let is_dup = visited.contains(&v);
                    proof {
                        assert(is_dup <==> has_id(prefix_c0, v));
                        lemma_repeated_at_prefix(c0, i as int, v);
                        assert(is_dup <==> repeated_at(c0, i as int));
                        assert(!f0.contains(v)) by {
                            if f0.contains(v) {
                                assert(id_count(c0, v) == 0);
                                lemma_id_count_occurrence(c0, v);
                                assert(c0[i as int] == Cell::Occupied(v));
                            }
                        };
                        assert(!suffix_free.contains(v)) by {
                            if suffix_free.contains(v) {
                                let k = choose|k: int|
                                    0 <= k < suffix_free.len() && suffix_free[k] == v;
                                assert(f0[free@.len() + k] == v);
                            }
                        };
                    }
                    if is_dup {
                        proof {
                            assert(dup_count(c0.subrange(0, i + 1)) == dup_count(prefix_c0) + 1);
                            lemma_dup_count_prefix_mono(c0, i + 1);
                            assert(d0 > 0);
                        }
                        if budget > 0 {
                            self.interior.set(i, Cell::Empty);
                            budget = budget - 1;
                            proof {
                                assert(self@.subrange(0, i + 1) =~= cur_prefix.push(Cell::Empty));
                                assert(forall|j: int| i + 1 <= j < n ==> self@[j] == c0[j]);
                                lemma_empty_count_push(cur_prefix, Cell::Empty);
                                assert forall|w: u64|
                                    id_count(self@.subrange(0, i + 1), w) as int == (if has_id(
                                        c0.subrange(0, i + 1),
                                        w,
                                    ) {
                                        1int
                                    } else {
                                        0int
                                    }) + (if suffix_free.contains(w) {
                                        1int
                                    } else {
                                        0int
                                    }) by {
                                    lemma_id_count_push(cur_prefix, Cell::Empty, w);
                                    lemma_id_count_push(prefix_c0, Cell::Occupied(v), w);
                                };
                            }
                        } else {
                            proof {
                                assert(free@.len() as int == f0.len() - (dup_count(prefix_c0) as int
                                    - m0));
                                assert(dup_count(c0.subrange(0, i + 1)) as int <= d0);
                                assert(free@.len() >= 1);
                            }
                            let ghost old_free = free@;
                            let f = match free.pop() {
                                Some(f) => f,
                                None => {
                                    proof {
                                        assert(false);
                                    }
                                    v
                                },
                            };
                            self.interior.set(i, Cell::Occupied(f));
                            proof {
                                assert(free@ =~= f0.subrange(0, free@.len() as int));
                                assert(f == f0[free@.len() as int]);
                                assert(f0.contains(f));
                                assert(self@[i as int] == Cell::Occupied(f));
                                let ghost new_suffix = f0.subrange(
                                    free@.len() as int,
                                    f0.len() as int,
                                );
                                assert forall|w: u64| new_suffix.contains(w) <==> (w == f
                                    || suffix_free.contains(w)) by {
                                    if new_suffix.contains(w) {
                                        let k = choose|k: int|
                                            0 <= k < new_suffix.len() && new_suffix[k] == w;
                                        if k == 0 {
                                            assert(w == f);
                                        } else {
                                            assert(suffix_free[k - 1] == w);
                                        }
                                    }
                                    if w == f {
                                        assert(new_suffix[0] == f);
                                    }
                                    if suffix_free.contains(w) {
                                        let k = choose|k: int|
                                            0 <= k < suffix_free.len() && suffix_free[k] == w;
                                        assert(new_suffix[k + 1] == w);
                                    }
                                };
                                assert(!suffix_free.contains(f)) by {
                                    if suffix_free.contains(f) {
                                        let k = choose|k: int|
                                            0 <= k < suffix_free.len() && suffix_free[k] == f;
                                        assert(f0[free@.len() + 1 + k] == f0[free@.len() as int]);
                                    }
                                };
                                assert(id_count(c0, f) == 0) by {
                                    assert(f0.contains(f));
                                };
                                assert(!has_id(prefix_c0, f)) by {
                                    if has_id(prefix_c0, f) {
                                        lemma_id_count_occurrence(prefix_c0, f);
                                        let k = choose|k: int|
                                            0 <= k < prefix_c0.len() && prefix_c0[k]
                                                == Cell::Occupied(f);
                                        lemma_id_count_occurrence(c0, f);
                                        assert(c0[k] == Cell::Occupied(f));
                                    }
                                };
                                assert(self@.subrange(0, i + 1) =~= cur_prefix.push(
                                    Cell::Occupied(f),
                                ));
                                assert(forall|j: int| i + 1 <= j < n ==> self@[j] == c0[j]);
                                lemma_empty_count_push(cur_prefix, Cell::Occupied(f));
                                assert forall|w: u64|
                                    id_count(self@.subrange(0, i + 1), w) as int == (if has_id(
                                        c0.subrange(0, i + 1),
                                        w,
                                    ) {
                                        1int
                                    } else {
                                        0int
                                    }) + (if new_suffix.contains(w) {
                                        1int
                                    } else {
                                        0int
                                    }) by {
                                    lemma_id_count_push(cur_prefix, Cell::Occupied(f), w);
                                    lemma_id_count_push(prefix_c0, Cell::Occupied(v), w);
                                };
                            }
                        }
                    } else {
                        proof {
                            assert(dup_count(c0.subrange(0, i + 1)) == dup_count(prefix_c0));
                            assert(self@.subrange(0, i + 1) =~= cur_prefix.push(Cell::Occupied(v)));
                            lemma_empty_count_push(cur_prefix, Cell::Occupied(v));
                            assert forall|w: u64|
                                id_count(self@.subrange(0, i + 1), w) as int == (if has_id(
                                    c0.subrange(0, i + 1),
                                    w,
                                ) {
                                    1int
                                } else {
                                    0int
                                }) + (if suffix_free.contains(w) {
                                    1int
                                } else {
                                    0int
                                }) by {
                                lemma_id_count_push(cur_prefix, Cell::Occupied(v), w);
                                lemma_id_count_push(prefix_c0, Cell::Occupied(v), w);
                            };
                        }
                    }
                    let ghost visited_before = visited@;
                    visited.insert(v);
                    proof {
                        assert(visited@ == visited_before.insert(v));
                        assert forall|w: u64| visited@.contains(w) <==> has_id(
                            c0.subrange(0, i + 1),
                            w,
                        ) by {
                            lemma_id_count_push(prefix_c0, Cell::Occupied(v), w);
                        };
                    }
                },
            }
            i += 1;
        }
        proof {
            assert(c0.subrange(0, n) =~= c0);
            assert(self@.subrange(0, n) =~= self@);
            assert(budget == 0) by {
                if budget > 0 {
                    assert(free@.len() == f0.len());
                    assert(m0 - budget as int == d0);
                }
            };
        }
        while free.len() > 0
            invariant
                self@.len() == n,
                self.spec_width() == w0,
                free@ == f0.subrange(0, free@.len() as int),
                free@.len() <= f0.len(),
                free@.len() as int <= empty_count(self@) as int,
                forall|v: u64|
                    id_count(self@, v) as int == (if has_id(c0, v) {
                        1int
                    } else {
                        0int
                    }) + (if f0.subrange(free@.len() as int, f0.len() as int).contains(v) {
                        1int
                    } else {
                        0int
                    }),
                empty_count(self@) as int == e0 + d0 - (f0.len() - free@.len()),
                (d0 == 0 && m0 == 0 && f0.len() == 0) ==> self@ == c0,
                forall|j: int|
                    0 <= j < n && c0[j] != Cell::Empty && !repeated_at(c0, j) ==> self@[j] == c0[j],
                forall|j: int|
                    0 <= j < n && repeated_at(c0, j) ==> (self@[j] == Cell::Empty || exists|f: u64|
                        f0.contains(f) && self@[j] == Cell::Occupied(f)),
                m0 == 0 ==> (forall|j: int|
                    0 <= j < n && repeated_at(c0, j) ==> self@[j] != Cell::Empty),
                (f0.len() + m0 <= d0) ==> free@.len() == 0,
                (m0 == 0 && f0.len() <= d0) ==> (forall|j: int|
                    0 <= j < n ==> ((self@[j] == Cell::Empty) <==> (c0[j] == Cell::Empty))),
                (m0 > 0 && f0.len() + m0 <= d0) ==> (forall|j1: int, j2: int|
                    0 <= j1 < j2 < n && repeated_at(c0, j1) && repeated_at(c0, j2) && self@[j1]
                        != Cell::Empty ==> self@[j2] != Cell::Empty),
                f0.no_duplicates(),
                forall|v: u64| f0.contains(v) ==> id_count(c0, v) == 0,
                n == c0.len() as int,
            decreases free@.len(),
        {
            let ghost pre_cells = self@;
            let ghost suffix_free = f0.subrange(free@.len() as int, f0.len() as int);
            let idx = match find_first_empty(&self.interior) {
                Some(idx) => idx,
                None => {
                    proof {
                        assert(false);
                    }
                    0
                },
            };
            let f = match free.pop() {
                Some(f) => f,
                None => {
                    proof {
                        assert(false);
                    }
                    0
                },
            };
            self.interior.set(idx, Cell::Occupied(f));
            proof {
                assert(free@ =~= f0.subrange(0, free@.len() as int));
                assert(f == f0[free@.len() as int]);
                assert(f0.contains(f));
                assert(self@[idx as int] == Cell::Occupied(f));
                assert(pre_cells[idx as int] == Cell::Empty);
                assert(forall|j: int| 0 <= j < n && j != idx as int ==> self@[j] == pre_cells[j]);
                let ghost new_suffix = f0.subrange(free@.len() as int, f0.len() as int);
                assert forall|w: u64| new_suffix.contains(w) <==> (w == f || suffix_free.contains(
                    w,
                )) by {
                    if new_suffix.contains(w) {
                        let k = choose|k: int| 0 <= k < new_suffix.len() && new_suffix[k] == w;
                        if k == 0 {
                            assert(w == f);
                        } else {
                            assert(suffix_free[k - 1] == w);
                        }
                    }
                    if w == f {
                        assert(new_suffix[0] == f);
                    }
                    if suffix_free.contains(w) {
                        let k = choose|k: int| 0 <= k < suffix_free.len() && suffix_free[k] == w;
                        assert(new_suffix[k + 1] == w);
                    }
                };
                assert(!suffix_free.contains(f)) by {
                    if suffix_free.contains(f) {
                        let k = choose|k: int| 0 <= k < suffix_free.len() && suffix_free[k] == f;
                        assert(f0[free@.len() + 1 + k] == f0[free@.len() as int]);
                    }
                };
                assert(!has_id(c0, f)) by {
                    assert(f0.contains(f));
                };
                lemma_empty_count_update(pre_cells, idx as int, Cell::Occupied(f));
                assert forall|w: u64|
                    id_count(self@, w) as int == (if has_id(c0, w) {
                        1int
                    } else {
                        0int
                    }) + (if new_suffix.contains(w) {
                        1int
                    } else {
                        0int
                    }) by {
                    lemma_id_count_update(pre_cells, idx as int, Cell::Occupied(f), w);
                };
            }
        }
        proof {
            assert(f0.subrange(0, 0) =~= Seq::<u64>::empty());
            assert(f0.subrange(free@.len() as int, f0.len() as int) =~= f0);
            assert forall|v: u64|
                id_count(self@, v) == if has_id(c0, v) || f0.contains(v) {
                    1nat
                } else {
                    0nat
                } by {
                if f0.contains(v) {
                    assert(id_count(c0, v) == 0);
                }
            };
        }
    }
}

/// Pushing an element extends the membership of an id list by exactly it.
proof fn lemma_push_membership(s: Seq<u64>, x: u64)
    ensures
        forall|w: u64| s.push(x).contains(w) <==> (s.contains(w) || w == x),
{
    assert forall|w: u64| s.push(x).contains(w) <==> (s.contains(w) || w == x) by {
        if s.contains(w) {
            let k = choose|k: int| 0 <= k < s.len() && s[k] == w;
            assert(s.push(x)[k] == w);
        }
        if s.push(x).contains(w) {
            let k = choose|k: int| 0 <= k < s.push(x).len() && s.push(x)[k] == w;
            if k < s.len() {
                assert(s[k] == w);
            }
        }
        assert(s.push(x)[s.len() as int] == x);
    };
}

/// Pushing a fresh element keeps an id list duplicate-free.
proof fn lemma_push_keeps_distinct(s: Seq<u64>, x: u64)
    requires
        s.no_duplicates(),
        !s.contains(x),
    ensures
        s.push(x).no_duplicates(),
{
    assert forall|i: int, j: int|
        0 <= i < s.push(x).len() && 0 <= j < s.push(x).len() && i != j implies s.push(x)[i]
        != s.push(x)[j] by {
        if i < s.len() && s.push(x)[i] == x {
            assert(s[i] == x);
        }
        if j < s.len() && s.push(x)[j] == x {
            assert(s[j] == x);
        }
    };
}

/// Two duplicate-free id lists with the same members have the same length.
proof fn lemma_distinct_equinumerous(a: Seq<u64>, b: Seq<u64>)
    requires
        a.no_duplicates(),
        b.no_duplicates(),
        forall|v: u64| a.contains(v) <==> b.contains(v),
    ensures
        a.len() == b.len(),
{
    a.unique_seq_to_set();
    b.unique_seq_to_set();
    assert(a.to_set() =~= b.to_set());
}

/// The index of the first empty cell, or `None` when every cell is
/// occupied.
fn find_first_empty(cells: &Vec<Cell>) -> (r: Option<usize>)
    ensures
        match r {
            Some(i) => i < cells@.len() && cells@[i as int] == Cell::Empty,
            None => empty_count(cells@) == 0,
        },
{
    let mut i: usize = 0;
    while i < cells.len()
        invariant
            i <= cells@.len(),
            forall|j: int| 0 <= j < i ==> cells@[j] != Cell::Empty,
        decreases cells@.len() - i,
    {
        if let Cell::Empty = cells[i] {
            return Some(i);
        }
        i += 1;
    }
    proof {
        lemma_empty_count_occurrence(cells@);
    }
    None
}

/// The fitness sum is a function of the grid contents and the width
/// alone: two facilities that agree on both score identically.
pub proof fn lemma_fitness_depends_on_view(a: Facility, b: Facility, flows: Seq<FacilityFlow>)
    requires
        a@ == b@,
        a.spec_width() == b.spec_width(),
    ensures
        a.fitness_sum(flows) == b.fitness_sum(flows),
    decreases flows.len(),
{
    if flows.len() > 0 {
        lemma_fitness_depends_on_view(a, b, flows.drop_last());
    }
}

/// Some cell before `bound` holds exactly `c`.
pub open spec fn occurs_before(cells: Seq<Cell>, c: Cell, bound: int) -> bool {
    exists|j: int| 0 <= j < bound && cells[j] == c
}

/// What one-point crossover leaves visible after repair. The child keeps
/// every occupied cell of the top parent below the split, and every
/// occupied cell of the bottom parent at or above the split whose machine
/// does not also occur in the top parent's part (such cells are the
/// repairs' only targets: they repeat or displace a machine).
pub open spec fn splice_preserved(
    top: Seq<Cell>,
    bottom: Seq<Cell>,
    child: Seq<Cell>,
    row: int,
    width: int,
) -> bool {
    &&& (forall|i: int| 0 <= i < row * width && top[i] != Cell::Empty ==> child[i] == top[i])
    &&& (forall|i: int|
        row * width <= i < bottom.len() && bottom[i] != Cell::Empty && !occurs_before(
            top,
            bottom[i],
            row * width,
        ) ==> child[i] == bottom[i])
}

/// A spliced child repaired by first-occurrence-preserving repair keeps
/// the top parent's occupied cells below the split and the bottom
/// parent's non-colliding occupied cells above it: below the split no
/// machine can repeat (the top parent places each at most once), and
/// above it a machine repeats only when it also occurs in the top part.
proof fn lemma_splice_preserved(
    top: Facility,
    bottom: Facility,
    pre: Seq<Cell>,
    fin: Seq<Cell>,
    row: int,
    width: int,
)
    requires
        top.one_of_each(),
        bottom.one_of_each(),
        top@.len() == bottom@.len(),
        pre.len() == top@.len(),
        fin.len() == top@.len(),
        0 <= row * width <= top@.len(),
        forall|k: int| 0 <= k < row * width ==> pre[k] == top@[k],
        forall|k: int| row * width <= k < pre.len() ==> pre[k] == bottom@[k],
        forall|i: int|
            0 <= i < pre.len() && pre[i] != Cell::Empty && !repeated_at(pre, i) ==> fin[i] == pre[i],
    ensures
        splice_preserved(top@, bottom@, fin, row, width),
{
    let split = row * width;
    assert forall|k: int| 0 <= k < split && top@[k] != Cell::Empty implies fin[k] == top@[k] by {
        assert(pre[k] == top@[k]);
        assert(!repeated_at(pre, k)) by {
            if repeated_at(pre, k) {
                let v = choose|v: u64| pre[k] == Cell::Occupied(v) && first_index(pre, v) < k;
                lemma_id_count_occurrence(pre, v);
                lemma_first_index_valid(pre, v);
                let fi = first_index(pre, v);
                assert(top@[fi] == Cell::Occupied(v));
                assert(top@[k] == Cell::Occupied(v));
                lemma_two_positions_two_count(top@, v, fi, k);
            }
        };
    };
    assert forall|k: int|
        split <= k < bottom@.len() && bottom@[k] != Cell::Empty && !occurs_before(
            top@,
            bottom@[k],
            split,
        ) implies fin[k] == bottom@[k] by {
        assert(pre[k] == bottom@[k]);
        assert(!repeated_at(pre, k)) by {
            if repeated_at(pre, k) {
                let v = choose|v: u64| pre[k] == Cell::Occupied(v) && first_index(pre, v) < k;
                lemma_id_count_occurrence(pre, v);
                lemma_first_index_valid(pre, v);
                let fi = first_index(pre, v);
                if fi < split {
                    assert(top@[fi] == Cell::Occupied(v));
                    assert(top@[fi] == bottom@[k]);
                    assert(occurs_before(top@, bottom@[k], split));
                } else {
                    assert(bottom@[fi] == Cell::Occupied(v));
                    assert(bottom@[k] == Cell::Occupied(v));
                    lemma_two_positions_two_count(bottom@, v, fi, k);
                }
            }
        };
    };
}

/// Crossover symmetry: crossing `(a, b)` and `(b, a)` at the same split
/// row yields row-wise complementary children before repair. In every
/// cell, one child holds `a`'s entry exactly where the other holds `b`'s.
/// The preconditions on the children are precisely what
/// `create_crossover` ensures of them.
pub proof fn lemma_crossover_symmetry(
    a: Facility,
    b: Facility,
    child_ab: Facility,
    child_ba: Facility,
    crossover_row: u64,
)
    requires
        a.wf(),
        b.wf(),
        a.same_dimensions(b),
        crossover_row as int <= a.spec_height(),
        child_ab@.len() == a@.len(),
        child_ba@.len() == a@.len(),
        forall|k: int|
            0 <= k < crossover_row as int * a.spec_width() as int ==> child_ab@[k] == a@[k],
        forall|k: int|
            crossover_row as int * a.spec_width() as int <= k < a@.len() ==> child_ab@[k] == b@[k],
        forall|k: int|
            0 <= k < crossover_row as int * a.spec_width() as int ==> child_ba@[k] == b@[k],
        forall|k: int|
            crossover_row as int * a.spec_width() as int <= k < a@.len() ==> child_ba@[k] == a@[k],
    ensures
        forall|k: int|
            0 <= k < a@.len() ==> ((child_ab@[k] == a@[k] && child_ba@[k] == b@[k]) || (
            child_ab@[k] == b@[k] && child_ba@[k] == a@[k])),
{
    let split = crossover_row as int * a.spec_width() as int;
    assert forall|k: int|
        0 <= k < a@.len() implies ((child_ab@[k] == a@[k] && child_ba@[k] == b@[k]) || (
    child_ab@[k] == b@[k] && child_ba@[k] == a@[k])) by {
        if k < split {
        } else {
        }
    };
}

/// A placed machine sits at a row below the height and a column below the
/// width, and the grid has exactly `height * width` cells.
proof fn lemma_position_bounds(f: Facility, v: u64)
    requires
        f.wf(),
        has_id(f@, v),
    ensures
        0 <= f.spec_row(v) < f.spec_height(),
        0 <= f.spec_col(v) < f.spec_width(),
        f.spec_height() * f.spec_width() as int == f@.len(),
        f.spec_height() >= 1,
{
    lemma_first_index_valid(f@, v);
    let w = f.spec_width() as int;
    let n = f@.len() as int;
    let h = n / w;
    vstd::arithmetic::div_mod::lemma_fundamental_div_mod(n, w);
    assert(n == w * h);
    let fi = first_index(f@, v);
    vstd::arithmetic::div_mod::lemma_mod_bound(fi, w);
    vstd::arithmetic::div_mod::lemma_div_is_ordered(0, fi, w);
    vstd::arithmetic::div_mod::lemma_div_is_ordered(fi, n - 1, w);
    assert(n - 1 == (h - 1) * w + (w - 1)) by (nonlinear_arith)
        requires
            n == w * h,
            w >= 1,
    ;
    vstd::arithmetic::div_mod::lemma_fundamental_div_mod_converse(n - 1, w, h - 1, w - 1);
    assert(h * w == w * h) by (nonlinear_arith);
}

/// Saturation can be applied to an inner product first: clamping the
/// product of a clamped non-negative value with a `u64` factor gives the
/// clamp of the full product.
proof fn lemma_clamp_mul_chain(x: int, c: int)
    requires
        x >= 0,
        0 <= c <= u64::MAX,
    ensures
        clamp_u64(clamp_u64(x) * c) == clamp_u64(x * c),
{
    if x > u64::MAX {
        if c == 0 {
            assert(clamp_u64(x) * c == 0) by (nonlinear_arith)
                requires
                    c == 0,
            ;
            assert(x * c == 0) by (nonlinear_arith)
                requires
                    c == 0,
            ;
        } else {
            assert(clamp_u64(x) * c >= u64::MAX) by (nonlinear_arith)
                requires
                    clamp_u64(x) == u64::MAX,
                    c >= 1,
            ;
            assert(x * c >= u64::MAX) by (nonlinear_arith)
                requires
                    x > u64::MAX,
                    c >= 1,
            ;
        }
    }
}

/// Every flow contributes a term between zero and `u64::MAX`.
proof fn lemma_flow_term_bounds(f: Facility, flow: FacilityFlow)
    ensures
        0 <= f.flow_term(flow) <= u64::MAX,
{
    if has_id(f@, flow.source) && has_id(f@, flow.dest) {
        let d = f.spec_distance(flow.source, flow.dest);
        assert(d >= 0);
        assert(d * flow.amount >= 0) by (nonlinear_arith)
            requires
                d >= 0,
                flow.amount >= 0,
        ;
        assert(d * flow.amount * flow.cost >= 0) by (nonlinear_arith)
            requires
                d * flow.amount >= 0,
                flow.cost >= 0,
        ;
    }
}

/// Appending one flow adds exactly its term to the fitness sum.
proof fn lemma_fitness_sum_push(f: Facility, flows: Seq<FacilityFlow>, flow: FacilityFlow)
    ensures
        f.fitness_sum(flows.push(flow)) == f.fitness_sum(flows) + f.flow_term(flow),
{
    assert(flows.push(flow).drop_last() =~= flows);
}

/// A fitness sum is never negative.
proof fn lemma_fitness_sum_nonneg(f: Facility, flows: Seq<FacilityFlow>)
    ensures
        f.fitness_sum(flows) >= 0,
    decreases flows.len(),
{
    if flows.len() > 0 {
        lemma_fitness_sum_nonneg(f, flows.drop_last());
        lemma_flow_term_bounds(f, flows.last());
    }
}

} // verus!
