//! Named problem configurations: grid dimensions, the machine id list, and
//! the data files an external loader reads the flow table from.

use vstd::prelude::*;

use crate::errors::FacilityError;

verus! {

broadcast use vstd::string::group_string_axioms;

/// The shape of the grid and the machines to place on it.
pub struct Dimensions {
    pub width: u64,
    pub height: u64,
    pub machines: Vec<u64>,
}

impl Dimensions {
    /// A usable configuration: a non-degenerate grid and distinct ids.
    pub open spec fn wf(self) -> bool {
        &&& self.width >= 1
        &&& self.height >= 1
        &&& self.machines@.no_duplicates()
    }

    /// The number of cells of the grid.
    pub open spec fn spec_cell_count(self) -> int {
        self.width as int * self.height as int
    }
}

/// A problem preset: where the flow table lives on disk, and the grid it
/// is optimised on.
pub struct FacilityConfig {
    pub flow_path: String,
    pub cost_path: String,
    pub dimensions: Dimensions,
}

/// The ids `0..count`, in order.
fn machine_range(count: u64) -> (r: Vec<u64>)
    requires
        count <= usize::MAX as u64,
    ensures
        r@.len() == count,
        forall|j: int| 0 <= j < count ==> r@[j] == j,
        r@.no_duplicates(),
{
    let mut machines: Vec<u64> = Vec::new();
    let mut k: u64 = 0;
    while k < count
        invariant
            k <= count,
            machines@.len() == k,
            forall|j: int| 0 <= j < k ==> machines@[j] == j,
        decreases count - k,
    {
        machines.push(k);
        k += 1;
    }
    machines
}

impl FacilityConfig {
    /// The flow-table path of this preset.
    pub open spec fn spec_flow_path(self) -> Seq<char> {
        self.flow_path@
    }

    /// The cost-table path of this preset.
    pub open spec fn spec_cost_path(self) -> Seq<char> {
        self.cost_path@
    }

    /// Validates that the machines fit the grid and packs a configuration.
    fn new(flow_path: String, cost_path: String, width: u64, height: u64, machines: Vec<u64>) -> (r:
        Result<Self, FacilityError>)
        requires
            width as int * height as int <= u64::MAX as int,
        ensures
            match r {
                Ok(c) => {
                    &&& c.dimensions.width == width
                    &&& c.dimensions.height == height
                    &&& c.dimensions.machines@ == machines@
                    &&& c.spec_flow_path() == flow_path@
                    &&& c.spec_cost_path() == cost_path@
                    &&& machines@.len() <= width as int * height as int
                },
                Err(e) => {
                    &&& e == FacilityError::CapacityError
                    &&& machines@.len() > width as int * height as int
                },
            },
    {
        proof {
            assert((width * height) as int == width as int * height as int);
        }
        if machines.len() as u64 > width * height {
            return Err(FacilityError::CapacityError);
        }
        Ok(
            FacilityConfig { flow_path, cost_path, dimensions: Dimensions { width, height, machines } },
        )
    }

    /// The small 3-by-3 preset with machines `0..9`.
    pub fn get_easy_config() -> (r: Result<Self, FacilityError>)
        ensures
            match r {
                Ok(c) => {
                    &&& c.dimensions.width == 3
                    &&& c.dimensions.height == 3
                    &&& c.dimensions.machines@.len() == 9
                    &&& (forall|j: int| 0 <= j < 9 ==> c.dimensions.machines@[j] == j)
                    &&& c.dimensions.wf()
                    &&& c.spec_flow_path() == "data/easy_flow.json"@
                    &&& c.spec_cost_path() == "data/easy_cost.json"@
                },
                Err(_) => false,
            },
    {
        FacilityConfig::new(
            "data/easy_flow.json".to_string(),
            "data/easy_cost.json".to_string(),
            3,
            3,
            machine_range(9),
        )
    }

    /// The single-column preset with machines `0..12`.
    pub fn get_flat_config() -> (r: Result<Self, FacilityError>)
        ensures
            match r {
                Ok(c) => {
                    &&& c.dimensions.width == 1
                    &&& c.dimensions.height == 12
                    &&& c.dimensions.machines@.len() == 12
                    &&& (forall|j: int| 0 <= j < 12 ==> c.dimensions.machines@[j] == j)
                    &&& c.dimensions.wf()
                    &&& c.spec_flow_path() == "data/flat_flow.json"@
                    &&& c.spec_cost_path() == "data/flat_cost.json"@
                },
                Err(_) => false,
            },
    {
        FacilityConfig::new(
            "data/flat_flow.json".to_string(),
            "data/flat_cost.json".to_string(),
            1,
            12,
            machine_range(12),
        )
    }

    /// The 5-by-6 preset with machines `0..24`.
    pub fn get_hard_config() -> (r: Result<Self, FacilityError>)
        ensures
            match r {
                Ok(c) => {
                    &&& c.dimensions.width == 5
                    &&& c.dimensions.height == 6
                    &&& c.dimensions.machines@.len() == 24
                    &&& (forall|j: int| 0 <= j < 24 ==> c.dimensions.machines@[j] == j)
                    &&& c.dimensions.wf()
                    &&& c.spec_flow_path() == "data/hard_flow.json"@
                    &&& c.spec_cost_path() == "data/hard_cost.json"@
                },
                Err(_) => false,
            },
    {
        FacilityConfig::new(
            "data/hard_flow.json".to_string(),
            "data/hard_cost.json".to_string(),
            5,
            6,
            machine_range(24),
        )
    }

    /// The flow-table file of this preset.
    pub fn get_flow_path(&self) -> (r: &String)
        ensures
            r@ == self.spec_flow_path(),
    {
        &self.flow_path
    }

    /// The cost-table file of this preset.
    pub fn get_cost_path(&self) -> (r: &String)
        ensures
            r@ == self.spec_cost_path(),
    {
        &self.cost_path
    }
}

} // verus!
