//! Solutions: frozen assignments, one value per variable, in variable order.
use vstd::prelude::*;

use crate::vars::{VarId, VarIdBinary};

verus! {

/// Assignment for decision variables that satisfies all constraints.
#[derive(Debug, PartialEq, Eq, PartialOrd, Ord)]
pub struct Solution(pub Vec<i32>);

impl Solution {
    /// The assigned values, in variable order.
    pub open spec fn values(&self) -> Seq<int> {
        self.0@.map_values(|x: i32| x as int)
    }

    /// A solution holding exactly the given values.
    pub fn new(values: Vec<i32>) -> (r: Solution)
        ensures
            r.values() == values@.map_values(|x: i32| x as int),
    {
        Solution(values)
    }

    /// Number of variables.
    pub fn len(&self) -> (r: usize)
        ensures
            r == self.values().len(),
    {
        self.0.len()
    }

    /// Value assigned to `v`.
    pub fn get(&self, v: VarId) -> (r: i32)
        requires
            v.0 < self.values().len(),
        ensures
            r == self.values()[v.0 as int],
    {
        self.0[v.0]
    }

    /// Values assigned to the variables of the slice, in the slice's order.
    pub fn get_values(&self, vs: &[VarId]) -> (r: Vec<i32>)
        requires
            forall|k: int| 0 <= k < vs@.len() ==> (#[trigger] vs@[k]).0 < self.values().len(),
        ensures
            r@.len() == vs@.len(),
            forall|k: int| 0 <= k < vs@.len() ==> #[trigger] r@[k] == self.values()[vs@[k].0 as int],
    {
        let mut r: Vec<i32> = Vec::new();
        let mut k: usize = 0;
        while k < vs.len()
            invariant
                k <= vs@.len(),
                r@.len() == k,
                forall|j: int| 0 <= j < vs@.len() ==> (#[trigger] vs@[j]).0 < self.values().len(),
                forall|j: int| 0 <= j < k ==> #[trigger] r@[j] == self.values()[vs@[j].0 as int],
            decreases vs@.len() - k,
        {
            r.push(self.get(vs[k]));
            k = k + 1;
        }
        r
    }

    /// Whether the binary variable `v` is set, that is its value is not zero.
    pub fn get_value_binary(&self, v: VarIdBinary) -> (r: bool)
        requires
            v.0.0 < self.values().len(),
        ensures
            r == (self.values()[v.0.0 as int] != 0),
    {
        self.0[v.0.0] != 0
    }

    /// Binary values of the variables of the slice, in the slice's order.
    pub fn get_values_binary(&self, vs: &[VarIdBinary]) -> (r: Vec<bool>)
        requires
            forall|k: int| 0 <= k < vs@.len() ==> (#[trigger] vs@[k]).0.0 < self.values().len(),
        ensures
            r@.len() == vs@.len(),
            forall|k: int| 0 <= k < vs@.len() ==> #[trigger] r@[k] == (self.values()[vs@[k].0.0 as int] != 0),
    {
        let mut r: Vec<bool> = Vec::new();
        let mut k: usize = 0;
        while k < vs.len()
            invariant
                k <= vs@.len(),
                r@.len() == k,
                forall|j: int| 0 <= j < vs@.len() ==> (#[trigger] vs@[j]).0.0 < self.values().len(),
                forall|j: int| 0 <= j < k ==> #[trigger] r@[j] == (self.values()[vs@[j].0.0 as int] != 0),
            decreases vs@.len() - k,
        {
            r.push(self.get_value_binary(vs[k]));
            k = k + 1;
        }
        r
    }
}

impl From<Vec<i32>> for Solution {
    fn from(values: Vec<i32>) -> (r: Solution) {
        Solution(values)
    }
}

impl vstd::std_specs::convert::FromSpecImpl<Vec<i32>> for Solution {
    open spec fn obeys_from_spec() -> bool {
        true
    }

    open spec fn from_spec(v: Vec<i32>) -> Solution {
        Solution(v)
    }
}

} // verus!
