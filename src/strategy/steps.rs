use vstd::prelude::*;

use crate::strategy::step::Step;

verus! {

/// The steps taken while solving, in order.
#[derive(Debug)]
pub struct Steps {
    /// The list of all solving steps
    steps: Vec<Step>,
    /// The position of the next step to read
    index: u32,
}

impl Steps {
    /// The steps held.
    pub closed spec fn view(&self) -> Seq<Step> {
        self.steps@
    }

    /// The position of the next step to read.
    pub closed spec fn position(&self) -> int {
        self.index as int
    }
}

impl Default for Steps {
    fn default() -> (r: Self)
        ensures
            r@.len() == 0,
            r.position() == 0,
    {
        Self { steps: Vec::new(), index: 0 }
    }
}

} // verus!
