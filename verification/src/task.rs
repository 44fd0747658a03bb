use crate::resource::Resources;
use vstd::prelude::*;

verus! {

/// A described piece of work and the resources it asks for.
pub struct Task {
    pub id: u32,
    pub description: String,
    pub resource_requirements: Resources,
}

impl Task {
    pub fn new(id: u32, description: String, resource_requirements: Resources) -> (t: Self)
        ensures
            t == (Task { id, description, resource_requirements }),
    {
        Task { id, description, resource_requirements }
    }
}

} // verus!
