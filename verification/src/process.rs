use crate::resource::Resources;
use vstd::prelude::*;

verus! {

/// A unit of work and what it needs to run.
#[derive(Debug, PartialEq)]
pub struct Process {
    pub id: u32,
    pub task: String,
    pub needed_resources: Resources,
}

impl Process {
    pub fn new(id: u32, task: String, needed_resources: Resources) -> (p: Self)
        ensures
            p == (Process { id, task, needed_resources }),
    {
        Process { id, task, needed_resources }
    }
}

impl Clone for Process {
    fn clone(&self) -> (copy: Self)
        ensures
            copy == *self,
    {
        Process {
            id: self.id,
            task: self.task.clone(),
            needed_resources: self.needed_resources,
        }
    }
}

} // verus!
