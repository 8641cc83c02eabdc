//! The numbers by which functions are known in locations.

use super::loc::{place_in, place_in_at, place_in_facts, with_item};
use crate::translate::mir::InstanceId;
use vstd::prelude::*;

verus! {

/// The functions that have a number, in the order of their numbers.
#[derive(Debug)]
pub struct FuncMap {
    pub instances: Vec<InstanceId>,
}

impl View for FuncMap {
    type V = Seq<InstanceId>;

    open spec fn view(&self) -> Seq<InstanceId> {
        self.instances@
    }
}

impl FuncMap {
    /// No functions.
    pub fn new() -> (r: Self)
        ensures
            r@ == Seq::<InstanceId>::empty(),
    {
        FuncMap { instances: Vec::new() }
    }

    /// The number of a function, where it has one.
    pub fn get_id(&self, instance: InstanceId) -> (r: Option<usize>)
        ensures
            r == if self@.contains(instance) {
                Some(place_in(self@, instance) as usize)
            } else {
                None
            },
            r matches Some(i) ==> i < self@.len() && self@[i as int] == instance,
    {
        let mut i: usize = 0;
        while i < self.instances.len()
            invariant
                i <= self.instances@.len(),
                forall|j: int| 0 <= j < i ==> self.instances@[j] != instance,
            decreases self.instances@.len() - i,
        {
            if self.instances[i] == instance {
                proof {
                    place_in_at(self@, instance, i as int);
                }
                return Some(i);
            }
            i = i + 1;
        }
        None
    }

    /// Numbers a function.
    pub fn intern(&mut self, instance: InstanceId) -> (id: usize)
        ensures
            final(self)@ == with_item(old(self)@, instance),
            id == place_in(old(self)@, instance),
            id < final(self)@.len(),
            final(self)@[id as int] == instance,
    {
        proof {
            place_in_facts(self@, instance);
        }
        match self.get_id(instance) {
            Some(i) => i,
            None => {
                let i = self.instances.len();
                self.instances.push(instance);
                i
            },
        }
    }
}

} // verus!
