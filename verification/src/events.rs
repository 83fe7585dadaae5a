//! Event subscribers attached to archetypes. A subscriber names the
//! component keys it wants present; the graph attaches it to every matching
//! archetype and drops it once disconnected.

use vstd::prelude::*;

use crate::component::ComponentKey;

verus! {

/// A registered event subscriber: the component keys an archetype must hold
/// for the subscriber to be attached, and whether the receiving end is still
/// connected.
pub struct Subscriber {
    connected: bool,
    required: Vec<ComponentKey>,
}

impl Subscriber {
    pub closed spec fn spec_connected(&self) -> bool {
        self.connected
    }

    pub closed spec fn spec_required(&self) -> Seq<ComponentKey> {
        self.required@
    }

    pub fn new(connected: bool, required: Vec<ComponentKey>) -> (r: Subscriber)
        ensures
            r.spec_connected() == connected,
            r.spec_required() == required@,
    {
        Subscriber { connected, required }
    }

    /// Whether the receiving end is still listening.
    pub fn is_connected(&self) -> (r: bool)
        ensures
            r == self.spec_connected(),
    {
        self.connected
    }

    pub fn required(&self) -> (r: &Vec<ComponentKey>)
        ensures
            r@ == self.spec_required(),
    {
        &self.required
    }

    /// A copy of this subscriber, to attach to one more archetype.
    pub fn clone_subscriber(&self) -> (r: Subscriber)
        ensures
            r.spec_connected() == self.spec_connected(),
            r.spec_required() == self.spec_required(),
    {
        let mut req: Vec<ComponentKey> = Vec::new();
        let mut i: usize = 0;
        while i < self.required.len()
            invariant
                i <= self.required@.len(),
                req@ == self.required@.take(i as int),
            decreases self.required@.len() - i,
        {
            req.push(self.required[i]);
            proof {
                assert(req@ =~= self.required@.take(i as int + 1));
            }
            i = i + 1;
        }
        proof {
            assert(self.required@.take(self.required@.len() as int) =~= self.required@);
        }
        Subscriber { connected: self.connected, required: req }
    }
}

} // verus!
