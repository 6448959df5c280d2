use crate::graph::Sodg;
use vstd::prelude::*;

verus! {

broadcast use vstd::std_specs::hash::group_hash_axioms;

impl Clone for Sodg {
    /// A working copy: the same vertices and counter, no alerts, alerts off.
    fn clone(&self) -> (r: Sodg)
        ensures
            r.vertices@ == self.vertices@,
            r@ == self@,
            r.next_v == self.next_v,
            r.alerts@.len() == 0,
            !r.alerts_active,
            r.gc == self.gc,
    {
        Sodg {
            vertices: self.vertices.clone(),
            next_v: self.next_v,
            alerts: Vec::new(),
            alerts_active: false,
            gc: self.gc,
        }
    }
}

} // verus!
