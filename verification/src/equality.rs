//! When two stores are equal: when they hold the same fingerprints for the
//! same paths.

use crate::hashdb::HashDB;
use vstd::prelude::*;

verus! {

impl PartialEq for HashDB {
    fn eq(&self, other: &HashDB) -> (equal: bool) {
        self.same(other)
    }
}

impl vstd::std_specs::cmp::PartialEqSpecImpl for HashDB {
    open spec fn obeys_eq_spec() -> bool {
        true
    }

    open spec fn eq_spec(&self, other: &HashDB) -> bool {
        self@ == other@
    }
}

} // verus!
