use vstd::prelude::*;

use crate::common::Branch;

verus! {

/// Settings of an exploration session
pub struct Options {
    /// Branch tried first at a failpoint that has not been explored yet
    pub branch_preference: Branch,
}

impl Default for Options {
    /// Activation is tried first.
    fn default() -> (r: Self)
        ensures
            r.branch_preference == Branch::Activate,
    {
        Options { branch_preference: Branch::Activate }
    }
}

impl Options {
    /// The same settings, with `branch_preference` tried first.
    pub fn branch_preference(self, branch_preference: Branch) -> (r: Self)
        ensures
            r.branch_preference == branch_preference,
    {
        let mut o = self;
        o.branch_preference = branch_preference;
        o
    }
}

} // verus!
