use vstd::prelude::*;

use crate::common::Branch;

verus! {

/// A pair of values, one for each branch
pub struct BranchVec<T> {
    skip: T,
    activate: T,
}

impl<T> BranchVec<T> {
    /// The value kept for `branch`.
    pub closed spec fn spec_get(&self, branch: Branch) -> T {
        match branch {
            Branch::Skip => self.skip,
            Branch::Activate => self.activate,
        }
    }

    /// Makes a pair from the value for `Skip` and the value for `Activate`.
    pub fn new(skip: T, activate: T) -> (r: Self)
        ensures
            r.spec_get(Branch::Skip) == skip,
            r.spec_get(Branch::Activate) == activate,
    {
        BranchVec { skip, activate }
    }

    /// The value kept for `branch`.
    pub fn get(&self, branch: Branch) -> (r: &T)
        ensures
            *r == self.spec_get(branch),
    {
        match branch {
            Branch::Skip => &self.skip,
            Branch::Activate => &self.activate,
        }
    }

    /// Mutable access to the value kept for `branch`; the other value is
    /// left as it is.
    pub fn get_mut(&mut self, branch: Branch) -> (r: &mut T)
        ensures
            *r == old(self).spec_get(branch),
            final(self).spec_get(branch) == *final(r),
            final(self).spec_get(branch.spec_other()) == old(self).spec_get(branch.spec_other()),
    {
        match branch {
            Branch::Skip => &mut self.skip,
            Branch::Activate => &mut self.activate,
        }
    }

    /// Replaces the value kept for `branch`; the other value is left as it is.
    pub fn set(&mut self, branch: Branch, value: T)
        ensures
            final(self).spec_get(branch) == value,
            final(self).spec_get(branch.spec_other()) == old(self).spec_get(branch.spec_other()),
    {
        match branch {
            Branch::Skip => self.skip = value,
            Branch::Activate => self.activate = value,
        }
    }
}

impl<T> std::ops::Index<Branch> for BranchVec<T> {
    type Output = T;

    fn index(&self, branch: Branch) -> (r: &T)
        ensures
            *r == self.spec_get(branch),
    {
        self.get(branch)
    }
}

impl<T> vstd::std_specs::core::IndexSpecImpl<Branch> for BranchVec<T> {
    /// Every branch has a value.
    open spec fn index_req(&self, index: &Branch) -> bool {
        true
    }
}

impl<T> std::ops::IndexMut<Branch> for BranchVec<T> {
    fn index_mut(&mut self, branch: Branch) -> (r: &mut T)
        ensures
            *r == old(self).spec_get(branch),
            final(self).spec_get(branch) == *final(r),
            final(self).spec_get(branch.spec_other()) == old(self).spec_get(branch.spec_other()),
    {
        self.get_mut(branch)
    }
}

impl<T: Default> Default for BranchVec<T> {
    /// Both values are `T::default()`.
    fn default() -> (r: Self)
        ensures
            call_ensures(T::default, (), r.spec_get(Branch::Skip)),
            call_ensures(T::default, (), r.spec_get(Branch::Activate)),
    {
        BranchVec { skip: T::default(), activate: T::default() }
    }
}

} // verus!
