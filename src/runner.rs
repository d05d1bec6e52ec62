use vstd::prelude::*;

use crate::common::Branch;
use crate::options::Options;
use crate::state::State;

verus! {

/// Runner for code instrumented with failpoints
///
/// Construct it with `default()`, tune it with the `with_` methods, and
/// start a session with `into_state()`.
pub struct Runner {
    options: Options,
}

impl Default for Runner {
    /// Activation is tried first.
    fn default() -> (r: Self)
        ensures
            r.spec_options().branch_preference == Branch::Activate,
    {
        Runner { options: Options::default() }
    }
}

impl Runner {
    pub closed spec fn spec_options(&self) -> Options {
        self.options
    }

    /// Selects which branch is tried first at a failpoint not explored yet.
    ///
    /// This changes only the order of the runs, not the set of paths.
    pub fn with_branch_preference(self, branch_preference: Branch) -> (r: Self)
        ensures
            r.spec_options().branch_preference == branch_preference,
    {
        Runner { options: self.options.branch_preference(branch_preference) }
    }

    /// The settings of the session that this runner starts.
    pub fn options(&self) -> (r: &Options)
        ensures
            *r == self.spec_options(),
    {
        &self.options
    }

    /// A fresh session with this runner's settings, failpoints enabled and
    /// nothing explored yet.
    pub fn into_state(self) -> (r: State)
        ensures
            r.enabled,
            r.tree.wf(),
            r.tree.node_count() == 0,
            r.tree.spec_current_edge().is_none(),
            r.tree.spec_options() == self.spec_options(),
            !r.tree.spec_non_determinism_witnessed(),
            !r.tree.done(),
    {
        State::new(self.options)
    }
}

} // verus!
