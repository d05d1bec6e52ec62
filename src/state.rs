use vstd::prelude::*;

use crate::common::Label;
use crate::options::Options;
use crate::tree::{ExecutionStatus, Tree};

verus! {

/// The engine of one exploration session: the tree and whether failpoints
/// are currently enabled
pub struct State {
    pub enabled: bool,
    pub tree: Tree,
}

impl State {
    /// A fresh session with failpoints enabled and nothing explored yet.
    pub fn new(options: Options) -> (r: State)
        ensures
            r.enabled,
            r.tree.wf(),
            r.tree.node_count() == 0,
            r.tree.spec_current_edge().is_none(),
            r.tree.spec_options() == options,
            !r.tree.spec_non_determinism_witnessed(),
            !r.tree.done(),
    {
        State { enabled: true, tree: Tree::new(options) }
    }

    /// Starts a run of the tested code.
    pub fn begin_run(&mut self)
        ensures
            final(self).enabled == old(self).enabled,
            final(self).tree.is_started_from(old(self).tree),
            old(self).tree.wf() ==> final(self).tree.wf(),
            final(self).tree.active() == !final(self).tree.done(),
    {
        self.tree.start();
    }

    /// Whether the current run may be ended: it stands where something is
    /// left to explore.
    pub fn can_end_run(&self) -> (r: bool)
        requires
            self.tree.wf(),
        ensures
            r == self.tree.active(),
    {
        self.tree.is_active()
    }

    /// Ends a run of the tested code that returned normally; `Stop` when
    /// every path has been explored.
    pub fn end_run(&mut self) -> (r: ExecutionStatus)
        requires
            old(self).tree.wf(),
            old(self).tree.active(),
        ensures
            final(self).enabled == old(self).enabled,
            final(self).tree.wf(),
            final(self).tree.finalized_from(old(self).tree, Label::Finished, r),
    {
        self.tree.finalize(Label::Finished)
    }
}

} // verus!
