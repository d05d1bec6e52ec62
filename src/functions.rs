use vstd::prelude::*;

use crate::common::{Branch, Label};
use crate::state::State;

verus! {

/// Enables or disables failpoints of the installed session, if any.
///
/// While they are disabled, failpoints are passed as if they did not exist:
/// nothing is recorded and every one of them is skipped. Without a session
/// nothing happens.
pub fn enable_failpoints(slot: &mut Option<State>, enable: bool)
    ensures
        match *old(slot) {
            None => final(slot).is_none(),
            Some(s) => *final(slot) == Some(State { enabled: enable, tree: s.tree }),
        },
{
    match slot {
        Some(state) => {
            state.enabled = enable;
        },
        None => {},
    }
}

/// Whether passing the failpoint `label` now is sound: there is no session,
/// failpoints are disabled, or the tree has a branch left to explore there.
pub fn can_visit_failpoint(slot: &Option<State>, label: &Label) -> (r: bool)
    requires
        slot matches Some(s) ==> s.tree.wf(),
    ensures
        r == match *slot {
            None => true,
            Some(s) => !s.enabled || s.tree.can_visit(label@),
        },
{
    match slot {
        Some(state) => !state.enabled || state.tree.is_visitable(label),
        None => true,
    }
}

/// Passes the failpoint `label` and returns the branch to take.
///
/// Without a session, or with failpoints disabled, the failpoint is skipped
/// and nothing is observed or recorded. Otherwise the session's tree visits
/// it.
pub fn failpoint_branch(slot: &mut Option<State>, label: Label) -> (r: Branch)
    requires
        *old(slot) matches Some(s) ==> (s.enabled ==> s.tree.can_visit(label@)),
    ensures
        match *old(slot) {
            None => r == Branch::Skip && final(slot).is_none(),
            Some(s) => if s.enabled {
                *final(slot) matches Some(s2) && s2.enabled && s2.tree.wf() && s2.tree.active()
                    && s2.tree.visited_from(s.tree, label, r)
            } else {
                r == Branch::Skip && *final(slot) == *old(slot)
            },
        },
{
    match slot {
        Some(state) => {
            if state.enabled {
                state.tree.visit(label)
            } else {
                Branch::Skip
            }
        },
        None => Branch::Skip,
    }
}

} // verus!
