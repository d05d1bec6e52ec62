use vstd::prelude::*;

use crate::collections::BranchVec;
use crate::common::{Branch, Label};
use crate::options::Options;

verus! {

/// Index of a node in the tree's node vector
pub type NodeId = usize;

/// Children reachable from one (node, branch) position, by label
pub struct ForwardEdges {
    nodes: Vec<(Label, NodeId)>,
    num_completely_visited: usize,
}

/// Edge from a node back to the position it hangs from
#[derive(Clone, Copy)]
pub struct BackwardEdge {
    pub node_id: NodeId,
    pub branch: Branch,
    pub label: Label,
}

/// A point of some run, reached by one decision prefix
pub struct Node {
    parent: Option<BackwardEdge>,
    nexts: BranchVec<ForwardEdges>,
    is_final: bool,
}

/// Outcome of finishing a run
#[derive(Debug, PartialEq, Eq, Structural, Clone, Copy)]
pub enum ExecutionStatus {
    /// Some path is still unexplored: run the tested code again
    Continue,
    /// Every path has been explored
    Stop,
}

/// Number of entries of `es` whose child node is exhausted.
pub open spec fn count_exhausted(nodes: Seq<Node>, es: Seq<(Label, NodeId)>) -> nat
    decreases es.len(),
{
    if es.len() == 0 {
        0
    } else {
        count_exhausted(nodes, es.drop_last()) + if nodes[es.last().1 as int].is_exhausted() {
            1nat
        } else {
            0nat
        }
    }
}

/// An edge as plain values: the node, the branch, and the label's characters.
pub open spec fn edge_view(e: Option<BackwardEdge>) -> Option<(int, Branch, Option<Seq<char>>)> {
    match e {
        None => None,
        Some(e) => Some((e.node_id as int, e.branch, e.label@)),
    }
}

/// Position after an edge: `None` for the start of a run, else the node and
/// the branch taken there.
pub open spec fn edge_pos(e: Option<BackwardEdge>) -> Option<(int, Branch)> {
    match e {
        None => None,
        Some(e) => Some((e.node_id as int, e.branch)),
    }
}

impl ForwardEdges {
    /// Entries as (label, child) pairs, in order of insertion.
    pub closed spec fn entries(&self) -> Seq<(Label, NodeId)> {
        self.nodes@
    }

    /// Number of children recorded as exhausted.
    pub closed spec fn count(&self) -> nat {
        self.num_completely_visited as nat
    }

    pub open spec fn key_at(&self, j: int) -> Option<Seq<char>> {
        self.entries()[j].0@
    }

    pub open spec fn child_at(&self, j: int) -> NodeId {
        self.entries()[j].1
    }

    /// Exhausted once entered at least once and every child is exhausted.
    pub open spec fn is_exhausted(&self) -> bool {
        self.count() == if self.entries().len() == 0 {
            1
        } else {
            self.entries().len()
        }
    }

    pub open spec fn contains(&self, key: Option<Seq<char>>) -> bool {
        exists|j: int| 0 <= j < self.entries().len() && #[trigger] self.key_at(j) == key
    }

    pub open spec fn index_of(&self, key: Option<Seq<char>>) -> int {
        choose|j: int| 0 <= j < self.entries().len() && #[trigger] self.key_at(j) == key
    }

    /// The child recorded under `key`.
    pub open spec fn child(&self, key: Option<Seq<char>>) -> NodeId {
        self.child_at(self.index_of(key))
    }

    pub open spec fn has_child(&self, c: int) -> bool {
        exists|j: int| 0 <= j < self.entries().len() && #[trigger] self.child_at(j) == c
    }

    pub open spec fn keys_unique(&self) -> bool {
        forall|j1: int, j2: int|
            #![trigger self.key_at(j1), self.key_at(j2)]
            0 <= j1 < self.entries().len() && 0 <= j2 < self.entries().len() && self.key_at(j1)
                == self.key_at(j2) ==> j1 == j2
    }

    pub open spec fn children_unique(&self) -> bool {
        forall|j1: int, j2: int|
            #![trigger self.child_at(j1), self.child_at(j2)]
            0 <= j1 < self.entries().len() && 0 <= j2 < self.entries().len() && self.child_at(j1)
                == self.child_at(j2) ==> j1 == j2
    }

    /// An empty fan-out that has never been entered.
    pub fn new() -> (r: Self)
        ensures
            r.entries() == Seq::<(Label, NodeId)>::empty(),
            r.count() == 0,
    {
        ForwardEdges { nodes: Vec::new(), num_completely_visited: 0 }
    }

    /// Whether the fan-out was entered and all of its children are exhausted.
    pub fn is_completely_visited(&self) -> (r: bool)
        ensures
            r == self.is_exhausted(),
    {
        let n = self.nodes.len();
        self.num_completely_visited == if n == 0 {
            1
        } else {
            n
        }
    }

    /// The child recorded under `label`, if any.
    fn find(&self, label: &Label) -> (r: Option<NodeId>)
        requires
            self.keys_unique(),
        ensures
            r.is_some() == self.contains(label@),
            r matches Some(id) ==> id == self.child(label@),
    {
        let mut i: usize = 0;
        while i < self.nodes.len()
            invariant
                self.keys_unique(),
                0 <= i <= self.entries().len(),
                forall|j: int| 0 <= j < i ==> #[trigger] self.key_at(j) != label@,
            decreases self.entries().len() - i,
        {
            let (l, id) = self.nodes[i];
            if l.same(label) {
                assert(self.key_at(i as int) == label@);
                let ghost k = self.index_of(label@);
                assert(0 <= k < self.entries().len() && self.key_at(k) == label@);
                assert(k == i as int);
                return Some(id);
            }
            i = i + 1;
        }
        None
    }
}

impl Default for ForwardEdges {
    /// An empty fan-out that has never been entered.
    fn default() -> (r: Self)
        ensures
            r.entries() == Seq::<(Label, NodeId)>::empty(),
            r.count() == 0,
    {
        ForwardEdges::new()
    }
}

impl Node {
    /// Edge to the position this node hangs from; `None` at the start of a run.
    pub closed spec fn spec_parent(&self) -> Option<BackwardEdge> {
        self.parent
    }

    /// The fan-out after taking `branch` at this node.
    pub closed spec fn fan(&self, branch: Branch) -> ForwardEdges {
        self.nexts.spec_get(branch)
    }

    /// Whether some run ended at this node.
    pub closed spec fn spec_is_final(&self) -> bool {
        self.is_final
    }

    /// Final, or both of its fan-outs are exhausted.
    pub open spec fn is_exhausted(&self) -> bool {
        self.spec_is_final() || (self.fan(Branch::Activate).is_exhausted() && self.fan(
            Branch::Skip,
        ).is_exhausted())
    }

    /// A fresh node below `parent_edge`, with no children and not final.
    pub fn new(parent_edge: Option<BackwardEdge>) -> (r: Self)
        ensures
            r.spec_parent() == parent_edge,
            !r.spec_is_final(),
            r.fan(Branch::Activate).entries().len() == 0,
            r.fan(Branch::Activate).count() == 0,
            r.fan(Branch::Skip).entries().len() == 0,
            r.fan(Branch::Skip).count() == 0,
    {
        Node {
            parent: parent_edge,
            nexts: BranchVec::new(ForwardEdges::new(), ForwardEdges::new()),
            is_final: false,
        }
    }

    /// Whether every path through this node has been explored.
    pub fn is_completely_visited(&self) -> (r: bool)
        ensures
            r == self.is_exhausted(),
    {
        self.is_final || self.nexts[Branch::Activate].is_completely_visited()
            && self.nexts[Branch::Skip].is_completely_visited()
    }
}

/// The exploration tree: every decision prefix seen so far, with what is
/// known about which of its continuations are exhausted
pub struct Tree {
    options: Options,
    nodes: Vec<Node>,
    roots: ForwardEdges,
    current_edge: Option<BackwardEdge>,
    non_determinism_witnessed: bool,
}

impl Tree {
    pub closed spec fn spec_nodes(&self) -> Seq<Node> {
        self.nodes@
    }

    /// The fan-out before the first decision of a run.
    pub closed spec fn spec_roots(&self) -> ForwardEdges {
        self.roots
    }

    /// The last edge taken in the current run.
    pub closed spec fn spec_current_edge(&self) -> Option<BackwardEdge> {
        self.current_edge
    }

    pub closed spec fn spec_options(&self) -> Options {
        self.options
    }

    /// Whether a known position was seen to lead to a new label.
    pub closed spec fn spec_non_determinism_witnessed(&self) -> bool {
        self.non_determinism_witnessed
    }

    pub open spec fn node_count(&self) -> int {
        self.spec_nodes().len() as int
    }

    pub open spec fn valid_pos(&self, pos: Option<(int, Branch)>) -> bool {
        match pos {
            None => true,
            Some((p, _)) => 0 <= p < self.node_count(),
        }
    }

    /// The fan-out at a position: the roots, or a node's fan-out for a branch.
    pub open spec fn fan(&self, pos: Option<(int, Branch)>) -> ForwardEdges {
        match pos {
            None => self.spec_roots(),
            Some((p, b)) => self.spec_nodes()[p].fan(b),
        }
    }

    pub open spec fn node_exhausted(&self, i: int) -> bool {
        self.spec_nodes()[i].is_exhausted()
    }

    pub open spec fn parent_pos(&self, i: int) -> Option<(int, Branch)> {
        edge_pos(self.spec_nodes()[i].spec_parent())
    }

    pub open spec fn cur_pos(&self) -> Option<(int, Branch)> {
        edge_pos(self.spec_current_edge())
    }

    /// The fan-out that the next label of the current run goes into.
    pub open spec fn cur_fan(&self) -> ForwardEdges {
        self.fan(self.cur_pos())
    }

    /// The current run still stands where something is left to explore.
    pub open spec fn active(&self) -> bool {
        !self.cur_fan().is_exhausted()
    }

    /// Every path has been explored.
    pub open spec fn done(&self) -> bool {
        self.spec_roots().is_exhausted()
    }

    /// The node that the next label `key` leads to: the recorded child, or
    /// a node appended at the end.
    pub open spec fn target(&self, key: Option<Seq<char>>) -> int {
        if self.cur_fan().contains(key) {
            self.cur_fan().child(key) as int
        } else {
            self.node_count()
        }
    }

    /// A visit with label `key` finds a branch left to explore.
    pub open spec fn can_visit(&self, key: Option<Seq<char>>) -> bool {
        &&& self.wf()
        &&& self.active()
        &&& self.cur_fan().contains(key) ==> !self.node_exhausted(self.cur_fan().child(key) as int)
    }

    /// Labels are unique within a fan-out, children exist, are listed once,
    /// and point back to the position they hang from.
    pub closed spec fn shape_ok(&self, pos: Option<(int, Branch)>) -> bool {
        &&& self.fan(pos).keys_unique()
        &&& self.fan(pos).children_unique()
        &&& forall|j: int|
            0 <= j < self.fan(pos).entries().len() ==> (#[trigger] self.fan(pos).child_at(j) as int)
                < self.node_count() && self.parent_pos(self.fan(pos).child_at(j) as int) == pos
    }

    /// The fan-out's count is the number of its exhausted children.
    pub closed spec fn count_ok(&self, pos: Option<(int, Branch)>) -> bool {
        self.fan(pos).count() == count_exhausted(self.spec_nodes(), self.fan(pos).entries())
    }

    /// A node hangs below an older node, and is listed in its fan-out.
    pub closed spec fn node_ok(&self, i: int) -> bool {
        &&& match self.spec_nodes()[i].spec_parent() {
            Some(e) => (e.node_id as int) < i,
            None => true,
        }
        &&& self.fan(self.parent_pos(i)).has_child(i)
        &&& self.edge_label_ok(self.spec_nodes()[i].spec_parent())
    }

    /// The label under which node `i` is listed in the fan-out it hangs from.
    pub open spec fn label_of(&self, i: int) -> Option<Seq<char>> {
        let f = self.fan(self.parent_pos(i));
        f.key_at(choose|j: int| 0 <= j < f.entries().len() && #[trigger] f.child_at(j) == i)
    }

    /// An edge carries the label of the node it leaves.
    pub open spec fn edge_label_ok(&self, e: Option<BackwardEdge>) -> bool {
        match e {
            None => true,
            Some(e) => e.label@ == self.label_of(e.node_id as int),
        }
    }

    /// No node on the path from the roots down to node `i`, `i` excluded,
    /// is final.
    pub open spec fn no_final_above(&self, i: int) -> bool
        decreases i,
    {
        match self.spec_nodes()[i].spec_parent() {
            None => true,
            Some(e) => {
                if 0 <= e.node_id < i {
                    !self.spec_nodes()[e.node_id as int].spec_is_final() && self.no_final_above(
                        e.node_id as int,
                    )
                } else {
                    false
                }
            },
        }
    }

    /// Both continuations of node `i` were run, and everything behind them
    /// has been explored.
    pub open spec fn both_branches_explored(&self, i: int) -> bool {
        &&& self.spec_nodes()[i].fan(Branch::Activate).entries().len() > 0
        &&& self.spec_nodes()[i].fan(Branch::Activate).is_exhausted()
        &&& self.spec_nodes()[i].fan(Branch::Skip).entries().len() > 0
        &&& self.spec_nodes()[i].fan(Branch::Skip).is_exhausted()
    }

    /// Number of exhausted nodes among the first `n`.
    pub open spec fn exhausted_upto(&self, n: int) -> nat
        decreases n,
    {
        if n <= 0 {
            0
        } else {
            self.exhausted_upto(n - 1) + if self.node_exhausted(n - 1) {
                1nat
            } else {
                0nat
            }
        }
    }

    /// Shapes of all fan-outs and links of all nodes are as they should be,
    /// and the cursor stands at an existing position.
    pub closed spec fn structure_ok(&self) -> bool {
        &&& forall|pos: Option<(int, Branch)>| self.valid_pos(pos) ==> #[trigger] self.shape_ok(pos)
        &&& forall|i: int| 0 <= i < self.node_count() ==> #[trigger] self.node_ok(i)
        &&& self.valid_pos(self.cur_pos())
        &&& self.edge_label_ok(self.spec_current_edge())
    }

    /// Number of exhausted children of the fan-out at `pos`.
    pub open spec fn cnt(&self, pos: Option<(int, Branch)>) -> nat {
        count_exhausted(self.spec_nodes(), self.fan(pos).entries())
    }

    /// The tree is well formed: its structure is sound and every fan-out
    /// counts exactly its exhausted children.
    pub closed spec fn wf(&self) -> bool {
        &&& self.structure_ok()
        &&& forall|pos: Option<(int, Branch)>| self.valid_pos(pos) ==> #[trigger] self.count_ok(pos)
        &&& self.successors_ok()
    }

    /// Unless a position was seen to lead to a new label, every position
    /// has led to at most one label.
    pub closed spec fn successors_ok(&self) -> bool {
        !self.spec_non_determinism_witnessed() ==> forall|pos: Option<(int, Branch)>|
            self.valid_pos(pos) ==> #[trigger] self.fan(pos).entries().len() <= 1
    }
}

impl Tree {
    /// An empty tree, before any run.
    pub fn new(options: Options) -> (r: Self)
        ensures
            r.wf(),
            r.node_count() == 0,
            r.spec_roots().entries().len() == 0,
            r.spec_roots().count() == 0,
            r.spec_current_edge().is_none(),
            r.spec_options() == options,
            !r.spec_non_determinism_witnessed(),
            r.active(),
            !r.done(),
    {
        let r = Tree {
            options,
            nodes: Vec::new(),
            roots: ForwardEdges::new(),
            current_edge: None,
            non_determinism_witnessed: false,
        };
        assert(r.shape_ok(None) && r.count_ok(None));
        r
    }

    /// `self` has the structure of `before` with `label` followed from the
    /// current position: every parent edge and every fan-out is kept, but
    /// the current one, which gains `label` with a new node at the end when
    /// `label` is new there; the new node hangs from the current edge and
    /// has empty fan-outs.
    pub open spec fn extends_with(&self, before: Tree, label: Label) -> bool {
        let id = before.target(label@);
        let new_label = !before.cur_fan().contains(label@);
        &&& 0 <= id < self.node_count()
        &&& self.node_count() == before.node_count() + if new_label {
            1int
        } else {
            0int
        }
        &&& forall|i: int|
            0 <= i < before.node_count() ==> #[trigger] self.spec_nodes()[i].spec_parent()
                == before.spec_nodes()[i].spec_parent()
        &&& forall|pos: Option<(int, Branch)>|
            before.valid_pos(pos) && pos != before.cur_pos() ==> #[trigger] self.fan(pos).entries()
                == before.fan(pos).entries()
        &&& self.fan(before.cur_pos()).entries() == if new_label {
            before.cur_fan().entries().push((label, id as NodeId))
        } else {
            before.cur_fan().entries()
        }
        &&& new_label ==> self.spec_nodes()[id].spec_parent() == before.spec_current_edge()
        &&& edge_view(self.spec_nodes()[id].spec_parent()) == edge_view(before.spec_current_edge())
        &&& new_label ==> self.spec_nodes()[id].fan(Branch::Activate).entries().len() == 0
        &&& new_label ==> self.spec_nodes()[id].fan(Branch::Skip).entries().len() == 0
        &&& self.spec_options() == before.spec_options()
        &&& self.spec_non_determinism_witnessed() == (before.spec_non_determinism_witnessed() || (new_label
            && before.cur_fan().entries().len() >= 1))
    }

    /// Every final flag and every count of `before` is kept, and nodes added
    /// since are not final and count nothing.
    pub open spec fn keeps_marks(&self, before: Tree) -> bool {
        &&& forall|i: int|
            0 <= i < before.node_count() ==> #[trigger] self.spec_nodes()[i].spec_is_final()
                == before.spec_nodes()[i].spec_is_final()
        &&& forall|pos: Option<(int, Branch)>|
            before.valid_pos(pos) ==> #[trigger] self.fan(pos).count() == before.fan(pos).count()
        &&& forall|i: int|
            before.node_count() <= i < self.node_count() ==> !(#[trigger] self.spec_nodes()[i]).spec_is_final()
                && self.spec_nodes()[i].fan(Branch::Activate).count() == 0
                && self.spec_nodes()[i].fan(Branch::Skip).count() == 0
    }

    /// `self` is `before` after a visit of `label` that returned `r`: the
    /// label was followed (and recorded if new), and the preferred branch
    /// was taken unless everything behind it had been explored.
    pub open spec fn visited_from(&self, before: Tree, label: Label, r: Branch) -> bool {
        let id = before.target(label@);
        let pref = before.spec_options().branch_preference;
        let new_label = !before.cur_fan().contains(label@);
        &&& self.spec_current_edge() == Some(BackwardEdge { node_id: id as NodeId, branch: r, label })
        &&& r == if self.spec_nodes()[id].fan(pref).is_exhausted() {
            pref.spec_other()
        } else {
            pref
        }
        &&& new_label ==> r == pref
        &&& !new_label ==> self.spec_nodes() == before.spec_nodes()
        &&& !new_label ==> self.spec_roots() == before.spec_roots()
        &&& self.extends_with(before, label)
        &&& self.keeps_marks(before)
        &&& forall|i: int|
            0 <= i < before.node_count() ==> #[trigger] self.node_exhausted(i) == before.node_exhausted(i)
    }

    /// `self` is `before` after the run was ended at `label` with outcome
    /// `r`: the node reached is final and exhausted, no node became less
    /// explored, and `r` is `Stop` exactly when no path is left.
    pub open spec fn finalized_from(&self, before: Tree, label: Label, r: ExecutionStatus) -> bool {
        let id = before.target(label@);
        let new_label = !before.cur_fan().contains(label@);
        &&& (r == ExecutionStatus::Stop) == self.done()
        &&& self.spec_nodes()[id].spec_is_final()
        &&& self.node_exhausted(id)
        &&& self.extends_with(before, label)
        &&& forall|i: int|
            0 <= i < before.node_count() && i != id ==> #[trigger] self.spec_nodes()[i].spec_is_final()
                == before.spec_nodes()[i].spec_is_final()
        &&& forall|pos: Option<(int, Branch)>|
            before.valid_pos(pos) ==> #[trigger] self.fan(pos).count() >= before.fan(pos).count()
        &&& forall|i: int|
            0 <= i < before.node_count() && before.node_exhausted(i) ==> #[trigger] self.node_exhausted(i)
        &&& self.spec_current_edge() == before.spec_current_edge()
    }

    /// `self` is `before` with the cursor back at the start of a run.
    pub open spec fn is_started_from(&self, before: Tree) -> bool {
        &&& self.spec_nodes() == before.spec_nodes()
        &&& self.spec_roots() == before.spec_roots()
        &&& self.spec_options() == before.spec_options()
        &&& self.spec_non_determinism_witnessed() == before.spec_non_determinism_witnessed()
        &&& self.spec_current_edge().is_none()
    }

    /// Starts a run: the next label is looked up among the roots. Nothing
    /// else changes.
    pub fn start(&mut self)
        ensures
            final(self).is_started_from(*old(self)),
            old(self).wf() ==> final(self).wf(),
            final(self).active() == !final(self).done(),
    {
        let ghost t1 = *self;
        self.current_edge = None;
        proof {
            if t1.wf() {
                lemma_moved(t1, *self);
            }
        }
    }

    /// Whether a known position was seen to lead to a new label.
    pub fn non_determinism_witnessed(&self) -> (r: bool)
        ensures
            r == self.spec_non_determinism_witnessed(),
    {
        self.non_determinism_witnessed
    }

    /// Whether the current run stands where something is left to explore.
    pub fn is_active(&self) -> (r: bool)
        requires
            self.wf(),
        ensures
            r == self.active(),
    {
        match self.current_edge {
            Some(e) => !self.nodes[e.node_id].nexts.get(e.branch).is_completely_visited(),
            None => !self.roots.is_completely_visited(),
        }
    }

    /// Whether a visit with `label` now would find a branch left to explore.
    pub fn is_visitable(&self, label: &Label) -> (r: bool)
        requires
            self.wf(),
        ensures
            r == self.can_visit(label@),
    {
        if !self.is_active() {
            return false;
        }
        let found = match self.current_edge {
            Some(e) => {
                assert(self.shape_ok(self.cur_pos()));
                self.nodes[e.node_id].nexts.get(e.branch).find(label)
            },
            None => {
                assert(self.shape_ok(None));
                self.roots.find(label)
            },
        };
        match found {
            Some(id) => {
                let ghost j = self.cur_fan().index_of(label@);
                assert(self.shape_ok(self.cur_pos()));
                assert((self.cur_fan().child_at(j) as int) < self.node_count());
                !self.nodes[id].is_completely_visited()
            },
            None => true,
        }
    }

    /// Passes the failpoint `label`: records it after the current position
    /// if it is new there, and picks the branch to take, the preferred one
    /// unless everything behind it has been explored.
    pub fn visit(&mut self, label: Label) -> (r: Branch)
        requires
            old(self).can_visit(label@),
        ensures
            final(self).wf(),
            final(self).active(),
            final(self).visited_from(*old(self), label, r),
    {
        let ghost t0 = *self;
        let id = self.advance(label);
        let pref = self.options.branch_preference;
        let branch = if !self.nodes[id].nexts.get(pref).is_completely_visited() {
            pref
        } else {
            pref.other()
        };
        let ghost t1 = *self;
        self.current_edge = Some(BackwardEdge { node_id: id, branch, label });
        proof {
            let cp = t0.cur_pos();
            assert(t1.structure_ok());
            assert(t1.valid_pos(cp));
            assert(t1.shape_ok(cp));
            let j = if t0.cur_fan().contains(label@) {
                t0.cur_fan().index_of(label@)
            } else {
                t0.cur_fan().entries().len() as int
            };
            assert(t1.fan(cp).child_at(j) == id && t1.fan(cp).key_at(j) == label@);
            lemma_label_of_child(t1, cp, j);
            assert(self.fan(cp) == t1.fan(cp));
            assert(self.label_of(id as int) == t1.label_of(id as int));
            lemma_moved(t1, *self);
            assert(!t1.node_exhausted(id as int));
            assert(self.spec_nodes() == t1.spec_nodes());
            lemma_same_content(t0, t1, *self, label);
            assert forall|i: int| 0 <= i < t0.node_count() implies #[trigger] self.node_exhausted(i)
                == t0.node_exhausted(i) by {
                assert(t1.node_exhausted(i) == t0.node_exhausted(i));
            }
            if t0.cur_fan().contains(label@) {
                assert(t1 == t0);
            } else {
                assert(!t1.spec_nodes()[id as int].fan(pref).is_exhausted());
            }
        }
        branch
    }

    /// Whether every path has been explored.
    fn root_status(&self) -> (r: ExecutionStatus)
        ensures
            (r == ExecutionStatus::Stop) == self.done(),
    {
        if self.roots.is_completely_visited() {
            ExecutionStatus::Stop
        } else {
            ExecutionStatus::Continue
        }
    }

    /// Ends the current run at `label` (normally `Label::Finished`): marks
    /// the node reached final, and records up the path every position that
    /// this makes exhausted. Returns `Stop` exactly when no path is left.
    pub fn finalize(&mut self, label: Label) -> (r: ExecutionStatus)
        requires
            old(self).wf(),
            old(self).active(),
        ensures
            final(self).wf(),
            final(self).finalized_from(*old(self), label, r),
    {
        let ghost t0 = *self;
        let id = self.advance(label);
        let ghost t1 = *self;
        let was = self.nodes[id].is_completely_visited();
        self.nodes[id].is_final = true;
        let ghost t2 = *self;
        proof {
            assert forall|pos: Option<(int, Branch)>| t1.valid_pos(pos) implies #[trigger] t2.fan(pos) == t1.fan(pos) by {
                match pos {
                    Some((q, b)) => {
                        if q == id as int {
                            assert(t2.spec_nodes()[q].fan(b) == t1.spec_nodes()[q].fan(b));
                        }
                    },
                    None => {},
                }
            }
            assert forall|i: int| 0 <= i < t1.node_count() && i != id as int implies #[trigger] t2.node_exhausted(i)
                == t1.node_exhausted(i) by {
                assert(t2.spec_nodes()[i] == t1.spec_nodes()[i]);
            }
            assert forall|i: int|
                0 <= i < t1.node_count() implies #[trigger] t2.spec_nodes()[i].spec_parent()
                == t1.spec_nodes()[i].spec_parent() by {}
            lemma_same_shape(t1, t2);
            lemma_recount(t1, t2, id as int);
            assert forall|i: int| 0 <= i < t1.node_count() && i != id as int implies #[trigger] t2.spec_nodes()[i].spec_is_final()
                == t1.spec_nodes()[i].spec_is_final() by {
                assert(t2.spec_nodes()[i] == t1.spec_nodes()[i]);
            }
            assert(t0.structure_ok());
        }
        if was {
            proof {
                lemma_finalize_frame(t0, t1, t2, label);
                lemma_counts_carried(t1, t2, Set::empty());
            }
            return self.root_status();
        }
        let mut cur = self.nodes[id].parent;
        proof {
            assert(t1.node_ok(id as int));
            lemma_counts_carried(t1, t2, set![edge_pos(cur)]);
            assert(t1.count_ok(edge_pos(cur)));
        }
        loop
            invariant
                self.structure_ok(),
                self.valid_pos(edge_pos(cur)),
                forall|pos: Option<(int, Branch)>|
                    self.valid_pos(pos) && pos != edge_pos(cur) ==> #[trigger] self.count_ok(pos),
                self.fan(edge_pos(cur)).count() + 1 == self.cnt(edge_pos(cur)),
                self.node_count() == t1.node_count(),
                forall|i: int|
                    0 <= i < t0.node_count() && t0.node_exhausted(i) ==> #[trigger] self.node_exhausted(i),
                (id as int) < self.node_count(),
                id as int == t0.target(label@),
                t0 == *old(self),
                t0.valid_pos(t0.cur_pos()),
                t1.extends_with(t0, label),
                t1.keeps_marks(t0),
                t1.successors_ok(),
                forall|i: int|
                    0 <= i < t1.node_count() ==> #[trigger] self.spec_nodes()[i].spec_parent()
                        == t1.spec_nodes()[i].spec_parent(),
                forall|i: int|
                    0 <= i < t1.node_count() && i != t0.target(label@) ==> #[trigger] self.spec_nodes()[i].spec_is_final()
                        == t1.spec_nodes()[i].spec_is_final(),
                forall|pos: Option<(int, Branch)>|
                    #![trigger self.fan(pos)]
                    t1.valid_pos(pos) ==> self.fan(pos).entries() == t1.fan(pos).entries() && self.fan(pos).count()
                        >= t1.fan(pos).count(),
                self.spec_non_determinism_witnessed() == t1.spec_non_determinism_witnessed(),
                t1.node_count() == t0.node_count() + if t0.cur_fan().contains(label@) {
                    0int
                } else {
                    1int
                },
                self.spec_nodes()[id as int].spec_is_final(),
                self.spec_current_edge() == t0.spec_current_edge(),
                self.spec_options() == t0.spec_options(),
                self.spec_non_determinism_witnessed() == (t0.spec_non_determinism_witnessed() || (
                !t0.cur_fan().contains(label@) && t0.cur_fan().entries().len() >= 1)),
            decreases
                match cur {
                    Some(e) => e.node_id as int + 1,
                    None => 0,
                },
        {
            let ghost s1 = *self;
            let ghost x = edge_pos(cur);
            proof {
                lemma_count_bounds(s1.spec_nodes(), s1.fan(x).entries());
            }
            match cur {
                Some(e) => {
                    let p = e.node_id;
                    let b = e.branch;
                    let was_p = self.nodes[p].is_completely_visited();
                    let fan = self.nodes[p].nexts.get_mut(b);
                    let n = fan.nodes.len();
                    fan.num_completely_visited = fan.num_completely_visited + 1;
                    let now_p = self.nodes[p].is_completely_visited();
                    let ghost s2 = *self;
                    proof {
                        assert(s2.spec_nodes()[p as int].spec_is_final() == s1.spec_nodes()[p as int].spec_is_final());
                        assert(s2.spec_nodes()[id as int].spec_is_final());
                        assert(n == s1.fan(x).entries().len());
                        assert forall|pos: Option<(int, Branch)>|
                            s1.valid_pos(pos) && pos != x implies #[trigger] s2.fan(pos) == s1.fan(pos) by {
                            match pos {
                                Some((q, c)) => {
                                    if q == p as int {
                                        assert(c == b.spec_other());
                                    }
                                },
                                None => {},
                            }
                        }
                        assert forall|pos: Option<(int, Branch)>|
                            s1.valid_pos(pos) implies #[trigger] s2.fan(pos).entries() == s1.fan(pos).entries() by {
                            if pos != x {
                                assert(s2.fan(pos) == s1.fan(pos));
                            }
                        }
                        assert forall|i: int| 0 <= i < s1.node_count() && i != p as int implies #[trigger] s2.node_exhausted(i)
                            == s1.node_exhausted(i) by {
                            assert(s2.spec_nodes()[i] == s1.spec_nodes()[i]);
                        }
                        assert forall|i: int|
                            0 <= i < s1.node_count() implies #[trigger] s2.spec_nodes()[i].spec_parent()
                            == s1.spec_nodes()[i].spec_parent() by {}
                        lemma_same_shape(s1, s2);
                        lemma_recount(s1, s2, p as int);
                        assert forall|i: int| 0 <= i < s1.node_count() implies #[trigger] s2.spec_nodes()[i].spec_is_final()
                            == s1.spec_nodes()[i].spec_is_final() by {
                            if i != p as int {
                                assert(s2.spec_nodes()[i] == s1.spec_nodes()[i]);
                            }
                        }
                        assert forall|pos: Option<(int, Branch)>|
                            #![trigger s2.fan(pos)]
                            t1.valid_pos(pos) implies s2.fan(pos).entries() == t1.fan(pos).entries()
                            && s2.fan(pos).count() >= t1.fan(pos).count() by {
                            assert(s1.fan(pos).entries() == t1.fan(pos).entries());
                            if pos != x {
                                assert(s2.fan(pos) == s1.fan(pos));
                            }
                        }
                        assert(s1.node_ok(p as int));
                        assert(s1.parent_pos(p as int) != x);
                        assert(!s1.fan(x).is_exhausted());
                        assert(was_p ==> now_p);
                        assert(s2.node_exhausted(p as int) == now_p);
                        assert forall|i: int| 0 <= i < t0.node_count() && t0.node_exhausted(i) implies #[trigger] s2.node_exhausted(i) by {
                            assert(s1.node_exhausted(i));
                        }
                        assert(s2.fan(x).count() == s1.fan(x).count() + 1);
                        assert(s2.cnt(x) == s1.cnt(x));
                        assert(s2.count_ok(x));
                    }
                    if !was_p && now_p {
                        cur = self.nodes[p].parent;
                        proof {
                            lemma_counts_carried(s1, s2, set![x, edge_pos(cur)]);
                            assert(s1.count_ok(edge_pos(cur)));
                            assert(s2.fan(edge_pos(cur)) == s1.fan(edge_pos(cur)));
                        }
                    } else {
                        proof {
                            lemma_counts_carried(s1, s2, set![x]);
                            assert(s2.spec_nodes()[id as int].spec_is_final());
                            assert(s2.node_exhausted(id as int));
                            assert forall|i: int| 0 <= i < t0.node_count() && t0.node_exhausted(i) implies #[trigger] s2.node_exhausted(i) by {
                                assert(s1.node_exhausted(i));
                            }
                            lemma_finalize_frame(t0, t1, s2, label);
                            lemma_successors_kept(t1, s2);
                        }
                        return self.root_status();
                    }
                },
                None => {
                    let n = self.roots.nodes.len();
                    self.roots.num_completely_visited = self.roots.num_completely_visited + 1;
                    let ghost s2 = *self;
                    proof {
                        assert(n == s1.fan(x).entries().len());
                        assert(s2.spec_nodes() == s1.spec_nodes());
                        assert forall|pos: Option<(int, Branch)>|
                            s1.valid_pos(pos) implies #[trigger] s2.fan(pos).entries() == s1.fan(pos).entries() by {}
                        assert forall|i: int|
                            0 <= i < s1.node_count() implies #[trigger] s2.spec_nodes()[i].spec_parent()
                            == s1.spec_nodes()[i].spec_parent() by {}
                        lemma_same_shape(s1, s2);
                        assert forall|pos: Option<(int, Branch)>| pos != x implies #[trigger] s2.fan(pos)
                            == s1.fan(pos) by {}
                        lemma_counts_carried(s1, s2, set![x]);
                        assert(s2.spec_nodes()[id as int].spec_is_final());
                        assert(s2.node_exhausted(id as int));
                        assert forall|i: int| 0 <= i < t0.node_count() && t0.node_exhausted(i) implies #[trigger] s2.node_exhausted(i) by {
                            assert(s1.node_exhausted(i));
                        }
                        assert forall|pos: Option<(int, Branch)>|
                            #![trigger s2.fan(pos)]
                            t1.valid_pos(pos) implies s2.fan(pos).entries() == t1.fan(pos).entries()
                            && s2.fan(pos).count() >= t1.fan(pos).count() by {
                            assert(s1.fan(pos).entries() == t1.fan(pos).entries());
                            if pos != x {
                                assert(s2.fan(pos) == s1.fan(pos));
                            }
                        }
                        lemma_finalize_frame(t0, t1, s2, label);
                        lemma_successors_kept(t1, s2);
                    }
                    return self.root_status();
                },
            }
        }
    }

    /// Follows `label` from the current position, adding a node for it
    /// if this position has not led to it before.
    fn advance(&mut self, label: Label) -> (id: NodeId)
        requires
            old(self).wf(),
            old(self).active(),
        ensures
            final(self).wf(),
            id as int == old(self).target(label@),
            (id as int) < final(self).node_count(),
            old(self).cur_fan().contains(label@) ==> *final(self) == *old(self),
            !old(self).cur_fan().contains(label@) ==> {
                &&& !final(self).node_exhausted(id as int)
                &&& forall|b: Branch| !(#[trigger] final(self).spec_nodes()[id as int].fan(b)).is_exhausted()
            },
            final(self).extends_with(*old(self), label),
            final(self).keeps_marks(*old(self)),
            forall|i: int|
                0 <= i < old(self).node_count() ==> #[trigger] final(self).node_exhausted(i)
                    == old(self).node_exhausted(i),
            final(self).spec_current_edge() == old(self).spec_current_edge(),
    {
        let new_node_id = self.nodes.len();
        let ghost t1 = *self;
        let found = match self.current_edge {
            Some(e) => {
                assert(self.shape_ok(self.cur_pos()));
                self.nodes[e.node_id].nexts.get(e.branch).find(&label)
            },
            None => {
                assert(self.shape_ok(None));
                self.roots.find(&label)
            },
        };
        if let Some(id) = found {
            proof {
                let j = self.cur_fan().index_of(label@);
                assert(self.shape_ok(self.cur_pos()));
                assert((self.cur_fan().child_at(j) as int) < self.node_count());
                assert(self.node_ok(id as int));
                assert(self.parent_pos(id as int) == self.cur_pos());
            }
            return id;
        }
        match self.current_edge {
            Some(e) => {
                let fan = self.nodes[e.node_id].nexts.get_mut(e.branch);
                if fan.nodes.len() >= 1 {
                    self.non_determinism_witnessed = true;
                }
                fan.nodes.push((label, new_node_id));
            },
            None => {
                if self.roots.nodes.len() >= 1 {
                    self.non_determinism_witnessed = true;
                }
                self.roots.nodes.push((label, new_node_id));
            },
        }
        let fresh = Node::new(self.current_edge);
        self.nodes.push(fresh);
        let total = self.nodes.len();
        proof {
            assert(total == new_node_id + 1);
            assert(self.spec_nodes()[new_node_id as int] == fresh);
            assert forall|b: Branch|
                #[trigger] fresh.fan(b).entries().len() == 0 && fresh.fan(b).count() == 0 by {
                match b {
                    Branch::Skip => {},
                    Branch::Activate => {},
                }
            }
            assert forall|pos: Option<(int, Branch)>|
                t1.valid_pos(pos) && pos != t1.cur_pos() implies #[trigger] self.fan(pos) == t1.fan(pos) by {
                match pos {
                    Some((p, b)) => {
                        assert(self.spec_nodes()[p] == t1.spec_nodes()[p] || (Some((p, b.spec_other())) == t1.cur_pos()));
                    },
                    None => {},
                }
            }
            lemma_insert(t1, *self, label);
            assert forall|b: Branch| !(#[trigger] self.spec_nodes()[new_node_id as int].fan(b)).is_exhausted() by {
                assert(fresh.fan(b).entries().len() == 0);
            }
        }
        new_node_id
    }
}

/// A tree with the nodes, roots and settings of `t1` relates to `t0` as
/// `t1` does.
proof fn lemma_same_content(t0: Tree, t1: Tree, t2: Tree, label: Label)
    requires
        t1.extends_with(t0, label),
        t1.keeps_marks(t0),
        t2.spec_nodes() == t1.spec_nodes(),
        t2.spec_roots() == t1.spec_roots(),
        t2.spec_options() == t1.spec_options(),
        t2.spec_non_determinism_witnessed() == t1.spec_non_determinism_witnessed(),
    ensures
        t2.extends_with(t0, label),
        t2.keeps_marks(t0),
{
    assert forall|pos: Option<(int, Branch)>| #[trigger] t2.fan(pos) == t1.fan(pos) by {}
    assert(t2.fan(t0.cur_pos()) == t1.fan(t0.cur_pos()));
}

/// The end of a run changes only counts, which only grow, and final flags,
/// of which only the node reached at the end is set.
proof fn lemma_finalize_frame(t0: Tree, t1: Tree, t2: Tree, label: Label)
    requires
        t0.valid_pos(t0.cur_pos()),
        t1.extends_with(t0, label),
        t1.keeps_marks(t0),
        t2.node_count() == t1.node_count(),
        forall|i: int|
            0 <= i < t1.node_count() ==> #[trigger] t2.spec_nodes()[i].spec_parent() == t1.spec_nodes()[i].spec_parent(),
        forall|i: int|
            0 <= i < t1.node_count() && i != t0.target(label@) ==> #[trigger] t2.spec_nodes()[i].spec_is_final()
                == t1.spec_nodes()[i].spec_is_final(),
        forall|pos: Option<(int, Branch)>|
            #![trigger t2.fan(pos)]
            t1.valid_pos(pos) ==> t2.fan(pos).entries() == t1.fan(pos).entries() && t2.fan(pos).count()
                >= t1.fan(pos).count(),
        t2.spec_options() == t1.spec_options(),
        t2.spec_non_determinism_witnessed() == t1.spec_non_determinism_witnessed(),
    ensures
        t2.extends_with(t0, label),
        forall|i: int|
            0 <= i < t0.node_count() && i != t0.target(label@) ==> #[trigger] t2.spec_nodes()[i].spec_is_final()
                == t0.spec_nodes()[i].spec_is_final(),
        forall|pos: Option<(int, Branch)>|
            t0.valid_pos(pos) ==> #[trigger] t2.fan(pos).count() >= t0.fan(pos).count(),
{
    assert(t1.valid_pos(t0.cur_pos()));
    assert(t2.fan(t0.cur_pos()).entries() == t1.fan(t0.cur_pos()).entries());
    assert forall|pos: Option<(int, Branch)>|
        t0.valid_pos(pos) && pos != t0.cur_pos() implies #[trigger] t2.fan(pos).entries() == t0.fan(pos).entries() by {
        assert(t1.valid_pos(pos));
        assert(t1.fan(pos).entries() == t0.fan(pos).entries());
    }
    assert forall|pos: Option<(int, Branch)>| t0.valid_pos(pos) implies #[trigger] t2.fan(pos).count()
        >= t0.fan(pos).count() by {
        assert(t1.valid_pos(pos));
        assert(t1.fan(pos).count() == t0.fan(pos).count());
        assert(t2.fan(pos).count() >= t1.fan(pos).count());
    }
    assert forall|i: int| 0 <= i < t0.node_count() implies #[trigger] t2.spec_nodes()[i].spec_parent()
        == t0.spec_nodes()[i].spec_parent() by {
        assert(t1.spec_nodes()[i].spec_parent() == t0.spec_nodes()[i].spec_parent());
    }
    let id = t0.target(label@);
    assert(t2.spec_nodes()[id].spec_parent() == t1.spec_nodes()[id].spec_parent());
    if !t0.cur_fan().contains(label@) {
        assert(t1.valid_pos(Some((id, Branch::Activate))));
        assert(t1.valid_pos(Some((id, Branch::Skip))));
        assert(t2.fan(Some((id, Branch::Activate))).entries() == t1.fan(Some((id, Branch::Activate))).entries());
        assert(t2.fan(Some((id, Branch::Skip))).entries() == t1.fan(Some((id, Branch::Skip))).entries());
    }
    assert forall|i: int| 0 <= i < t0.node_count() && i != id implies #[trigger] t2.spec_nodes()[i].spec_is_final()
        == t0.spec_nodes()[i].spec_is_final() by {
        assert(t1.spec_nodes()[i].spec_is_final() == t0.spec_nodes()[i].spec_is_final());
    }
}

/// Moving the cursor to a valid position keeps the tree well formed.
proof fn lemma_moved(t1: Tree, t2: Tree)
    requires
        t1.wf(),
        t2.spec_nodes() == t1.spec_nodes(),
        t2.spec_roots() == t1.spec_roots(),
        t2.valid_pos(t2.cur_pos()),
        t2.edge_label_ok(t2.spec_current_edge()),
        t2.spec_non_determinism_witnessed() == t1.spec_non_determinism_witnessed(),
    ensures
        t2.wf(),
{
    lemma_successors_kept(t1, t2);
    assert forall|pos: Option<(int, Branch)>|
        #![trigger t2.shape_ok(pos)]
        #![trigger t2.count_ok(pos)]
        t2.valid_pos(pos) implies t2.shape_ok(pos) && t2.count_ok(pos) by {
        assert(t1.shape_ok(pos) && t1.count_ok(pos));
    }
    assert forall|i: int| 0 <= i < t2.node_count() implies #[trigger] t2.node_ok(i) by {
        assert(t1.node_ok(i));
    }
}

/// What a well-formed tree guarantees, in terms that callers can use: every
/// fan-out counts exactly its exhausted children, its labels and children
/// are unique, each child exists and hangs from that fan-out, each node hangs
/// below an older one and is listed where it hangs, and the cursor stands at
/// an existing position.
pub proof fn lemma_wf_facts(t: Tree)
    requires
        t.wf(),
    ensures
        t.valid_pos(t.cur_pos()),
        forall|pos: Option<(int, Branch)>|
            #![trigger t.fan(pos)]
            t.valid_pos(pos) ==> {
                &&& t.fan(pos).count() == t.cnt(pos)
                &&& t.fan(pos).keys_unique()
                &&& t.fan(pos).children_unique()
                &&& forall|j: int|
                    0 <= j < t.fan(pos).entries().len() ==> (#[trigger] t.fan(pos).child_at(j) as int)
                        < t.node_count() && t.parent_pos(t.fan(pos).child_at(j) as int) == pos
            },
        forall|i: int|
            0 <= i < t.node_count() ==> {
                &&& (#[trigger] t.spec_nodes()[i].spec_parent() matches Some(e) ==> (e.node_id as int) < i)
                &&& t.fan(t.parent_pos(i)).has_child(i)
            },
{
    assert forall|pos: Option<(int, Branch)>|
        #![trigger t.fan(pos)]
        t.valid_pos(pos) implies {
            &&& t.fan(pos).count() == t.cnt(pos)
            &&& t.fan(pos).keys_unique()
            &&& t.fan(pos).children_unique()
            &&& forall|j: int|
                0 <= j < t.fan(pos).entries().len() ==> (#[trigger] t.fan(pos).child_at(j) as int)
                    < t.node_count() && t.parent_pos(t.fan(pos).child_at(j) as int) == pos
        } by {
        assert(t.shape_ok(pos) && t.count_ok(pos));
    }
    assert forall|i: int| 0 <= i < t.node_count() implies {
        &&& (#[trigger] t.spec_nodes()[i].spec_parent() matches Some(e) ==> (e.node_id as int) < i)
        &&& t.fan(t.parent_pos(i)).has_child(i)
    } by {
        assert(t.node_ok(i));
    }
}

/// Starting a run twice in a row leaves the tree as starting it once.
pub proof fn lemma_start_idempotent(t0: Tree, t1: Tree, t2: Tree)
    requires
        t1.is_started_from(t0),
        t2.is_started_from(t1),
    ensures
        t2.is_started_from(t0),
{
}

/// Once every path has been explored, every node that no final node
/// precedes is exhausted: it is final itself, or both of its branches were
/// run and everything behind each of them was explored.
pub proof fn lemma_coverage(t: Tree)
    requires
        t.wf(),
        t.done(),
    ensures
        forall|i: int|
            0 <= i < t.node_count() && #[trigger] t.no_final_above(i) ==> t.node_exhausted(i) && (
            t.spec_nodes()[i].spec_is_final() || t.both_branches_explored(i)),
{
    assert forall|i: int|
        0 <= i < t.node_count() && #[trigger] t.no_final_above(i) implies t.node_exhausted(i) && (
        t.spec_nodes()[i].spec_is_final() || t.both_branches_explored(i)) by {
        lemma_covered_node(t, i);
        if !t.spec_nodes()[i].spec_is_final() {
            assert forall|b: Branch| #[trigger] t.spec_nodes()[i].fan(b).entries().len() > 0 by {
                assert(t.valid_pos(Some((i, b))));
                assert(t.count_ok(Some((i, b))));
                lemma_count_bounds(t.spec_nodes(), t.fan(Some((i, b))).entries());
                if t.spec_nodes()[i].fan(b).entries().len() == 0 {
                    assert(t.fan(Some((i, b))).entries() =~= Seq::<(Label, NodeId)>::empty());
                }
            }
            assert(t.spec_nodes()[i].fan(Branch::Activate).entries().len() > 0);
            assert(t.spec_nodes()[i].fan(Branch::Skip).entries().len() > 0);
        }
    }
}

/// Where the current position has only ever led to `label` (as it does for
/// tested code whose labels follow from the decisions alone), following
/// `label` again is possible and never reaches an exhausted node: a visit
/// finds a branch left, and a run ending there ends on a node that was not
/// explored yet.
pub proof fn lemma_single_successor_fresh(t: Tree, label: Label)
    requires
        t.wf(),
        t.active(),
        forall|j: int| 0 <= j < t.cur_fan().entries().len() ==> #[trigger] t.cur_fan().key_at(j) == label@,
    ensures
        t.can_visit(label@),
        !(t.cur_fan().contains(label@) && t.node_exhausted(t.target(label@))),
{
    let f = t.cur_fan();
    if f.contains(label@) {
        assert(t.shape_ok(t.cur_pos()));
        assert(t.count_ok(t.cur_pos()));
        let j = f.index_of(label@);
        assert(f.entries().len() == 1) by {
            if f.entries().len() > 1 {
                assert(f.key_at(0) == f.key_at(1));
            }
        }
        assert(j == 0);
        let es = f.entries();
        assert(count_exhausted(t.spec_nodes(), es.drop_last()) == 0) by {
            assert(es.drop_last().len() == 0);
        }
        if t.node_exhausted(t.target(label@)) {
            assert(es.last().1 == f.child_at(0));
            assert(f.count() == 1);
        }
    }
}

/// In a session where no position was ever seen to lead to a new label,
/// every visit finds a branch left to explore, and a run never ends on a
/// node that was already explored: so ending it makes strictly more nodes
/// exhausted, and such a session ends the tested code at most as many
/// times as its tree comes to hold nodes.
pub proof fn lemma_deterministic_runs_fresh(t: Tree, label: Label)
    requires
        t.wf(),
        t.active(),
        !t.spec_non_determinism_witnessed(),
    ensures
        t.can_visit(label@),
        !(t.cur_fan().contains(label@) && t.node_exhausted(t.target(label@))),
        forall|t1: Tree, r: ExecutionStatus|
            #[trigger] t1.finalized_from(t, label, r) ==> t1.exhausted_upto(t1.node_count())
                > t.exhausted_upto(t.node_count()),
{
    if t.cur_fan().contains(label@) {
        assert(t.structure_ok());
        assert(t.successors_ok());
        assert(t.cur_fan().entries().len() <= 1);
        let k = t.cur_fan().index_of(label@);
        assert forall|j: int| 0 <= j < t.cur_fan().entries().len() implies #[trigger] t.cur_fan().key_at(j)
            == label@ by {
            assert(j == k);
        }
        lemma_single_successor_fresh(t, label);
    }
    assert forall|t1: Tree, r: ExecutionStatus| #[trigger] t1.finalized_from(t, label, r) implies t1.exhausted_upto(
        t1.node_count(),
    ) > t.exhausted_upto(t.node_count()) by {
        lemma_finalize_progress(t, t1, label, r);
    }
}

/// Ending a run that did not end on an already exhausted node makes
/// strictly more nodes exhausted, and there are never more exhausted nodes
/// than nodes: runs that end this way number at most the nodes that the
/// tree comes to hold.
pub proof fn lemma_finalize_progress(t0: Tree, t1: Tree, label: Label, r: ExecutionStatus)
    requires
        t1.finalized_from(t0, label, r),
        t0.wf(),
        !(t0.cur_fan().contains(label@) && t0.node_exhausted(t0.target(label@))),
    ensures
        t1.exhausted_upto(t1.node_count()) > t0.exhausted_upto(t0.node_count()),
        t1.exhausted_upto(t1.node_count()) <= t1.node_count(),
{
    let n = t0.node_count();
    let id = t0.target(label@);
    lemma_exhausted_upto_bound(t1, t1.node_count());
    if t0.cur_fan().contains(label@) {
        let j = t0.cur_fan().index_of(label@);
        assert(t0.shape_ok(t0.cur_pos()));
        assert((t0.cur_fan().child_at(j) as int) < n);
        lemma_exhausted_upto_grows(t0, t1, n, id);
    } else {
        lemma_exhausted_upto_grows(t0, t1, n, -1);
    }
}

proof fn lemma_exhausted_upto_bound(t: Tree, n: int)
    ensures
        n >= 0 ==> t.exhausted_upto(n) <= n,
    decreases n,
{
    if n > 0 {
        lemma_exhausted_upto_bound(t, n - 1);
    }
}

/// Counting up to `n`, no node exhausted in `t0` is unexhausted in `t1`;
/// if `k` (below `n`) became exhausted, the count grew.
proof fn lemma_exhausted_upto_grows(t0: Tree, t1: Tree, n: int, k: int)
    requires
        forall|i: int| 0 <= i < n && t0.node_exhausted(i) ==> #[trigger] t1.node_exhausted(i),
        0 <= k < n ==> !t0.node_exhausted(k) && t1.node_exhausted(k),
    ensures
        t1.exhausted_upto(n) >= t0.exhausted_upto(n),
        0 <= k < n ==> t1.exhausted_upto(n) > t0.exhausted_upto(n),
    decreases n,
{
    if n > 0 {
        if t0.node_exhausted(n - 1) {
            assert(t1.node_exhausted(n - 1));
        }
        if k == n - 1 {
            lemma_exhausted_upto_grows(t0, t1, n - 1, -1);
        } else {
            lemma_exhausted_upto_grows(t0, t1, n - 1, k);
        }
    }
}

/// Every child of an exhausted fan-out is exhausted.
proof fn lemma_exhausted_fan(t: Tree, pos: Option<(int, Branch)>, c: int)
    requires
        t.wf(),
        t.valid_pos(pos),
        t.fan(pos).is_exhausted(),
        t.fan(pos).has_child(c),
    ensures
        t.node_exhausted(c),
{
    assert(t.count_ok(pos));
    let es = t.fan(pos).entries();
    let j = choose|j: int| 0 <= j < es.len() && #[trigger] t.fan(pos).child_at(j) == c;
    lemma_count_bounds(t.spec_nodes(), es);
    assert(t.spec_nodes()[es[j].1 as int].is_exhausted());
}

proof fn lemma_covered_node(t: Tree, i: int)
    requires
        t.wf(),
        t.done(),
        0 <= i < t.node_count(),
        t.no_final_above(i),
    ensures
        t.node_exhausted(i),
    decreases i,
{
    assert(t.node_ok(i));
    match t.spec_nodes()[i].spec_parent() {
        None => {
            lemma_exhausted_fan(t, None, i);
        },
        Some(e) => {
            let p = e.node_id as int;
            lemma_covered_node(t, p);
            assert(t.valid_pos(Some((p, e.branch))));
            lemma_exhausted_fan(t, Some((p, e.branch)), i);
        },
    }
}

/// Fan-outs that keep their entries keep having at most one label each.
proof fn lemma_successors_kept(t1: Tree, t2: Tree)
    requires
        t1.successors_ok(),
        t2.node_count() == t1.node_count(),
        forall|pos: Option<(int, Branch)>|
            t1.valid_pos(pos) ==> #[trigger] t2.fan(pos).entries() == t1.fan(pos).entries(),
        t2.spec_non_determinism_witnessed() == t1.spec_non_determinism_witnessed(),
    ensures
        t2.successors_ok(),
{
    if !t2.spec_non_determinism_witnessed() {
        assert forall|pos: Option<(int, Branch)>| t2.valid_pos(pos) implies #[trigger] t2.fan(pos).entries().len()
            <= 1 by {
            assert(t2.fan(pos).entries() == t1.fan(pos).entries());
        }
    }
}

/// Outside the positions in `except`, a fan-out whose count and number of
/// exhausted children are both unchanged keeps counting right.
proof fn lemma_counts_carried(s1: Tree, s2: Tree, except: Set<Option<(int, Branch)>>)
    requires
        s2.node_count() == s1.node_count(),
        forall|pos: Option<(int, Branch)>|
            s1.valid_pos(pos) && !except.contains(pos) ==> #[trigger] s1.count_ok(pos),
        forall|pos: Option<(int, Branch)>|
            #![trigger s2.cnt(pos)]
            s1.valid_pos(pos) && !except.contains(pos) ==> s2.cnt(pos) == s1.cnt(pos) && s2.fan(pos).count()
                == s1.fan(pos).count(),
    ensures
        forall|pos: Option<(int, Branch)>|
            s2.valid_pos(pos) && !except.contains(pos) ==> #[trigger] s2.count_ok(pos),
{
    assert forall|pos: Option<(int, Branch)>| s2.valid_pos(pos) && !except.contains(pos) implies #[trigger] s2.count_ok(
        pos,
    ) by {
        assert(s1.count_ok(pos));
        assert(s2.cnt(pos) == s1.cnt(pos));
    }
}

/// A child is known by the label under which its fan-out lists it.
proof fn lemma_label_of_child(t: Tree, pos: Option<(int, Branch)>, j: int)
    requires
        t.shape_ok(pos),
        0 <= j < t.fan(pos).entries().len(),
    ensures
        t.parent_pos(t.fan(pos).child_at(j) as int) == pos,
        t.label_of(t.fan(pos).child_at(j) as int) == t.fan(pos).key_at(j),
{
    lemma_label_of_child_in(t, pos, j);
}

/// As `lemma_label_of_child`, from what it needs of the fan-out alone.
proof fn lemma_label_of_child_in(t: Tree, pos: Option<(int, Branch)>, j: int)
    requires
        t.fan(pos).children_unique(),
        0 <= j < t.fan(pos).entries().len(),
        t.parent_pos(t.fan(pos).child_at(j) as int) == pos,
    ensures
        t.label_of(t.fan(pos).child_at(j) as int) == t.fan(pos).key_at(j),
{
    let c = t.fan(pos).child_at(j) as int;
    let f = t.fan(pos);
    let k = choose|k: int| 0 <= k < f.entries().len() && #[trigger] f.child_at(k) == c;
    assert(0 <= k < f.entries().len() && f.child_at(k) == c);
    assert(k == j);
}

/// Children stay unique in a fan-out whose entries are unchanged.
proof fn lemma_children_unique_here(s1: Tree, s2: Tree, pos: Option<(int, Branch)>)
    requires
        s1.shape_ok(pos),
        s2.fan(pos).entries() == s1.fan(pos).entries(),
    ensures
        s2.fan(pos).children_unique(),
{
    assert forall|j1: int, j2: int|
        #![trigger s2.fan(pos).child_at(j1), s2.fan(pos).child_at(j2)]
        0 <= j1 < s2.fan(pos).entries().len() && 0 <= j2 < s2.fan(pos).entries().len()
            && s2.fan(pos).child_at(j1) == s2.fan(pos).child_at(j2) implies j1 == j2 by {
        assert(s1.fan(pos).child_at(j1) == s2.fan(pos).child_at(j1));
        assert(s1.fan(pos).child_at(j2) == s2.fan(pos).child_at(j2));
    }
}

/// Changing counts and final flags keeps the structure.
proof fn lemma_same_shape(s1: Tree, s2: Tree)
    requires
        s1.structure_ok(),
        s2.node_count() == s1.node_count(),
        forall|i: int|
            0 <= i < s1.node_count() ==> #[trigger] s2.spec_nodes()[i].spec_parent() == s1.spec_nodes()[i].spec_parent(),
        forall|pos: Option<(int, Branch)>|
            s1.valid_pos(pos) ==> #[trigger] s2.fan(pos).entries() == s1.fan(pos).entries(),
        s2.spec_current_edge() == s1.spec_current_edge(),
    ensures
        s2.structure_ok(),
        forall|i: int| 0 <= i < s1.node_count() ==> #[trigger] s2.label_of(i) == s1.label_of(i),
{
    assert forall|i: int| 0 <= i < s1.node_count() implies #[trigger] s2.label_of(i) == s1.label_of(i) by {
        assert(s1.node_ok(i));
        let pp = s1.parent_pos(i);
        assert(s1.valid_pos(pp));
        let j = choose|j: int| 0 <= j < s1.fan(pp).entries().len() && #[trigger] s1.fan(pp).child_at(j) == i;
        lemma_label_of_child(s1, pp, j);
        assert(s2.spec_nodes()[i].spec_parent() == s1.spec_nodes()[i].spec_parent());
        assert(s2.fan(pp).entries() == s1.fan(pp).entries());
        assert(s2.fan(pp).child_at(j) == i);
        lemma_children_unique_here(s1, s2, pp);
        lemma_label_of_child_in(s2, pp, j);
    }
    assert forall|pos: Option<(int, Branch)>| s2.valid_pos(pos) implies #[trigger] s2.shape_ok(pos) by {
        assert(s1.shape_ok(pos));
        assert(s2.fan(pos).entries() == s1.fan(pos).entries());
        assert forall|j: int| 0 <= j < s2.fan(pos).entries().len() implies (#[trigger] s2.fan(pos).child_at(j) as int)
            < s2.node_count() && s2.parent_pos(s2.fan(pos).child_at(j) as int) == pos by {
            assert(s1.fan(pos).child_at(j) == s2.fan(pos).child_at(j));
        }
        assert forall|j1: int, j2: int|
            #![trigger s2.fan(pos).key_at(j1), s2.fan(pos).key_at(j2)]
            0 <= j1 < s2.fan(pos).entries().len() && 0 <= j2 < s2.fan(pos).entries().len()
                && s2.fan(pos).key_at(j1) == s2.fan(pos).key_at(j2) implies j1 == j2 by {
            assert(s1.fan(pos).key_at(j1) == s2.fan(pos).key_at(j1));
            assert(s1.fan(pos).key_at(j2) == s2.fan(pos).key_at(j2));
        }
        assert forall|j1: int, j2: int|
            #![trigger s2.fan(pos).child_at(j1), s2.fan(pos).child_at(j2)]
            0 <= j1 < s2.fan(pos).entries().len() && 0 <= j2 < s2.fan(pos).entries().len()
                && s2.fan(pos).child_at(j1) == s2.fan(pos).child_at(j2) implies j1 == j2 by {
            assert(s1.fan(pos).child_at(j1) == s2.fan(pos).child_at(j1));
            assert(s1.fan(pos).child_at(j2) == s2.fan(pos).child_at(j2));
        }
    }
    assert forall|i: int| 0 <= i < s2.node_count() implies #[trigger] s2.node_ok(i) by {
        assert(s1.node_ok(i));
        assert(s2.spec_nodes()[i].spec_parent() == s1.spec_nodes()[i].spec_parent());
        let pp = s1.parent_pos(i);
        let j = choose|j: int| 0 <= j < s1.fan(pp).entries().len() && #[trigger] s1.fan(pp).child_at(j) == i;
        assert(s1.valid_pos(pp));
        assert(s2.fan(pp).entries() == s1.fan(pp).entries());
        assert(s2.fan(pp).child_at(j) == i);
    }
}

/// When only node `c` may change whether it is exhausted, only the fan-out
/// it hangs from may change its number of exhausted children, by one.
proof fn lemma_recount(s1: Tree, s2: Tree, c: int)
    requires
        s1.structure_ok(),
        s2.node_count() == s1.node_count(),
        forall|pos: Option<(int, Branch)>|
            s1.valid_pos(pos) ==> #[trigger] s2.fan(pos).entries() == s1.fan(pos).entries(),
        0 <= c < s1.node_count(),
        forall|i: int|
            0 <= i < s1.node_count() && i != c ==> #[trigger] s2.node_exhausted(i) == s1.node_exhausted(i),
    ensures
        forall|pos: Option<(int, Branch)>|
            s1.valid_pos(pos) && (pos != s1.parent_pos(c) || s2.node_exhausted(c) == s1.node_exhausted(c))
                ==> #[trigger] s2.cnt(pos) == s1.cnt(pos),
        !s1.node_exhausted(c) && s2.node_exhausted(c) ==> s2.cnt(s1.parent_pos(c)) == s1.cnt(
            s1.parent_pos(c),
        ) + 1,
{
    assert forall|pos: Option<(int, Branch)>|
        s1.valid_pos(pos) && (pos != s1.parent_pos(c) || s2.node_exhausted(c) == s1.node_exhausted(c))
            implies #[trigger] s2.cnt(pos) == s1.cnt(pos) by {
        assert(s1.shape_ok(pos));
        let es = s1.fan(pos).entries();
        assert forall|j: int| 0 <= j < es.len() implies s1.spec_nodes()[#[trigger] es[j].1 as int].is_exhausted()
            == s2.spec_nodes()[es[j].1 as int].is_exhausted() by {
            assert(s1.fan(pos).child_at(j) == es[j].1);
            if es[j].1 as int != c {
                assert(s2.node_exhausted(es[j].1 as int) == s1.node_exhausted(es[j].1 as int));
            }
        }
        lemma_count_frame(s1.spec_nodes(), s2.spec_nodes(), es);
    }
    if !s1.node_exhausted(c) && s2.node_exhausted(c) {
        let pp = s1.parent_pos(c);
        assert(s1.node_ok(c));
        assert(s1.valid_pos(pp));
        assert(s1.shape_ok(pp));
        let es = s1.fan(pp).entries();
        let j0 = choose|j: int| 0 <= j < es.len() && #[trigger] s1.fan(pp).child_at(j) == c;
        assert forall|j: int| 0 <= j < es.len() && j != j0 implies s1.spec_nodes()[#[trigger] es[j].1 as int].is_exhausted()
            == s2.spec_nodes()[es[j].1 as int].is_exhausted() by {
            assert(s1.fan(pp).child_at(j) == es[j].1);
            assert(s1.fan(pp).child_at(j) != s1.fan(pp).child_at(j0));
            assert(s2.node_exhausted(es[j].1 as int) == s1.node_exhausted(es[j].1 as int));
        }
        lemma_count_one(s1.spec_nodes(), s2.spec_nodes(), es, j0);
    }
}

proof fn lemma_insert(t1: Tree, t2: Tree, label: Label)
    requires
        t1.wf(),
        t1.active(),
        !t1.cur_fan().contains(label@),
        t1.node_count() < usize::MAX,
        t2.spec_non_determinism_witnessed() == (t1.spec_non_determinism_witnessed()
            || t1.cur_fan().entries().len() >= 1),
        t2.node_count() == t1.node_count() + 1,
        forall|i: int|
            0 <= i < t1.node_count() ==> #[trigger] t2.spec_nodes()[i].spec_parent() == t1.spec_nodes()[i].spec_parent()
                && t2.spec_nodes()[i].spec_is_final() == t1.spec_nodes()[i].spec_is_final(),
        forall|pos: Option<(int, Branch)>|
            t1.valid_pos(pos) && pos != t1.cur_pos() ==> #[trigger] t2.fan(pos) == t1.fan(pos),
        t2.spec_current_edge() == t1.spec_current_edge(),
        t2.cur_fan().entries() == t1.cur_fan().entries().push((label, t1.node_count() as NodeId)),
        t2.cur_fan().count() == t1.cur_fan().count(),
        t2.spec_nodes()[t1.node_count()].spec_parent() == t1.spec_current_edge(),
        !t2.spec_nodes()[t1.node_count()].spec_is_final(),
        forall|b: Branch|
            #[trigger] t2.spec_nodes()[t1.node_count()].fan(b).entries().len() == 0
                && t2.spec_nodes()[t1.node_count()].fan(b).count() == 0,
    ensures
        t2.wf(),
        forall|i: int| 0 <= i < t1.node_count() ==> #[trigger] t2.node_exhausted(i) == t1.node_exhausted(i),
        !t2.node_exhausted(t1.node_count()),
{
    let n = t1.node_count();
    let cp = t1.cur_pos();
    assert(t1.shape_ok(cp) && t1.count_ok(cp));
    lemma_count_bounds(t1.spec_nodes(), t1.cur_fan().entries());
    assert forall|i: int| 0 <= i < n implies #[trigger] t2.node_exhausted(i) == t1.node_exhausted(i) by {
        assert(t2.spec_nodes()[i].spec_parent() == t1.spec_nodes()[i].spec_parent());
        assert forall|b: Branch| #[trigger] t2.spec_nodes()[i].fan(b).is_exhausted() == t1.spec_nodes()[i].fan(b).is_exhausted() by {
            if Some((i, b)) != cp {
                assert(t2.fan(Some((i, b))) == t1.fan(Some((i, b))));
            } else {
                assert(t2.fan(cp).count() == t1.fan(cp).count());
                assert(t1.fan(cp).count() <= t1.fan(cp).entries().len());
                assert(!t2.fan(cp).is_exhausted());
            }
        }
        assert(t2.spec_nodes()[i].fan(Branch::Activate).is_exhausted() == t1.spec_nodes()[i].fan(Branch::Activate).is_exhausted());
        assert(t2.spec_nodes()[i].fan(Branch::Skip).is_exhausted() == t1.spec_nodes()[i].fan(Branch::Skip).is_exhausted());
    }
    assert(t2.spec_nodes()[n].fan(Branch::Activate).entries().len() == 0);
    assert forall|pos: Option<(int, Branch)>|
        #![trigger t2.shape_ok(pos)]
        #![trigger t2.count_ok(pos)]
        t2.valid_pos(pos) implies t2.shape_ok(pos) && t2.count_ok(pos) by {
        let fresh = match pos {
            Some((p, b)) => p == n,
            None => false,
        };
        if fresh {
            assert(t2.fan(pos).entries().len() == 0);
            assert(t2.fan(pos).entries() =~= Seq::<(Label, NodeId)>::empty());
        } else {
        assert(t1.valid_pos(pos));
        assert(t1.shape_ok(pos) && t1.count_ok(pos));
        let es1 = t1.fan(pos).entries();
        assert forall|j: int| 0 <= j < es1.len() implies t1.spec_nodes()[#[trigger] es1[j].1 as int].is_exhausted()
            == t2.spec_nodes()[es1[j].1 as int].is_exhausted() by {
            assert(t1.fan(pos).child_at(j) == es1[j].1);
            assert(t2.node_exhausted(es1[j].1 as int) == t1.node_exhausted(es1[j].1 as int));
        }
        lemma_count_frame(t1.spec_nodes(), t2.spec_nodes(), es1);
        if pos == cp {
            let f2 = t2.fan(pos);
            lemma_count_push(t2.spec_nodes(), es1, (label, n as NodeId));
            assert forall|j1: int, j2: int|
                #![trigger f2.key_at(j1), f2.key_at(j2)]
                0 <= j1 < f2.entries().len() && 0 <= j2 < f2.entries().len() && f2.key_at(j1) == f2.key_at(j2)
                implies j1 == j2 by {
                if j1 < es1.len() {
                    assert(f2.key_at(j1) == t1.fan(pos).key_at(j1));
                }
                if j2 < es1.len() {
                    assert(f2.key_at(j2) == t1.fan(pos).key_at(j2));
                }
            }
            assert forall|j1: int, j2: int|
                #![trigger f2.child_at(j1), f2.child_at(j2)]
                0 <= j1 < f2.entries().len() && 0 <= j2 < f2.entries().len() && f2.child_at(j1) == f2.child_at(j2)
                implies j1 == j2 by {
                if j1 < es1.len() {
                    assert(f2.child_at(j1) == t1.fan(pos).child_at(j1));
                    assert((t1.fan(pos).child_at(j1) as int) < n);
                }
                if j2 < es1.len() {
                    assert(f2.child_at(j2) == t1.fan(pos).child_at(j2));
                    assert((t1.fan(pos).child_at(j2) as int) < n);
                }
            }
            assert forall|j: int| 0 <= j < f2.entries().len() implies (#[trigger] f2.child_at(j) as int)
                < t2.node_count() && t2.parent_pos(f2.child_at(j) as int) == pos by {
                if j < es1.len() {
                    assert(f2.child_at(j) == t1.fan(pos).child_at(j));
                }
            }
        } else {
            assert(t2.fan(pos) == t1.fan(pos));
            assert forall|j: int| 0 <= j < t2.fan(pos).entries().len() implies (#[trigger] t2.fan(pos).child_at(j) as int)
                < t2.node_count() && t2.parent_pos(t2.fan(pos).child_at(j) as int) == pos by {
                assert(t1.fan(pos).child_at(j) == t2.fan(pos).child_at(j));
            }
        }
        }
    }
    if !t2.spec_non_determinism_witnessed() {
        assert forall|pos: Option<(int, Branch)>| t2.valid_pos(pos) implies #[trigger] t2.fan(pos).entries().len()
            <= 1 by {
            let fresh = match pos {
                Some((p, b)) => p == n,
                None => false,
            };
            if !fresh && pos != cp {
                assert(t1.valid_pos(pos));
                assert(t2.fan(pos) == t1.fan(pos));
            }
        }
    }
    assert forall|q: int| 0 <= q < n implies #[trigger] t2.label_of(q) == t1.label_of(q) by {
        assert(t1.node_ok(q));
        let pp = t1.parent_pos(q);
        assert(t1.valid_pos(pp));
        assert(t2.spec_nodes()[q].spec_parent() == t1.spec_nodes()[q].spec_parent());
        let j = choose|j: int| 0 <= j < t1.fan(pp).entries().len() && #[trigger] t1.fan(pp).child_at(j) == q;
        lemma_label_of_child(t1, pp, j);
        assert(t2.valid_pos(pp));
        assert(t2.shape_ok(pp));
        if pp == cp {
            assert(t2.fan(pp).entries()[j] == t1.fan(pp).entries()[j]);
        } else {
            assert(t2.fan(pp) == t1.fan(pp));
        }
        assert(t2.fan(pp).child_at(j) == q);
        lemma_label_of_child(t2, pp, j);
    }
    match t1.spec_current_edge() {
        Some(e) => {
            assert(t1.structure_ok());
            assert(t2.label_of(e.node_id as int) == t1.label_of(e.node_id as int));
        },
        None => {},
    }
    assert forall|i: int| 0 <= i < t2.node_count() implies #[trigger] t2.node_ok(i) by {
        if i < n {
            assert(t1.node_ok(i));
            assert(t2.spec_nodes()[i].spec_parent() == t1.spec_nodes()[i].spec_parent());
            match t1.spec_nodes()[i].spec_parent() {
                Some(e) => {
                    assert(t2.label_of(e.node_id as int) == t1.label_of(e.node_id as int));
                },
                None => {},
            }
            let pp = t1.parent_pos(i);
            assert(t2.parent_pos(i) == pp);
            let j = choose|j: int| 0 <= j < t1.fan(pp).entries().len() && #[trigger] t1.fan(pp).child_at(j) == i;
            if pp == cp {
                assert(t2.fan(pp).child_at(j) == i);
            } else {
                assert(t1.valid_pos(pp));
                assert(t2.fan(pp) == t1.fan(pp));
                assert(t2.fan(pp).child_at(j) == i);
            }
        } else {
            assert(t2.fan(cp).child_at(t1.cur_fan().entries().len() as int) == i);
        }
    }
}

proof fn lemma_count_frame(n1: Seq<Node>, n2: Seq<Node>, es: Seq<(Label, NodeId)>)
    requires
        forall|j: int|
            0 <= j < es.len() ==> n1[#[trigger] es[j].1 as int].is_exhausted() == n2[es[j].1 as int].is_exhausted(),
    ensures
        count_exhausted(n1, es) == count_exhausted(n2, es),
    decreases es.len(),
{
    if es.len() > 0 {
        lemma_count_frame(n1, n2, es.drop_last());
    }
}

proof fn lemma_count_one(n1: Seq<Node>, n2: Seq<Node>, es: Seq<(Label, NodeId)>, j0: int)
    requires
        0 <= j0 < es.len(),
        forall|j: int|
            0 <= j < es.len() && j != j0 ==> n1[#[trigger] es[j].1 as int].is_exhausted()
                == n2[es[j].1 as int].is_exhausted(),
        !n1[es[j0].1 as int].is_exhausted(),
        n2[es[j0].1 as int].is_exhausted(),
    ensures
        count_exhausted(n2, es) == count_exhausted(n1, es) + 1,
    decreases es.len(),
{
    if j0 == es.len() - 1 {
        lemma_count_frame(n1, n2, es.drop_last());
    } else {
        lemma_count_one(n1, n2, es.drop_last(), j0);
    }
}

proof fn lemma_count_bounds(nodes: Seq<Node>, es: Seq<(Label, NodeId)>)
    ensures
        count_exhausted(nodes, es) <= es.len(),
        count_exhausted(nodes, es) == es.len() ==> forall|j: int|
            0 <= j < es.len() ==> nodes[#[trigger] es[j].1 as int].is_exhausted(),
    decreases es.len(),
{
    if es.len() > 0 {
        lemma_count_bounds(nodes, es.drop_last());
        if count_exhausted(nodes, es) == es.len() {
            assert forall|j: int| 0 <= j < es.len() implies nodes[#[trigger] es[j].1 as int].is_exhausted() by {
                if j < es.len() - 1 {
                    assert(es[j] == es.drop_last()[j]);
                }
            }
        }
    }
}

proof fn lemma_count_push(nodes: Seq<Node>, es: Seq<(Label, NodeId)>, x: (Label, NodeId))
    ensures
        count_exhausted(nodes, es.push(x)) == count_exhausted(nodes, es) + if nodes[x.1 as int].is_exhausted() {
            1nat
        } else {
            0nat
        },
{
    assert(es.push(x).drop_last() =~= es);
}

} // verus!
