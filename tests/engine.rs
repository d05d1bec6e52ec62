use faine::{
    enable_failpoints, failpoint_branch, Branch, ExecutionStatus, ForwardEdges, Label, Node,
    Options, Runner, State, Tree,
};

/// Runs `func` until every path is explored; returns the decision sequence
/// of each run, in order.
fn explore<F: FnMut(&mut Option<State>) -> Vec<Branch>>(runner: Runner, mut func: F) -> Vec<Vec<Branch>> {
    let mut slot = Some(runner.into_state());
    let mut runs = vec![];
    loop {
        slot.as_mut().unwrap().begin_run();
        runs.push(func(&mut slot));
        let state = slot.as_mut().unwrap();
        assert!(state.can_end_run());
        if state.end_run() == ExecutionStatus::Stop {
            break;
        }
    }
    runs
}

/// Two failpoints that are always passed, whatever was decided.
fn two_overrides(slot: &mut Option<State>) -> Vec<Branch> {
    let a = failpoint_branch(slot, Label::Failpoint("a"));
    let b = failpoint_branch(slot, Label::Failpoint("b"));
    vec![a, b]
}

fn sorted(mut runs: Vec<Vec<Branch>>) -> Vec<Vec<Branch>> {
    runs.sort_by_key(|r| r.iter().map(|b| *b == Branch::Activate).collect::<Vec<bool>>());
    runs
}

#[test]
fn empty_closure_stops_on_first_finalize() {
    let mut tree = Tree::new(Options::default());
    tree.start();
    assert_eq!(tree.finalize(Label::Finished), ExecutionStatus::Stop);
}

#[test]
fn start_twice_behaves_like_once() {
    let mut once = Tree::new(Options::default());
    once.start();
    let mut twice = Tree::new(Options::default());
    twice.start();
    twice.start();
    assert_eq!(once.visit(Label::Failpoint("x")), twice.visit(Label::Failpoint("x")));
    assert_eq!(once.finalize(Label::Finished), twice.finalize(Label::Finished));
    once.start();
    twice.start();
    twice.start();
    assert_eq!(once.visit(Label::Failpoint("x")), Branch::Skip);
    assert_eq!(twice.visit(Label::Failpoint("x")), Branch::Skip);
}

#[test]
fn single_failpoint_tree_level() {
    let mut tree = Tree::new(Options::default());
    tree.start();
    assert_eq!(tree.visit(Label::Failpoint("1")), Branch::Activate);
    assert_eq!(tree.finalize(Label::Finished), ExecutionStatus::Continue);
    tree.start();
    assert_eq!(tree.visit(Label::Failpoint("1")), Branch::Skip);
    assert_eq!(tree.finalize(Label::Finished), ExecutionStatus::Stop);
    assert!(!tree.non_determinism_witnessed());
}

#[test]
fn every_combination_runs_exactly_once() {
    let runs = explore(Runner::default(), two_overrides);
    assert_eq!(runs.len(), 4);
    assert_eq!(runs[0], vec![Branch::Activate, Branch::Activate]);
    assert_eq!(
        sorted(runs),
        vec![
            vec![Branch::Skip, Branch::Skip],
            vec![Branch::Skip, Branch::Activate],
            vec![Branch::Activate, Branch::Skip],
            vec![Branch::Activate, Branch::Activate],
        ]
    );
}

#[test]
fn preference_changes_order_not_paths() {
    let activate_first = explore(Runner::default(), two_overrides);
    let skip_first = explore(Runner::default().with_branch_preference(Branch::Skip), two_overrides);
    assert_eq!(skip_first[0], vec![Branch::Skip, Branch::Skip]);
    assert_ne!(activate_first, skip_first);
    assert_eq!(sorted(activate_first), sorted(skip_first));
}

#[test]
fn disabled_failpoints_are_skipped_and_not_recorded() {
    let runs = explore(Runner::default(), |slot| {
        enable_failpoints(slot, false);
        let a = failpoint_branch(slot, Label::Failpoint("a"));
        enable_failpoints(slot, true);
        vec![a]
    });
    assert_eq!(runs, vec![vec![Branch::Skip]]);
}

#[test]
fn disabling_without_session_does_nothing() {
    let mut slot: Option<State> = None;
    enable_failpoints(&mut slot, false);
    assert!(slot.is_none());
    assert_eq!(failpoint_branch(&mut slot, Label::Failpoint("x")), Branch::Skip);
    assert!(slot.is_none());
}

#[test]
fn enable_failpoints_sets_flag() {
    let mut slot = Some(Runner::default().into_state());
    assert!(slot.as_ref().unwrap().enabled);
    enable_failpoints(&mut slot, false);
    assert!(!slot.as_ref().unwrap().enabled);
    enable_failpoints(&mut slot, true);
    assert!(slot.as_ref().unwrap().enabled);
}

#[test]
fn new_label_after_known_prefix_is_noticed() {
    let mut tree = Tree::new(Options::default());
    tree.start();
    assert_eq!(tree.visit(Label::Failpoint("a")), Branch::Activate);
    assert_eq!(tree.finalize(Label::Finished), ExecutionStatus::Continue);
    assert!(!tree.non_determinism_witnessed());
    tree.start();
    assert!(tree.is_visitable(&Label::Failpoint("b")));
    assert_eq!(tree.visit(Label::Failpoint("b")), Branch::Activate);
    assert!(tree.non_determinism_witnessed());
}

#[test]
fn exhausted_failpoint_is_not_visitable() {
    let mut tree = Tree::new(Options::default());
    tree.start();
    tree.visit(Label::Failpoint("a"));
    tree.finalize(Label::Finished);
    tree.start();
    tree.visit(Label::Failpoint("a"));
    tree.finalize(Label::Finished);
    tree.start();
    assert!(!tree.is_active());
    assert!(!tree.is_visitable(&Label::Failpoint("a")));
}

#[test]
fn labels_compare_by_characters() {
    let name: &'static str = Box::leak(String::from("x").into_boxed_str());
    assert!(Label::Failpoint("x").same(&Label::Failpoint(name)));
    assert!(!Label::Failpoint("x").same(&Label::Failpoint("y")));
    assert!(!Label::Failpoint("x").same(&Label::Finished));
    assert!(Label::Finished.same(&Label::Finished));
}

#[test]
fn options_default_and_builder() {
    assert_eq!(Options::default().branch_preference, Branch::Activate);
    assert_eq!(Options::default().branch_preference(Branch::Skip).branch_preference, Branch::Skip);
    assert_eq!(Runner::default().options().branch_preference, Branch::Activate);
    assert_eq!(
        Runner::default().with_branch_preference(Branch::Skip).options().branch_preference,
        Branch::Skip
    );
}

#[test]
fn fresh_parts_are_not_exhausted() {
    assert!(!ForwardEdges::new().is_completely_visited());
    assert!(!Node::new(None).is_completely_visited());
}

#[test]
fn session_state_starts_enabled_and_unexplored() {
    let mut state = State::new(Options::default());
    assert!(state.enabled);
    state.begin_run();
    assert!(state.can_end_run());
    assert_eq!(state.end_run(), ExecutionStatus::Stop);
}

#[test]
fn three_failpoints_tree_level() {
    let mut tree = Tree::new(Options::default());
    let names = ["1", "2", "3"];
    let mut answers = vec![];
    let mut statuses = vec![];
    loop {
        tree.start();
        let mut run = vec![];
        for name in names {
            let b = tree.visit(Label::Failpoint(name));
            run.push(b);
            if b == Branch::Activate {
                break;
            }
        }
        answers.push(run);
        let status = tree.finalize(Label::Finished);
        statuses.push(status);
        if status == ExecutionStatus::Stop {
            break;
        }
    }
    assert_eq!(
        answers,
        vec![
            vec![Branch::Activate],
            vec![Branch::Skip, Branch::Activate],
            vec![Branch::Skip, Branch::Skip, Branch::Activate],
            vec![Branch::Skip, Branch::Skip, Branch::Skip],
        ]
    );
    assert_eq!(
        statuses,
        vec![
            ExecutionStatus::Continue,
            ExecutionStatus::Continue,
            ExecutionStatus::Continue,
            ExecutionStatus::Stop,
        ]
    );
    assert!(!tree.non_determinism_witnessed());
}
