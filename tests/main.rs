use faine::{
    can_visit_failpoint, enable_failpoints, failpoint_branch, Branch, ExecutionStatus, Label,
    Runner, State,
};

/// Runs `func` until every path has been explored, as a session does.
fn run_session<F: FnMut(&mut Option<State>)>(runner: Runner, mut func: F) -> usize {
    let mut slot = Some(runner.into_state());
    let mut runs = 0;
    loop {
        slot.as_mut().unwrap().begin_run();
        func(&mut slot);
        runs += 1;
        let state = slot.as_mut().unwrap();
        assert!(state.can_end_run());
        if state.end_run() == ExecutionStatus::Stop {
            break;
        }
    }
    runs
}

/// Passes the named failpoint; true when it is activated.
fn inject(slot: &mut Option<State>, name: &'static str) -> bool {
    let label = Label::Failpoint(name);
    assert!(can_visit_failpoint(slot, &label));
    failpoint_branch(slot, label) == Branch::Activate
}

#[test]
fn test_runner_with_no_failpoints() {
    let runs = run_session(Runner::default(), |_| {});
    assert_eq!(runs, 1);
}

#[test]
fn test_failpoints_outside_of_runner() {
    fn foo(slot: &mut Option<State>) -> Result<(), usize> {
        if inject(slot, "1") {
            return Err(1);
        }
        Ok(())
    }
    let mut slot: Option<State> = None;
    assert_eq!(foo(&mut slot), Ok(()));
    assert!(slot.is_none());
}

#[test]
fn test_simple() {
    fn foo(slot: &mut Option<State>) -> Result<(), usize> {
        if inject(slot, "1") {
            return Err(1);
        }
        if inject(slot, "2") {
            return Err(2);
        }
        if inject(slot, "3") {
            return Err(3);
        }
        Ok(())
    }

    let mut results = vec![];
    run_session(Runner::default(), |slot| {
        results.push(foo(slot));
    });
    results.sort();

    assert_eq!(results, vec![Ok(()), Err(1), Err(2), Err(3)]);
}

#[test]
fn test_enable_disable() {
    fn foo(slot: &mut Option<State>) -> Result<(), usize> {
        if inject(slot, "1") {
            return Err(1);
        }
        enable_failpoints(slot, false);
        if inject(slot, "2") {
            return Err(2);
        }
        enable_failpoints(slot, true);
        if inject(slot, "3") {
            return Err(3);
        }
        Ok(())
    }

    let mut results = vec![];
    run_session(Runner::default(), |slot| {
        results.push(foo(slot));
    });
    results.sort();

    assert_eq!(results, vec![Ok(()), Err(1), Err(3)]);
}

#[test]
fn test_branch_preference_default() {
    fn foo(slot: &mut Option<State>) -> Result<(), usize> {
        if inject(slot, "1") {
            return Err(1);
        }
        Ok(())
    }

    let mut results = vec![];
    run_session(Runner::default(), |slot| {
        results.push(foo(slot));
    });

    assert_eq!(results, vec![Err(1), Ok(())]);
}

#[test]
fn test_branch_preference_custom() {
    fn foo(slot: &mut Option<State>) -> Result<(), usize> {
        if inject(slot, "1") {
            return Err(1);
        }
        Ok(())
    }

    let mut results = vec![];
    run_session(
        Runner::default().with_branch_preference(Branch::Skip),
        |slot| {
            results.push(foo(slot));
        },
    );

    assert_eq!(results, vec![Ok(()), Err(1)]);
}

fn tested_function(slot: &mut Option<State>) -> bool {
    if inject(slot, "tested_function") {
        return false;
    }
    true
}

#[test]
fn test_unit() {
    let mut res = true;
    run_session(Runner::default(), |slot| {
        res &= tested_function(slot);
    });
    assert!(!res);
}

#[test]
fn test_integration() {
    let mut res = true;
    let runs = run_session(Runner::default(), |slot| {
        res &= tested_function(slot);
    });
    assert!(!res);
    assert_eq!(runs, 2);
}
