use gadget_finder::session::{
    after_step, first_step, transition, Decision, Operation, SessionState, StepOutcome, VisitStep,
};

fn walk(has_script: bool) -> Vec<VisitStep> {
    let mut steps = vec![first_step()];
    loop {
        match after_step(steps[steps.len() - 1], StepOutcome::Done, has_script) {
            Decision::Next(step) => steps.push(step),
            Decision::Finished => return steps,
            Decision::Abandon => panic!("a visit whose steps are done is not given up"),
        }
    }
}

#[test]
fn visit_with_a_script_takes_every_step() {
    assert_eq!(
        walk(true),
        vec![
            VisitStep::OpenPage,
            VisitStep::AwaitBlankPage,
            VisitStep::EnableStealth,
            VisitStep::HookDocumentStart,
            VisitStep::InjectScript,
            VisitStep::QueryLogPath,
            VisitStep::Navigate,
            VisitStep::AwaitNavigation,
            VisitStep::Settle,
            VisitStep::ClosePage,
            VisitStep::DecodeTrace,
        ]
    );
}

#[test]
fn visit_without_a_script_registers_none() {
    assert_eq!(
        walk(false),
        vec![
            VisitStep::OpenPage,
            VisitStep::AwaitBlankPage,
            VisitStep::EnableStealth,
            VisitStep::HookDocumentStart,
            VisitStep::QueryLogPath,
            VisitStep::Navigate,
            VisitStep::AwaitNavigation,
            VisitStep::Settle,
            VisitStep::ClosePage,
            VisitStep::DecodeTrace,
        ]
    );
}

#[test]
fn navigation_timeout_is_swallowed() {
    for has_script in [false, true] {
        assert_eq!(
            after_step(VisitStep::Navigate, StepOutcome::TimedOut, has_script),
            Decision::Next(VisitStep::AwaitNavigation)
        );
    }
}

#[test]
fn every_other_failure_ends_the_visit() {
    let steps = walk(true);
    for step in steps {
        assert_eq!(after_step(step, StepOutcome::Failed, true), Decision::Abandon);
        assert_eq!(after_step(step, StepOutcome::Failed, false), Decision::Abandon);
        if step != VisitStep::Navigate {
            assert_eq!(after_step(step, StepOutcome::TimedOut, true), Decision::Abandon);
        }
    }
}

#[test]
fn decode_failure_fails_the_visit() {
    assert_eq!(after_step(VisitStep::DecodeTrace, StepOutcome::Failed, false), Decision::Abandon);
    assert_eq!(after_step(VisitStep::DecodeTrace, StepOutcome::Done, false), Decision::Finished);
}

#[test]
fn session_runs_from_start_to_stop() {
    let state = SessionState::Uninitialized;
    let state = transition(state, Operation::Start, true).expect("a new session can start");
    assert_eq!(state, SessionState::Running);
    let state = transition(state, Operation::Visit, true).expect("a running session can visit");
    assert_eq!(state, SessionState::Running);
    let state = transition(state, Operation::Visit, false).expect("a failed visit is survived");
    assert_eq!(state, SessionState::Running);
    let state = transition(state, Operation::Stop, true).expect("a running session can stop");
    assert_eq!(state, SessionState::Stopped);
}

#[test]
fn session_refuses_what_its_state_does_not_allow() {
    assert_eq!(transition(SessionState::Uninitialized, Operation::Visit, true), None);
    assert_eq!(transition(SessionState::Uninitialized, Operation::Stop, true), None);
    assert_eq!(transition(SessionState::Running, Operation::Start, true), None);
    for op in [Operation::Start, Operation::Visit, Operation::Stop] {
        assert_eq!(transition(SessionState::Stopped, op, true), None);
        assert_eq!(transition(SessionState::Stopped, op, false), None);
    }
}

#[test]
fn failed_start_leaves_the_session_unstarted() {
    assert_eq!(
        transition(SessionState::Uninitialized, Operation::Start, false),
        Some(SessionState::Uninitialized)
    );
}

#[test]
fn stop_ends_the_session_even_when_the_browser_complains() {
    assert_eq!(
        transition(SessionState::Running, Operation::Stop, false),
        Some(SessionState::Stopped)
    );
}
