//! The decisions of a browsing session: what a session may do in which
//! state, which step of a visit comes next, and which failures end a visit.
//!
//! Talking to the browser is the caller's work. The caller takes a step,
//! reports how it went, and is told here what to do next.

use crate::log_format::SUBTAG_DOCUMENT_LOAD;
use vstd::prelude::*;
use vstd::string::*;

verus! {

// ----- the session -----
/// Where a session stands: before the browser runs, while it runs, and
/// after it has been shut down.
#[derive(Debug, Clone, Copy, PartialEq, Eq, Structural)]
pub enum SessionState {
    Uninitialized,
    Running,
    Stopped,
}

/// What can be asked of a session.
#[derive(Debug, Clone, Copy, PartialEq, Eq, Structural)]
pub enum Operation {
    Start,
    Visit,
    Stop,
}

/// The state that an operation leads to, or `None` where the state does not
/// allow it. A session starts once, visits while it runs, and stops once. A
/// start that fails leaves the session as it was; a visit that fails does
/// not end the session; a stop ends it however the browser answered.
pub open spec fn spec_transition(state: SessionState, op: Operation, succeeded: bool) -> Option<
    SessionState,
> {
    match (state, op) {
        (SessionState::Uninitialized, Operation::Start) => Some(
            if succeeded {
                SessionState::Running
            } else {
                SessionState::Uninitialized
            },
        ),
        (SessionState::Running, Operation::Visit) => Some(SessionState::Running),
        (SessionState::Running, Operation::Stop) => Some(SessionState::Stopped),
        _ => None,
    }
}

/// The state that an operation leads to, or `None` where the state does not
/// allow the operation.
pub fn transition(state: SessionState, op: Operation, succeeded: bool) -> (next: Option<
    SessionState,
>)
    ensures
        next == spec_transition(state, op, succeeded),
{
    match (state, op) {
        (SessionState::Uninitialized, Operation::Start) => Some(
            if succeeded {
                SessionState::Running
            } else {
                SessionState::Uninitialized
            },
        ),
        (SessionState::Running, Operation::Visit) => Some(SessionState::Running),
        (SessionState::Running, Operation::Stop) => Some(SessionState::Stopped),
        _ => None,
    }
}

/// A visit is possible in the running state only, and leaves it running.
pub proof fn law_visit_needs_running(state: SessionState, succeeded: bool)
    ensures
        spec_transition(state, Operation::Visit, succeeded) is Some <==> state
            == SessionState::Running,
        state == SessionState::Running ==> spec_transition(state, Operation::Visit, succeeded)
            == Some(SessionState::Running),
{
}

/// Nothing can be asked of a session that has stopped.
pub proof fn law_stopped_is_final(op: Operation, succeeded: bool)
    ensures
        spec_transition(SessionState::Stopped, op, succeeded) is None,
{
}

// ----- one visit -----
/// The steps of a visit.
#[derive(Debug, Clone, Copy, PartialEq, Eq, Structural)]
pub enum VisitStep {
    /// Open a blank page.
    OpenPage,
    /// Wait until the blank page has loaded.
    AwaitBlankPage,
    /// Hide that the browser is driven by a program.
    EnableStealth,
    /// Register the hook that marks the start of every document in the log.
    HookDocumentStart,
    /// Register the script to inject, where there is one.
    InjectScript,
    /// Ask the engine where it writes this page's trace.
    QueryLogPath,
    /// Go to the address.
    Navigate,
    /// Wait until the navigation has ended.
    AwaitNavigation,
    /// Wait the settle time, for what the page does after loading.
    Settle,
    /// Close the page.
    ClosePage,
    /// Read and decode the trace.
    DecodeTrace,
}

/// How a step went.
#[derive(Debug, Clone, Copy, PartialEq, Eq, Structural)]
pub enum StepOutcome {
    Done,
    /// The browser did not answer in time.
    TimedOut,
    /// Any other failure.
    Failed,
}

/// What to do after a step.
#[derive(Debug, Clone, Copy, PartialEq, Eq, Structural)]
pub enum Decision {
    /// Take this step next.
    Next(VisitStep),
    /// The visit is complete.
    Finished,
    /// The visit has failed and is given up.
    Abandon,
}

/// The steps of a visit in their order. The script is registered only where
/// there is one, and behind the hook, so that the hook's mark comes first in
/// every document.
pub open spec fn plan(has_script: bool) -> Seq<VisitStep> {
    if has_script {
        seq![
            VisitStep::OpenPage,
            VisitStep::AwaitBlankPage,
            VisitStep::EnableStealth,
            VisitStep::HookDocumentStart,
            VisitStep::InjectScript,
            VisitStep::QueryLogPath,
            VisitStep::Navigate,
            VisitStep::AwaitNavigation,
            VisitStep::Settle,
            VisitStep::ClosePage,
            VisitStep::DecodeTrace,
        ]
    } else {
        seq![
            VisitStep::OpenPage,
            VisitStep::AwaitBlankPage,
            VisitStep::EnableStealth,
            VisitStep::HookDocumentStart,
            VisitStep::QueryLogPath,
            VisitStep::Navigate,
            VisitStep::AwaitNavigation,
            VisitStep::Settle,
            VisitStep::ClosePage,
            VisitStep::DecodeTrace,
        ]
    }
}

/// Whether a step's outcome lets the visit go on: the step was done, or it
/// was the navigation and the browser did not answer in time. Some pages
/// load well and still leave the navigation pending.
pub open spec fn goes_on(step: VisitStep, outcome: StepOutcome) -> bool {
    outcome == StepOutcome::Done || (step == VisitStep::Navigate && outcome
        == StepOutcome::TimedOut)
}

/// The step behind `step` when the visit goes on.
pub open spec fn successor(step: VisitStep, has_script: bool) -> Decision {
    match step {
        VisitStep::OpenPage => Decision::Next(VisitStep::AwaitBlankPage),
        VisitStep::AwaitBlankPage => Decision::Next(VisitStep::EnableStealth),
        VisitStep::EnableStealth => Decision::Next(VisitStep::HookDocumentStart),
        VisitStep::HookDocumentStart => if has_script {
            Decision::Next(VisitStep::InjectScript)
        } else {
            Decision::Next(VisitStep::QueryLogPath)
        },
        VisitStep::InjectScript => Decision::Next(VisitStep::QueryLogPath),
        VisitStep::QueryLogPath => Decision::Next(VisitStep::Navigate),
        VisitStep::Navigate => Decision::Next(VisitStep::AwaitNavigation),
        VisitStep::AwaitNavigation => Decision::Next(VisitStep::Settle),
        VisitStep::Settle => Decision::Next(VisitStep::ClosePage),
        VisitStep::ClosePage => Decision::Next(VisitStep::DecodeTrace),
        VisitStep::DecodeTrace => Decision::Finished,
    }
}

/// What to do after `step` ended with `outcome`.
pub open spec fn spec_after_step(step: VisitStep, outcome: StepOutcome, has_script: bool) -> Decision {
    if goes_on(step, outcome) {
        successor(step, has_script)
    } else {
        Decision::Abandon
    }
}

/// The step that a visit starts with.
pub fn first_step() -> (step: VisitStep)
    ensures
        step == plan(true)[0],
        step == plan(false)[0],
{
    VisitStep::OpenPage
}

/// Decides what to do after a step of a visit: the next step of the plan,
/// the end of the visit behind its last step, or giving the visit up. Only
/// the navigation may time out without ending the visit.
pub fn after_step(step: VisitStep, outcome: StepOutcome, has_script: bool) -> (decision: Decision)
    ensures
        decision == spec_after_step(step, outcome, has_script),
{
    let goes_on: bool = match outcome {
        StepOutcome::Done => true,
        StepOutcome::TimedOut => match step {
            VisitStep::Navigate => true,
            _ => false,
        },
        StepOutcome::Failed => false,
    };
    if !goes_on {
        return Decision::Abandon;
    }
    match step {
        VisitStep::OpenPage => Decision::Next(VisitStep::AwaitBlankPage),
        VisitStep::AwaitBlankPage => Decision::Next(VisitStep::EnableStealth),
        VisitStep::EnableStealth => Decision::Next(VisitStep::HookDocumentStart),
        VisitStep::HookDocumentStart => if has_script {
            Decision::Next(VisitStep::InjectScript)
        } else {
            Decision::Next(VisitStep::QueryLogPath)
        },
        VisitStep::InjectScript => Decision::Next(VisitStep::QueryLogPath),
        VisitStep::QueryLogPath => Decision::Next(VisitStep::Navigate),
        VisitStep::Navigate => Decision::Next(VisitStep::AwaitNavigation),
        VisitStep::AwaitNavigation => Decision::Next(VisitStep::Settle),
        VisitStep::Settle => Decision::Next(VisitStep::ClosePage),
        VisitStep::ClosePage => Decision::Next(VisitStep::DecodeTrace),
        VisitStep::DecodeTrace => Decision::Finished,
    }
}

/// A visit whose steps all go on walks through the plan: behind each step
/// of the plan comes the next one, and behind the last one the visit is
/// complete.
pub proof fn law_visit_follows_plan(has_script: bool, i: int, outcome: StepOutcome)
    requires
        0 <= i < plan(has_script).len(),
        goes_on(plan(has_script)[i], outcome),
    ensures
        spec_after_step(plan(has_script)[i], outcome, has_script) == if i + 1 < plan(
            has_script,
        ).len() {
            Decision::Next(plan(has_script)[i + 1])
        } else {
            Decision::Finished
        },
{
}

/// A navigation that times out does not end the visit; it goes on as after
/// a navigation that was done.
pub proof fn law_navigation_timeout_is_tolerated(has_script: bool)
    ensures
        spec_after_step(VisitStep::Navigate, StepOutcome::TimedOut, has_script) == spec_after_step(
            VisitStep::Navigate,
            StepOutcome::Done,
            has_script,
        ),
        spec_after_step(VisitStep::Navigate, StepOutcome::TimedOut, has_script) == Decision::Next(
            VisitStep::AwaitNavigation,
        ),
{
}

/// Every other failure ends the visit: a step that failed, and a timeout
/// anywhere but in the navigation.
pub proof fn law_failure_ends_visit(step: VisitStep, outcome: StepOutcome, has_script: bool)
    requires
        outcome != StepOutcome::Done,
        !(step == VisitStep::Navigate && outcome == StepOutcome::TimedOut),
    ensures
        spec_after_step(step, outcome, has_script) == Decision::Abandon,
{
}

// ----- what the engine is told -----
/// The name under which the engine takes log lines from scripts.
pub const LOG_FUNCTION: &'static str = "__ghunter_log";

/// The name under which the engine tells where it writes a page's trace.
pub const LOG_PATH_FUNCTION: &'static str = "__ghunter_getLogPath";

/// The text of the hook that marks the start of a document.
pub open spec fn spec_document_start_hook() -> Seq<char> {
    LOG_FUNCTION@ + "('"@ + SUBTAG_DOCUMENT_LOAD@ + "');"@
}

/// The hook to run at the start of every document: it writes the mark that
/// the decoder reads as `DocumentStart`.
pub fn document_start_hook() -> (hook: String)
    ensures
        hook@ == spec_document_start_hook(),
{
    let mut hook = String::from_str(LOG_FUNCTION);
    hook.append("('");
    hook.append(SUBTAG_DOCUMENT_LOAD);
    hook.append("');");
    hook
}

} // verus!
