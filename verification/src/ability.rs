//! Abilities: the units of work that modules offer, and the protocol by which
//! one execution of an ability calls its hooks.
use vstd::prelude::*;

use crate::error::{ArcError, SkipReason};
use crate::text::str_equal;

verus! {

/// The identity of an ability: its stable, unique name.
#[derive(Debug, Clone, Copy, Hash)]
pub struct AbilityIdentity(pub &'static str);

impl AbilityIdentity {
    /// The identity with the given name.
    pub fn new(id: &'static str) -> (r: Self)
        ensures
            r.0 == id,
    {
        AbilityIdentity(id)
    }
}

impl PartialEq for AbilityIdentity {
    fn eq(&self, other: &Self) -> (r: bool) {
        str_equal(self.0, other.0)
    }
}

impl Eq for AbilityIdentity {}

impl vstd::std_specs::cmp::PartialEqSpecImpl for AbilityIdentity {
    open spec fn obeys_eq_spec() -> bool {
        true
    }

    open spec fn eq_spec(&self, other: &Self) -> bool {
        self.0@ == other.0@
    }
}

/// Whether an ability runs in automatic batches or only when asked for.
#[derive(Debug, Clone, Copy, PartialEq, Eq, Structural)]
pub enum AbilityExecutionMode {
    Auto,
    Manual,
}

impl Default for AbilityExecutionMode {
    fn default() -> (r: Self)
        ensures
            r == AbilityExecutionMode::Auto,
    {
        AbilityExecutionMode::Auto
    }
}

/// What an ability declares about itself.
#[derive(Debug, Clone, Copy)]
pub struct AbilityDescriptor {
    pub identity: AbilityIdentity,
    pub display_name: &'static str,
    pub description: &'static str,
    /// Priority: the lower the number, the earlier the ability runs.
    pub priority: i32,
    /// Whether the ability is mounted once discovered (a disabled one is skipped).
    pub is_enabled_by_default: bool,
    pub execution_mode: AbilityExecutionMode,
}

/// The hook that an execution of an ability is to call next.
#[derive(Debug, Clone, Copy, PartialEq, Eq, Structural)]
pub enum AbilityStep {
    /// Call `before_execute`, which may veto the run.
    BeforeExecute,
    /// Call `run_async`.
    Run,
    /// Call `after_execute` with the output that the run produced.
    AfterExecute,
    /// Call `on_error` with the error that the run returned.
    OnError,
    /// Nothing is left to call: the execution has its result.
    Finish,
}

/// Where one execution of an ability stands. An execution asks
/// `before_execute` first; a veto ends it as skipped, an error ends it with
/// that error; otherwise it runs the ability, hands a successful output to
/// `after_execute` and an error to `on_error`, and ends with the run's result.
pub enum AbilityRun<O> {
    /// `before_execute` has not been called yet.
    Starting,
    /// `before_execute` allowed the run; `run_async` has not been called yet.
    Allowed,
    /// The run produced this output; `after_execute` has not been called yet.
    Produced(O),
    /// The run failed with this error; `on_error` has not been called yet.
    Failed(ArcError),
    /// The execution is over, with this result.
    Finished(Result<O, ArcError>),
}

impl<O> AbilityRun<O> {
    /// The hook that the state calls for next.
    pub open spec fn step_spec(&self) -> AbilityStep {
        match self {
            AbilityRun::Starting => AbilityStep::BeforeExecute,
            AbilityRun::Allowed => AbilityStep::Run,
            AbilityRun::Produced(_) => AbilityStep::AfterExecute,
            AbilityRun::Failed(_) => AbilityStep::OnError,
            AbilityRun::Finished(_) => AbilityStep::Finish,
        }
    }

    /// The state once `before_execute` has answered `answer`.
    pub open spec fn before_spec(answer: Result<bool, ArcError>) -> Self {
        match answer {
            Ok(true) => AbilityRun::Allowed,
            Ok(false) => AbilityRun::Finished(Err(ArcError::Skipped(SkipReason::Disabled))),
            Err(e) => AbilityRun::Finished(Err(e)),
        }
    }

    /// The state once the run has returned `outcome`.
    pub open spec fn run_spec(outcome: Result<O, ArcError>) -> Self {
        match outcome {
            Ok(o) => AbilityRun::Produced(o),
            Err(e) => AbilityRun::Failed(e),
        }
    }

    /// The state once the hook after the run (`after_execute` or `on_error`) is done.
    pub open spec fn hook_spec(self) -> Self {
        match self {
            AbilityRun::Produced(o) => AbilityRun::Finished(Ok(o)),
            AbilityRun::Failed(e) => AbilityRun::Finished(Err(e)),
            _ => self,
        }
    }

    /// A fresh execution, before any hook is called.
    pub fn start() -> (r: Self)
        ensures
            r is Starting,
    {
        AbilityRun::Starting
    }

    /// The hook to call next.
    pub fn next_step(&self) -> (r: AbilityStep)
        ensures
            r == self.step_spec(),
    {
        match self {
            AbilityRun::Starting => AbilityStep::BeforeExecute,
            AbilityRun::Allowed => AbilityStep::Run,
            AbilityRun::Produced(_) => AbilityStep::AfterExecute,
            AbilityRun::Failed(_) => AbilityStep::OnError,
            AbilityRun::Finished(_) => AbilityStep::Finish,
        }
    }

    /// Records what `before_execute` answered: `Ok(true)` allows the run,
    /// `Ok(false)` ends the execution as skipped because disabled, and an
    /// error ends it with that error (no other hook is called then).
    pub fn before_executed(self, answer: Result<bool, ArcError>) -> (r: Self)
        requires
            self is Starting,
        ensures
            r == Self::before_spec(answer),
    {
        match answer {
            Ok(true) => AbilityRun::Allowed,
            Ok(false) => AbilityRun::Finished(Err(ArcError::Skipped(SkipReason::Disabled))),
            Err(e) => AbilityRun::Finished(Err(e)),
        }
    }

    /// Records what the run returned.
    pub fn ran(self, outcome: Result<O, ArcError>) -> (r: Self)
        requires
            self is Allowed,
        ensures
            r == Self::run_spec(outcome),
    {
        match outcome {
            Ok(o) => AbilityRun::Produced(o),
            Err(e) => AbilityRun::Failed(e),
        }
    }

    /// The output to hand to `after_execute`, while the state asks for that hook.
    pub fn output(&self) -> (r: Option<&O>)
        ensures
            match self {
                AbilityRun::Produced(o) => r == Some(o),
                _ => r is None,
            },
    {
        match self {
            AbilityRun::Produced(o) => Some(o),
            _ => None,
        }
    }

    /// The error to hand to `on_error`, while the state asks for that hook.
    pub fn error(&self) -> (r: Option<&ArcError>)
        ensures
            match self {
                AbilityRun::Failed(e) => r == Some(e),
                _ => r is None,
            },
    {
        match self {
            AbilityRun::Failed(e) => Some(e),
            _ => None,
        }
    }

    /// Records that `after_execute` or `on_error` is done: the execution ends
    /// with the run's result.
    pub fn hook_done(self) -> (r: Self)
        requires
            self is Produced || self is Failed,
        ensures
            r == self.hook_spec(),
    {
        match self {
            AbilityRun::Produced(o) => AbilityRun::Finished(Ok(o)),
            AbilityRun::Failed(e) => AbilityRun::Finished(Err(e)),
            other => other,
        }
    }

    /// The result of a finished execution.
    pub fn into_result(self) -> (r: Result<O, ArcError>)
        requires
            self is Finished,
        ensures
            self matches AbilityRun::Finished(res) && r == res,
    {
        match self {
            AbilityRun::Finished(res) => res,
            _ => vstd::pervasive::unreached(),
        }
    }
}

/// The result of a whole execution, from what `before_execute` answered and
/// what the run would return.
pub open spec fn execution_result<O>(
    answer: Result<bool, ArcError>,
    outcome: Result<O, ArcError>,
) -> Result<O, ArcError> {
    match answer {
        Ok(true) => outcome,
        Ok(false) => Err(ArcError::Skipped(SkipReason::Disabled)),
        Err(e) => Err(e),
    }
}

/// An execution whose `before_execute` allows the run calls the run, then
/// exactly one hook: `after_execute` when the run succeeded, `on_error` when
/// it failed, and ends with the run's own result.
pub proof fn law_allowed_run_ends_with_its_result<O>(outcome: Result<O, ArcError>)
    ensures
        AbilityRun::<O>::before_spec(Ok(true)).step_spec() == AbilityStep::Run,
        AbilityRun::<O>::run_spec(outcome).step_spec() == (if outcome is Ok {
            AbilityStep::AfterExecute
        } else {
            AbilityStep::OnError
        }),
        AbilityRun::<O>::run_spec(outcome).hook_spec() == AbilityRun::Finished(
            execution_result(Ok(true), outcome),
        ),
        AbilityRun::<O>::run_spec(outcome).hook_spec().step_spec() == AbilityStep::Finish,
        AbilityRun::<O>::run_spec(outcome).hook_spec() == AbilityRun::Finished(outcome),
        AbilityRun::<O>::before_spec(Ok(true)) is Allowed,
{
}

/// An execution whose `before_execute` vetoes the run or fails never runs the
/// ability and calls no further hook: it ends at once, as skipped because
/// disabled on a veto, and with `before_execute`'s error otherwise.
pub proof fn law_refused_run_never_runs<O>(
    answer: Result<bool, ArcError>,
    outcome: Result<O, ArcError>,
)
    requires
        answer != Ok::<bool, ArcError>(true),
    ensures
        AbilityRun::<O>::before_spec(answer).step_spec() == AbilityStep::Finish,
        AbilityRun::<O>::before_spec(answer) == AbilityRun::<O>::Finished(
            execution_result(answer, outcome),
        ),
        answer == Ok::<bool, ArcError>(false) ==> AbilityRun::<O>::before_spec(answer)
            == AbilityRun::<O>::Finished(Err(ArcError::Skipped(SkipReason::Disabled))),
        answer is Err ==> AbilityRun::<O>::before_spec(answer) == AbilityRun::<O>::Finished(
            Err(answer->Err_0),
        ),
{
}

/// The state an execution ends in when `before_execute` answers `answer` and
/// the run, if it happens, returns `outcome`: the states that the hooks
/// lead through, one after the other.
pub open spec fn final_state<O>(answer: Result<bool, ArcError>, outcome: Result<O, ArcError>) -> AbilityRun<O> {
    let after_before = AbilityRun::<O>::before_spec(answer);
    if after_before is Allowed {
        AbilityRun::<O>::run_spec(outcome).hook_spec()
    } else {
        after_before
    }
}

/// Every execution ends finished, with a result that depends only on what
/// `before_execute` answered and what the run returned: two executions of
/// the same ability with the same answers end with the same result, however
/// the output is handed out afterwards.
pub proof fn law_execution_result<O>(answer: Result<bool, ArcError>, outcome: Result<O, ArcError>)
    ensures
        final_state(answer, outcome).step_spec() == AbilityStep::Finish,
        final_state(answer, outcome) == AbilityRun::<O>::Finished(execution_result(answer, outcome)),
{
}

} // verus!
