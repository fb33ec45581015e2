//! Facts about sequences of calls, stated over the transition relations that
//! the operations' contracts use.

use vstd::prelude::*;
use crate::deptree::{DeptreeError, DeptreeView, TargetState};
use crate::graph::lemma_reduce_idempotent;

verus! {

/// Starting a target twice in a row: once the first call has started it (or it
/// was running already), the second call is refused with `AlreadyStarted` and
/// changes nothing.
pub proof fn lemma_start_twice<A>(
    v0: DeptreeView<A>,
    h: usize,
    r1: Result<(), DeptreeError>,
    v1: DeptreeView<A>,
    r2: Result<(), DeptreeError>,
    v2: DeptreeView<A>,
)
    requires
        v0.wf(),
        (h as int) < v0.len(),
        v0.state(h) == TargetState::Unstarted || v0.state(h) == TargetState::Started,
        v0.start_spec(h, r1, v1),
        v1.start_spec(h, r2, v2),
    ensures
        r2 matches Err(DeptreeError::AlreadyStarted(e)) && e@ == v0.targets[h as int].name,
        v2 == v1,
{
}

/// Finishing a target that was never started is refused with `NotYetStarted`,
/// and the target stays unstarted.
pub proof fn lemma_finish_unstarted<A>(
    v0: DeptreeView<A>,
    h: usize,
    r: Result<(), DeptreeError>,
    v1: DeptreeView<A>,
)
    requires
        v0.wf(),
        (h as int) < v0.len(),
        v0.state(h) == TargetState::Unstarted,
        v0.finish_spec(h, r, v1),
    ensures
        r matches Err(DeptreeError::NotYetStarted(e)) && e@ == v0.targets[h as int].name,
        v1.state(h) == TargetState::Unstarted,
{
}

/// Failing a target that has just finished is refused with `FinishFailed`.
pub proof fn lemma_fail_after_finish<A>(
    v0: DeptreeView<A>,
    h: usize,
    v1: DeptreeView<A>,
    r: Result<(), DeptreeError>,
    v2: DeptreeView<A>,
)
    requires
        v0.wf(),
        (h as int) < v0.len(),
        v0.finish_spec(h, Ok(()), v1),
        v1.fail_spec(h, r, v2),
    ensures
        r matches Err(DeptreeError::FinishFailed(e)) && e@ == v0.targets[h as int].name,
        v2 == v1,
{
}

/// Failing a target twice in a row: once the first call has failed it (or it
/// had failed already), the second call is refused with `AlreadyFailed`.
pub proof fn lemma_fail_twice<A>(
    v0: DeptreeView<A>,
    h: usize,
    r1: Result<(), DeptreeError>,
    v1: DeptreeView<A>,
    r2: Result<(), DeptreeError>,
    v2: DeptreeView<A>,
)
    requires
        v0.wf(),
        (h as int) < v0.len(),
        v0.state(h) == TargetState::Started || v0.state(h) == TargetState::Failed,
        v0.fail_spec(h, r1, v1),
        v1.fail_spec(h, r2, v2),
    ensures
        r2 matches Err(DeptreeError::AlreadyFailed(e)) && e@ == v0.targets[h as int].name,
        v2 == v1,
{
}

/// A second reduction pass, with nothing inserted since the first, leaves the
/// edges as the first left them.
pub proof fn lemma_simplify_idempotent<A>(v: DeptreeView<A>)
    requires
        v.wf(),
    ensures
        v.simplified().simplified() == v.simplified(),
        v.simplified().down == v.simplified().simplified().down,
        v.simplified().up == v.simplified().simplified().up,
{
    lemma_reduce_idempotent(v.down);
}

} // verus!
