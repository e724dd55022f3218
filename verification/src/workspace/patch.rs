//! Batches of workspace operations, applied all or nothing.

use vstd::prelude::*;

use super::error::{CoreError, CoreErrorView, CoreResult};
use super::invariants::{invariants_hold, lemma_no_violation_iff_invariants};
use super::kernel_tools::{
    close_application, closed, focus_application, focused, id_result_view, mount_tools, mounted,
    open_application, opened, unit_result_view, unmount_tools, unmounted,
};
use super::state::{copy_strings, ids_distinct, opt_view, strings_view, Workspace, WorkspaceView};
use crate::strings::opt_str_view;

verus! {

/// A single workspace operation.
#[derive(Debug, Clone)]
pub enum WorkspaceOp {
    OpenApplication { app_id: String, dedupe_key: Option<String> },
    CloseApplication { instance_id: String },
    FocusApplication { instance_id: String },
    MountTools { instance_id: String, tool_ids: Vec<String> },
    UnmountTools { instance_id: String, tool_ids: Vec<String> },
}

/// An operation over plain values.
pub ghost enum OpView {
    Open { app_id: Seq<char>, dedupe_key: Option<Seq<char>> },
    Close { id: Seq<char> },
    Focus { id: Seq<char> },
    Mount { id: Seq<char>, tools: Seq<Seq<char>> },
    Unmount { id: Seq<char>, tools: Seq<Seq<char>> },
}

impl View for WorkspaceOp {
    type V = OpView;

    open spec fn view(&self) -> OpView {
        match self {
            WorkspaceOp::OpenApplication { app_id, dedupe_key } => OpView::Open {
                app_id: app_id@,
                dedupe_key: opt_view(*dedupe_key),
            },
            WorkspaceOp::CloseApplication { instance_id } => OpView::Close { id: instance_id@ },
            WorkspaceOp::FocusApplication { instance_id } => OpView::Focus { id: instance_id@ },
            WorkspaceOp::MountTools { instance_id, tool_ids } => OpView::Mount {
                id: instance_id@,
                tools: strings_view(tool_ids@),
            },
            WorkspaceOp::UnmountTools { instance_id, tool_ids } => OpView::Unmount {
                id: instance_id@,
                tools: strings_view(tool_ids@),
            },
        }
    }
}

/// The views of a list of operations.
pub open spec fn ops_view(ops: Seq<WorkspaceOp>) -> Seq<OpView> {
    ops.map_values(|op: WorkspaceOp| op@)
}

/// A batch of workspace operations to apply atomically.
#[derive(Debug, Clone)]
pub struct WorkspacePatch {
    pub operations: Vec<WorkspaceOp>,
}

/// Result of applying a patch.
#[derive(Debug, Clone)]
pub struct PatchResult {
    pub applied_ops: usize,
}

/// Outcome of one operation at time `now`, with `fresh` as the id a new
/// instance would get.
pub open spec fn op_outcome(w: WorkspaceView, op: OpView, fresh: Seq<char>, now: u64) -> (
    Result<(), CoreErrorView>,
    WorkspaceView,
) {
    match op {
        OpView::Open { app_id, dedupe_key } => {
            let (r, w2) = opened(w, app_id, dedupe_key, fresh, now);
            (
                match r {
                    Ok(_) => Ok(()),
                    Err(e) => Err(e),
                },
                w2,
            )
        },
        OpView::Close { id } => closed(w, id, now),
        OpView::Focus { id } => focused(w, id, now),
        OpView::Mount { id, tools } => mounted(w, id, tools, now),
        OpView::Unmount { id, tools } => unmounted(w, id, tools, now),
    }
}

/// `op` can take `w` to `w2`, for some fresh id and time.
pub open spec fn step(w: WorkspaceView, op: OpView, w2: WorkspaceView) -> bool {
    exists|fresh: Seq<char>, now: u64| op_outcome(w, op, fresh, now) == (Ok::<(), CoreErrorView>(()), w2)
}

/// `op` can fail on `w` with error `e`, for some fresh id and time.
pub open spec fn fails(w: WorkspaceView, op: OpView, e: CoreErrorView) -> bool {
    exists|fresh: Seq<char>, now: u64| op_outcome(w, op, fresh, now) == (Err::<(), CoreErrorView>(e), w)
}

/// The operations `ops`, applied in order and all succeeding, can take `w0` to `wn`.
pub open spec fn runs(w0: WorkspaceView, ops: Seq<OpView>, wn: WorkspaceView) -> bool
    decreases ops.len(),
{
    if ops.len() == 0 {
        wn == w0
    } else {
        exists|wm: WorkspaceView| runs(w0, ops.drop_last(), wm) && step(wm, ops.last(), wn)
    }
}

/// Applies one operation at the current time.
fn apply_op(workspace: &mut Workspace, op: &WorkspaceOp) -> (r: CoreResult<()>)
    requires
        old(workspace).wf(),
    ensures
        final(workspace).wf(),
        exists|fresh: Seq<char>, now: u64|
            op_outcome(old(workspace)@, op@, fresh, now) == (unit_result_view(r), final(workspace)@),
{
    let ghost w = workspace@;
    match op {
        WorkspaceOp::OpenApplication { app_id, dedupe_key } => {
            let key = match dedupe_key {
                Some(k) => Some(k.as_str()),
                None => None,
            };
            let r = open_application(workspace, app_id.as_str(), key);
            proof {
                let (fresh, now) = choose|fresh: Seq<char>, now: u64|
                    opened(w, app_id@, opt_str_view(key), fresh, now) == (
                        id_result_view(r),
                        workspace@,
                    );
                assert(op_outcome(w, op@, fresh, now).0 == unit_result_view(
                    match r {
                        Ok(_) => Ok(()),
                        Err(e) => Err(e),
                    },
                ));
            }
            match r {
                Ok(_) => Ok(()),
                Err(e) => Err(e),
            }
        },
        WorkspaceOp::CloseApplication { instance_id } => {
            let r = close_application(workspace, instance_id.as_str());
            proof {
                let now = choose|now: u64|
                    closed(w, instance_id@, now) == (unit_result_view(r), workspace@);
                assert(op_outcome(w, op@, Seq::empty(), now) == (unit_result_view(r), workspace@));
            }
            r
        },
        WorkspaceOp::FocusApplication { instance_id } => {
            let r = focus_application(workspace, instance_id.as_str());
            proof {
                let now = choose|now: u64|
                    focused(w, instance_id@, now) == (unit_result_view(r), workspace@);
                assert(op_outcome(w, op@, Seq::empty(), now) == (unit_result_view(r), workspace@));
            }
            r
        },
        WorkspaceOp::MountTools { instance_id, tool_ids } => {
            let r = mount_tools(workspace, instance_id.as_str(), copy_strings(tool_ids));
            proof {
                let now = choose|now: u64|
                    mounted(w, instance_id@, strings_view(tool_ids@), now) == (
                        unit_result_view(r),
                        workspace@,
                    );
                assert(op_outcome(w, op@, Seq::empty(), now) == (unit_result_view(r), workspace@));
            }
            r
        },
        WorkspaceOp::UnmountTools { instance_id, tool_ids } => {
            let r = unmount_tools(workspace, instance_id.as_str(), copy_strings(tool_ids));
            proof {
                let now = choose|now: u64|
                    unmounted(w, instance_id@, strings_view(tool_ids@), now) == (
                        unit_result_view(r),
                        workspace@,
                    );
                assert(op_outcome(w, op@, Seq::empty(), now) == (unit_result_view(r), workspace@));
            }
            r
        },
    }
}

/// Applies a patch atomically: the operations run in order; if one fails, the
/// workspace goes back to its state before the patch and that error is returned.
pub fn apply_patch(workspace: &mut Workspace, patch: WorkspacePatch) -> (r: CoreResult<
    PatchResult,
>)
    requires
        old(workspace).wf(),
    ensures
        final(workspace).wf(),
        r matches Ok(res) ==> res.applied_ops == patch.operations@.len() && runs(
            old(workspace)@,
            ops_view(patch.operations@),
            final(workspace)@,
        ),
        r matches Err(e) ==> final(workspace)@ == old(workspace)@ && exists|k: int, wk: WorkspaceView|
            #![trigger fails(wk, ops_view(patch.operations@)[k], e@)]
            0 <= k < patch.operations@.len() && runs(
                old(workspace)@,
                ops_view(patch.operations@).take(k),
                wk,
            ) && fails(wk, ops_view(patch.operations@)[k], e@),
{
    let ghost w0 = workspace@;
    let ghost ops = ops_view(patch.operations@);
    let snapshot = workspace.snapshot();
    let mut applied: usize = 0;
    assert(ops.take(0).len() == 0);
    while applied < patch.operations.len()
        invariant
            w0 == snapshot@,
            w0 == old(workspace)@,
            ids_distinct(w0.instances),
            ops == ops_view(patch.operations@),
            applied <= patch.operations@.len(),
            workspace.wf(),
            runs(w0, ops.take(applied as int), workspace@),
        decreases patch.operations@.len() - applied,
    {
        let ghost cur = workspace@;
        let result = apply_op(workspace, &patch.operations[applied]);
        match result {
            Err(e) => {
                proof {
                    let (fresh, now) = choose|fresh: Seq<char>, now: u64|
                        op_outcome(cur, ops[applied as int], fresh, now) == (
                            unit_result_view(result),
                            workspace@,
                        );
                    assert(fails(cur, ops[applied as int], e@));
                    assert(runs(w0, ops.take(applied as int), cur));
                }
                *workspace = snapshot;
                return Err(e);
            },
            Ok(()) => {
                proof {
                    let (fresh, now) = choose|fresh: Seq<char>, now: u64|
                        op_outcome(cur, ops[applied as int], fresh, now) == (
                            unit_result_view(result),
                            workspace@,
                        );
                    assert(step(cur, ops[applied as int], workspace@));
                    let next = ops.take(applied + 1);
                    assert(next.drop_last() =~= ops.take(applied as int));
                    assert(next.last() == ops[applied as int]);
                    assert(runs(w0, next, workspace@));
                }
            },
        }
        applied = applied + 1;
    }
    assert(ops.take(applied as int) =~= ops);
    Ok(PatchResult { applied_ops: applied })
}

/// An operation that succeeds on a workspace satisfying the invariants leaves
/// one that satisfies them too; an operation that fails changes nothing.
pub proof fn law_op_keeps_invariants(w: WorkspaceView, op: OpView, fresh: Seq<char>, now: u64)
    requires
        invariants_hold(w),
    ensures
        op_outcome(w, op, fresh, now).0 is Ok ==> invariants_hold(op_outcome(w, op, fresh, now).1),
        op_outcome(w, op, fresh, now).0 is Err ==> op_outcome(w, op, fresh, now).1 == w,
{
    lemma_no_violation_iff_invariants(w);
    lemma_no_violation_iff_invariants(op_outcome(w, op, fresh, now).1);
}

/// A patch that succeeds on a workspace satisfying the invariants leaves one
/// that satisfies them too.
pub proof fn law_patch_keeps_invariants(w0: WorkspaceView, ops: Seq<OpView>, wn: WorkspaceView)
    requires
        invariants_hold(w0),
        runs(w0, ops, wn),
    ensures
        invariants_hold(wn),
    decreases ops.len(),
{
    if ops.len() > 0 {
        let wm = choose|wm: WorkspaceView| runs(w0, ops.drop_last(), wm) && step(wm, ops.last(), wn);
        law_patch_keeps_invariants(w0, ops.drop_last(), wm);
        let (fresh, now) = choose|fresh: Seq<char>, now: u64|
            op_outcome(wm, ops.last(), fresh, now) == (Ok::<(), CoreErrorView>(()), wn);
        law_op_keeps_invariants(wm, ops.last(), fresh, now);
    }
}

} // verus!
