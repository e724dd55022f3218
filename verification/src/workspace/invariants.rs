//! The workspace invariants and their check.

use vstd::prelude::*;

use super::error::{CoreError, CoreErrorView, CoreResult};
use super::state::{
    find_instance, instances_view, position, strings_view, ApplicationStatus, InstanceView,
    Workspace, WorkspaceView,
};
use crate::strings::concat_strs;

verus! {

/// Message for a focus on a missing instance.
pub open spec fn focus_missing_message(id: Seq<char>) -> Seq<char> {
    "focus points to nonexistent instance: "@ + id
}

/// Message for a focus on an inactive instance.
pub open spec fn focus_inactive_message(id: Seq<char>) -> Seq<char> {
    "focus points to inactive instance: "@ + id
}

/// Message for an inactive instance that still has mounted tools.
pub open spec fn inactive_tools_message(id: Seq<char>) -> Seq<char> {
    "inactive instance "@ + id + " has mounted tools"@
}

/// Message for a tool mounted twice on one instance.
pub open spec fn duplicate_tool_message(tool: Seq<char>, id: Seq<char>) -> Seq<char> {
    "duplicate tool "@ + tool + " within instance "@ + id
}

/// What is wrong with the focus, if anything.
pub open spec fn focus_violation(w: WorkspaceView) -> Option<Seq<char>> {
    match w.focus {
        None => None,
        Some(f) => {
            let p = position(w.instances, f);
            if p < 0 {
                Some(focus_missing_message(f))
            } else if !w.instances[p].active {
                Some(focus_inactive_message(f))
            } else {
                None
            }
        },
    }
}

/// The first instance from index `i` on that is inactive with tools mounted.
pub open spec fn inactive_tools_from(s: Seq<InstanceView>, i: int) -> Option<Seq<char>>
    decreases s.len() - i,
{
    if i < 0 || i >= s.len() {
        None
    } else if s[i].tools.len() > 0 && !s[i].active {
        Some(inactive_tools_message(s[i].id))
    } else {
        inactive_tools_from(s, i + 1)
    }
}

/// The first tool from index `j` on that already occurs before it.
pub open spec fn repeated_tool_from(tools: Seq<Seq<char>>, j: int) -> Option<Seq<char>>
    decreases tools.len() - j,
{
    if j < 0 || j >= tools.len() {
        None
    } else if tools.subrange(0, j).contains(tools[j]) {
        Some(tools[j])
    } else {
        repeated_tool_from(tools, j + 1)
    }
}

/// The first instance from index `i` on with a tool mounted twice.
pub open spec fn duplicate_tool_from(s: Seq<InstanceView>, i: int) -> Option<Seq<char>>
    decreases s.len() - i,
{
    if i < 0 || i >= s.len() {
        None
    } else {
        match repeated_tool_from(s[i].tools, 0) {
            Some(t) => Some(duplicate_tool_message(t, s[i].id)),
            None => duplicate_tool_from(s, i + 1),
        }
    }
}

/// The first invariant that the workspace breaks, as its message: focus
/// first, then inactive instances with tools, then repeated tools.
pub open spec fn violation(w: WorkspaceView) -> Option<Seq<char>> {
    match focus_violation(w) {
        Some(m) => Some(m),
        None => match inactive_tools_from(w.instances, 0) {
            Some(m) => Some(m),
            None => duplicate_tool_from(w.instances, 0),
        },
    }
}

/// The three workspace invariants.
pub open spec fn invariants_hold(w: WorkspaceView) -> bool {
    &&& (w.focus matches Some(f) ==> position(w.instances, f) >= 0 && w.instances[position(
        w.instances,
        f,
    )].active)
    &&& forall|i: int| 0 <= i < w.instances.len() ==> (#[trigger] w.instances[i]).tools.len() > 0
        ==> w.instances[i].active
    &&& forall|i: int| 0 <= i < w.instances.len() ==> (#[trigger] w.instances[i]).tools.no_duplicates()
}

proof fn lemma_inactive_tools_from(s: Seq<InstanceView>, i: int)
    requires
        0 <= i <= s.len(),
    ensures
        inactive_tools_from(s, i) is None <==> forall|k: int|
            i <= k < s.len() ==> (#[trigger] s[k]).tools.len() > 0 ==> s[k].active,
    decreases s.len() - i,
{
    if i < s.len() {
        lemma_inactive_tools_from(s, i + 1);
    }
}

proof fn lemma_repeated_tool_from(tools: Seq<Seq<char>>, j: int)
    requires
        0 <= j <= tools.len(),
        tools.subrange(0, j).no_duplicates(),
    ensures
        repeated_tool_from(tools, j) is None <==> tools.no_duplicates(),
    decreases tools.len() - j,
{
    if j == tools.len() {
        assert(tools.subrange(0, j) =~= tools);
    } else {
        if tools.subrange(0, j).contains(tools[j]) {
            let k = choose|k: int| 0 <= k < j && tools.subrange(0, j)[k] == tools[j];
            assert(tools[k] == tools[j]);
        } else {
            let pre = tools.subrange(0, j);
            let sub = tools.subrange(0, j + 1);
            assert forall|a: int, b: int|
                0 <= a < sub.len() && 0 <= b < sub.len() && a != b implies #[trigger] sub[a]
                != #[trigger] sub[b] by {
                if b == j {
                    assert(pre[a] == tools[a]);
                } else if a == j {
                    assert(pre[b] == tools[b]);
                } else {
                    assert(pre[a] != pre[b]);
                }
            }
            lemma_repeated_tool_from(tools, j + 1);
            if tools.no_duplicates() {
                assert(tools.subrange(0, j + 1).no_duplicates());
            }
        }
    }
}

proof fn lemma_duplicate_tool_from(s: Seq<InstanceView>, i: int)
    requires
        0 <= i <= s.len(),
    ensures
        duplicate_tool_from(s, i) is None <==> forall|k: int|
            i <= k < s.len() ==> (#[trigger] s[k]).tools.no_duplicates(),
    decreases s.len() - i,
{
    if i < s.len() {
        assert(s[i].tools.subrange(0, 0).no_duplicates());
        lemma_repeated_tool_from(s[i].tools, 0);
        lemma_duplicate_tool_from(s, i + 1);
    }
}

/// The check finds nothing exactly when the three invariants hold: focus, if
/// set, names an existing active instance; only active instances have tools
/// mounted; no instance has a tool mounted twice.
pub proof fn lemma_no_violation_iff_invariants(w: WorkspaceView)
    ensures
        violation(w) is None <==> invariants_hold(w),
{
    lemma_inactive_tools_from(w.instances, 0);
    lemma_duplicate_tool_from(w.instances, 0);
}

/// The first tool of `tools` that occurs twice, if any.
fn first_repeated_tool(tools: &Vec<String>) -> (r: Option<usize>)
    ensures
        r is None <==> repeated_tool_from(strings_view(tools@), 0) is None,
        r matches Some(j) ==> j < tools@.len() && repeated_tool_from(strings_view(tools@), 0)
            == Some(tools@[j as int]@),
{
    let ghost t = strings_view(tools@);
    let mut j: usize = 0;
    while j < tools.len()
        invariant
            t == strings_view(tools@),
            j <= tools@.len(),
            repeated_tool_from(t, 0) == repeated_tool_from(t, j as int),
        decreases tools@.len() - j,
    {
        let mut k: usize = 0;
        let mut seen = false;
        while k < j
            invariant
                t == strings_view(tools@),
                k <= j < tools@.len(),
                seen == t.subrange(0, k as int).contains(t[j as int]),
            decreases j - k,
        {
            let same = tools[k] == tools[j];
            proof {
                assert(t[k as int] == tools@[k as int]@ && t[j as int] == tools@[j as int]@);
                let next = t.subrange(0, k + 1);
                assert(next =~= t.subrange(0, k as int).push(t[k as int]));
                if same {
                    assert(next[k as int] == t[j as int]);
                }
                if t.subrange(0, k as int).contains(t[j as int]) {
                    let x = choose|x: int|
                        0 <= x < k && t.subrange(0, k as int)[x] == t[j as int];
                    assert(next[x] == t[j as int]);
                }
            }
            if same {
                seen = true;
            }
            k = k + 1;
        }
        if seen {
            return Some(j);
        }
        j = j + 1;
    }
    None
}

/// Checks the workspace invariants; the error names the first one broken.
pub fn validate_invariants(workspace: &Workspace) -> (r: CoreResult<()>)
    ensures
        r is Ok <==> violation(workspace@) is None,
        r matches Err(e) ==> e@ == CoreErrorView::InvariantViolation(violation(workspace@)->0),
{
    let ghost w = workspace@;
    let ghost s = w.instances;
    if let Some(focus_id) = &workspace.focus {
        match find_instance(&workspace.instances, focus_id) {
            None => {
                let m = concat_strs("focus points to nonexistent instance: ", focus_id.as_str());
                return Err(CoreError::InvariantViolation(m));
            },
            Some(i) => {
                proof {
                    assert(s[i as int] == workspace.instances@[i as int]@);
                }
                if workspace.instances[i].status != ApplicationStatus::Active {
                    let m = concat_strs("focus points to inactive instance: ", focus_id.as_str());
                    return Err(CoreError::InvariantViolation(m));
                }
            },
        }
    }
    assert(focus_violation(w) is None);
    let mut i: usize = 0;
    while i < workspace.instances.len()
        invariant
            w == workspace@,
            s == w.instances,
            i <= s.len(),
            focus_violation(w) is None,
            inactive_tools_from(s, 0) == inactive_tools_from(s, i as int),
        decreases s.len() - i,
    {
        let instance = &workspace.instances[i];
        assert(s[i as int] == instance@);
        if instance.mounted_tools.len() > 0 && instance.status != ApplicationStatus::Active {
            let a = concat_strs("inactive instance ", instance.instance_id.as_str());
            let m = concat_strs(a.as_str(), " has mounted tools");
            return Err(CoreError::InvariantViolation(m));
        }
        i = i + 1;
    }
    let mut i: usize = 0;
    while i < workspace.instances.len()
        invariant
            w == workspace@,
            s == w.instances,
            i <= s.len(),
            focus_violation(w) is None,
            inactive_tools_from(s, 0) is None,
            duplicate_tool_from(s, 0) == duplicate_tool_from(s, i as int),
        decreases s.len() - i,
    {
        let instance = &workspace.instances[i];
        assert(s[i as int] == instance@);
        if let Some(j) = first_repeated_tool(&instance.mounted_tools) {
            assert(strings_view(instance.mounted_tools@)[j as int] == instance.mounted_tools@[j as int]@);
            let a = concat_strs("duplicate tool ", instance.mounted_tools[j].as_str());
            let b = concat_strs(a.as_str(), " within instance ");
            let m = concat_strs(b.as_str(), instance.instance_id.as_str());
            return Err(CoreError::InvariantViolation(m));
        }
        i = i + 1;
    }
    Ok(())
}

} // verus!
