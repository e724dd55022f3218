//! Kernel operations on the workspace. Each one either succeeds and leaves a
//! workspace that passes the invariant check, or fails and leaves the
//! workspace exactly as it was.

use vstd::prelude::*;

use super::error::{CoreError, CoreErrorView, CoreResult};
use super::invariants::{
    invariants_hold, lemma_no_violation_iff_invariants, validate_invariants, violation,
};
use super::state::{
    copy_strings, find_instance, ids_distinct, instances_view, lemma_position, now_secs,
    position, strings_view, ApplicationInstance, ApplicationStatus, ContextEntry, ContextValue,
    ContextValueView, InstanceView, Workspace, WorkspaceView,
};
use crate::strings::{concat_strs, opt_str_view};

verus! {

/// What a call that changes nothing else returns, over plain values.
pub open spec fn unit_result_view(r: CoreResult<()>) -> Result<(), CoreErrorView> {
    match r {
        Ok(_) => Ok(()),
        Err(e) => Err(e@),
    }
}

/// What a call that returns an instance id returns, over plain values.
pub open spec fn id_result_view(r: CoreResult<String>) -> Result<Seq<char>, CoreErrorView> {
    match r {
        Ok(id) => Ok(id@),
        Err(e) => Err(e@),
    }
}

/// Keeps a changed workspace if it passes the invariant check; otherwise the
/// old one stays and the violation is reported.
pub open spec fn committed(old: WorkspaceView, new: WorkspaceView) -> (
    Result<(), CoreErrorView>,
    WorkspaceView,
) {
    match violation(new) {
        Some(m) => (Err(CoreErrorView::InvariantViolation(m)), old),
        None => (Ok(()), new),
    }
}

/// Message for an instance id that is not in the workspace.
pub open spec fn not_found_message(id: Seq<char>) -> Seq<char> {
    "instance not found: "@ + id
}

/// Closing instance `id` at time `now`: the instance leaves, focus on it is
/// cleared; a missing instance changes nothing.
pub open spec fn closed(w: WorkspaceView, id: Seq<char>, now: u64) -> (
    Result<(), CoreErrorView>,
    WorkspaceView,
) {
    let p = position(w.instances, id);
    let changed = if p < 0 {
        w
    } else {
        WorkspaceView {
            instances: w.instances.remove(p),
            focus: if w.focus == Some(id) {
                None
            } else {
                w.focus
            },
            last_modified: now,
            ..w
        }
    };
    committed(w, changed)
}

/// Focusing instance `id` at time `now`; it must exist and be active.
pub open spec fn focused(w: WorkspaceView, id: Seq<char>, now: u64) -> (
    Result<(), CoreErrorView>,
    WorkspaceView,
) {
    let p = position(w.instances, id);
    if p < 0 {
        (Err(CoreErrorView::InvalidInput(not_found_message(id))), w)
    } else if !w.instances[p].active {
        (Err(CoreErrorView::InvalidInput("cannot focus inactive instance: "@ + id)), w)
    } else {
        committed(w, WorkspaceView { focus: Some(id), last_modified: now, ..w })
    }
}

/// `tools` with each of `adds[j..]` appended in turn unless already there.
pub open spec fn with_tools_from(tools: Seq<Seq<char>>, adds: Seq<Seq<char>>, j: int) -> Seq<
    Seq<char>,
>
    decreases adds.len() - j,
{
    if j < 0 || j >= adds.len() {
        tools
    } else if tools.contains(adds[j]) {
        with_tools_from(tools, adds, j + 1)
    } else {
        with_tools_from(tools.push(adds[j]), adds, j + 1)
    }
}

/// Mounting `adds` on instance `id` at time `now`; it must exist and be active.
pub open spec fn mounted(w: WorkspaceView, id: Seq<char>, adds: Seq<Seq<char>>, now: u64) -> (
    Result<(), CoreErrorView>,
    WorkspaceView,
) {
    let p = position(w.instances, id);
    if p < 0 {
        (Err(CoreErrorView::InvalidInput(not_found_message(id))), w)
    } else if !w.instances[p].active {
        (Err(CoreErrorView::InvalidInput("cannot mount tools on inactive instance: "@ + id)), w)
    } else {
        let inst = w.instances[p];
        let changed = InstanceView { tools: with_tools_from(inst.tools, adds, 0), ..inst };
        committed(
            w,
            WorkspaceView { instances: w.instances.update(p, changed), last_modified: now, ..w },
        )
    }
}

/// `tools` without any of `removed`, in their order.
pub open spec fn without_tools(tools: Seq<Seq<char>>, removed: Seq<Seq<char>>) -> Seq<Seq<char>>
    decreases tools.len(),
{
    if tools.len() == 0 {
        tools
    } else {
        let rest = without_tools(tools.drop_last(), removed);
        if removed.contains(tools.last()) {
            rest
        } else {
            rest.push(tools.last())
        }
    }
}

/// Unmounting `removed` from instance `id` at time `now`; it must exist.
pub open spec fn unmounted(
    w: WorkspaceView,
    id: Seq<char>,
    removed: Seq<Seq<char>>,
    now: u64,
) -> (Result<(), CoreErrorView>, WorkspaceView) {
    let p = position(w.instances, id);
    if p < 0 {
        (Err(CoreErrorView::InvalidInput(not_found_message(id))), w)
    } else {
        let inst = w.instances[p];
        let changed = InstanceView { tools: without_tools(inst.tools, removed), ..inst };
        committed(
            w,
            WorkspaceView { instances: w.instances.update(p, changed), last_modified: now, ..w },
        )
    }
}

/// Whether `s` contains `x`, comparing strings by content.
fn contains_string(v: &Vec<String>, x: &String) -> (r: bool)
    ensures
        r == strings_view(v@).contains(x@),
{
    let ghost t = strings_view(v@);
    let mut i: usize = 0;
    while i < v.len()
        invariant
            t == strings_view(v@),
            i <= v@.len(),
            forall|k: int| 0 <= k < i ==> t[k] != x@,
        decreases v@.len() - i,
    {
        if v[i] == *x {
            assert(t[i as int] == x@);
            return true;
        }
        i = i + 1;
    }
    false
}

/// Puts the snapshot back after a failed check.
fn restore(workspace: &mut Workspace, snapshot: Workspace)
    ensures
        final(workspace)@ == snapshot@,
{
    *workspace = snapshot;
}

/// Closes an instance at the current time. Closing a missing instance changes
/// nothing; focus on the closed instance is cleared.
pub fn close_application(workspace: &mut Workspace, instance_id: &str) -> (r: CoreResult<()>)
    requires
        old(workspace).wf(),
    ensures
        final(workspace).wf(),
        exists|now: u64|
            closed(old(workspace)@, instance_id@, now) == (unit_result_view(r), final(workspace)@),
{
    let now = now_secs();
    close_application_at(workspace, instance_id, now)
}

/// Closes an instance at time `now`.
pub fn close_application_at(workspace: &mut Workspace, instance_id: &str, now: u64) -> (r:
    CoreResult<()>)
    requires
        old(workspace).wf(),
    ensures
        final(workspace).wf(),
        closed(old(workspace)@, instance_id@, now) == (unit_result_view(r), final(workspace)@),
{
    let ghost w = workspace@;
    let id = instance_id.to_owned();
    let snapshot = workspace.snapshot();
    if let Some(p) = find_instance(&workspace.instances, &id) {
        workspace.instances.remove(p);
        let clear = match &workspace.focus {
            Some(f) => *f == id,
            None => false,
        };
        if clear {
            workspace.focus = None;
        }
        workspace.last_modified = now;
        proof {
            assert(instances_view(workspace.instances@) =~= w.instances.remove(p as int));
        }
    }
    proof {
        assert(ids_distinct(workspace@.instances));
    }
    match validate_invariants(workspace) {
        Ok(()) => Ok(()),
        Err(e) => {
            restore(workspace, snapshot);
            Err(e)
        },
    }
}

/// Focuses an instance at the current time; it must exist and be active.
pub fn focus_application(workspace: &mut Workspace, instance_id: &str) -> (r: CoreResult<()>)
    requires
        old(workspace).wf(),
    ensures
        final(workspace).wf(),
        exists|now: u64|
            focused(old(workspace)@, instance_id@, now) == (unit_result_view(r), final(workspace)@),
{
    let now = now_secs();
    focus_application_at(workspace, instance_id, now)
}

/// Focuses an instance at time `now`.
pub fn focus_application_at(workspace: &mut Workspace, instance_id: &str, now: u64) -> (r:
    CoreResult<()>)
    requires
        old(workspace).wf(),
    ensures
        final(workspace).wf(),
        focused(old(workspace)@, instance_id@, now) == (unit_result_view(r), final(workspace)@),
{
    let ghost w = workspace@;
    let id = instance_id.to_owned();
    let p = match find_instance(&workspace.instances, &id) {
        None => {
            return Err(CoreError::InvalidInput(concat_strs("instance not found: ", instance_id)));
        },
        Some(p) => p,
    };
    assert(w.instances[p as int] == workspace.instances@[p as int]@);
    if workspace.instances[p].status != ApplicationStatus::Active {
        return Err(
            CoreError::InvalidInput(concat_strs("cannot focus inactive instance: ", instance_id)),
        );
    }
    let snapshot = workspace.snapshot();
    workspace.focus = Some(id);
    workspace.last_modified = now;
    match validate_invariants(workspace) {
        Ok(()) => Ok(()),
        Err(e) => {
            restore(workspace, snapshot);
            Err(e)
        },
    }
}

/// `tools` with each of `adds` appended in turn unless already there.
fn add_missing_tools(tools: &Vec<String>, adds: &Vec<String>) -> (r: Vec<String>)
    ensures
        strings_view(r@) == with_tools_from(strings_view(tools@), strings_view(adds@), 0),
{
    let ghost a = strings_view(adds@);
    let mut r = copy_strings(tools);
    let mut j: usize = 0;
    while j < adds.len()
        invariant
            a == strings_view(adds@),
            j <= adds@.len(),
            with_tools_from(strings_view(tools@), a, 0) == with_tools_from(
                strings_view(r@),
                a,
                j as int,
            ),
        decreases adds@.len() - j,
    {
        assert(a[j as int] == adds@[j as int]@);
        if !contains_string(&r, &adds[j]) {
            let ghost before = strings_view(r@);
            r.push(adds[j].clone());
            assert(strings_view(r@) =~= before.push(a[j as int]));
        }
        j = j + 1;
    }
    r
}

/// An instance like `instance` with `tools` mounted.
fn with_mounted(instance: &ApplicationInstance, tools: Vec<String>) -> (r: ApplicationInstance)
    ensures
        r@ == (InstanceView { tools: strings_view(tools@), ..instance@ }),
{
    let mut r = instance.copy();
    r.mounted_tools = tools;
    r
}

/// Mounts tools on an active instance at the current time; tools already
/// mounted are not added again.
pub fn mount_tools(workspace: &mut Workspace, instance_id: &str, tool_ids: Vec<String>) -> (r:
    CoreResult<()>)
    requires
        old(workspace).wf(),
    ensures
        final(workspace).wf(),
        exists|now: u64|
            mounted(old(workspace)@, instance_id@, strings_view(tool_ids@), now) == (
                unit_result_view(r),
                final(workspace)@,
            ),
{
    let now = now_secs();
    mount_tools_at(workspace, instance_id, tool_ids, now)
}

/// Mounts tools on an active instance at time `now`.
pub fn mount_tools_at(
    workspace: &mut Workspace,
    instance_id: &str,
    tool_ids: Vec<String>,
    now: u64,
) -> (r: CoreResult<()>)
    requires
        old(workspace).wf(),
    ensures
        final(workspace).wf(),
        mounted(old(workspace)@, instance_id@, strings_view(tool_ids@), now) == (
            unit_result_view(r),
            final(workspace)@,
        ),
{
    let ghost w = workspace@;
    let id = instance_id.to_owned();
    let p = match find_instance(&workspace.instances, &id) {
        None => {
            return Err(CoreError::InvalidInput(concat_strs("instance not found: ", instance_id)));
        },
        Some(p) => p,
    };
    assert(w.instances[p as int] == workspace.instances@[p as int]@);
    if workspace.instances[p].status != ApplicationStatus::Active {
        return Err(
            CoreError::InvalidInput(
                concat_strs("cannot mount tools on inactive instance: ", instance_id),
            ),
        );
    }
    let snapshot = workspace.snapshot();
    let tools = add_missing_tools(&workspace.instances[p].mounted_tools, &tool_ids);
    let changed = with_mounted(&workspace.instances[p], tools);
    workspace.instances.set(p, changed);
    workspace.last_modified = now;
    proof {
        assert(instances_view(workspace.instances@) =~= w.instances.update(
            p as int,
            workspace.instances@[p as int]@,
        ));
        assert(ids_distinct(workspace@.instances));
    }
    match validate_invariants(workspace) {
        Ok(()) => Ok(()),
        Err(e) => {
            restore(workspace, snapshot);
            Err(e)
        },
    }
}

/// `tools` without any of `removed`, in their order.
fn remove_tools(tools: &Vec<String>, removed: &Vec<String>) -> (r: Vec<String>)
    ensures
        strings_view(r@) == without_tools(strings_view(tools@), strings_view(removed@)),
{
    let ghost t = strings_view(tools@);
    let ghost d = strings_view(removed@);
    let mut r: Vec<String> = Vec::new();
    let mut i: usize = 0;
    while i < tools.len()
        invariant
            t == strings_view(tools@),
            d == strings_view(removed@),
            i <= tools@.len(),
            strings_view(r@) == without_tools(t.subrange(0, i as int), d),
        decreases tools@.len() - i,
    {
        let ghost before = strings_view(r@);
        assert(t.subrange(0, i + 1).drop_last() =~= t.subrange(0, i as int));
        assert(t.subrange(0, i + 1).last() == tools@[i as int]@);
        if !contains_string(removed, &tools[i]) {
            r.push(tools[i].clone());
            assert(strings_view(r@) =~= before.push(t[i as int]));
        }
        i = i + 1;
    }
    assert(t.subrange(0, i as int) =~= t);
    r
}

/// Unmounts tools from an instance at the current time; tools that are not
/// mounted are ignored.
pub fn unmount_tools(workspace: &mut Workspace, instance_id: &str, tool_ids: Vec<String>) -> (r:
    CoreResult<()>)
    requires
        old(workspace).wf(),
    ensures
        final(workspace).wf(),
        exists|now: u64|
            unmounted(old(workspace)@, instance_id@, strings_view(tool_ids@), now) == (
                unit_result_view(r),
                final(workspace)@,
            ),
{
    let now = now_secs();
    unmount_tools_at(workspace, instance_id, tool_ids, now)
}

/// Unmounts tools from an instance at time `now`.
pub fn unmount_tools_at(
    workspace: &mut Workspace,
    instance_id: &str,
    tool_ids: Vec<String>,
    now: u64,
) -> (r: CoreResult<()>)
    requires
        old(workspace).wf(),
    ensures
        final(workspace).wf(),
        unmounted(old(workspace)@, instance_id@, strings_view(tool_ids@), now) == (
            unit_result_view(r),
            final(workspace)@,
        ),
{
    let ghost w = workspace@;
    let id = instance_id.to_owned();
    let p = match find_instance(&workspace.instances, &id) {
        None => {
            return Err(CoreError::InvalidInput(concat_strs("instance not found: ", instance_id)));
        },
        Some(p) => p,
    };
    assert(w.instances[p as int] == workspace.instances@[p as int]@);
    let snapshot = workspace.snapshot();
    let tools = remove_tools(&workspace.instances[p].mounted_tools, &tool_ids);
    let changed = with_mounted(&workspace.instances[p], tools);
    workspace.instances.set(p, changed);
    workspace.last_modified = now;
    proof {
        assert(instances_view(workspace.instances@) =~= w.instances.update(
            p as int,
            workspace.instances@[p as int]@,
        ));
        assert(ids_distinct(workspace@.instances));
    }
    match validate_invariants(workspace) {
        Ok(()) => Ok(()),
        Err(e) => {
            restore(workspace, snapshot);
            Err(e)
        },
    }
}

/// The value of the first context entry from index `i` on with key `key`.
pub open spec fn context_get_from(
    c: Seq<(Seq<char>, ContextValueView)>,
    key: Seq<char>,
    i: int,
) -> Option<ContextValueView>
    decreases c.len() - i,
{
    if i < 0 || i >= c.len() {
        None
    } else if c[i].0 == key {
        Some(c[i].1)
    } else {
        context_get_from(c, key, i + 1)
    }
}

/// An active instance of `app_id` opened with dedupe key `key`.
pub open spec fn dedupe_matches(inst: InstanceView, app_id: Seq<char>, key: Seq<char>) -> bool {
    &&& inst.app_id == app_id
    &&& inst.active
    &&& context_get_from(inst.context, "dedupe_key"@, 0) == Some(ContextValueView::Text(key))
}

/// The id of the first instance from index `i` on that `dedupe_matches`.
pub open spec fn dedupe_from(s: Seq<InstanceView>, app_id: Seq<char>, key: Seq<char>, i: int) -> Option<
    Seq<char>,
>
    decreases s.len() - i,
{
    if i < 0 || i >= s.len() {
        None
    } else if dedupe_matches(s[i], app_id, key) {
        Some(s[i].id)
    } else {
        dedupe_from(s, app_id, key, i + 1)
    }
}

/// A new active instance with no tools, remembering its dedupe key if any.
pub open spec fn new_instance(id: Seq<char>, app_id: Seq<char>, key: Option<Seq<char>>) -> InstanceView {
    InstanceView {
        id,
        app_id,
        active: true,
        context: match key {
            Some(k) => seq![("dedupe_key"@, ContextValueView::Text(k))],
            None => seq![],
        },
        tools: seq![],
    }
}

/// `s` with `inst` put in: over the instance with the same id, or appended.
pub open spec fn put_instance(s: Seq<InstanceView>, inst: InstanceView) -> Seq<InstanceView> {
    let p = position(s, inst.id);
    if p < 0 {
        s.push(inst)
    } else {
        s.update(p, inst)
    }
}

/// Opening `app_id` at time `now` with `fresh` as the new id: with a dedupe
/// key, an existing active instance of the app opened with the same key is
/// returned and nothing changes; otherwise a new instance is added.
pub open spec fn opened(
    w: WorkspaceView,
    app_id: Seq<char>,
    key: Option<Seq<char>>,
    fresh: Seq<char>,
    now: u64,
) -> (Result<Seq<char>, CoreErrorView>, WorkspaceView) {
    let found = match key {
        Some(k) => dedupe_from(w.instances, app_id, k, 0),
        None => None,
    };
    match found {
        Some(id) => (Ok(id), w),
        None => {
            let changed = WorkspaceView {
                instances: put_instance(w.instances, new_instance(fresh, app_id, key)),
                last_modified: now,
                ..w
            };
            match violation(changed) {
                Some(m) => (Err(CoreErrorView::InvariantViolation(m)), w),
                None => (Ok(fresh), changed),
            }
        },
    }
}

/// Index of the first context entry with key `key`.
fn context_lookup(c: &Vec<ContextEntry>, key: &String) -> (r: Option<usize>)
    ensures
        r is None ==> context_get_from(super::state::context_view(c@), key@, 0) is None,
        r matches Some(i) ==> i < c@.len() && context_get_from(
            super::state::context_view(c@),
            key@,
            0,
        ) == Some(c@[i as int].value@),
{
    let ghost v = super::state::context_view(c@);
    let mut i: usize = 0;
    while i < c.len()
        invariant
            v == super::state::context_view(c@),
            i <= c@.len(),
            context_get_from(v, key@, 0) == context_get_from(v, key@, i as int),
        decreases c@.len() - i,
    {
        if c[i].key == *key {
            return Some(i);
        }
        i = i + 1;
    }
    None
}

/// Index of the first instance that matches the dedupe request.
fn find_dedupe(instances: &Vec<ApplicationInstance>, app_id: &String, key: &String) -> (r: Option<
    usize,
>)
    ensures
        r is None ==> dedupe_from(instances_view(instances@), app_id@, key@, 0) is None,
        r matches Some(i) ==> i < instances@.len() && dedupe_from(
            instances_view(instances@),
            app_id@,
            key@,
            0,
        ) == Some(instances@[i as int]@.id),
{
    let ghost s = instances_view(instances@);
    let dedupe_name = "dedupe_key".to_owned();
    let mut i: usize = 0;
    while i < instances.len()
        invariant
            s == instances_view(instances@),
            dedupe_name@ == "dedupe_key"@,
            i <= instances@.len(),
            dedupe_from(s, app_id@, key@, 0) == dedupe_from(s, app_id@, key@, i as int),
        decreases instances@.len() - i,
    {
        let instance = &instances[i];
        assert(s[i as int] == instance@);
        if instance.app_id == *app_id && instance.status == ApplicationStatus::Active {
            if let Some(ci) = context_lookup(&instance.context, &dedupe_name) {
                let same = match &instance.context[ci].value {
                    ContextValue::Text(existing) => *existing == *key,
                    ContextValue::Json(_) => false,
                };
                if same {
                    return Some(i);
                }
            }
        }
        i = i + 1;
    }
    None
}

/// The new instance's record.
fn make_instance(id: &String, app_id: &str, dedupe_key: Option<&str>) -> (r: ApplicationInstance)
    ensures
        r@ == new_instance(id@, app_id@, opt_str_view(dedupe_key)),
{
    let mut context: Vec<ContextEntry> = Vec::new();
    if let Some(k) = dedupe_key {
        context.push(
            ContextEntry { key: "dedupe_key".to_owned(), value: ContextValue::Text(k.to_owned()) },
        );
    }
    let r = ApplicationInstance {
        instance_id: id.clone(),
        app_id: app_id.to_owned(),
        status: ApplicationStatus::Active,
        context,
        mounted_tools: Vec::new(),
    };
    assert(r@.context =~= new_instance(id@, app_id@, opt_str_view(dedupe_key)).context);
    assert(r@.tools =~= Seq::<Seq<char>>::empty());
    r
}

/// Opening an application on a workspace that satisfies the invariants
/// succeeds, and the workspace still satisfies them.
pub proof fn law_open_keeps_invariants(
    w: WorkspaceView,
    app_id: Seq<char>,
    key: Option<Seq<char>>,
    fresh: Seq<char>,
    now: u64,
)
    requires
        invariants_hold(w),
    ensures
        opened(w, app_id, key, fresh, now).0 is Ok,
        invariants_hold(opened(w, app_id, key, fresh, now).1),
{
    let s = w.instances;
    let inst = new_instance(fresh, app_id, key);
    let s2 = put_instance(s, inst);
    let changed = WorkspaceView { instances: s2, last_modified: now, ..w };
    lemma_position(s, fresh);
    assert(s2.len() >= s.len());
    assert forall|k: int| 0 <= k < s.len() implies #[trigger] s2[k].id == s[k].id by {}
    assert forall|k: int| 0 <= k < s2.len() && s2[k] != inst implies k < s.len() && #[trigger] s2[k] == s[k] by {}
    assert(inst.tools.no_duplicates());
    if let Some(f) = w.focus {
        let p = position(s, f);
        lemma_position(s, f);
        lemma_position(s2, f);
        let p2 = position(s2, f);
        assert(s2[p].id == f);
        if p2 < p {
            assert(s[p2].id == f);
        }
        assert(p2 == p);
        assert(s2[p].active) by {
            if s2[p] != inst {
                assert(s2[p] == s[p]);
            }
        }
    }
    assert forall|i: int| 0 <= i < s2.len() implies (#[trigger] s2[i]).tools.len() > 0 ==> s2[i].active by {
        if s2[i] != inst {
            assert(s2[i] == s[i]);
        }
    }
    assert forall|i: int| 0 <= i < s2.len() implies (#[trigger] s2[i]).tools.no_duplicates() by {
        if s2[i] != inst {
            assert(s2[i] == s[i]);
        }
    }
    assert(invariants_hold(changed));
    lemma_no_violation_iff_invariants(changed);
}

/// Opens an application at the current time with a fresh random id; with a
/// dedupe key, an existing active instance of the app opened with the same key
/// is returned instead. On a workspace that satisfies the invariants it
/// succeeds.
pub fn open_application(workspace: &mut Workspace, app_id: &str, dedupe_key: Option<&str>) -> (r:
    CoreResult<String>)
    requires
        old(workspace).wf(),
    ensures
        final(workspace).wf(),
        exists|fresh: Seq<char>, now: u64|
            opened(old(workspace)@, app_id@, opt_str_view(dedupe_key), fresh, now) == (
                id_result_view(r),
                final(workspace)@,
            ),
        invariants_hold(old(workspace)@) ==> r is Ok,
{
    let fresh = Workspace::new_instance_id();
    let now = now_secs();
    open_application_with(workspace, app_id, dedupe_key, fresh, now)
}

/// Opens an application at time `now`, with `fresh` as the id of a new instance.
pub fn open_application_with(
    workspace: &mut Workspace,
    app_id: &str,
    dedupe_key: Option<&str>,
    fresh: String,
    now: u64,
) -> (r: CoreResult<String>)
    requires
        old(workspace).wf(),
    ensures
        final(workspace).wf(),
        opened(old(workspace)@, app_id@, opt_str_view(dedupe_key), fresh@, now) == (
            id_result_view(r),
            final(workspace)@,
        ),
        invariants_hold(old(workspace)@) ==> r is Ok,
{
    let ghost w = workspace@;
    proof {
        if invariants_hold(w) {
            law_open_keeps_invariants(w, app_id@, opt_str_view(dedupe_key), fresh@, now);
        }
    }
    if let Some(key) = dedupe_key {
        let app = app_id.to_owned();
        let k = key.to_owned();
        if let Some(i) = find_dedupe(&workspace.instances, &app, &k) {
            return Ok(workspace.instances[i].instance_id.clone());
        }
    }
    let snapshot = workspace.snapshot();
    let instance = make_instance(&fresh, app_id, dedupe_key);
    match find_instance(&workspace.instances, &fresh) {
        Some(p) => {
            workspace.instances.set(p, instance);
            proof {
                assert(instances_view(workspace.instances@) =~= w.instances.update(
                    p as int,
                    new_instance(fresh@, app_id@, opt_str_view(dedupe_key)),
                ));
            }
        },
        None => {
            workspace.instances.push(instance);
            proof {
                assert(instances_view(workspace.instances@) =~= w.instances.push(
                    new_instance(fresh@, app_id@, opt_str_view(dedupe_key)),
                ));
                lemma_position(w.instances, fresh@);
            }
        },
    }
    workspace.last_modified = now;
    proof {
        lemma_position(w.instances, fresh@);
        assert(ids_distinct(workspace@.instances));
    }
    match validate_invariants(workspace) {
        Ok(()) => Ok(fresh),
        Err(e) => {
            restore(workspace, snapshot);
            Err(e)
        },
    }
}

proof fn lemma_dedupe_none(s: Seq<InstanceView>, app_id: Seq<char>, key: Seq<char>, i: int)
    requires
        0 <= i,
        dedupe_from(s, app_id, key, i) is None,
    ensures
        forall|j: int| i <= j < s.len() ==> !dedupe_matches(#[trigger] s[j], app_id, key),
    decreases s.len() - i,
{
    if i < s.len() {
        lemma_dedupe_none(s, app_id, key, i + 1);
    }
}

proof fn lemma_dedupe_first(s: Seq<InstanceView>, app_id: Seq<char>, key: Seq<char>, i: int, q: int)
    requires
        0 <= i <= q < s.len(),
        forall|j: int| i <= j < q ==> !dedupe_matches(#[trigger] s[j], app_id, key),
        dedupe_matches(s[q], app_id, key),
    ensures
        dedupe_from(s, app_id, key, i) == Some(s[q].id),
    decreases q - i,
{
    if i < q {
        lemma_dedupe_first(s, app_id, key, i + 1, q);
    }
}

/// Opening an app again with the same dedupe key, right after a successful
/// open with that key, returns the same instance and changes nothing.
pub proof fn law_open_with_key_is_idempotent(
    w: WorkspaceView,
    app_id: Seq<char>,
    key: Seq<char>,
    fresh: Seq<char>,
    now: u64,
    fresh2: Seq<char>,
    now2: u64,
)
    requires
        ids_distinct(w.instances),
        opened(w, app_id, Some(key), fresh, now).0 is Ok,
    ensures
        ({
            let (r, w1) = opened(w, app_id, Some(key), fresh, now);
            opened(w1, app_id, Some(key), fresh2, now2) == (r, w1)
        }),
{
    let s = w.instances;
    if dedupe_from(s, app_id, key, 0) is None {
        let inst = new_instance(fresh, app_id, Some(key));
        let s1 = put_instance(s, inst);
        lemma_dedupe_none(s, app_id, key, 0);
        lemma_position(s, fresh);
        assert(context_get_from(inst.context, "dedupe_key"@, 0) == Some(ContextValueView::Text(key)));
        assert(dedupe_matches(inst, app_id, key));
        let q = if position(s, fresh) < 0 {
            s.len() as int
        } else {
            position(s, fresh)
        };
        assert(s1[q] == inst);
        assert forall|j: int| 0 <= j < q implies !dedupe_matches(#[trigger] s1[j], app_id, key) by {
            assert(s1[j] == s[j]);
        }
        lemma_dedupe_first(s1, app_id, key, 0, q);
    }
}

/// After a successful close, closing the same instance again succeeds and
/// changes nothing.
pub proof fn law_close_is_idempotent(w: WorkspaceView, id: Seq<char>, now: u64, now2: u64)
    requires
        ids_distinct(w.instances),
        closed(w, id, now).0 is Ok,
    ensures
        ({
            let w1 = closed(w, id, now).1;
            closed(w1, id, now2) == (Ok::<(), CoreErrorView>(()), w1)
        }),
{
    let s = w.instances;
    lemma_position(s, id);
    let p = position(s, id);
    if p >= 0 {
        let s1 = s.remove(p);
        assert forall|k: int| 0 <= k < s1.len() implies s1[k].id != id by {
            if k < p {
                assert(s1[k] == s[k]);
            } else {
                assert(s1[k] == s[k + 1]);
            }
        }
        lemma_position(s1, id);
    }
}

proof fn lemma_with_tools_from(tools: Seq<Seq<char>>, adds: Seq<Seq<char>>, j: int)
    requires
        0 <= j <= adds.len(),
    ensures
        forall|t: Seq<char>| tools.contains(t) ==> #[trigger] with_tools_from(tools, adds, j).contains(t),
        forall|k: int| j <= k < adds.len() ==> with_tools_from(tools, adds, j).contains(#[trigger] adds[k]),
    decreases adds.len() - j,
{
    if j < adds.len() {
        let next = if tools.contains(adds[j]) {
            tools
        } else {
            tools.push(adds[j])
        };
        lemma_with_tools_from(next, adds, j + 1);
        let r = with_tools_from(tools, adds, j);
        assert(r == with_tools_from(next, adds, j + 1));
        assert forall|t: Seq<char>| tools.contains(t) implies next.contains(t) by {
            let x = choose|x: int| 0 <= x < tools.len() && tools[x] == t;
            assert(next[x] == t);
        }
        assert(next.contains(adds[j])) by {
            if !tools.contains(adds[j]) {
                assert(next[tools.len() as int] == adds[j]);
            }
        }
        assert forall|t: Seq<char>| tools.contains(t) implies #[trigger] r.contains(t) by {
            assert(next.contains(t));
        }
        assert forall|k: int| j <= k < adds.len() implies r.contains(#[trigger] adds[k]) by {
            if k == j {
                assert(next.contains(adds[j]));
            }
        }
    }
}

/// A successful mount leaves every requested tool, and every tool mounted
/// before, on the instance.
pub proof fn law_mount_adds_tools(w: WorkspaceView, id: Seq<char>, adds: Seq<Seq<char>>, now: u64)
    requires
        ids_distinct(w.instances),
        mounted(w, id, adds, now).0 is Ok,
    ensures
        ({
            let w1 = mounted(w, id, adds, now).1;
            let p = position(w1.instances, id);
            &&& p >= 0
            &&& forall|t: Seq<char>| adds.contains(t) ==> #[trigger] w1.instances[p].tools.contains(t)
            &&& forall|t: Seq<char>| w.instances[p].tools.contains(t) ==> #[trigger] w1.instances[p].tools.contains(t)
        }),
{
    let s = w.instances;
    lemma_position(s, id);
    let p = position(s, id);
    let w1 = mounted(w, id, adds, now).1;
    let s1 = w1.instances;
    lemma_with_tools_from(s[p].tools, adds, 0);
    assert(s1 == s.update(p, InstanceView { tools: with_tools_from(s[p].tools, adds, 0), ..s[p] }));
    assert forall|k: int| 0 <= k < s.len() implies #[trigger] s1[k].id == s[k].id by {}
    assert(ids_distinct(s1));
    super::state::lemma_position_of_index(s1, p);
    assert forall|t: Seq<char>| adds.contains(t) implies #[trigger] w1.instances[p].tools.contains(t) by {
        let x = choose|x: int| 0 <= x < adds.len() && adds[x] == t;
    }
}

proof fn lemma_without_tools(tools: Seq<Seq<char>>, removed: Seq<Seq<char>>)
    ensures
        forall|t: Seq<char>| #[trigger] without_tools(tools, removed).contains(t) ==> !removed.contains(t),
        forall|t: Seq<char>|
            tools.contains(t) && !removed.contains(t) ==> #[trigger] without_tools(tools, removed).contains(t),
    decreases tools.len(),
{
    if tools.len() > 0 {
        let init = tools.drop_last();
        let last = tools.last();
        let rest = without_tools(init, removed);
        let r = without_tools(tools, removed);
        lemma_without_tools(init, removed);
        assert forall|t: Seq<char>| rest.contains(t) implies r.contains(t) by {
            if !removed.contains(last) {
                let y = choose|y: int| 0 <= y < rest.len() && rest[y] == t;
                assert(r[y] == t);
            }
        }
        assert forall|t: Seq<char>|
            tools.contains(t) && !removed.contains(t) implies #[trigger] r.contains(t) by {
            let x = choose|x: int| 0 <= x < tools.len() && tools[x] == t;
            if x < tools.len() - 1 {
                assert(init[x] == t);
                assert(init.contains(t));
                assert(rest.contains(t));
            } else {
                assert(r[rest.len() as int] == t);
            }
        }
        assert forall|t: Seq<char>| #[trigger] r.contains(t) implies !removed.contains(t) by {
            let y = choose|y: int| 0 <= y < r.len() && r[y] == t;
            if y < rest.len() {
                assert(rest[y] == t);
                assert(rest.contains(t));
            }
        }
    }
}

/// A successful unmount leaves none of the requested tools on the instance
/// and keeps every other tool it had.
pub proof fn law_unmount_removes_tools(
    w: WorkspaceView,
    id: Seq<char>,
    removed: Seq<Seq<char>>,
    now: u64,
)
    requires
        ids_distinct(w.instances),
        unmounted(w, id, removed, now).0 is Ok,
    ensures
        ({
            let w1 = unmounted(w, id, removed, now).1;
            let p = position(w1.instances, id);
            &&& p >= 0
            &&& forall|t: Seq<char>| #[trigger] w1.instances[p].tools.contains(t) ==> !removed.contains(t)
            &&& forall|t: Seq<char>|
                w.instances[p].tools.contains(t) && !removed.contains(t) ==> #[trigger] w1.instances[p].tools.contains(t)
        }),
{
    let s = w.instances;
    lemma_position(s, id);
    let p = position(s, id);
    let w1 = unmounted(w, id, removed, now).1;
    let s1 = w1.instances;
    lemma_without_tools(s[p].tools, removed);
    assert(s1 == s.update(p, InstanceView { tools: without_tools(s[p].tools, removed), ..s[p] }));
    assert forall|k: int| 0 <= k < s.len() implies #[trigger] s1[k].id == s[k].id by {}
    assert(ids_distinct(s1));
    super::state::lemma_position_of_index(s1, p);
}

} // verus!
