use filesystem::workspace::window_cache::WindowCache;
use filesystem::workspace::error::CoreError;
use filesystem::workspace::invariants::validate_invariants;
use filesystem::workspace::kernel_tools::{
    close_application, close_application_at, focus_application, mount_tools, open_application,
    open_application_with, unmount_tools,
};
use filesystem::workspace::patch::{apply_patch, WorkspaceOp, WorkspacePatch};
use filesystem::workspace::state::{
    ApplicationInstance, ApplicationStatus, ConfirmationPending, Workspace, WorkspaceMode,
    FOLLOW_UP_MAX_TURNS,
};

fn make_workspace() -> Workspace {
    Workspace::new("test".to_string())
}

fn active_instance(id: &str) -> ApplicationInstance {
    ApplicationInstance {
        instance_id: id.to_string(),
        app_id: "app".to_string(),
        status: ApplicationStatus::Active,
        context: Vec::new(),
        mounted_tools: vec![],
    }
}

fn instance<'a>(ws: &'a Workspace, id: &str) -> &'a ApplicationInstance {
    ws.get_instance(id).expect("instance")
}

fn set_status(ws: &mut Workspace, id: &str, status: ApplicationStatus) {
    for inst in ws.instances.iter_mut() {
        if inst.instance_id == id {
            inst.status = status;
        }
    }
}

fn invariant_message(err: CoreError) -> String {
    match err {
        CoreError::InvariantViolation(msg) => msg,
        _ => panic!("expected InvariantViolation"),
    }
}

// ---- invariants ----

#[test]
fn valid_workspace_passes() {
    let mut ws = make_workspace();
    ws.instances.push(active_instance("i1"));
    ws.focus = Some("i1".to_string());
    assert!(validate_invariants(&ws).is_ok());
}

#[test]
fn empty_workspace_passes() {
    let ws = make_workspace();
    assert!(validate_invariants(&ws).is_ok());
}

#[test]
fn focus_nonexistent_instance_fails() {
    let mut ws = make_workspace();
    ws.focus = Some("missing".to_string());
    let msg = invariant_message(validate_invariants(&ws).unwrap_err());
    assert!(msg.contains("nonexistent"), "got: {msg}");
    assert_eq!(msg, "focus points to nonexistent instance: missing");
}

#[test]
fn focus_inactive_instance_fails() {
    let mut ws = make_workspace();
    let mut inst = active_instance("i1");
    inst.status = ApplicationStatus::Inactive;
    ws.instances.push(inst);
    ws.focus = Some("i1".to_string());
    let msg = invariant_message(validate_invariants(&ws).unwrap_err());
    assert!(msg.contains("inactive"), "got: {msg}");
    assert_eq!(msg, "focus points to inactive instance: i1");
}

#[test]
fn mounted_tools_on_inactive_instance_fails() {
    let mut ws = make_workspace();
    let mut inst = active_instance("i1");
    inst.status = ApplicationStatus::Inactive;
    inst.mounted_tools = vec!["tool-1".to_string()];
    ws.instances.push(inst);
    let msg = invariant_message(validate_invariants(&ws).unwrap_err());
    assert!(msg.contains("inactive"), "got: {msg}");
    assert_eq!(msg, "inactive instance i1 has mounted tools");
}

#[test]
fn same_tool_across_instances_passes() {
    let mut ws = make_workspace();
    let mut inst1 = active_instance("i1");
    inst1.mounted_tools = vec!["shared-tool".to_string()];
    let mut inst2 = active_instance("i2");
    inst2.mounted_tools = vec!["shared-tool".to_string()];
    ws.instances.push(inst1);
    ws.instances.push(inst2);
    assert!(validate_invariants(&ws).is_ok());
}

#[test]
fn duplicate_tool_within_instance_fails() {
    let mut ws = make_workspace();
    let mut inst = active_instance("i1");
    inst.mounted_tools = vec!["tool-a".to_string(), "tool-a".to_string()];
    ws.instances.push(inst);
    let msg = invariant_message(validate_invariants(&ws).unwrap_err());
    assert!(msg.contains("duplicate tool tool-a"), "got: {msg}");
    assert_eq!(msg, "duplicate tool tool-a within instance i1");
}

#[test]
fn focus_checked_before_tools() {
    let mut ws = make_workspace();
    let mut inst = active_instance("i1");
    inst.mounted_tools = vec!["t".to_string(), "t".to_string()];
    ws.instances.push(inst);
    ws.focus = Some("nope".to_string());
    let msg = invariant_message(validate_invariants(&ws).unwrap_err());
    assert_eq!(msg, "focus points to nonexistent instance: nope");
}

// ---- kernel tools ----

#[test]
fn open_application_creates_instance() {
    let mut ws = make_workspace();
    let id = open_application(&mut ws, "my-app", None).unwrap();
    assert!(ws.contains_instance(&id));
    assert_eq!(instance(&ws, &id).app_id, "my-app");
    assert_eq!(instance(&ws, &id).status, ApplicationStatus::Active);
}

#[test]
fn open_application_with_dedupe_returns_existing() {
    let mut ws = make_workspace();
    let id1 = open_application(&mut ws, "my-app", Some("key-1")).unwrap();
    let id2 = open_application(&mut ws, "my-app", Some("key-1")).unwrap();
    assert_eq!(id1, id2);
    assert_eq!(ws.instance_count(), 1);
}

#[test]
fn open_application_different_dedupe_creates_new() {
    let mut ws = make_workspace();
    let id1 = open_application(&mut ws, "my-app", Some("key-1")).unwrap();
    let id2 = open_application(&mut ws, "my-app", Some("key-2")).unwrap();
    assert_ne!(id1, id2);
    assert_eq!(ws.instance_count(), 2);
}

#[test]
fn open_application_with_given_id_and_time() {
    let mut ws = Workspace::new_at("s".to_string(), 5);
    let id = open_application_with(&mut ws, "app", Some("k"), "fixed".to_string(), 77).unwrap();
    assert_eq!(id, "fixed");
    assert_eq!(ws.last_modified, 77);
    let again =
        open_application_with(&mut ws, "app", Some("k"), "other".to_string(), 99).unwrap();
    assert_eq!(again, "fixed");
    assert_eq!(ws.last_modified, 77);
    assert_eq!(ws.instance_count(), 1);
}

#[test]
fn open_application_dedupe_ignores_other_app() {
    let mut ws = make_workspace();
    let id1 = open_application(&mut ws, "app-a", Some("k")).unwrap();
    let id2 = open_application(&mut ws, "app-b", Some("k")).unwrap();
    assert_ne!(id1, id2);
    assert_eq!(ws.instance_count(), 2);
}

#[test]
fn close_application_removes_instance() {
    let mut ws = make_workspace();
    let id = open_application(&mut ws, "my-app", None).unwrap();
    ws.focus = Some(id.clone());
    close_application(&mut ws, &id).unwrap();
    assert!(!ws.contains_instance(&id));
    assert_eq!(ws.focus, None);
}

#[test]
fn close_application_missing_is_noop() {
    let mut ws = make_workspace();
    assert!(close_application(&mut ws, "nonexistent").is_ok());
}

#[test]
fn close_application_twice_changes_nothing() {
    let mut ws = Workspace::new_at("s".to_string(), 1);
    let id = open_application_with(&mut ws, "app", None, "x".to_string(), 2).unwrap();
    close_application_at(&mut ws, &id, 3).unwrap();
    assert_eq!(ws.last_modified, 3);
    close_application_at(&mut ws, &id, 4).unwrap();
    assert_eq!(ws.last_modified, 3);
    assert_eq!(ws.instance_count(), 0);
}

#[test]
fn close_application_rolls_back_on_broken_workspace() {
    let mut ws = Workspace::new_at("s".to_string(), 1);
    let a = open_application_with(&mut ws, "app", None, "a".to_string(), 2).unwrap();
    open_application_with(&mut ws, "app", None, "b".to_string(), 2).unwrap();
    ws.focus = Some("ghost".to_string());
    let err = close_application_at(&mut ws, &a, 9).unwrap_err();
    assert_eq!(invariant_message(err), "focus points to nonexistent instance: ghost");
    assert!(ws.contains_instance(&a));
    assert_eq!(ws.last_modified, 2);
}

#[test]
fn focus_application_sets_focus() {
    let mut ws = make_workspace();
    let id = open_application(&mut ws, "my-app", None).unwrap();
    focus_application(&mut ws, &id).unwrap();
    assert_eq!(ws.focus, Some(id));
}

#[test]
fn focus_application_missing_errors() {
    let mut ws = make_workspace();
    let err = focus_application(&mut ws, "missing").unwrap_err();
    match err {
        CoreError::InvalidInput(msg) => {
            assert!(msg.contains("not found"));
            assert_eq!(msg, "instance not found: missing");
        }
        _ => panic!("expected InvalidInput"),
    }
}

#[test]
fn focus_application_inactive_errors() {
    let mut ws = make_workspace();
    let id = open_application(&mut ws, "my-app", None).unwrap();
    set_status(&mut ws, &id, ApplicationStatus::Inactive);
    let err = focus_application(&mut ws, &id).unwrap_err();
    match err {
        CoreError::InvalidInput(msg) => assert!(msg.contains("inactive")),
        _ => panic!("expected InvalidInput"),
    }
}

#[test]
fn mount_tools_adds_tools() {
    let mut ws = make_workspace();
    let id = open_application(&mut ws, "my-app", None).unwrap();
    mount_tools(&mut ws, &id, vec!["t1".to_string(), "t2".to_string()]).unwrap();
    let inst = instance(&ws, &id);
    assert_eq!(inst.mounted_tools, vec!["t1", "t2"]);
}

#[test]
fn mount_tools_inactive_errors() {
    let mut ws = make_workspace();
    let id = open_application(&mut ws, "my-app", None).unwrap();
    set_status(&mut ws, &id, ApplicationStatus::Inactive);
    let err = mount_tools(&mut ws, &id, vec!["t1".to_string()]).unwrap_err();
    match err {
        CoreError::InvalidInput(msg) => assert!(msg.contains("inactive")),
        _ => panic!("expected InvalidInput"),
    }
}

#[test]
fn mount_tools_no_duplicates() {
    let mut ws = make_workspace();
    let id = open_application(&mut ws, "my-app", None).unwrap();
    mount_tools(&mut ws, &id, vec!["t1".to_string()]).unwrap();
    mount_tools(&mut ws, &id, vec!["t1".to_string(), "t2".to_string()]).unwrap();
    let inst = instance(&ws, &id);
    assert_eq!(inst.mounted_tools, vec!["t1", "t2"]);
}

#[test]
fn mount_tools_repeated_in_one_request() {
    let mut ws = make_workspace();
    let id = open_application(&mut ws, "my-app", None).unwrap();
    mount_tools(&mut ws, &id, vec!["a".to_string(), "b".to_string(), "a".to_string()]).unwrap();
    assert_eq!(instance(&ws, &id).mounted_tools, vec!["a", "b"]);
}

#[test]
fn unmount_tools_removes_specified() {
    let mut ws = make_workspace();
    let id = open_application(&mut ws, "my-app", None).unwrap();
    mount_tools(&mut ws, &id, vec!["t1".to_string(), "t2".to_string(), "t3".to_string()])
        .unwrap();
    unmount_tools(&mut ws, &id, vec!["t2".to_string()]).unwrap();
    let inst = instance(&ws, &id);
    assert_eq!(inst.mounted_tools, vec!["t1", "t3"]);
}

#[test]
fn unmount_tools_missing_is_noop() {
    let mut ws = make_workspace();
    let id = open_application(&mut ws, "my-app", None).unwrap();
    mount_tools(&mut ws, &id, vec!["t1".to_string()]).unwrap();
    unmount_tools(&mut ws, &id, vec!["nonexistent".to_string()]).unwrap();
    let inst = instance(&ws, &id);
    assert_eq!(inst.mounted_tools, vec!["t1"]);
}

#[test]
fn unmount_tools_unknown_instance_errors() {
    let mut ws = make_workspace();
    let err = unmount_tools(&mut ws, "nope", vec!["t".to_string()]).unwrap_err();
    match err {
        CoreError::InvalidInput(msg) => assert_eq!(msg, "instance not found: nope"),
        _ => panic!("expected InvalidInput"),
    }
}

// ---- patch ----

#[test]
fn single_op_patch_applies() {
    let mut ws = make_workspace();
    let patch = WorkspacePatch {
        operations: vec![WorkspaceOp::OpenApplication {
            app_id: "app-1".to_string(),
            dedupe_key: None,
        }],
    };
    let result = apply_patch(&mut ws, patch).unwrap();
    assert_eq!(result.applied_ops, 1);
    assert_eq!(ws.instance_count(), 1);
}

#[test]
fn multi_op_patch_applies_atomically() {
    let mut ws = make_workspace();
    let id = open_application(&mut ws, "app-1", None).unwrap();

    let patch = WorkspacePatch {
        operations: vec![
            WorkspaceOp::MountTools {
                instance_id: id.clone(),
                tool_ids: vec!["t1".to_string()],
            },
            WorkspaceOp::FocusApplication {
                instance_id: id.clone(),
            },
        ],
    };
    let result = apply_patch(&mut ws, patch).unwrap();
    assert_eq!(result.applied_ops, 2);
    assert_eq!(ws.focus, Some(id.clone()));
    assert_eq!(instance(&ws, &id).mounted_tools, vec!["t1"]);
}

#[test]
fn failing_op_rolls_back_all_changes() {
    let mut ws = make_workspace();
    let id = open_application(&mut ws, "app-1", None).unwrap();
    let original_instances_len = ws.instance_count();
    let before = ws.last_modified;

    let patch = WorkspacePatch {
        operations: vec![
            WorkspaceOp::MountTools {
                instance_id: id.clone(),
                tool_ids: vec!["t1".to_string()],
            },
            WorkspaceOp::FocusApplication {
                instance_id: "nonexistent".to_string(),
            },
        ],
    };
    let err = apply_patch(&mut ws, patch);
    assert!(err.is_err());

    assert_eq!(ws.instance_count(), original_instances_len);
    assert!(instance(&ws, &id).mounted_tools.is_empty());
    assert_eq!(ws.focus, None);
    assert_eq!(ws.last_modified, before);
}

#[test]
fn empty_patch_is_noop() {
    let mut ws = make_workspace();
    let patch = WorkspacePatch { operations: vec![] };
    let result = apply_patch(&mut ws, patch).unwrap();
    assert_eq!(result.applied_ops, 0);
}

#[test]
fn patch_open_then_close_leaves_no_instance() {
    let mut ws = make_workspace();
    let id = open_application(&mut ws, "app", Some("k")).unwrap();
    let patch = WorkspacePatch {
        operations: vec![
            WorkspaceOp::OpenApplication {
                app_id: "app".to_string(),
                dedupe_key: Some("k".to_string()),
            },
            WorkspaceOp::CloseApplication { instance_id: id.clone() },
            WorkspaceOp::UnmountTools { instance_id: "gone".to_string(), tool_ids: vec![] },
        ],
    };
    let err = apply_patch(&mut ws, patch).unwrap_err();
    match err {
        CoreError::InvalidInput(msg) => assert_eq!(msg, "instance not found: gone"),
        _ => panic!("expected InvalidInput"),
    }
    assert!(ws.contains_instance(&id));
}

// ---- state ----

#[test]
fn workspace_creation_defaults() {
    let ws = Workspace::new("test-session".to_string());
    assert_eq!(ws.session_id, "test-session");
    assert!(ws.instances.is_empty());
    assert_eq!(ws.focus, None);
    assert_eq!(ws.mode, WorkspaceMode::Idle);
    assert!(ws.follow_up.is_none());
    assert!(ws.confirmation_pending.is_none());
    assert!(ws.created_at > 0);
    assert_eq!(ws.created_at, ws.last_modified);
}

#[test]
fn clear_confirmation_resets_state() {
    let mut ws = Workspace::new("test-session".to_string());
    ws.mode = WorkspaceMode::AwaitingConfirmation;
    ws.confirmation_pending = Some(ConfirmationPending {
        confirmation_id: "confirm-12345678-tool".to_string(),
        tool_id: "test_tool".to_string(),
        args: "{}".to_string(),
        requested_at: 1000,
    });

    ws.clear_confirmation();

    assert_eq!(ws.mode, WorkspaceMode::Idle);
    assert!(ws.confirmation_pending.is_none());
}

#[test]
fn enter_follow_up_transitions_mode() {
    let mut ws = Workspace::new("test-session".to_string());
    assert_eq!(ws.mode, WorkspaceMode::Idle);

    ws.enter_follow_up(
        "create event".to_string(),
        vec!["evt-1".to_string()],
        "calendar".to_string(),
    );

    assert_eq!(ws.mode, WorkspaceMode::FollowUpActive);
    let ctx = ws.follow_up.as_ref().unwrap();
    assert_eq!(ctx.last_command, "create event");
    assert_eq!(ctx.last_result_entity_ids, vec!["evt-1".to_string()]);
    assert_eq!(ctx.last_app_id, "calendar");
    assert_eq!(ctx.turn_count, 0);
    assert_eq!(ctx.max_turns, FOLLOW_UP_MAX_TURNS);
    assert!(ctx.expires_at > 0);
}

#[test]
fn enter_follow_up_at_sets_expiry() {
    let mut ws = Workspace::new_at("s".to_string(), 10);
    ws.enter_follow_up_at("cmd".to_string(), vec![], "app".to_string(), 1000);
    assert_eq!(ws.follow_up.as_ref().unwrap().expires_at, 1090);
    assert_eq!(ws.last_modified, 1000);
    assert!(ws.is_follow_up_valid(1089));
    assert!(!ws.is_follow_up_valid(1090));
}

#[test]
fn is_follow_up_valid_respects_ttl() {
    let mut ws = Workspace::new("test-session".to_string());
    ws.enter_follow_up("cmd".to_string(), vec!["id-1".to_string()], "app".to_string());

    let ctx = ws.follow_up.as_ref().unwrap();
    let before_expiry = ctx.expires_at - 1;
    let after_expiry = ctx.expires_at + 1;

    assert!(ws.is_follow_up_valid(before_expiry));
    assert!(!ws.is_follow_up_valid(after_expiry));
}

#[test]
fn is_follow_up_valid_respects_turn_limit() {
    let mut ws = Workspace::new("test-session".to_string());
    ws.enter_follow_up("cmd".to_string(), vec!["id-1".to_string()], "app".to_string());

    if let Some(ref mut ctx) = ws.follow_up {
        ctx.turn_count = ctx.max_turns;
    }

    let now = ws.follow_up.as_ref().unwrap().expires_at - 10;
    assert!(!ws.is_follow_up_valid(now));
}

#[test]
fn consume_follow_up_turn_increments() {
    let mut ws = Workspace::new("test-session".to_string());
    ws.enter_follow_up("cmd".to_string(), vec!["id-1".to_string()], "app".to_string());

    assert!(ws.consume_follow_up_turn());
    assert_eq!(ws.follow_up.as_ref().unwrap().turn_count, 1);
}

#[test]
fn consume_follow_up_turn_expires_at_max() {
    let mut ws = Workspace::new("test-session".to_string());
    ws.enter_follow_up("cmd".to_string(), vec!["id-1".to_string()], "app".to_string());

    if let Some(ref mut ctx) = ws.follow_up {
        ctx.turn_count = ctx.max_turns - 1;
    }

    let result = ws.consume_follow_up_turn();
    assert!(!result);
    assert_eq!(ws.mode, WorkspaceMode::Idle);
    assert!(ws.follow_up.is_none());
}

#[test]
fn follow_up_window_grants_two_more_turns() {
    let mut ws = Workspace::new_at("s".to_string(), 0);
    ws.enter_follow_up_at("cmd".to_string(), vec![], "app".to_string(), 100);
    assert!(ws.consume_follow_up_turn_at(150));
    assert!(ws.consume_follow_up_turn_at(150));
    assert!(!ws.consume_follow_up_turn_at(150));
    assert!(ws.follow_up.is_none());
    assert_eq!(ws.mode, WorkspaceMode::Idle);
    assert_eq!(ws.last_modified, 150);
}

#[test]
fn consume_after_expiry_clears_context() {
    let mut ws = Workspace::new_at("s".to_string(), 0);
    ws.enter_follow_up_at("cmd".to_string(), vec![], "app".to_string(), 100);
    assert!(!ws.consume_follow_up_turn_at(190));
    assert!(ws.follow_up.is_none());
    assert_eq!(ws.last_modified, 190);
}

#[test]
fn expire_follow_up_clears_state() {
    let mut ws = Workspace::new("test-session".to_string());
    ws.enter_follow_up("cmd".to_string(), vec!["id-1".to_string()], "app".to_string());

    ws.expire_follow_up();

    assert_eq!(ws.mode, WorkspaceMode::Idle);
    assert!(ws.follow_up.is_none());
}

// ---- window cache ----

#[test]
fn window_cache_opens_and_closes() {
    let cache = WindowCache::new(2, 3600);
    cache.open_window("one", 1);
    cache.open_window("two", 2);
    cache.open_window("three", 3);
    cache.close_window("one");
    let zero = WindowCache::new(0, 10);
    zero.open_window("only", 5);
}

#[test]
fn new_instance_id_is_hyphenated_lowercase_uuid() {
    let id = Workspace::new_instance_id();
    assert_eq!(id.chars().count(), 36);
    for (i, c) in id.chars().enumerate() {
        if [8, 13, 18, 23].contains(&i) {
            assert_eq!(c, '-');
        } else {
            assert!(c.is_ascii_digit() || ('a'..='f').contains(&c));
        }
    }
}

#[test]
fn evicts_on_capacity() {
    let cache = WindowCache::new(2, 3600);
    cache.open_window("one", 1);
    cache.open_window("two", 2);
    cache.open_window("three", 3);

    let entries = cache.entry_count();
    assert!(entries <= 2);
}

#[test]
fn workspace_config_path_joins_file_name() {
    assert_eq!(filesystem::workspace::state::workspace_config_path("/home/me/.cfg"), "/home/me/.cfg/workspace.json");
    assert_eq!(filesystem::workspace::state::workspace_config_path("/"), "/workspace.json");
}
