use frame_ops::model::{Metadata, SectionKind, TaskState, Track, TrackNode};
use frame_ops::parse::{parse_track, serialize_track};
use frame_ops::task_ops::{
    add_dep, add_ref, add_tag, add_task, append_note, cycle_state, delete_task, edit_title,
    find_task_in_track, find_task_mut_in_track, remove_dep, remove_tag, set_blocked, set_done,
    set_note, set_parked, set_spec, set_state, InsertPosition, TaskError,
};
use frame_ops::task_tree::{
    add_subtask, count_subtree_size, find_task_location, find_task_location_any_section,
    hard_delete_task, insert_task_subtree, is_descendant_of, is_top_level_in_section,
    max_subtree_depth, move_task, move_task_between_sections, next_child_number, rekey_subtree,
    reinsert_task, remove_task_subtree, reparent_task, set_subtree_depth,
    update_dep_references_in_track,
};

fn sample_track() -> Track {
    parse_track(
        "\
# Test Track

> A test track.

## Backlog

- [ ] `T-001` First task #core
  - added: 2025-05-01
- [>] `T-002` Second task
  - added: 2025-05-02
  - dep: T-001
- [ ] `T-003` Third task with subtasks
  - added: 2025-05-03
  - [ ] `T-003.1` Sub one
  - [ ] `T-003.2` Sub two

## Parked

- [~] `T-010` Parked idea

## Done

- [x] `T-000` Setup project
  - added: 2025-04-20
  - resolved: 2025-04-25
",
    )
}

// --- 2.1 State transitions ---

#[test]
fn test_cycle_state_todo_active_done() {
    let mut track = sample_track();
    let task = find_task_mut_in_track(&mut track, "T-001").unwrap();
    assert_eq!(task.state, TaskState::Todo);

    cycle_state(task);
    assert_eq!(task.state, TaskState::Active);
    assert!(task.dirty);

    cycle_state(task);
    assert_eq!(task.state, TaskState::Done);
    // Should have resolved date
    assert!(task.metadata.iter().any(|m| m.key() == "resolved"));

    cycle_state(task);
    assert_eq!(task.state, TaskState::Todo);
    // Resolved should be removed
    assert!(!task.metadata.iter().any(|m| m.key() == "resolved"));
}

#[test]
fn test_toggle_blocked() {
    let mut track = sample_track();
    let task = find_task_mut_in_track(&mut track, "T-001").unwrap();

    set_blocked(task);
    assert_eq!(task.state, TaskState::Blocked);

    set_blocked(task);
    assert_eq!(task.state, TaskState::Todo);
}

#[test]
fn test_toggle_parked() {
    let mut track = sample_track();
    let task = find_task_mut_in_track(&mut track, "T-001").unwrap();

    set_parked(task);
    assert_eq!(task.state, TaskState::Parked);

    set_parked(task);
    assert_eq!(task.state, TaskState::Todo);
}

#[test]
fn test_set_done_adds_resolved() {
    let mut track = sample_track();
    let task = find_task_mut_in_track(&mut track, "T-001").unwrap();

    set_done(task);
    assert_eq!(task.state, TaskState::Done);
    assert!(task.metadata.iter().any(|m| m.key() == "resolved"));
}

#[test]
fn test_set_state_noop_same_state() {
    let mut track = sample_track();
    let task = find_task_mut_in_track(&mut track, "T-001").unwrap();
    task.dirty = false;

    set_state(task, TaskState::Todo);
    assert!(!task.dirty); // no change
}

// --- 2.2 CRUD ---

#[test]
fn test_add_task_bottom() {
    let mut track = sample_track();
    let id = add_task(&mut track, "New task".into(), InsertPosition::Bottom, "T").unwrap();
    assert_eq!(id, "T-011");
    let tasks = track.backlog();
    assert_eq!(tasks.last().unwrap().title, "New task");
    assert!(
        tasks
            .last()
            .unwrap()
            .metadata
            .iter()
            .any(|m| m.key() == "added")
    );
}

#[test]
fn test_add_task_top() {
    let mut track = sample_track();
    let id = add_task(&mut track, "Top task".into(), InsertPosition::Top, "T").unwrap();
    assert_eq!(id, "T-011");
    assert_eq!(track.backlog()[0].title, "Top task");
}

#[test]
fn test_add_task_after() {
    let mut track = sample_track();
    let id = add_task(
        &mut track,
        "After first".into(),
        InsertPosition::After("T-001".into()),
        "T",
    )
    .unwrap();
    assert_eq!(id, "T-011");
    assert_eq!(track.backlog()[1].title, "After first");
}

#[test]
fn test_add_subtask() {
    let mut track = sample_track();
    let id = add_subtask(&mut track, "T-001", "New sub".into()).unwrap();
    assert_eq!(id, "T-001.1");
    let parent = find_task_in_track(&track, "T-001").unwrap();
    assert_eq!(parent.subtasks.len(), 1);
    assert_eq!(parent.subtasks[0].title, "New sub");
}

#[test]
fn test_add_subtask_max_depth() {
    let mut track = sample_track();
    // T-003.1 is depth 1, add sub to make depth 2
    let id = add_subtask(&mut track, "T-003.1", "Deep sub".into()).unwrap();
    assert!(id.starts_with("T-003.1."));

    // Now try to add another level (depth 3) — should fail
    let result = add_subtask(&mut track, &id, "Too deep".into());
    assert!(result.is_err());
}

#[test]
fn test_edit_title() {
    let mut track = sample_track();
    edit_title(&mut track, "T-001", "Updated title".into()).unwrap();
    let task = find_task_in_track(&track, "T-001").unwrap();
    assert_eq!(task.title, "Updated title");
    assert!(task.dirty);
}

#[test]
fn test_delete_task() {
    let mut track = sample_track();
    delete_task(&mut track, "T-001").unwrap();
    let task = find_task_in_track(&track, "T-001").unwrap();
    assert_eq!(task.state, TaskState::Done);
    assert!(task.tags.contains(&"wontdo".to_string()));
}

// --- 2.3 Metadata ---

#[test]
fn test_add_remove_tag() {
    let mut track = sample_track();
    add_tag(&mut track, "T-001", "bug").unwrap();
    let task = find_task_in_track(&track, "T-001").unwrap();
    assert!(task.tags.contains(&"bug".to_string()));

    // Adding again is a no-op
    let mut track2 = sample_track();
    add_tag(&mut track2, "T-001", "#core").unwrap(); // with # prefix
    let task2 = find_task_in_track(&track2, "T-001").unwrap();
    assert_eq!(task2.tags.iter().filter(|t| *t == "core").count(), 1);

    // Remove
    remove_tag(&mut track, "T-001", "bug").unwrap();
    let task = find_task_in_track(&track, "T-001").unwrap();
    assert!(!task.tags.contains(&"bug".to_string()));
}

#[test]
fn test_add_dep() {
    let mut track = sample_track();
    let tracks = vec![("test".to_string(), sample_track())];
    add_dep(&mut track, "T-003", "T-001", &tracks).unwrap();
    let task = find_task_in_track(&track, "T-003").unwrap();
    let deps: Vec<&str> = task
        .metadata
        .iter()
        .filter_map(|m| match m {
            Metadata::Dep(d) => Some(d.iter().map(|s| s.as_str()).collect::<Vec<_>>()),
            _ => None,
        })
        .flatten()
        .collect();
    assert!(deps.contains(&"T-001"));
}

#[test]
fn test_add_dep_invalid_target() {
    let mut track = sample_track();
    let tracks = vec![("test".to_string(), sample_track())];
    let result = add_dep(&mut track, "T-001", "NONEXIST-999", &tracks);
    assert!(result.is_err());
}

#[test]
fn test_remove_dep() {
    let mut track = sample_track();
    remove_dep(&mut track, "T-002", "T-001").unwrap();
    let task = find_task_in_track(&track, "T-002").unwrap();
    assert!(
        !task
            .metadata
            .iter()
            .any(|m| matches!(m, Metadata::Dep(d) if d.contains(&"T-001".to_string())))
    );
}

#[test]
fn test_set_note() {
    let mut track = sample_track();
    set_note(&mut track, "T-001", "This is a note.".into()).unwrap();
    let task = find_task_in_track(&track, "T-001").unwrap();
    assert!(
        task.metadata
            .iter()
            .any(|m| matches!(m, Metadata::Note(n) if n == "This is a note."))
    );
}

#[test]
fn test_append_note_no_existing() {
    let mut track = sample_track();
    append_note(&mut track, "T-001", "First note.".into()).unwrap();
    let task = find_task_in_track(&track, "T-001").unwrap();
    assert!(
        task.metadata
            .iter()
            .any(|m| matches!(m, Metadata::Note(n) if n == "First note."))
    );
}

#[test]
fn test_append_note_with_existing() {
    let mut track = sample_track();
    set_note(&mut track, "T-001", "First note.".into()).unwrap();
    append_note(&mut track, "T-001", "Second note.".into()).unwrap();
    let task = find_task_in_track(&track, "T-001").unwrap();
    assert!(
        task.metadata
            .iter()
            .any(|m| matches!(m, Metadata::Note(n) if n == "First note.\n\nSecond note."))
    );
}

#[test]
fn test_add_ref() {
    let mut track = sample_track();
    add_ref(&mut track, "T-001", "doc/design.md").unwrap();
    let task = find_task_in_track(&track, "T-001").unwrap();
    assert!(
        task.metadata
            .iter()
            .any(|m| matches!(m, Metadata::Ref(r) if r.contains(&"doc/design.md".to_string())))
    );
}

#[test]
fn test_set_spec() {
    let mut track = sample_track();
    set_spec(&mut track, "T-001", "doc/design.md#section".into()).unwrap();
    let task = find_task_in_track(&track, "T-001").unwrap();
    assert!(
        task.metadata
            .iter()
            .any(|m| matches!(m, Metadata::Spec(s) if s == "doc/design.md#section"))
    );
}

// --- 2.4 Move ---

#[test]
fn test_move_task_to_top() {
    let mut track = sample_track();
    move_task(&mut track, "T-003", InsertPosition::Top).unwrap();
    assert_eq!(track.backlog()[0].id.as_deref(), Some("T-003"));
}

#[test]
fn test_move_task_after() {
    let mut track = sample_track();
    move_task(&mut track, "T-001", InsertPosition::After("T-002".into())).unwrap();
    assert_eq!(track.backlog()[0].id.as_deref(), Some("T-002"));
    assert_eq!(track.backlog()[1].id.as_deref(), Some("T-001"));
}

#[test]
fn test_move_task_to_bottom() {
    let mut track = sample_track();
    move_task(&mut track, "T-001", InsertPosition::Bottom).unwrap();
    let backlog = track.backlog();
    assert_eq!(backlog.last().unwrap().id.as_deref(), Some("T-001"));
}

// --- Section moves ---

#[test]
fn test_move_task_between_sections_backlog_to_done() {
    let mut track = sample_track();
    let backlog_count = track.backlog().len();
    let done_count = track.done().len();

    let idx = move_task_between_sections(
        &mut track,
        "T-001",
        SectionKind::Backlog,
        SectionKind::Done,
    );
    assert_eq!(idx, Some(0)); // was first in backlog
    assert_eq!(track.backlog().len(), backlog_count - 1);
    assert_eq!(track.done().len(), done_count + 1);
    // Should be at top of Done section
    assert_eq!(track.done()[0].id.as_deref(), Some("T-001"));
}

#[test]
fn test_move_task_between_sections_with_subtasks() {
    let mut track = sample_track();
    // T-003 has 2 subtasks
    let sub_count = track.backlog()[2].subtasks.len();
    assert_eq!(sub_count, 2);

    let idx = move_task_between_sections(
        &mut track,
        "T-003",
        SectionKind::Backlog,
        SectionKind::Done,
    );
    assert_eq!(idx, Some(2)); // was third in backlog
    // Subtasks should travel with parent
    let done_task = &track.done()[0];
    assert_eq!(done_task.id.as_deref(), Some("T-003"));
    assert_eq!(done_task.subtasks.len(), 2);
}

#[test]
fn test_move_task_between_sections_subtask_returns_none() {
    let mut track = sample_track();
    // T-003.1 is a subtask — should not be movable independently
    let result = move_task_between_sections(
        &mut track,
        "T-003.1",
        SectionKind::Backlog,
        SectionKind::Done,
    );
    assert_eq!(result, None);
}

#[test]
fn test_move_task_between_sections_creates_missing_section() {
    // Track with only Backlog and Done (no Parked section)
    let mut track = parse_track(
        "\
# Test Track

## Backlog

- [ ] `T-001` First task

## Done
",
    );
    assert!(!track.has_section(SectionKind::Parked));

    let idx = move_task_between_sections(
        &mut track,
        "T-001",
        SectionKind::Backlog,
        SectionKind::Parked,
    );
    assert_eq!(idx, Some(0));
    // Task should now be in the newly-created Parked section
    assert_eq!(track.parked().len(), 1);
    assert_eq!(track.parked()[0].id.as_deref(), Some("T-001"));
    assert_eq!(track.backlog().len(), 0);

    // Verify Parked section was inserted between Backlog and Done
    let section_order: Vec<SectionKind> = track
        .nodes
        .iter()
        .filter_map(|n| {
            if let TrackNode::Section { kind, .. } = n {
                Some(*kind)
            } else {
                None
            }
        })
        .collect();
    assert_eq!(
        section_order,
        vec![SectionKind::Backlog, SectionKind::Parked, SectionKind::Done]
    );
}

#[test]
fn test_is_top_level_in_section() {
    let track = sample_track();
    assert!(is_top_level_in_section(
        &track,
        "T-001",
        SectionKind::Backlog
    ));
    assert!(!is_top_level_in_section(
        &track,
        "T-003.1",
        SectionKind::Backlog
    ));
    assert!(!is_top_level_in_section(&track, "T-001", SectionKind::Done));
    assert!(is_top_level_in_section(&track, "T-000", SectionKind::Done));
}

// --- Reparent helpers ---

#[test]
fn test_find_task_location_top_level() {
    let track = sample_track();
    let loc = find_task_location(&track, "T-001", SectionKind::Backlog).unwrap();
    assert_eq!(loc.section, SectionKind::Backlog);
    assert!(loc.parent_id.is_none());
    assert_eq!(loc.sibling_index, 0);

    let loc2 = find_task_location(&track, "T-003", SectionKind::Backlog).unwrap();
    assert!(loc2.parent_id.is_none());
    assert_eq!(loc2.sibling_index, 2);
}

#[test]
fn test_find_task_location_nested() {
    let track = sample_track();
    let loc = find_task_location(&track, "T-003.1", SectionKind::Backlog).unwrap();
    assert_eq!(loc.section, SectionKind::Backlog);
    assert_eq!(loc.parent_id.as_deref(), Some("T-003"));
    assert_eq!(loc.sibling_index, 0);

    let loc2 = find_task_location(&track, "T-003.2", SectionKind::Backlog).unwrap();
    assert_eq!(loc2.parent_id.as_deref(), Some("T-003"));
    assert_eq!(loc2.sibling_index, 1);
}

#[test]
fn test_find_task_location_not_found() {
    let track = sample_track();
    assert!(find_task_location(&track, "T-999", SectionKind::Backlog).is_none());
}

#[test]
fn test_find_task_location_any_section() {
    let track = sample_track();
    let loc = find_task_location_any_section(&track, "T-000").unwrap();
    assert_eq!(loc.section, SectionKind::Done);
    assert!(loc.parent_id.is_none());

    let loc2 = find_task_location_any_section(&track, "T-010").unwrap();
    assert_eq!(loc2.section, SectionKind::Parked);
}

#[test]
fn test_remove_insert_task_subtree_round_trip() {
    let mut track = sample_track();
    let original_count = track.backlog().len();

    // Remove T-002
    let (task, loc) = remove_task_subtree(&mut track, "T-002").unwrap();
    assert_eq!(task.id.as_deref(), Some("T-002"));
    assert!(loc.parent_id.is_none());
    assert_eq!(loc.sibling_index, 1);
    assert_eq!(track.backlog().len(), original_count - 1);

    // Re-insert at the same position
    insert_task_subtree(&mut track, task, None, SectionKind::Backlog, 1).unwrap();
    assert_eq!(track.backlog().len(), original_count);
    assert_eq!(track.backlog()[1].id.as_deref(), Some("T-002"));
}

#[test]
fn test_remove_insert_subtask_round_trip() {
    let mut track = sample_track();
    let original_sub_count = track.backlog()[2].subtasks.len();

    // Remove T-003.1 (subtask)
    let (task, loc) = remove_task_subtree(&mut track, "T-003.1").unwrap();
    assert_eq!(task.id.as_deref(), Some("T-003.1"));
    assert_eq!(loc.parent_id.as_deref(), Some("T-003"));
    assert_eq!(loc.sibling_index, 0);
    assert_eq!(track.backlog()[2].subtasks.len(), original_sub_count - 1);

    // Re-insert
    insert_task_subtree(&mut track, task, Some("T-003"), SectionKind::Backlog, 0).unwrap();
    assert_eq!(track.backlog()[2].subtasks.len(), original_sub_count);
    assert_eq!(
        track.backlog()[2].subtasks[0].id.as_deref(),
        Some("T-003.1")
    );
}

#[test]
fn test_max_subtree_depth() {
    let track = sample_track();
    // T-001 has no subtasks
    let t1 = find_task_in_track(&track, "T-001").unwrap();
    assert_eq!(max_subtree_depth(t1), 0);

    // T-003 has 2 subtasks (depth 1)
    let t3 = find_task_in_track(&track, "T-003").unwrap();
    assert_eq!(max_subtree_depth(t3), 1);
}

#[test]
fn test_max_subtree_depth_deep() {
    // Create a 3-level task manually
    let track = parse_track(
        "\
# Deep Track

## Backlog

- [ ] `D-001` Root
  - [ ] `D-001.1` Child
    - [ ] `D-001.1.1` Grandchild
",
    );
    let root = find_task_in_track(&track, "D-001").unwrap();
    assert_eq!(max_subtree_depth(root), 2);

    let child = find_task_in_track(&track, "D-001.1").unwrap();
    assert_eq!(max_subtree_depth(child), 1);

    let grandchild = find_task_in_track(&track, "D-001.1.1").unwrap();
    assert_eq!(max_subtree_depth(grandchild), 0);
}

#[test]
fn test_rekey_subtree() {
    let mut track = sample_track();
    // Extract T-003 with its subtasks
    let (mut task, _) = remove_task_subtree(&mut track, "T-003").unwrap();

    let mappings = rekey_subtree(&mut task, "T-005");
    assert_eq!(mappings.len(), 3); // T-003, T-003.1, T-003.2
    assert_eq!(mappings[0], ("T-003".to_string(), "T-005".to_string()));
    assert_eq!(mappings[1], ("T-003.1".to_string(), "T-005.1".to_string()));
    assert_eq!(mappings[2], ("T-003.2".to_string(), "T-005.2".to_string()));

    assert_eq!(task.id.as_deref(), Some("T-005"));
    assert_eq!(task.subtasks[0].id.as_deref(), Some("T-005.1"));
    assert_eq!(task.subtasks[1].id.as_deref(), Some("T-005.2"));
}

#[test]
fn test_is_descendant_of() {
    let track = sample_track();
    assert!(is_descendant_of(&track, "T-003", "T-003.1"));
    assert!(is_descendant_of(&track, "T-003", "T-003.2"));
    assert!(!is_descendant_of(&track, "T-003", "T-001"));
    assert!(!is_descendant_of(&track, "T-001", "T-003"));
    // Not reflexive
    assert!(!is_descendant_of(&track, "T-003", "T-003"));
}

#[test]
fn test_set_subtree_depth() {
    let mut track = sample_track();
    let (mut task, _) = remove_task_subtree(&mut track, "T-003").unwrap();

    // Originally T-003 is depth 0, subtasks depth 1
    set_subtree_depth(&mut task, 1);
    assert_eq!(task.depth, 1);
    assert_eq!(task.subtasks[0].depth, 2);
    assert_eq!(task.subtasks[1].depth, 2);
}

#[test]
fn test_reparent_promote_to_top_level() {
    let mut track = sample_track();
    let mut all_tracks: Vec<(String, Track)> = Vec::new();

    let result = reparent_task(
        &mut track,
        "T-003.1",
        None, // promote to top-level
        usize::MAX,
        "T",
        &mut all_tracks,
    )
    .unwrap();

    // Should get a new top-level ID
    assert!(result.new_root_id.starts_with("T-"));
    assert!(!result.new_root_id.contains('.'));

    // Old location should show parent
    assert_eq!(result.old_location.parent_id.as_deref(), Some("T-003"));

    // T-003 should now have only 1 subtask
    let parent = find_task_in_track(&track, "T-003").unwrap();
    assert_eq!(parent.subtasks.len(), 1);

    // New task should be top-level in backlog
    let promoted = find_task_in_track(&track, &result.new_root_id).unwrap();
    assert_eq!(promoted.depth, 0);
}

#[test]
fn test_reparent_under_new_parent() {
    let mut track = sample_track();
    let mut all_tracks: Vec<(String, Track)> = Vec::new();

    // Move T-001 to become a child of T-002
    let result = reparent_task(
        &mut track,
        "T-001",
        Some("T-002"),
        usize::MAX,
        "T",
        &mut all_tracks,
    )
    .unwrap();

    // New ID should be T-002.1
    assert_eq!(result.new_root_id, "T-002.1");

    // T-002 should now have T-001's content as a child
    let parent = find_task_in_track(&track, "T-002").unwrap();
    assert_eq!(parent.subtasks.len(), 1);
    assert_eq!(parent.subtasks[0].id.as_deref(), Some("T-002.1"));
    assert_eq!(parent.subtasks[0].title, "First task");

    // The reparented task should have depth 1
    let reparented = find_task_in_track(&track, "T-002.1").unwrap();
    assert_eq!(reparented.depth, 1);
}

#[test]
fn test_reparent_updates_dep_references() {
    let mut track = sample_track();
    let mut all_tracks: Vec<(String, Track)> = Vec::new();

    // T-002 has dep: T-001. Promote T-003.1 (no deps involved, but let's
    // reparent T-001 and check that T-002's dep is updated)
    let result =
        reparent_task(&mut track, "T-001", Some("T-003"), 0, "T", &mut all_tracks).unwrap();

    let new_id = &result.new_root_id;
    // T-002's dep should now reference the new ID
    let t2 = find_task_in_track(&track, "T-002").unwrap();
    let deps: Vec<&str> = t2
        .metadata
        .iter()
        .filter_map(|m| {
            if let Metadata::Dep(deps) = m {
                Some(deps.iter().map(|s| s.as_str()).collect::<Vec<_>>())
            } else {
                None
            }
        })
        .flatten()
        .collect();
    assert!(deps.contains(&new_id.as_str()));
    assert!(!deps.contains(&"T-001"));
}

#[test]
fn test_reparent_depth_limit() {
    // Create a track with 2-level nesting, then try to go deeper
    let mut track = parse_track(
        "\
# Deep Track

## Backlog

- [ ] `D-001` Root
  - [ ] `D-001.1` Child
    - [ ] `D-001.1.1` Grandchild
- [ ] `D-002` Another root
",
    );
    let mut all_tracks: Vec<(String, Track)> = Vec::new();

    // Try to reparent D-002 under D-001.1.1 (would be depth 3) — should fail
    let result = reparent_task(
        &mut track,
        "D-002",
        Some("D-001.1.1"),
        usize::MAX,
        "D",
        &mut all_tracks,
    );
    assert!(matches!(result, Err(TaskError::DepthExceeded)));
}

#[test]
fn test_reparent_depth_limit_with_subtree() {
    // A task with children can't go as deep
    let mut track = parse_track(
        "\
# Deep Track

## Backlog

- [ ] `D-001` Root
  - [ ] `D-001.1` Child
- [ ] `D-002` Has kids
  - [ ] `D-002.1` Sub
",
    );
    let mut all_tracks: Vec<(String, Track)> = Vec::new();

    // Try to reparent D-002 (which has depth-1 subtree) under D-001.1
    // That would put D-002 at depth 2 and D-002.1 at depth 3 — exceeds limit
    let result = reparent_task(
        &mut track,
        "D-002",
        Some("D-001.1"),
        usize::MAX,
        "D",
        &mut all_tracks,
    );
    assert!(matches!(result, Err(TaskError::DepthExceeded)));
}

#[test]
fn test_reparent_cycle_detection() {
    let mut track = sample_track();
    let mut all_tracks: Vec<(String, Track)> = Vec::new();

    // Try to reparent T-003 under its own child T-003.1 — cycle
    let result = reparent_task(
        &mut track,
        "T-003",
        Some("T-003.1"),
        usize::MAX,
        "T",
        &mut all_tracks,
    );
    assert!(matches!(result, Err(TaskError::CycleDetected)));
}

#[test]
fn test_reparent_self_cycle() {
    let mut track = sample_track();
    let mut all_tracks: Vec<(String, Track)> = Vec::new();

    // Try to reparent T-001 under itself
    let result = reparent_task(
        &mut track,
        "T-001",
        Some("T-001"),
        usize::MAX,
        "T",
        &mut all_tracks,
    );
    assert!(matches!(result, Err(TaskError::CycleDetected)));
}

#[test]
fn test_update_dep_references_in_track() {
    let mut track = sample_track();
    // T-002 depends on T-001. Rename T-001 to T-099.
    update_dep_references_in_track(&mut track, "T-001", "T-099");

    let t2 = find_task_in_track(&track, "T-002").unwrap();
    let has_new_dep = t2.metadata.iter().any(|m| {
        if let Metadata::Dep(deps) = m {
            deps.contains(&"T-099".to_string())
        } else {
            false
        }
    });
    assert!(has_new_dep);
}

// --- Hard delete ---

#[test]
fn test_hard_delete_top_level() {
    let mut track = sample_track();
    let deleted = hard_delete_task(&mut track, "T-001", "test").unwrap();
    assert_eq!(deleted.section, SectionKind::Backlog);
    assert!(deleted.parent_id.is_none());
    assert_eq!(deleted.position, 0);
    assert_eq!(deleted.task.title, "First task");
    assert!(find_task_in_track(&track, "T-001").is_none());
    assert_eq!(track.backlog().len(), 2);
}

#[test]
fn test_hard_delete_subtask() {
    let mut track = sample_track();
    let deleted = hard_delete_task(&mut track, "T-003.1", "test").unwrap();
    assert_eq!(deleted.parent_id.as_deref(), Some("T-003"));
    assert_eq!(deleted.position, 0);
    let parent = find_task_in_track(&track, "T-003").unwrap();
    assert_eq!(parent.subtasks.len(), 1);
}

#[test]
fn test_hard_delete_with_subtree() {
    let mut track = sample_track();
    let deleted = hard_delete_task(&mut track, "T-003", "test").unwrap();
    assert_eq!(deleted.task.subtasks.len(), 2);
    assert!(find_task_in_track(&track, "T-003").is_none());
    assert!(find_task_in_track(&track, "T-003.1").is_none());
    assert!(find_task_in_track(&track, "T-003.2").is_none());
}

#[test]
fn test_reinsert_round_trip() {
    let mut track = sample_track();
    let original_count = track.backlog().len();
    let deleted = hard_delete_task(&mut track, "T-002", "test").unwrap();
    assert_eq!(track.backlog().len(), original_count - 1);

    reinsert_task(&mut track, &deleted).unwrap();
    assert_eq!(track.backlog().len(), original_count);
    assert_eq!(track.backlog()[1].id.as_deref(), Some("T-002"));
}

#[test]
fn test_count_subtree_size() {
    let track = sample_track();
    let t1 = find_task_in_track(&track, "T-001").unwrap();
    assert_eq!(count_subtree_size(t1), 1);

    let t3 = find_task_in_track(&track, "T-003").unwrap();
    assert_eq!(count_subtree_size(t3), 3); // T-003 + T-003.1 + T-003.2
}

#[test]
fn test_hard_delete_not_found() {
    let mut track = sample_track();
    let result = hard_delete_task(&mut track, "NOPE", "test");
    assert!(result.is_err());
}

#[test]
fn test_next_child_number_after_deletion() {

    let track = parse_track(
        "\
# Test

## Backlog

- [ ] `T-001` Parent
  - [ ] `T-001.1` Sub 1
  - [ ] `T-001.2` Sub 2
  - [ ] `T-001.3` Sub 3
  - [ ] `T-001.4` Sub 4

## Done",
    );

    // With all 4 subtasks, next should be 5
    let parent = find_task_in_track(&track, "T-001").unwrap();
    assert_eq!(next_child_number(parent), 5);

    // Delete subtask 3 — next should still be 5, not 4
    let mut track = track;
    hard_delete_task(&mut track, "T-001.3", "test").unwrap();
    let parent = find_task_in_track(&track, "T-001").unwrap();
    assert_eq!(parent.subtasks.len(), 3);
    assert_eq!(next_child_number(parent), 5); // must skip over existing .4

    // Delete subtask 4 too — now remaining are [.1, .2], max is 2, so next is 3
    hard_delete_task(&mut track, "T-001.4", "test").unwrap();
    let parent = find_task_in_track(&track, "T-001").unwrap();
    assert_eq!(parent.subtasks.len(), 2);
    assert_eq!(next_child_number(parent), 3); // .3 and .4 are gone, no collision
}

/// Verify that deleting a subtask from a parent with multiline notes
/// produces correct serialization that round-trips through parse.
#[test]
fn test_delete_subtask_round_trip_with_note() {

    let source = "\
# Test Track

## Backlog

- [ ] `P-001` Parent with note
  - added: 2025-06-01
  - dep: X-001
  - note:

    Some note content here
  - [ ] `P-001.1` First sub
    - added: 2025-06-01
  - [ ] `P-001.2` Second sub
    - added: 2025-06-01
    - [ ] `P-001.2.1` Deep sub
      - added: 2025-06-01
- [ ] `P-002` Sibling task
  - added: 2025-06-01

## Done";

    let mut track = parse_track(source);

    // Delete first subtask
    let deleted = hard_delete_task(&mut track, "P-001.1", "test").unwrap();
    assert_eq!(deleted.parent_id.as_deref(), Some("P-001"));
    assert_eq!(deleted.position, 0);

    // Parent should be marked dirty, siblings unaffected
    let parent = find_task_in_track(&track, "P-001").unwrap();
    assert!(parent.dirty);
    assert_eq!(parent.subtasks.len(), 1);
    assert_eq!(parent.subtasks[0].id.as_deref(), Some("P-001.2"));

    // Sibling task should still exist and be clean
    let sibling = find_task_in_track(&track, "P-002").unwrap();
    assert!(!sibling.dirty);

    // Serialize and re-parse
    let output = serialize_track(&track);
    let reparsed = parse_track(&output);

    // Verify all expected tasks exist
    assert!(find_task_in_track(&reparsed, "P-001").is_some());
    assert!(find_task_in_track(&reparsed, "P-001.1").is_none()); // deleted
    assert!(find_task_in_track(&reparsed, "P-001.2").is_some());
    assert!(find_task_in_track(&reparsed, "P-001.2.1").is_some());
    assert!(find_task_in_track(&reparsed, "P-002").is_some());

    // Verify parent task metadata survived
    let parent = find_task_in_track(&reparsed, "P-001").unwrap();
    assert_eq!(parent.subtasks.len(), 1);
    assert!(parent.metadata.iter().any(|m| m.key() == "note"));
    assert!(parent.metadata.iter().any(|m| m.key() == "dep"));

    // Verify note content is correct
    let note = parent
        .metadata
        .iter()
        .find_map(|m| {
            if let Metadata::Note(n) = m {
                Some(n.clone())
            } else {
                None
            }
        })
        .unwrap();
    assert!(note.contains("Some note content here"));

    // Verify second round-trip is stable
    let output2 = serialize_track(&reparsed);
    assert_eq!(output, output2);
}

/// Verify that deleting a subtask doesn't affect other tasks in the track.
#[test]
fn test_delete_subtask_no_collateral_damage() {

    let source = "\
# Test Track

## Backlog

- [ ] `A-001` Task A with subtasks
  - added: 2025-06-01
  - [ ] `A-001.1` Sub A1
    - added: 2025-06-01
  - [ ] `A-001.2` Sub A2
    - added: 2025-06-01
  - [ ] `A-001.3` Sub A3
    - added: 2025-06-01
- [ ] `A-002` Task B with subtasks
  - added: 2025-06-01
  - note:
    Long note here
  - [ ] `A-002.1` Sub B1
    - added: 2025-06-01
  - [ ] `A-002.2` Sub B2
    - added: 2025-06-01
  - [ ] `A-002.3` Sub B3
    - added: 2025-06-01

## Done";

    let mut track = parse_track(source);

    // Delete middle subtask of first task
    hard_delete_task(&mut track, "A-001.2", "test").unwrap();

    // Serialize and re-parse
    let output = serialize_track(&track);
    let reparsed = parse_track(&output);

    // A-001 should have 2 subtasks
    let a001 = find_task_in_track(&reparsed, "A-001").unwrap();
    assert_eq!(a001.subtasks.len(), 2);
    assert_eq!(a001.subtasks[0].id.as_deref(), Some("A-001.1"));
    assert_eq!(a001.subtasks[1].id.as_deref(), Some("A-001.3"));

    // A-002 should be completely untouched — still 3 subtasks
    let a002 = find_task_in_track(&reparsed, "A-002").unwrap();
    assert_eq!(a002.subtasks.len(), 3);
    assert_eq!(a002.subtasks[0].id.as_deref(), Some("A-002.1"));
    assert_eq!(a002.subtasks[1].id.as_deref(), Some("A-002.2"));
    assert_eq!(a002.subtasks[2].id.as_deref(), Some("A-002.3"));

    // Verify note on A-002 survived
    assert!(a002.metadata.iter().any(|m| {
        matches!(m, Metadata::Note(n) if n.contains("Long note here"))
    }));
}

#[test]
fn adding_a_tag_twice_changes_nothing_the_second_time() {
    let mut track = sample_track();
    add_tag(&mut track, "T-001", "bug").unwrap();
    let once = frame_ops::parse::serialize_track(&track);
    add_tag(&mut track, "T-001", "#bug").unwrap();
    assert_eq!(frame_ops::parse::serialize_track(&track), once);
}

#[test]
fn a_removed_top_level_task_put_back_restores_the_track() {
    let mut track = sample_track();
    let before = frame_ops::parse::serialize_track(&track);
    let (task, loc) = remove_task_subtree(&mut track, "T-003").unwrap();
    assert!(loc.parent_id.is_none());
    insert_task_subtree(&mut track, task, None, loc.section, loc.sibling_index).unwrap();
    assert_eq!(frame_ops::parse::serialize_track(&track), before);
    assert!(track.backlog()[2].dirty);
    assert_eq!(track.backlog()[2].subtasks.len(), 2);
}
