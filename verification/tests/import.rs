use frame_ops::import::{import_tasks, ImportError};
use frame_ops::model::{Metadata, Track};
use frame_ops::parse::parse_track;
use frame_ops::task_ops::{find_task_in_track, InsertPosition};

fn sample_track() -> Track {
    parse_track(
        "\
# Test

## Backlog

- [ ] `T-001` First task
- [ ] `T-002` Second task

## Done
",
    )
}

fn simple_import_md() -> &'static str {
    "\
- [ ] Imported task one #ready
- [ ] Imported task two #design
- [ ] Imported task three
"
}

fn import_with_subtasks_md() -> &'static str {
    "\
- [ ] Parent task #ready
  - [ ] Sub one
  - [ ] Sub two
- [ ] Another top-level task
"
}

fn import_with_headers_md() -> &'static str {
    "\
# Tasks to import

Some description text here.

- [ ] Task after header #bug
- [ ] Second task after header
"
}

fn import_with_metadata_md() -> &'static str {
    "\
- [ ] Task with existing metadata
  - added: 2025-01-15
  - dep: EXT-001
  - note: Some existing note
- [ ] Task without metadata
"
}

fn import_with_blank_lines_md() -> &'static str {
    "\
- [ ] First group task one
- [ ] First group task two

- [ ] Second group task
"
}



#[test]
fn test_import_bottom() {
    let mut track = sample_track();
    let result =
        import_tasks(simple_import_md(), &mut track, InsertPosition::Bottom, "T").unwrap();

    assert_eq!(result.assigned_ids, vec!["T-003", "T-004", "T-005"]);
    assert_eq!(result.total_count, 3);

    let backlog = track.backlog();
    assert_eq!(backlog.len(), 5);
    assert_eq!(backlog[2].title, "Imported task one");
    assert_eq!(backlog[2].id.as_deref(), Some("T-003"));
    assert!(backlog[2].tags.contains(&"ready".to_string()));
    assert_eq!(backlog[3].id.as_deref(), Some("T-004"));
    assert_eq!(backlog[4].id.as_deref(), Some("T-005"));

    // All should have added dates
    for task in &backlog[2..] {
        assert!(task.metadata.iter().any(|m| m.key() == "added"));
    }
}

#[test]
fn test_import_top() {
    let mut track = sample_track();
    let result =
        import_tasks(simple_import_md(), &mut track, InsertPosition::Top, "T").unwrap();

    assert_eq!(result.assigned_ids.len(), 3);

    let backlog = track.backlog();
    assert_eq!(backlog.len(), 5);
    assert_eq!(backlog[0].title, "Imported task one");
    assert_eq!(backlog[1].title, "Imported task two");
    assert_eq!(backlog[2].title, "Imported task three");
    assert_eq!(backlog[3].id.as_deref(), Some("T-001"));
    assert_eq!(backlog[4].id.as_deref(), Some("T-002"));
}

#[test]
fn test_import_after() {
    let mut track = sample_track();
    let result = import_tasks(
        simple_import_md(),
        &mut track,
        InsertPosition::After("T-001".into()),
        "T",
    )
    .unwrap();

    assert_eq!(result.assigned_ids.len(), 3);

    let backlog = track.backlog();
    assert_eq!(backlog.len(), 5);
    assert_eq!(backlog[0].id.as_deref(), Some("T-001"));
    assert_eq!(backlog[1].title, "Imported task one");
    assert_eq!(backlog[2].title, "Imported task two");
    assert_eq!(backlog[3].title, "Imported task three");
    assert_eq!(backlog[4].id.as_deref(), Some("T-002"));
}

#[test]
fn test_import_with_subtasks() {
    let mut track = sample_track();
    let result = import_tasks(
        import_with_subtasks_md(),
        &mut track,
        InsertPosition::Bottom,
        "T",
    )
    .unwrap();

    assert_eq!(result.assigned_ids, vec!["T-003", "T-004"]);
    assert_eq!(result.total_count, 4); // 2 top-level + 2 subtasks

    let parent = find_task_in_track(&track, "T-003").unwrap();
    assert_eq!(parent.title, "Parent task");
    assert_eq!(parent.subtasks.len(), 2);
    assert_eq!(parent.subtasks[0].id.as_deref(), Some("T-003.1"));
    assert_eq!(parent.subtasks[0].title, "Sub one");
    assert_eq!(parent.subtasks[1].id.as_deref(), Some("T-003.2"));
    assert_eq!(parent.subtasks[1].title, "Sub two");

    // Subtasks should also have added dates
    assert!(parent.subtasks[0]
        .metadata
        .iter()
        .any(|m| m.key() == "added"));
}

#[test]
fn test_import_skips_headers() {
    let mut track = sample_track();
    let result = import_tasks(
        import_with_headers_md(),
        &mut track,
        InsertPosition::Bottom,
        "T",
    )
    .unwrap();

    assert_eq!(result.assigned_ids.len(), 2);
    assert_eq!(result.total_count, 2);

    let backlog = track.backlog();
    assert_eq!(backlog[2].title, "Task after header");
    assert!(backlog[2].tags.contains(&"bug".to_string()));
}

#[test]
fn test_import_preserves_existing_metadata() {
    let mut track = sample_track();
    let result = import_tasks(
        import_with_metadata_md(),
        &mut track,
        InsertPosition::Bottom,
        "T",
    )
    .unwrap();

    assert_eq!(result.assigned_ids.len(), 2);

    let task = find_task_in_track(&track, "T-003").unwrap();
    // Should keep the existing added date
    assert!(task
        .metadata
        .iter()
        .any(|m| matches!(m, Metadata::Added(d) if d == "2025-01-15")));
    // Should keep deps
    assert!(task
        .metadata
        .iter()
        .any(|m| matches!(m, Metadata::Dep(d) if d.contains(&"EXT-001".to_string()))));
    // Should keep note
    assert!(task
        .metadata
        .iter()
        .any(|m| matches!(m, Metadata::Note(n) if n.contains("existing note"))));

    // Task without metadata should get today's date
    let task2 = find_task_in_track(&track, "T-004").unwrap();
    assert!(task2.metadata.iter().any(|m| m.key() == "added"));
}

#[test]
fn test_import_with_blank_lines_between_tasks() {
    let mut track = sample_track();
    let result = import_tasks(
        import_with_blank_lines_md(),
        &mut track,
        InsertPosition::Bottom,
        "T",
    )
    .unwrap();

    assert_eq!(result.assigned_ids.len(), 3);
    assert_eq!(result.total_count, 3);

    let backlog = track.backlog();
    assert_eq!(backlog[2].title, "First group task one");
    assert_eq!(backlog[3].title, "First group task two");
    assert_eq!(backlog[4].title, "Second group task");
}

#[test]
fn test_import_empty_file() {
    let mut track = sample_track();
    let result = import_tasks("", &mut track, InsertPosition::Bottom, "T");
    assert!(matches!(result, Err(ImportError::NoTasks)));
}

#[test]
fn test_import_no_tasks_in_file() {
    let mut track = sample_track();
    let result = import_tasks(
        "# Just a header\n\nSome text but no tasks.\n",
        &mut track,
        InsertPosition::Bottom,
        "T",
    );
    assert!(matches!(result, Err(ImportError::NoTasks)));
}

#[test]
fn test_import_after_nonexistent_id() {
    let mut track = sample_track();
    let result = import_tasks(
        simple_import_md(),
        &mut track,
        InsertPosition::After("T-999".into()),
        "T",
    );
    assert!(result.is_err());
}

#[test]
fn test_imported_tasks_are_dirty() {
    let mut track = sample_track();
    import_tasks(
        import_with_subtasks_md(),
        &mut track,
        InsertPosition::Bottom,
        "T",
    )
    .unwrap();

    let parent = find_task_in_track(&track, "T-003").unwrap();
    assert!(parent.dirty);
    assert!(parent.subtasks[0].dirty);
    assert!(parent.subtasks[1].dirty);
}

#[test]
fn test_import_id_continues_from_max() {
    let mut track = parse_track(
        "\
# Test

## Backlog

- [ ] `T-050` Existing task

## Done
",
    );
    let result =
        import_tasks(simple_import_md(), &mut track, InsertPosition::Bottom, "T").unwrap();

    assert_eq!(result.assigned_ids, vec!["T-051", "T-052", "T-053"]);
}

#[test]
fn test_import_three_level_nesting() {
    let md = "\
- [ ] Top level #ready
  - [ ] Sub level
    - [ ] Sub-sub level
";
    let mut track = sample_track();
    let result = import_tasks(md, &mut track, InsertPosition::Bottom, "T").unwrap();

    assert_eq!(result.assigned_ids, vec!["T-003"]);
    assert_eq!(result.total_count, 3);

    let top = find_task_in_track(&track, "T-003").unwrap();
    assert_eq!(top.subtasks.len(), 1);
    assert_eq!(top.subtasks[0].id.as_deref(), Some("T-003.1"));
    assert_eq!(top.subtasks[0].subtasks.len(), 1);
    assert_eq!(
        top.subtasks[0].subtasks[0].id.as_deref(),
        Some("T-003.1.1")
    );
}
