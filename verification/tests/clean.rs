use frame_ops::clean::{archived_task_ids, clean_project, ensure_ids_and_dates, normalize_project, scan_field_order, DateKind, SuggestionKind};
use frame_ops::model::{Metadata, SectionKind};
use frame_ops::parse::{parse_track, serialize_track};
use frame_ops::project::{CleanConfig, IdScope, Project};
use frame_ops::task_id::Token;

fn make_project(track_src: &str, prefixes: Vec<(&str, &str)>) -> Project {
    let track = parse_track(track_src);
    Project {
        tracks: vec![("main".to_string(), track)],
        track_order: vec!["main".to_string()],
        track_states: vec![],
        prefixes: prefixes
            .iter()
            .map(|(k, v)| (k.to_string(), v.to_string()))
            .collect(),
        clean: CleanConfig::default(),
        inbox: None,
        id_floors: vec![],
        archives: vec![],
        missing_paths: vec![],
    }
}

fn project_with_idless_task() -> Project {
    make_project(
        "\
# Main

## Backlog

- [ ] `M-001` Has an ID
- [ ] Missing an ID

## Done
",
        vec![("main", "M")],
    )
}


#[test]
fn test_assign_missing_ids() {
    let mut project = make_project(
        "\
# Main

## Backlog

- [ ] `M-001` Has ID
- [ ] Missing ID task
- [ ] Another missing

## Done
",
        vec![("main", "M")],
    );

    let result = clean_project(&mut project, IdScope::Mint(None));
    assert_eq!(result.ids_assigned.len(), 2);
    assert_eq!(result.ids_assigned[0].assigned_id, "M-002");
    assert_eq!(result.ids_assigned[0].title, "Missing ID task");
    assert_eq!(result.ids_assigned[1].assigned_id, "M-003");

    // Verify tasks were actually modified
    let backlog = project.tracks[0].1.backlog();
    assert_eq!(backlog[1].id.as_deref(), Some("M-002"));
    assert_eq!(backlog[2].id.as_deref(), Some("M-003"));
    assert!(backlog[1].dirty);
}

#[test]
fn test_assign_missing_ids_no_prefix() {
    let mut project = make_project(
        "\
# Main

## Backlog

- [ ] No prefix configured

## Done
",
        vec![], // no prefixes
    );

    let result = clean_project(&mut project, IdScope::Mint(None));
    // Should not assign IDs if no prefix configured
    assert!(result.ids_assigned.is_empty());
}

#[test]
fn test_assign_subtask_ids() {
    let mut project = make_project(
        "\
# Main

## Backlog

- [ ] `M-001` Parent
  - [ ] Sub without ID
  - [ ] `M-001.2` Has ID

## Done
",
        vec![("main", "M")],
    );

    let result = clean_project(&mut project, IdScope::Mint(None));
    // Only the first subtask should get an ID assigned
    let sub_assignments: Vec<_> = result
        .ids_assigned
        .iter()
        .filter(|a| a.assigned_id.contains('.'))
        .collect();
    assert_eq!(sub_assignments.len(), 1);
    // Max existing child number is 2 (from M-001.2), so next is .3
    assert_eq!(sub_assignments[0].assigned_id, "M-001.3");
}

#[test]
fn test_assign_missing_dates() {
    let mut project = make_project(
        "\
# Main

## Backlog

- [ ] `M-001` Has date
  - added: 2025-05-01
- [ ] `M-002` Missing date

## Done
",
        vec![("main", "M")],
    );

    let result = clean_project(&mut project, IdScope::Mint(None));
    assert_eq!(result.dates_assigned.len(), 1);
    assert_eq!(result.dates_assigned[0].task_id, "M-002");

    // Verify the task got the date
    let backlog = project.tracks[0].1.backlog();
    assert!(
        backlog[1]
            .metadata
            .iter()
            .any(|m| matches!(m, Metadata::Added(_)))
    );
}

#[test]
fn test_assigns_missing_resolved_date() {
    let mut project = make_project(
        "\
# Main

## Done

- [x] `M-001` Has a resolved date
  - added: 2025-05-01
  - resolved: 2025-05-02
- [x] `M-002` Ticked done by hand, no resolved date
  - added: 2025-05-01
",
        vec![("main", "M")],
    );

    let result = clean_project(&mut project, IdScope::Mint(None));

    let resolved: Vec<_> = result
        .dates_assigned
        .iter()
        .filter(|d| d.kind == DateKind::Resolved)
        .collect();
    assert_eq!(resolved.len(), 1, "only the dateless done task");
    assert_eq!(resolved[0].task_id, "M-002");

    let done = project.tracks[0].1.done();
    assert!(
        done[1]
            .metadata
            .iter()
            .any(|m| matches!(m, Metadata::Resolved(_)))
    );
}

#[test]
fn test_resolved_date_is_not_assigned_to_unfinished_tasks() {
    let mut project = make_project(
        "\
# Main

## Backlog

- [ ] `M-001` Todo
  - added: 2025-05-01
- [~] `M-002` Parked
  - added: 2025-05-01
",
        vec![("main", "M")],
    );

    let result = clean_project(&mut project, IdScope::Mint(None));

    assert!(
        !result
            .dates_assigned
            .iter()
            .any(|d| d.kind == DateKind::Resolved),
        "only done tasks get a resolved date"
    );
}

#[test]
fn test_no_duplicate_dates() {
    let mut project = make_project(
        "\
# Main

## Backlog

- [ ] `M-001` Already has date
  - added: 2025-01-01

## Done
",
        vec![("main", "M")],
    );

    let result = clean_project(&mut project, IdScope::Mint(None));
    assert!(result.dates_assigned.is_empty());
}

#[test]
fn test_dangling_deps() {
    let mut project = make_project(
        "\
# Main

## Backlog

- [ ] `M-001` Task with good dep
  - dep: M-002
- [ ] `M-002` Target task
- [ ] `M-003` Task with bad dep
  - dep: NONEXIST-999

## Done
",
        vec![("main", "M")],
    );

    let result = clean_project(&mut project, IdScope::Mint(None));
    assert_eq!(result.dangling_deps.len(), 1);
    assert_eq!(result.dangling_deps[0].task_id, "M-003");
    assert_eq!(result.dangling_deps[0].dep_id, "NONEXIST-999");
}

#[test]
fn test_suggest_parent_done_when_all_subtasks_done() {
    let mut project = make_project(
        "\
# Main

## Backlog

- [ ] `M-001` Parent with all done subs
  - [x] `M-001.1` Sub one
    - resolved: 2025-05-10
  - [x] `M-001.2` Sub two
    - resolved: 2025-05-11
- [ ] `M-002` Parent with mixed subs
  - [x] `M-002.1` Done sub
  - [ ] `M-002.2` Todo sub

## Done
",
        vec![("main", "M")],
    );

    let result = clean_project(&mut project, IdScope::Mint(None));
    assert_eq!(result.suggestions.len(), 1);
    assert_eq!(result.suggestions[0].task_id, "M-001");
    assert_eq!(result.suggestions[0].kind, SuggestionKind::AllSubtasksDone);
}

#[test]
fn test_no_suggestion_for_already_done_parent() {
    let mut project = make_project(
        "\
# Main

## Backlog

## Done

- [x] `M-001` Already done parent
  - resolved: 2025-05-10
  - [x] `M-001.1` Sub one
  - [x] `M-001.2` Sub two
",
        vec![("main", "M")],
    );

    let result = clean_project(&mut project, IdScope::Mint(None));
    assert!(result.suggestions.is_empty());
}

#[test]
fn test_no_suggestion_for_leaf_tasks() {
    let mut project = make_project(
        "\
# Main

## Backlog

- [ ] `M-001` Leaf task with no subtasks

## Done
",
        vec![("main", "M")],
    );

    let result = clean_project(&mut project, IdScope::Mint(None));
    assert!(result.suggestions.is_empty());
}

#[test]
fn test_archived_task_ids_reads_task_lines_only() {
    let ids = archived_task_ids(
        "\
# Archive \u{2014} main

- [x] `M-001` First
  - note:
    A note mentioning `M-999` in prose, and a fake `- [x] `M-998`` line.
  - [x] `M-001.1` Subtask
- [x] `M-a7` Another namespace
",
    );
    assert!(ids.contains("M-001"));
    assert!(ids.contains("M-001.1"), "subtask lines count too");
    assert!(ids.contains("M-a7"));
    assert!(!ids.contains("M-999"), "prose is not a task line");
    assert_eq!(ids.len(), 3, "{ids:?}");
}

#[test]
fn test_no_archive_under_threshold() {
    let mut project = make_project(
        "\
# Main

## Backlog

## Done

- [x] `M-001` One done task
  - resolved: 2025-05-10
",
        vec![("main", "M")],
    );

    let result = clean_project(&mut project, IdScope::Mint(None));
    assert!(result.tasks_archived.is_empty());
}

#[test]
fn test_resolve_duplicate_ids_within_track() {
    let mut project = make_project(
        "\
# Main

## Backlog

- [ ] `M-001` First occurrence
  - added: 2025-05-01
- [ ] `M-001` Duplicate in same track
  - added: 2025-05-02

## Done
",
        vec![("main", "M")],
    );

    let result = clean_project(&mut project, IdScope::Mint(None));

    assert_eq!(result.duplicates_resolved.len(), 1);
    assert_eq!(result.duplicates_resolved[0].original_id, "M-001");
    assert_eq!(
        result.duplicates_resolved[0].title,
        "Duplicate in same track"
    );

    let backlog = project.tracks[0].1.backlog();
    assert_eq!(backlog[0].id.as_deref(), Some("M-001"));
    assert_eq!(backlog[1].id.as_deref(), Some("M-002"));
}

#[test]
fn test_resolve_duplicate_ids_renumbers_subtasks() {
    let mut project = make_project(
        "\
# Main

## Backlog

- [ ] `M-001` First
  - added: 2025-05-01
- [ ] `M-001` Duplicate parent with subtasks
  - added: 2025-05-02
  - [ ] `M-001.1` Sub one
    - added: 2025-05-02
  - [ ] `M-001.2` Sub two
    - added: 2025-05-02

## Done
",
        vec![("main", "M")],
    );

    let result = clean_project(&mut project, IdScope::Mint(None));

    assert_eq!(result.duplicates_resolved.len(), 1);
    let backlog = project.tracks[0].1.backlog();
    // First keeps M-001
    assert_eq!(backlog[0].id.as_deref(), Some("M-001"));
    // Duplicate gets M-002
    assert_eq!(backlog[1].id.as_deref(), Some("M-002"));
    // Subtasks renumbered
    assert_eq!(backlog[1].subtasks[0].id.as_deref(), Some("M-002.1"));
    assert_eq!(backlog[1].subtasks[1].id.as_deref(), Some("M-002.2"));
}

#[test]
fn test_resolve_duplicate_subtask_renumbers_under_its_parent() {
    let mut project = make_project(
        "\
# Main

## Backlog

- [ ] `M-001` Parent
  - added: 2025-05-01
  - [ ] `M-001.4` Mine
    - added: 2025-05-01
  - [ ] `M-001.4` Theirs
    - added: 2025-05-01

## Done
",
        vec![("main", "M")],
    );

    let result = clean_project(&mut project, IdScope::Mint(None));

    assert_eq!(result.duplicates_resolved.len(), 1);
    assert_eq!(result.duplicates_resolved[0].original_id, "M-001.4");
    assert_eq!(result.duplicates_resolved[0].new_id, "M-001.5");

    let backlog = project.tracks[0].1.backlog();
    assert_eq!(backlog.len(), 1, "no task was promoted to top level");
    assert_eq!(backlog[0].subtasks[0].id.as_deref(), Some("M-001.4"));
    assert_eq!(backlog[0].subtasks[1].id.as_deref(), Some("M-001.5"));
}

#[test]
fn test_resolve_duplicate_subtasks_stage_within_one_parent() {
    let mut project = make_project(
        "\
# Main

## Backlog

- [ ] `M-001` Parent
  - added: 2025-05-01
  - [ ] `M-001.1` Original
    - added: 2025-05-01
  - [ ] `M-001.1` Copy one
    - added: 2025-05-01
  - [ ] `M-001.1` Copy two
    - added: 2025-05-01

## Done
",
        vec![("main", "M")],
    );

    clean_project(&mut project, IdScope::Mint(None));

    let subs = &project.tracks[0].1.backlog()[0].subtasks;
    let ids: Vec<_> = subs.iter().filter_map(|s| s.id.as_deref()).collect();
    assert_eq!(ids, vec!["M-001.1", "M-001.2", "M-001.3"]);
}

#[test]
fn test_resolve_duplicate_grandchild_renumbers_under_its_own_parent() {
    let mut project = make_project(
        "\
# Main

## Backlog

- [ ] `M-001` Parent
  - added: 2025-05-01
  - [ ] `M-001.1` Child
    - added: 2025-05-01
    - [ ] `M-001.1.2` Grandchild
      - added: 2025-05-01
    - [ ] `M-001.1.2` Grandchild twin
      - added: 2025-05-01

## Done
",
        vec![("main", "M")],
    );

    clean_project(&mut project, IdScope::Mint(None));

    let grandkids = &project.tracks[0].1.backlog()[0].subtasks[0].subtasks;
    assert_eq!(grandkids[0].id.as_deref(), Some("M-001.1.2"));
    assert_eq!(grandkids[1].id.as_deref(), Some("M-001.1.3"));
}

#[test]
fn test_resolve_duplicate_subtask_rekeys_descendants() {
    let mut project = make_project(
        "\
# Main

## Backlog

- [ ] `M-001` Parent
  - added: 2025-05-01
  - [ ] `M-001.1` Original
    - added: 2025-05-01
  - [ ] `M-001.1` Twin
    - added: 2025-05-01
    - [ ] `M-001.1.1` Twin's child
      - added: 2025-05-01

## Done
",
        vec![("main", "M")],
    );

    clean_project(&mut project, IdScope::Mint(None));

    let twin = &project.tracks[0].1.backlog()[0].subtasks[1];
    assert_eq!(twin.id.as_deref(), Some("M-001.2"));
    assert_eq!(twin.subtasks[0].id.as_deref(), Some("M-001.2.1"));
}

#[test]
fn test_resolve_duplicate_subtask_in_token_namespace() {
    let mut project = make_project(
        "\
# Main

## Backlog

- [ ] `M-001` Parent
  - added: 2025-05-01
  - [ ] `M-001.1` Original
    - added: 2025-05-01
  - [ ] `M-001.1` Twin
    - added: 2025-05-01

## Done
",
        vec![("main", "M")],
    );

    let token = Token::new("b").unwrap();
    clean_project(&mut project, IdScope::Mint(Some(token)));

    let subs = &project.tracks[0].1.backlog()[0].subtasks;
    assert_eq!(subs[0].id.as_deref(), Some("M-001.1"));
    assert_eq!(subs[1].id.as_deref(), Some("M-001.b1"));
}

#[test]
fn test_no_duplicates_no_changes() {
    let mut project = make_project(
        "\
# Main

## Backlog

- [ ] `M-001` Task one
  - added: 2025-05-01
- [ ] `M-002` Task two
  - added: 2025-05-01

## Done
",
        vec![("main", "M")],
    );

    let result = clean_project(&mut project, IdScope::Mint(None));
    assert!(result.duplicates_resolved.is_empty());
}

#[test]
fn test_clean_assigns_ids_then_validates_deps() {
    let mut project = make_project(
        "\
# Main

## Backlog

- [ ] `M-001` Task one
  - dep: M-002
- [ ] `M-002` Task two

## Done
",
        vec![("main", "M")],
    );

    let result = clean_project(&mut project, IdScope::Mint(None));
    // Deps should be valid (M-002 exists)
    assert!(result.dangling_deps.is_empty());
}

#[test]
fn test_ensure_ids_and_dates_basic() {
    let mut project = make_project(
        "\
# Main

## Backlog

- [ ] `M-001` Has ID and date
  - added: 2025-05-01
- [ ] Missing everything

## Done
",
        vec![("main", "M")],
    );

    let modified = ensure_ids_and_dates(&mut project, IdScope::Mint(None));
    assert_eq!(modified, vec!["main".to_string()]);

    let backlog = project.tracks[0].1.backlog();
    // Second task should now have an ID
    assert_eq!(backlog[1].id.as_deref(), Some("M-002"));
    // Second task should now have an added date
    assert!(
        backlog[1]
            .metadata
            .iter()
            .any(|m| matches!(m, Metadata::Added(_)))
    );
}

#[test]
fn test_ensure_ids_and_dates_no_changes() {
    let mut project = make_project(
        "\
# Main

## Backlog

- [ ] `M-001` All good
  - added: 2025-05-01
- [ ] `M-002` Also good
  - added: 2025-05-02

## Done
",
        vec![("main", "M")],
    );

    let modified = ensure_ids_and_dates(&mut project, IdScope::Mint(None));
    assert!(modified.is_empty());
}

#[test]
fn test_ensure_ids_and_dates_no_prefix() {
    let mut project = make_project(
        "\
# Main

## Backlog

- [ ] No prefix configured

## Done
",
        vec![], // no prefixes
    );

    let modified = ensure_ids_and_dates(&mut project, IdScope::Mint(None));
    // Should still assign dates even without a prefix
    assert_eq!(modified, vec!["main".to_string()]);
    // But should NOT assign IDs
    let backlog = project.tracks[0].1.backlog();
    assert!(backlog[0].id.is_none());
    // Should have an added date
    assert!(
        backlog[0]
            .metadata
            .iter()
            .any(|m| matches!(m, Metadata::Added(_)))
    );
}

#[test]
fn test_ensure_ids_and_dates_resolves_duplicates() {
    let mut project = make_project(
        "\
# Main

## Backlog

- [ ] `M-001` First occurrence
  - added: 2025-05-01
- [ ] `M-001` Duplicate
  - added: 2025-05-02

## Done
",
        vec![("main", "M")],
    );

    let modified = ensure_ids_and_dates(&mut project, IdScope::Mint(None));
    assert!(modified.contains(&"main".to_string()));

    let backlog = project.tracks[0].1.backlog();
    assert_eq!(backlog[0].id.as_deref(), Some("M-001"));
    assert_eq!(backlog[1].id.as_deref(), Some("M-002"));
}

#[test]
fn test_reconcile_parked_task_in_backlog() {
    let mut project = make_project(
        "\
# Main

## Backlog

- [ ] `M-001` Normal task
  - added: 2025-05-01
- [~] `M-002` Should be in Parked
  - added: 2025-05-02

## Done
",
        vec![("main", "M")],
    );

    let result = clean_project(&mut project, IdScope::Mint(None));
    assert_eq!(result.sections_reconciled.len(), 1);
    assert_eq!(result.sections_reconciled[0].task_id, "M-002");
    assert_eq!(result.sections_reconciled[0].from, SectionKind::Backlog);
    assert_eq!(result.sections_reconciled[0].to, SectionKind::Parked);

    // Task should now be in Parked section
    assert_eq!(project.tracks[0].1.parked().len(), 1);
    assert_eq!(project.tracks[0].1.parked()[0].id.as_deref(), Some("M-002"));
    // And removed from Backlog
    assert_eq!(project.tracks[0].1.backlog().len(), 1);
}

#[test]
fn test_reconcile_done_task_in_backlog() {
    let mut project = make_project(
        "\
# Main

## Backlog

- [x] `M-001` Done but stuck in Backlog
  - added: 2025-05-01
  - resolved: 2025-05-10

## Done
",
        vec![("main", "M")],
    );

    let result = clean_project(&mut project, IdScope::Mint(None));
    assert_eq!(result.sections_reconciled.len(), 1);
    assert_eq!(result.sections_reconciled[0].to, SectionKind::Done);

    assert_eq!(project.tracks[0].1.done().len(), 1);
    assert!(project.tracks[0].1.backlog().is_empty());
}

#[test]
fn test_reconcile_unparked_task_in_parked() {
    let mut project = make_project(
        "\
# Main

## Backlog

## Parked

- [ ] `M-001` Unparked but stuck in Parked section
  - added: 2025-05-01

## Done
",
        vec![("main", "M")],
    );

    let result = clean_project(&mut project, IdScope::Mint(None));
    assert_eq!(result.sections_reconciled.len(), 1);
    assert_eq!(result.sections_reconciled[0].from, SectionKind::Parked);
    assert_eq!(result.sections_reconciled[0].to, SectionKind::Backlog);

    assert_eq!(project.tracks[0].1.backlog().len(), 1);
    assert!(project.tracks[0].1.parked().is_empty());
}

#[test]
fn test_reconcile_no_changes_when_correct() {
    let mut project = make_project(
        "\
# Main

## Backlog

- [ ] `M-001` Normal task
  - added: 2025-05-01

## Parked

- [~] `M-002` Correctly parked
  - added: 2025-05-02

## Done

- [x] `M-003` Correctly done
  - added: 2025-05-03
  - resolved: 2025-05-10
",
        vec![("main", "M")],
    );

    let result = clean_project(&mut project, IdScope::Mint(None));
    assert!(result.sections_reconciled.is_empty());
}

#[test]
fn test_reconcile_via_ensure_ids_and_dates() {
    let mut project = make_project(
        "\
# Main

## Backlog

- [~] `M-001` Parked in wrong section
  - added: 2025-05-01

## Done
",
        vec![("main", "M")],
    );

    let modified = ensure_ids_and_dates(&mut project, IdScope::Mint(None));
    assert!(modified.contains(&"main".to_string()));
    assert_eq!(project.tracks[0].1.parked().len(), 1);
    assert!(project.tracks[0].1.backlog().is_empty());
}

#[test]
fn test_clean_assigns_missing_ids_in_token_namespace() {
    let token = Token::new("a").unwrap();
    let mut project = make_project(
        "\
# Main

## Backlog

- [ ] `M-001` Has null ID
- [ ] Missing ID task
  - [ ] Missing subtask ID

## Done
",
        vec![("main", "M")],
    );

    // Cleaning in actor `a`'s clone mints into the empty `a` namespace.
    let result = clean_project(&mut project, IdScope::Mint(Some(token.clone())));
    let assigned: Vec<&str> = result
        .ids_assigned
        .iter()
        .map(|a| a.assigned_id.as_str())
        .collect();
    assert_eq!(assigned, vec!["M-a1", "M-a1.a1"]);
    // The pre-existing null ID is untouched.
    assert_eq!(
        project.tracks[0].1.backlog()[0].id.as_deref(),
        Some("M-001")
    );
}

#[test]
fn test_clean_resolves_duplicates_in_token_namespace() {
    let token = Token::new("a").unwrap();
    let mut project = make_project(
        "\
# Main

## Backlog

- [ ] `M-001` First occurrence
  - added: 2025-05-01
- [ ] `M-001` Duplicate
  - added: 2025-05-02

## Done
",
        vec![("main", "M")],
    );

    clean_project(&mut project, IdScope::Mint(Some(token.clone())));
    let backlog = project.tracks[0].1.backlog();
    // Keeper retains its null ID; the duplicate is reassigned in `a`'s namespace.
    assert_eq!(backlog[0].id.as_deref(), Some("M-001"));
    assert_eq!(backlog[1].id.as_deref(), Some("M-a1"));
}

#[test]
fn test_unclaimed_passive_skips_id_assignment() {
    // An unclaimed clone must NOT mint null on a passive path: the ID-less
    // task stays ID-less.
    let mut project = project_with_idless_task();
    let modified = ensure_ids_and_dates(&mut project, IdScope::Unclaimed);
    let backlog = project.tracks[0].1.backlog();
    assert!(
        backlog[1].id.is_none(),
        "unclaimed clone must not mint an ID"
    );
    // The date-only normalization still ran (it mints nothing).
    assert!(
        backlog[1]
            .metadata
            .iter()
            .any(|m| matches!(m, Metadata::Added(_)))
    );
    assert!(modified.contains(&"main".to_string()));
}

#[test]
fn test_null_creator_passive_mints_null() {
    // The `fr init` creator deliberately owns null, so it still mints null.
    let mut project = project_with_idless_task();
    ensure_ids_and_dates(&mut project, IdScope::Mint(None));
    assert_eq!(
        project.tracks[0].1.backlog()[1].id.as_deref(),
        Some("M-002")
    );
}

#[test]
fn test_tokened_passive_mints_in_namespace() {
    let mut project = project_with_idless_task();
    ensure_ids_and_dates(&mut project, IdScope::Mint(Token::new("a")));
    assert_eq!(project.tracks[0].1.backlog()[1].id.as_deref(), Some("M-a1"));
}

#[test]
fn test_unclaimed_clean_skips_minting_but_archives() {
    // `clean_project` on an unclaimed clone skips ID assignment and duplicate
    // resolution, but still archives done tasks.
    let mut project = project_with_idless_task();
    let result = clean_project(&mut project, IdScope::Unclaimed);
    assert!(result.ids_assigned.is_empty());
    assert!(project.tracks[0].1.backlog()[1].id.is_none());
}

#[test]
fn test_clean_keeps_a_stray_line_on_an_untouched_task() {
    let source = "\
# Main

## Done

- [x] `M-001` Sharded map lowering
  - added: 2026-07-01
  - resolved: 2026-07-20
    **Shape.** A sharded map whose callback produces a per-row output.
- [x] `M-002` Needs a resolved date
  - added: 2026-07-02
";
    let mut project = make_project(source, vec![("main", "M")]);
    let result = clean_project(&mut project, IdScope::Mint(None));

    // The date fill is what triggered the rewrite.
    assert!(
        result
            .dates_assigned
            .iter()
            .any(|d| d.task_id == "M-002" && d.kind == DateKind::Resolved),
        "expected clean to fill M-002's resolved date: {:?}",
        result.dates_assigned
    );

    let written = frame_ops::parse::serialize_track(&project.tracks[0].1);
    assert!(
        written.contains("**Shape.** A sharded map whose callback produces a per-row output."),
        "clean deleted a line from an untouched task: {written}"
    );
}

#[test]
fn normalize_reorders_a_task_whose_fields_are_out_of_order() {
    let mut project = make_project(
        "\
# Main

## Backlog

## Done

- [x] `M-001` Finished
  - added: 2026-01-01
  - note: some body
  - resolved: 2026-01-02
",
        vec![("main", "M")],
    );

    let result = normalize_project(&mut project);
    assert_eq!(result.reordered.len(), 1);
    assert_eq!(result.reordered[0].task, "M-001");
    assert_eq!(result.reordered[0].was, ["added", "note", "resolved"]);
    assert!(result.skipped.is_empty());

    let text = serialize_track(&project.tracks[0].1);
    let added = text.find("added:").unwrap();
    let resolved = text.find("resolved:").unwrap();
    let note = text.find("note:").unwrap();
    assert!(added < resolved && resolved < note, "{text}");
}

#[test]
fn normalize_is_idempotent() {
    let mut project = make_project(
        "\
# Main

## Backlog

- [ ] `M-001` A task
  - added: 2026-01-01
  - note: body
  - ref: src/a.rs

## Done
",
        vec![("main", "M")],
    );

    assert_eq!(normalize_project(&mut project).reordered.len(), 1);
    let once = serialize_track(&project.tracks[0].1);

    let second = normalize_project(&mut project);
    assert!(second.reordered.is_empty(), "{:?}", second.reordered);
    assert_eq!(serialize_track(&project.tracks[0].1), once);
}

#[test]
fn normalize_reports_the_task_it_must_not_touch() {
    let mut project = make_project(
        "\
# Main

## Backlog

- [ ] `M-001` Has stranded lines
  - note:
  - added: 2026-01-01
    ```rust
    stranded
- [ ] `M-002` Next

## Done
",
        vec![("main", "M")],
    );

    let before = serialize_track(&project.tracks[0].1);
    let result = normalize_project(&mut project);

    assert_eq!(result.skipped.len(), 1, "{result:?}");
    assert_eq!(result.skipped[0].task, "M-001");
    assert!(result.reordered.is_empty(), "{:?}", result.reordered);
    assert_eq!(
        serialize_track(&project.tracks[0].1),
        before,
        "the task must be left exactly as it was"
    );
}

#[test]
fn normalize_reaches_subtasks() {
    let mut project = make_project(
        "\
# Main

## Backlog

- [ ] `M-001` Parent
  - added: 2026-01-01
  - [x] `M-001.1` Child
    - added: 2026-01-01
    - note: body
    - resolved: 2026-01-02

## Done
",
        vec![("main", "M")],
    );

    let result = normalize_project(&mut project);
    assert_eq!(result.reordered.len(), 1);
    assert_eq!(result.reordered[0].task, "M-001.1");
}

#[test]
fn normalize_survey_changes_nothing_and_agrees_with_the_pass() {
    let mut project = make_project(
        "\
# Main

## Backlog

- [ ] `M-001` A task
  - note: body
  - added: 2026-01-01
- [ ] `M-002` In order
  - added: 2026-01-01
  - note: body

## Done
",
        vec![("main", "M")],
    );
    let before = serialize_track(&project.tracks[0].1);
    let survey = scan_field_order(&project);
    assert_eq!(serialize_track(&project.tracks[0].1), before);
    assert_eq!(survey.reordered.len(), 1);
    assert_eq!(survey.reordered[0].task, "M-001");
    assert_eq!(survey.reordered[0].was, ["note", "added"]);
    assert_eq!(survey.reordered[0].now, ["added", "note"]);
    let pass = normalize_project(&mut project);
    assert_eq!(pass.reordered.len(), 1);
    assert_eq!(pass.reordered[0].now, survey.reordered[0].now);
    assert!(serialize_track(&project.tracks[0].1) != before);
}
