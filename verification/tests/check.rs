use frame_ops::check::{check_project, unclosed_fence, CheckError, CheckResult, CheckWarning};
use frame_ops::model::SectionKind;
use frame_ops::parse::{parse_inbox, parse_track};
use frame_ops::project::{CleanConfig, Project};

fn project_of(tracks: Vec<(&str, &str)>, missing: Vec<&str>) -> Project {
    Project {
        tracks: tracks.iter().map(|(id, src)| (id.to_string(), parse_track(src))).collect(),
        track_order: tracks.iter().map(|(id, _)| id.to_string()).collect(),
        track_states: vec![],
        prefixes: vec![],
        clean: CleanConfig::default(),
        inbox: None,
        id_floors: vec![],
        archives: vec![],
        missing_paths: missing.iter().map(|p| p.to_string()).collect(),
    }
}

fn make_project(track_src: &str) -> Project {
    project_of(vec![("main", track_src)], vec![])
}

fn misparented(result: &CheckResult) -> Vec<(String, String)> {
    result
        .warnings
        .iter()
        .filter_map(|w| match w {
            CheckWarning::ChildIdNotUnderParent { task_id, parent_id, .. } => {
                Some((task_id.clone(), parent_id.clone()))
            }
            _ => None,
        })
        .collect()
}

#[test]
fn test_check_dangling_dep() {
    let project = make_project(
        "\
# Main

## Backlog

- [ ] `M-001` Task one
  - added: 2025-05-01
  - dep: NONEXIST-999

## Done
",
    );
    let result = check_project(&project);
    assert!(!result.valid);
    assert_eq!(result.errors.len(), 1);
    assert!(matches!(
        &result.errors[0],
        CheckError::DanglingDep { dep_id, .. } if dep_id == "NONEXIST-999"
    ));
}

#[test]
fn test_check_valid_dep() {
    let project = make_project(
        "\
# Main

## Backlog

- [ ] `M-001` Task one
  - added: 2025-05-01
  - dep: M-002
- [ ] `M-002` Task two
  - added: 2025-05-01

## Done
",
    );
    let result = check_project(&project);
    assert!(result.valid);
    let dangling: Vec<_> = result
        .errors
        .iter()
        .filter(|e| matches!(e, CheckError::DanglingDep { .. }))
        .collect();
    assert!(dangling.is_empty());
}

#[test]
fn test_check_cross_track_dep() {
    let project = project_of(
        vec![
            (
                "a",
                "\
# A

## Backlog

- [ ] `A-001` Task A
  - added: 2025-05-01
  - dep: B-001

## Done
",
            ),
            (
                "b",
                "\
# B

## Backlog

- [ ] `B-001` Task B
  - added: 2025-05-01

## Done
",
            ),
        ],
        vec![],
    );
    let result = check_project(&project);
    assert!(result.valid);
}

#[test]
fn test_check_broken_ref() {
    let project = project_of(
        vec![(
            "main",
            "\
# Main

## Backlog

- [ ] `M-001` Task one
  - added: 2025-05-01
  - ref: nonexistent/file.md

## Done
",
        )],
        vec!["nonexistent/file.md"],
    );
    let result = check_project(&project);
    assert!(!result.valid);
    assert!(matches!(
        &result.errors[0],
        CheckError::BrokenRef { path, .. } if path == "nonexistent/file.md"
    ));
}

#[test]
fn test_check_valid_ref() {
    let project = make_project(
        "\
# Main

## Backlog

- [ ] `M-001` Task one
  - added: 2025-05-01
  - ref: doc.md

## Done
",
    );
    let result = check_project(&project);
    let broken: Vec<_> = result
        .errors
        .iter()
        .filter(|e| matches!(e, CheckError::BrokenRef { .. }))
        .collect();
    assert!(broken.is_empty());
}

#[test]
fn test_check_broken_spec() {
    let project = project_of(
        vec![(
            "main",
            "\
# Main

## Backlog

- [ ] `M-001` Task one
  - added: 2025-05-01
  - spec: missing/design.md#section

## Done
",
        )],
        vec!["missing/design.md#section"],
    );
    let result = check_project(&project);
    assert!(!result.valid);
    assert!(matches!(
        &result.errors[0],
        CheckError::BrokenSpec { path, .. } if path == "missing/design.md#section"
    ));
}

#[test]
fn test_check_valid_spec_with_section() {
    let project = make_project(
        "\
# Main

## Backlog

- [ ] `M-001` Task one
  - added: 2025-05-01
  - spec: doc/design.md#section

## Done
",
    );
    let result = check_project(&project);
    let broken: Vec<_> = result
        .errors
        .iter()
        .filter(|e| matches!(e, CheckError::BrokenSpec { .. }))
        .collect();
    assert!(broken.is_empty());
}

#[test]
fn a_suffix_does_not_excuse_a_missing_file() {
    let project = project_of(
        vec![(
            "main",
            "\
# Main

## Backlog

- [ ] `M-001` Task one
  - added: 2025-05-01
  - ref: src/gone.rs:807, doc/gone.md#anchor

## Done
",
        )],
        vec!["src/gone.rs:807", "doc/gone.md#anchor"],
    );
    let result = check_project(&project);
    let broken: Vec<_> = result
        .errors
        .iter()
        .filter(|e| matches!(e, CheckError::BrokenRef { .. }))
        .collect();
    assert_eq!(broken.len(), 2, "{:?}", result.errors);
}

#[test]
fn test_check_duplicate_ids() {
    let project = project_of(
        vec![
            (
                "a",
                "\
# A

## Backlog

- [ ] `DUP-001` Task in A
  - added: 2025-05-01

## Done
",
            ),
            (
                "b",
                "\
# B

## Backlog

- [ ] `DUP-001` Same ID in B
  - added: 2025-05-01

## Done
",
            ),
        ],
        vec![],
    );
    let result = check_project(&project);
    assert!(!result.valid);
    assert!(result
        .errors
        .iter()
        .any(|e| matches!(e, CheckError::DuplicateId { task_id, .. } if task_id == "DUP-001")));
}

#[test]
fn test_check_duplicate_ids_within_track() {
    let project = make_project(
        "\
# Main

## Backlog

- [ ] `M-001` First occurrence
  - added: 2025-05-01
- [ ] `M-001` Same ID in same track
  - added: 2025-05-02

## Done
",
    );
    let result = check_project(&project);
    assert!(!result.valid);
    assert!(result.errors.iter().any(
        |e| matches!(e, CheckError::DuplicateId { task_id, track_ids } if task_id == "M-001" && track_ids.len() == 2)
    ));
}

#[test]
fn test_check_reports_a_subtask_holding_a_top_level_id() {
    let project = make_project(
        "\
# Main

## Backlog

- [ ] `M-001` Parent
  - added: 2025-05-01
  - [ ] `M-007` Escaped
    - added: 2025-05-01

## Done
",
    );
    assert_eq!(
        misparented(&check_project(&project)),
        vec![("M-007".to_string(), "M-001".to_string())]
    );
}

#[test]
fn test_check_reports_a_subtask_under_the_wrong_parent() {
    let project = make_project(
        "\
# Main

## Backlog

- [ ] `M-001` One
  - added: 2025-05-01
- [ ] `M-002` Two
  - added: 2025-05-01
  - [ ] `M-001.3` Belongs to M-001
    - added: 2025-05-01

## Done
",
    );
    assert_eq!(
        misparented(&check_project(&project)),
        vec![("M-001.3".to_string(), "M-002".to_string())]
    );
}

#[test]
fn test_check_reports_a_grandchild_id_on_a_child() {
    let project = make_project(
        "\
# Main

## Backlog

- [ ] `M-001` Parent
  - added: 2025-05-01
  - [ ] `M-001.1.1` Too deep
    - added: 2025-05-01

## Done
",
    );
    assert_eq!(
        misparented(&check_project(&project)),
        vec![("M-001.1.1".to_string(), "M-001".to_string())]
    );
}

#[test]
fn test_check_accepts_well_formed_subtask_ids() {
    let project = make_project(
        "\
# Main

## Backlog

- [ ] `M-001` Parent
  - added: 2025-05-01
  - [ ] `M-001.1` Ours
    - added: 2025-05-01
  - [ ] `M-001.b2` Theirs
    - added: 2025-05-01
    - [ ] `M-001.b2.1` Deep
      - added: 2025-05-01

## Done
",
    );
    assert!(misparented(&check_project(&project)).is_empty());
}

#[test]
fn test_check_leaves_raw_ids_alone() {
    let project = make_project(
        "\
# Main

## Backlog

- [ ] `legacy/thing` Parent
  - added: 2025-05-01
  - [ ] `M-001.1` Structured child of a raw parent
    - added: 2025-05-01
- [ ] `M-002` Structured parent
  - added: 2025-05-01
  - [ ] `whatever` Raw child
    - added: 2025-05-01

## Done
",
    );
    assert!(misparented(&check_project(&project)).is_empty());
}

#[test]
fn test_warn_missing_id() {
    let project = make_project(
        "\
# Main

## Backlog

- [ ] Task without ID

## Done
",
    );
    let result = check_project(&project);
    assert!(result.warnings.iter().any(|w| matches!(
        w,
        CheckWarning::MissingId { title, .. } if title == "Task without ID"
    )));
}

#[test]
fn test_warn_missing_added_date() {
    let project = make_project(
        "\
# Main

## Backlog

- [ ] `M-001` Task without added date

## Done
",
    );
    let result = check_project(&project);
    assert!(result.warnings.iter().any(|w| matches!(
        w,
        CheckWarning::MissingAddedDate { task_id, .. } if task_id == "M-001"
    )));
}

#[test]
fn test_warn_missing_resolved_date() {
    let project = make_project(
        "\
# Main

## Backlog

## Done

- [x] `M-001` Done task without resolved
  - added: 2025-05-01
",
    );
    let result = check_project(&project);
    assert!(result.warnings.iter().any(|w| matches!(
        w,
        CheckWarning::MissingResolvedDate { task_id, .. } if task_id == "M-001"
    )));
}

#[test]
fn test_warn_done_in_backlog() {
    let project = make_project(
        "\
# Main

## Backlog

- [x] `M-001` Done task in backlog
  - added: 2025-05-01
  - resolved: 2025-05-10

## Done
",
    );
    let result = check_project(&project);
    assert!(result.warnings.iter().any(|w| matches!(
        w,
        CheckWarning::TaskInWrongSection { task_id, expected, actual, .. }
            if task_id == "M-001"
                && *expected == SectionKind::Done
                && *actual == SectionKind::Backlog
    )));
}

#[test]
fn test_warn_lost_task() {
    let project = make_project(
        "\
# Main

## Backlog

- [!] `M-001` Recovered task #lost
  - added: 2025-05-01

## Done
",
    );
    let result = check_project(&project);
    assert!(result.warnings.iter().any(|w| matches!(
        w,
        CheckWarning::LostTask { task_id, .. } if task_id == "M-001"
    )));
}

#[test]
fn test_unclosed_fence_detection() {
    assert_eq!(unclosed_fence("```rust\nfn main() {}\n```"), None);
    assert_eq!(unclosed_fence("```lace\n```rust\n```"), None);
    assert_eq!(unclosed_fence("just some prose\nover two lines"), None);
    assert_eq!(unclosed_fence("call `foo()` then `bar()`"), None);
    assert_eq!(unclosed_fence("```\ncode\n`````"), None);
    assert_eq!(unclosed_fence("`````\ncode\n```").as_deref(), Some("`````"));
    assert_eq!(unclosed_fence("Example:\n```").as_deref(), Some("```"));
    assert_eq!(
        unclosed_fence("```rust\nfn main() {}").as_deref(),
        Some("```rust")
    );
    assert_eq!(
        unclosed_fence("```\na\n```\nprose\n```py").as_deref(),
        Some("```py")
    );
}

#[test]
fn test_warn_unclosed_note_fence() {
    let project = make_project(
        "\
# Main

## Backlog

- [ ] `M-001` Task with an unclosed fence
  - added: 2025-05-01
  - note:
    Example:
    ```rust
    fn main() {}

## Done
",
    );
    let result = check_project(&project);
    assert!(result.warnings.iter().any(|w| matches!(
        w,
        CheckWarning::UnclosedNoteFence { task_id, fence, .. }
            if task_id.as_deref() == Some("M-001") && fence == "```rust"
    )));
    assert!(result.valid);
}

#[test]
fn test_no_fence_warning_for_balanced_note() {
    let project = make_project(
        "\
# Main

## Backlog

- [ ] `M-001` Task with balanced fences
  - added: 2025-05-01
  - note:
    §13.4 mentions three fence kinds:
      ```lace
      ```rust
      ```
    Check the spec.

## Done
",
    );
    let result = check_project(&project);
    assert!(!result
        .warnings
        .iter()
        .any(|w| matches!(w, CheckWarning::UnclosedNoteFence { .. })));
}

#[test]
fn test_warn_stranded_line() {
    let project = make_project(
        "\
# Main

## Done

- [x] `M-001` Sharded map lowering
  - resolved: 2026-07-20
    **Shape.** A line that lost its indent.
- [x] `M-002` Next task
  - resolved: 2026-07-21
",
    );
    let result = check_project(&project);
    let stranded: Vec<_> = result
        .warnings
        .iter()
        .filter_map(|w| match w {
            CheckWarning::StrandedLine { before_task_id, line, .. } => {
                Some((before_task_id.clone(), line.clone()))
            }
            _ => None,
        })
        .collect();
    assert!(
        stranded.is_empty(),
        "this shape is no longer carried on the following task: {stranded:?}"
    );
    let under: Vec<_> = result
        .warnings
        .iter()
        .filter_map(|w| match w {
            CheckWarning::StrandedLineUnder { under_task_id, line, .. } => {
                Some((under_task_id.clone(), line.clone()))
            }
            _ => None,
        })
        .collect();
    assert_eq!(
        under,
        vec![(
            Some("M-001".to_string()),
            "**Shape.** A line that lost its indent.".to_string()
        )]
    );
    assert!(result.valid);
}

#[test]
fn test_no_stranded_warning_for_a_clean_track() {
    let project = make_project(
        "\
# Main

## Backlog

- [ ] `M-001` Task
  - added: 2025-05-01
  - note:
    A note with
    two lines.
  - [ ] `M-001.1` Subtask

## Done
",
    );
    let result = check_project(&project);
    assert!(!result
        .warnings
        .iter()
        .any(|w| matches!(w, CheckWarning::StrandedLine { .. })));
}

#[test]
fn test_warn_unclosed_note_fence_on_task_without_id() {
    let project = make_project(
        "\
# Main

## Backlog

- [ ] Unnamed task
  - note:
    ```

## Done
",
    );
    let result = check_project(&project);
    assert!(result.warnings.iter().any(|w| matches!(
        w,
        CheckWarning::UnclosedNoteFence { task_id, title, .. }
            if task_id.is_none() && title == "Unnamed task"
    )));
}

#[test]
fn test_warn_unclosed_inbox_fence() {
    let mut project = make_project("# Main\n\n## Backlog\n\n## Done\n");
    let (inbox, _) = parse_inbox(
        "\
# Inbox

- Balanced item
  ```
  code
  ```

- Item with an unclosed fence
  Example:
  ```py

- Trailing item
",
    );
    project.inbox = Some(inbox);
    let result = check_project(&project);
    let fence_warnings: Vec<_> = result
        .warnings
        .iter()
        .filter_map(|w| match w {
            CheckWarning::UnclosedInboxFence { index, fence, .. } => Some((*index, fence)),
            _ => None,
        })
        .collect();
    assert_eq!(fence_warnings.len(), 1);
    assert_eq!(fence_warnings[0].0, 2);
    assert_eq!(fence_warnings[0].1, "```py");
}

#[test]
fn test_no_lost_warning_without_tag() {
    let project = make_project(
        "\
# Main

## Backlog

- [ ] `M-001` Normal task #core
  - added: 2025-05-01

## Done
",
    );
    let result = check_project(&project);
    assert!(!result
        .warnings
        .iter()
        .any(|w| matches!(w, CheckWarning::LostTask { .. })));
}

#[test]
fn test_lost_task_no_id_no_warning() {
    let project = make_project(
        "\
# Main

## Backlog

- [ ] Task without ID #lost

## Done
",
    );
    let result = check_project(&project);
    assert!(result
        .warnings
        .iter()
        .any(|w| matches!(w, CheckWarning::MissingId { .. })));
    assert!(!result
        .warnings
        .iter()
        .any(|w| matches!(w, CheckWarning::LostTask { .. })));
}

#[test]
fn test_check_no_recovery_log_info() {
    let project = make_project(
        "\
# Main

## Backlog

- [ ] `M-001` Task
  - added: 2025-05-01

## Done
",
    );
    let result = check_project(&project);
    assert!(result.info.is_empty());
}

#[test]
fn test_check_clean_project() {
    let project = make_project(
        "\
# Main

## Backlog

- [ ] `M-001` Well-formed task
  - added: 2025-05-01
- [>] `M-002` Another good task
  - added: 2025-05-02

## Done

- [x] `M-000` Completed task
  - added: 2025-04-01
  - resolved: 2025-05-01
",
    );
    let result = check_project(&project);
    assert!(result.valid);
    assert!(result.errors.is_empty());
    assert!(result.warnings.is_empty());
}

#[test]
fn test_check_subtask_dangling_dep() {
    let project = make_project(
        "\
# Main

## Backlog

- [ ] `M-001` Parent
  - added: 2025-05-01
  - [ ] `M-001.1` Sub with bad dep
    - added: 2025-05-01
    - dep: GONE-999

## Done
",
    );
    let result = check_project(&project);
    assert!(!result.valid);
    assert!(matches!(
        &result.errors[0],
        CheckError::DanglingDep { task_id, dep_id, .. }
            if task_id == "M-001.1" && dep_id == "GONE-999"
    ));
}

#[test]
fn test_check_duplicate_token_namespaces() {
    let project = make_project(
        "\
# Main

## Backlog

- [ ] `EFF-a14` Same namespace, occurrence one
  - added: 2025-05-01
- [ ] `EFF-a14` Same namespace, occurrence two
  - added: 2025-05-02
- [ ] `EFF-14` Null namespace, not a dup of a14
  - added: 2025-05-03
- [ ] `EFF-b14` Different token, not a dup of a14
  - added: 2025-05-04

## Done
",
    );
    let result = check_project(&project);
    let dups: Vec<&String> = result
        .errors
        .iter()
        .filter_map(|e| match e {
            CheckError::DuplicateId { task_id, .. } => Some(task_id),
            _ => None,
        })
        .collect();
    assert_eq!(dups, vec![&"EFF-a14".to_string()]);
    assert!(!dups.iter().any(|id| *id == "EFF-14"));
    assert!(!dups.iter().any(|id| *id == "EFF-b14"));
}

#[test]
fn test_check_clean_tokened_project() {
    let project = make_project(
        "\
# Main

## Backlog

- [ ] `M-001` Null-namespace task
  - added: 2025-05-01
- [ ] `M-a1` Tokened task depending on a null id
  - added: 2025-05-02
  - dep: M-001
- [ ] `M-b2` Another tokened task depending on a tokened id
  - added: 2025-05-03
  - dep: M-a1
  - [ ] `M-b2.c1` Tokened subtask depending on a null id
    - added: 2025-05-04
    - dep: M-001

## Done
",
    );
    let result = check_project(&project);
    assert!(result.valid, "expected valid, got {:?}", result.errors);
    assert!(result.errors.is_empty());
}

#[test]
fn test_check_dangling_dep_tokened() {
    let project = make_project(
        "\
# Main

## Backlog

- [ ] `M-014` A null-namespace task
  - added: 2025-05-01
- [ ] `M-a1` Depends on a tokened id that does not exist
  - added: 2025-05-02
  - dep: M-a14

## Done
",
    );
    let result = check_project(&project);
    assert!(!result.valid);
    assert!(result.errors.iter().any(|e| matches!(
        e,
        CheckError::DanglingDep { dep_id, .. } if dep_id == "M-a14"
    )));
}

/// Each duplicated ID is reported once, naming every track that holds it,
/// in the order the occurrences come.
#[test]
fn duplicate_ids_name_every_holder_once_per_occurrence() {
    let project = project_of(
        vec![
            ("a", "# A\n\n## Backlog\n\n- [ ] `D-001` One\n- [ ] `D-001` Two\n\n## Done\n"),
            ("b", "# B\n\n## Backlog\n\n- [ ] `D-001` Three\n- [ ] `D-002` Alone\n\n## Done\n"),
        ],
        vec![],
    );
    let result = check_project(&project);
    let dups: Vec<(String, Vec<String>)> = result
        .errors
        .iter()
        .filter_map(|e| match e {
            CheckError::DuplicateId { task_id, track_ids } => Some((task_id.clone(), track_ids.clone())),
            _ => None,
        })
        .collect();
    assert_eq!(
        dups,
        vec![("D-001".to_string(), vec!["a".to_string(), "a".to_string(), "b".to_string()])]
    );
}

/// A conflict marker left by a merge is an error on the task that holds it.
#[test]
fn an_unresolved_conflict_is_an_error() {
    let project = make_project(
        "# Main\n\n## Backlog\n\n- [ ] `M-001` Merged\n  - added: 2025-05-01\n  - conflict: both-edited 2025-06-01T00:00:00Z\n\n## Done\n",
    );
    let result = check_project(&project);
    assert!(!result.valid);
    assert!(result.errors.iter().any(|e| matches!(
        e,
        CheckError::UnresolvedMergeConflict { task_id, evidence, .. } if task_id == "M-001" && !*evidence
    )));
}

#[test]
fn a_repeated_section_is_an_error_counting_its_hidden_tasks() {
    let project = make_project(
        "\
# Main

## Backlog

- [ ] `M-001` One
  - added: 2025-05-01

## Done

## Backlog

- [ ] `M-002` Two
  - added: 2025-05-01
- [ ] `M-003` Three
  - added: 2025-05-01
",
    );
    let result = check_project(&project);
    assert!(!result.valid);
    assert!(result.errors.iter().any(|e| matches!(e,
        CheckError::DuplicateSection { track_id, section: SectionKind::Backlog, count: 2, hidden_tasks: 2 }
            if track_id == "main")));
}

#[test]
fn an_unknown_heading_is_an_error_counting_the_tasks_it_strands() {
    let project = make_project(
        "\
# Main

## Backlog

- [ ] `M-001` One
  - added: 2025-05-01

## Someday

- [ ] `M-002` Stranded
  - added: 2025-05-01

## Done
",
    );
    let result = check_project(&project);
    assert!(!result.valid);
    assert!(result.errors.iter().any(|e| matches!(e,
        CheckError::UnknownSectionHeading { track_id, heading, stranded_tasks: 1 }
            if track_id == "main" && heading == "Someday")));
}

#[test]
fn a_heading_in_an_archive_or_inbox_header_is_flagged() {
    let mut project = make_project("# Main\n\n## Backlog\n\n## Done\n");
    project.archives = vec![(
        "main".to_string(),
        "# Archive\n\n## Old\n\n- [x] `M-009` Gone\n  - resolved: 2025-01-01\n".to_string(),
    )];
    project.inbox = Some(parse_inbox("# Inbox\n\n## Ideas\n\n- an item\n").0);
    let result = check_project(&project);
    assert!(result.errors.iter().any(|e| matches!(e,
        CheckError::UnknownSectionHeading { track_id, heading, stranded_tasks: 0 }
            if track_id == "main.md" && heading == "Old")));
    assert!(result.errors.iter().any(|e| matches!(e,
        CheckError::UnknownSectionHeading { track_id, heading, stranded_tasks: 0 }
            if track_id == "inbox.md" && heading == "Ideas")));
}

#[test]
fn heading_errors_read_archived_track_files_as_tracks() {
    let errs = frame_ops::check::heading_errors(
        &vec![],
        &vec![("old.md".to_string(), "# Old\n\n## Backlog\n\n## Backlog\n\n## Done\n".to_string())],
        &None,
        &vec![],
    );
    assert_eq!(errs.len(), 1);
    assert!(matches!(&errs[0],
        CheckError::DuplicateSection { track_id, section: SectionKind::Backlog, count: 2, hidden_tasks: 0 }
            if track_id == "old.md"));
}

#[test]
fn a_reference_outside_the_project_is_warned_about() {
    let project = make_project(
        "\
# Main

## Backlog

- [ ] `M-001` Task one
  - added: 2025-05-01
  - ref: ../outside.md, doc/inside.md
  - spec: /etc/hosts

## Done
",
    );
    let result = check_project(&project);
    let outside: Vec<(String, String)> = result
        .warnings
        .iter()
        .filter_map(|w| match w {
            CheckWarning::RefOutsideProject { field, path, .. } => Some((field.clone(), path.clone())),
            _ => None,
        })
        .collect();
    assert_eq!(
        outside,
        vec![
            ("ref".to_string(), "../outside.md".to_string()),
            ("spec".to_string(), "/etc/hosts".to_string())
        ]
    );
}

#[test]
fn a_number_held_live_and_archived_is_reported_as_reissued() {
    let mut project = make_project(
        "\
# Main

## Backlog

- [ ] `M-001` Live again
  - added: 2025-05-01

## Done
",
    );
    project.archives = vec![(
        "main".to_string(),
        "# Archive\n\n- [x] `M-001` Old one\n  - resolved: 2025-01-01\n".to_string(),
    )];
    let result = check_project(&project);
    assert!(result.warnings.iter().any(|w| matches!(w,
        CheckWarning::IdReissuedAfterArchive { task_id, tracks, archives }
            if task_id == "M-001" && tracks == &vec!["main".to_string()]
                && archives == &vec!["archive/main.md".to_string()])));
}

#[test]
fn a_task_archived_twice_is_reported_with_its_count() {
    let mut project = make_project("# Main\n\n## Backlog\n\n## Done\n");
    project.archives = vec![(
        "main".to_string(),
        "# Archive\n\n- [x] `M-002` Once\n  - resolved: 2025-01-01\n- [x] `M-002` Twice\n  - resolved: 2025-01-02\n"
            .to_string(),
    )];
    let result = check_project(&project);
    assert!(result.warnings.iter().any(|w| matches!(w,
        CheckWarning::DuplicateArchivedId { task_id, total: 2, archives }
            if task_id == "M-002" && archives == &vec!["archive/main.md".to_string()])));
}
