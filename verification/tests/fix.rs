use frame_ops::check::{check_project, unclosed_fence, CheckError, CheckResult, CheckWarning};
use frame_ops::fix::{
    apply, close_open_fence, closer_for, destructive_count, inbox_touched, plan, section_name, tracks_touched,
    FixResult, Repair,
};
use frame_ops::model::{Metadata, SectionKind, Task, TaskState};
use frame_ops::parse::{parse_inbox, parse_track};
use frame_ops::project::{CleanConfig, Project};

fn result_with(warnings: Vec<CheckWarning>) -> CheckResult {
    CheckResult {
        valid: true,
        errors: Vec::new(),
        warnings,
        info: Vec::new(),
    }
}

fn project_with(tracks: Vec<(&str, &str)>) -> Project {
    Project {
        tracks: tracks
            .iter()
            .map(|(id, src)| (id.to_string(), parse_track(src)))
            .collect(),
        track_order: tracks.iter().map(|(id, _)| id.to_string()).collect(),
        track_states: vec![],
        prefixes: vec![],
        clean: CleanConfig::default(),
        inbox: None,
        id_floors: vec![],
        archives: vec![],
        missing_paths: vec![],
    }
}

fn no_disk(plan: &[Repair]) -> Vec<Result<(), String>> {
    plan.iter().map(|_| Ok(())).collect()
}

fn fix_all(project: &mut Project) -> FixResult {
    let plan = plan(&check_project(project));
    let disk = no_disk(&plan);
    apply(project, &plan, &disk)
}

#[test]
fn closer_matches_the_opening_run_length() {
    assert_eq!(closer_for("```"), "```");
    assert_eq!(closer_for("```rust"), "```");
    assert_eq!(closer_for("````"), "````");
    assert_eq!(closer_for("`````lace"), "`````");
    assert_eq!(closer_for(""), "```");
}

#[test]
fn plan_covers_exactly_the_repairable_warnings() {
    let plan = plan(&result_with(vec![
        CheckWarning::UnclosedNoteFence {
            track_id: "t".into(),
            task_id: Some("T-1".into()),
            title: "task".into(),
            fence: "```rust".into(),
        },
        CheckWarning::UnclosedInboxFence {
            index: 1,
            title: "item".into(),
            fence: "```".into(),
        },
        CheckWarning::DuplicateArchivedId {
            task_id: "T-9".into(),
            total: 2,
            archives: vec!["archive/t.md".into()],
        },
        CheckWarning::IdFrontierWasReset {
            path: "/x/frame-ids.toml.bak".into(),
        },
    ]));
    assert_eq!(plan.len(), 4);
}

#[test]
fn plan_ignores_warnings_with_no_safe_repair() {
    let plan = plan(&result_with(vec![
        CheckWarning::LocalFileCommitted {
            path: "frame/.actor".into(),
            git_tracked: true,
        },
        CheckWarning::LocalFileCommitted {
            path: "frame/.lock".into(),
            git_tracked: false,
        },
        CheckWarning::MergeDriverUnregistered,
        CheckWarning::IdReissuedAfterArchive {
            task_id: "T-1".into(),
            tracks: vec!["t".into()],
            archives: vec!["archive/t.md".into()],
        },
        CheckWarning::ActorNameCollision {
            name: "host".into(),
            tokens: vec!["a".into(), "b".into()],
        },
        CheckWarning::LostTask {
            track_id: "t".into(),
            task_id: "T-2".into(),
        },
        CheckWarning::IdFrontierUnreadable {
            path: "/x".into(),
            detail: "bad".into(),
        },
        CheckWarning::MissingId {
            track_id: "t".into(),
            title: "x".into(),
        },
        CheckWarning::MissingAddedDate {
            track_id: "t".into(),
            task_id: "T-3".into(),
        },
        CheckWarning::MissingResolvedDate {
            track_id: "t".into(),
            task_id: "T-4".into(),
        },
        CheckWarning::StrandedLine {
            track_id: "t".into(),
            before_task_id: Some("T-6".into()),
            before_title: "task".into(),
            line: "**Shape.** prose that lost its indent".into(),
        },
    ]));
    assert!(
        plan.is_empty(),
        "expected no repairs, got: {:?}",
        plan.iter().map(Repair::describe).collect::<Vec<_>>()
    );
}

#[test]
fn plan_ignores_errors() {
    let mut check = result_with(Vec::new());
    check.errors.push(CheckError::DuplicateId {
        task_id: "T-1".into(),
        track_ids: vec!["a".into(), "b".into()],
    });
    assert!(plan(&check).is_empty());
}

#[test]
fn only_deleting_repairs_are_counted_for_confirmation() {
    let additive = vec![
        Repair::CloseNoteFence {
            track_id: "t".into(),
            task_id: None,
            title: "x".into(),
            fence: "```".into(),
            closer: "```".into(),
        },
        Repair::MoveTaskToSection {
            track_id: "t".into(),
            task_id: "T-1".into(),
            from: SectionKind::Backlog,
            to: SectionKind::Done,
        },
    ];
    assert_eq!(destructive_count(&additive), 0);

    let mut mixed = additive;
    mixed.push(Repair::RemoveFrontierBackup { path: "/x".into() });
    mixed.push(Repair::DedupeArchivedTask {
        task_id: "T-1".into(),
        total: 3,
        archives: vec!["archive/t.md".into()],
    });
    assert_eq!(destructive_count(&mixed), 2);
}

#[test]
fn close_open_fence_appends_and_dirties() {
    let mut task = Task::new(TaskState::Todo, Some("T-1".into()), "t".into());
    task.metadata
        .push(Metadata::Note("Example:\n```rust\nlet x = 1;".into()));
    task.dirty = false;

    assert!(close_open_fence(&mut task, "```"));
    assert!(task.dirty);

    let Some(Metadata::Note(body)) = task.metadata.first() else {
        panic!("note missing");
    };
    assert!(body.ends_with("\n```"));
    assert!(unclosed_fence(body).is_none(), "fence should now be balanced");

    assert!(!close_open_fence(&mut task, "```"));
}

#[test]
fn a_misparented_subtask_is_planned_for_renumbering() {
    let plan = plan(&result_with(vec![CheckWarning::ChildIdNotUnderParent {
        track_id: "main".into(),
        task_id: "M-007".into(),
        parent_id: "M-001".into(),
    }]));
    assert_eq!(plan.len(), 1);
    assert!(matches!(plan[0], Repair::RenumberSubtask { .. }));
    assert_eq!(destructive_count(&plan), 1);
}

#[test]
fn renumbering_puts_the_subtask_under_its_parent() {
    let mut project = project_with(vec![(
        "main",
        "\
# Main

## Backlog

- [ ] `M-001` Parent
  - [ ] `M-001.1` Sibling
  - [ ] `M-007` Escaped

## Done
",
    )]);

    let result = fix_all(&mut project);
    assert_eq!(result.applied.len(), 1);
    assert!(result.skipped.is_empty());

    let subs = &project.tracks[0].1.backlog()[0].subtasks;
    assert_eq!(subs[1].id.as_deref(), Some("M-001.2"));
    assert!(subs[1].dirty);
    assert_eq!(tracks_touched(&result), vec!["main".to_string()]);

    assert!(fix_all(&mut project).applied.is_empty());
}

#[test]
fn renumbering_carries_descendants_and_their_deps() {
    let mut project = project_with(vec![
        (
            "main",
            "\
# Main

## Backlog

- [ ] `M-001` Parent
  - [ ] `M-007` Escaped
    - [ ] `M-007.1` Child of the escapee

## Done
",
        ),
        (
            "other",
            "\
# Other

## Backlog

- [ ] `O-001` Waiting
  - dep: M-007.1

## Done
",
        ),
    ]);

    let result = fix_all(&mut project);
    assert_eq!(result.applied.len(), 1);

    let escaped = &project.tracks[0].1.backlog()[0].subtasks[0];
    assert_eq!(escaped.id.as_deref(), Some("M-001.1"));
    assert_eq!(escaped.subtasks[0].id.as_deref(), Some("M-001.1.1"));

    let waiting = &project.tracks[1].1.backlog()[0];
    assert!(
        waiting
            .metadata
            .iter()
            .any(|m| matches!(m, Metadata::Dep(d) if d == &vec!["M-001.1.1".to_string()])),
        "dep should follow the rekey: {:?}",
        waiting.metadata
    );

    assert_eq!(
        tracks_touched(&result),
        vec!["main".to_string(), "other".to_string()]
    );
}

#[test]
fn renumbering_keeps_the_id_in_its_own_namespace() {
    let mut project = project_with(vec![(
        "main",
        "\
# Main

## Backlog

- [ ] `M-001` Parent
  - [ ] `M-001.1` Ours
  - [ ] `M-b12` Theirs, escaped

## Done
",
    )]);

    fix_all(&mut project);

    let subs = &project.tracks[0].1.backlog()[0].subtasks;
    assert_eq!(subs[1].id.as_deref(), Some("M-001.b1"));
}

#[test]
fn a_repair_whose_finding_went_away_is_skipped() {
    let mut project = project_with(vec![(
        "main",
        "\
# Main

## Backlog

- [ ] `M-001` Parent
  - [ ] `M-001.1` Already fine

## Done
",
    )]);

    let stale = vec![Repair::RenumberSubtask {
        track_id: "main".into(),
        task_id: "M-001.1".into(),
        parent_id: "M-001".into(),
    }];
    let disk = no_disk(&stale);
    let result = apply(&mut project, &stale, &disk);
    assert!(result.applied.is_empty());
    assert_eq!(result.skipped.len(), 1);
    assert!(
        result.skipped[0].reason.contains("already extends"),
        "reason: {}",
        result.skipped[0].reason
    );
}

/// A done task in the backlog is moved to Done by the plan a check yields,
/// and a second run finds nothing left to do.
#[test]
fn a_done_task_in_the_backlog_moves_to_done() {
    let mut project = project_with(vec![(
        "main",
        "# Main\n\n## Backlog\n\n- [x] `M-001` Finished\n  - added: 2025-05-01\n  - resolved: 2025-05-02\n\n## Done\n",
    )]);
    let result = fix_all(&mut project);
    assert_eq!(result.applied.len(), 1);
    assert!(project.tracks[0].1.backlog().is_empty());
    assert_eq!(project.tracks[0].1.done()[0].id.as_deref(), Some("M-001"));
    assert_eq!(tracks_touched(&result), vec!["main".to_string()]);
    assert!(fix_all(&mut project).applied.is_empty());
}

/// An unclosed note fence on a task without an ID is found by its title and
/// closed; the inbox is left alone.
#[test]
fn a_note_fence_is_closed_by_title() {
    let mut project = project_with(vec![(
        "main",
        "# Main\n\n## Backlog\n\n- [ ] Unnamed task\n  - note:\n    ````py\n\n## Done\n",
    )]);
    let result = fix_all(&mut project);
    assert_eq!(result.applied.len(), 1);
    assert!(!inbox_touched(&result));
    let Some(Metadata::Note(body)) = project.tracks[0].1.backlog()[0].metadata.first() else {
        panic!("note missing");
    };
    assert!(body.ends_with("\n````"), "{body:?}");
}

/// An inbox fence is closed in place, and the run reports the inbox as
/// changed.
#[test]
fn an_inbox_fence_is_closed() {
    let mut project = project_with(vec![("main", "# Main\n\n## Backlog\n\n## Done\n")]);
    let (inbox, _) = parse_inbox("# Inbox\n\n- Item\n  ```py\n");
    project.inbox = Some(inbox);
    let result = fix_all(&mut project);
    assert_eq!(result.applied.len(), 1);
    assert!(inbox_touched(&result));
    assert!(tracks_touched(&result).is_empty());
    let body = project.inbox.as_ref().unwrap().items[0].body.clone().unwrap();
    assert!(unclosed_fence(&body).is_none(), "{body:?}");
}

/// A repair that works on files lands or is skipped by the outcome it had.
#[test]
fn file_repairs_take_their_outcome() {
    let mut project = project_with(vec![("main", "# Main\n\n## Backlog\n\n## Done\n")]);
    let plan = vec![
        Repair::RemoveFrontierBackup { path: "/x".into() },
        Repair::ClearInflightMarker { operation: "op".into(), command: "fr x".into() },
    ];
    let disk = vec![Ok(()), Err("denied".to_string())];
    let result = apply(&mut project, &plan, &disk);
    assert_eq!(result.applied.len(), 1);
    assert_eq!(result.skipped.len(), 1);
    assert_eq!(result.skipped[0].reason, "denied");
}

#[test]
fn repairs_describe_themselves() {
    let dedupe = Repair::DedupeArchivedTask {
        task_id: "T-1".into(),
        total: 3,
        archives: vec!["archive/a.md".into(), "archive/b.md".into()],
    };
    assert_eq!(
        dedupe.describe(),
        "T-1: delete 2 duplicate archive copies (archive/a.md, archive/b.md), keeping one"
    );
    let note = Repair::CloseNoteFence {
        track_id: "t".into(),
        task_id: None,
        title: "x".into(),
        fence: "```".into(),
        closer: "```".into(),
    };
    assert_eq!(note.describe(), "[t] \"x\": close note fence opened by `````");
    let moved = Repair::MoveTaskToSection {
        track_id: "t".into(),
        task_id: "T-1".into(),
        from: SectionKind::Backlog,
        to: SectionKind::Done,
    };
    assert_eq!(
        moved.describe(),
        "[t] T-1: move from ## Backlog to ## Done (its state belongs there)"
    );
    assert_eq!(section_name(SectionKind::Parked), "## Parked");
}

#[test]
fn a_later_archived_copy_is_removed_and_the_first_kept() {
    let texts = vec![
        "# Archive — main\n\n- [x] `A-001` One\n- [x] `A-002` Two\n".to_string(),
        "# Archive — side\n\n- [x] `A-001` One again\n- [x] `A-003` Three\n".to_string(),
        "# Archive — other\n\n- [x] `A-004` Four\n".to_string(),
    ];
    let r = frame_ops::fix::dedupe_archive_texts(&texts, "A-001");
    assert_eq!(r.len(), 3);
    assert!(r[0].is_none());
    let (text, removed) = r[1].as_ref().unwrap();
    assert_eq!(text, "# Archive — side\n\n- [x] `A-003` Three\n");
    assert_eq!(removed.len(), 1);
    assert_eq!(removed[0].title, "One again");
    assert!(r[2].is_none());
}

#[test]
fn an_archive_whose_only_copy_is_the_first_is_left_alone() {
    let texts = vec!["- [x] `A-001` One\n- [x] `A-001` One\n".to_string()];
    let r = frame_ops::fix::dedupe_archive_texts(&texts, "A-001");
    let (text, removed) = r[0].as_ref().unwrap();
    assert_eq!(text, "- [x] `A-001` One\n");
    assert_eq!(removed.len(), 1);
}
