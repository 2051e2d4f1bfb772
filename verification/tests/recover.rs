use frame_ops::model::Inbox;
use frame_ops::parse::{parse_inbox, parse_track, serialize_track};
use frame_ops::project::{CleanConfig, Project};
use frame_ops::recover::{recover_cross_track_move, recover_triage, MovedTask, Outcome};

fn project(tracks: Vec<(&str, &str)>, inbox: Option<Inbox>) -> Project {
    Project {
        tracks: tracks
            .iter()
            .map(|(id, src)| (id.to_string(), parse_track(src)))
            .collect(),
        track_order: tracks.iter().map(|(id, _)| id.to_string()).collect(),
        track_states: vec![],
        prefixes: vec![],
        clean: CleanConfig::default(),
        inbox,
        id_floors: vec![],
        archives: vec![],
        missing_paths: vec![],
    }
}

const SOURCE: &str = "\
# Source

## Backlog

- [ ] `A-001` Moving task
- [ ] `A-002` Staying task

## Done
";

const TARGET_LANDED: &str = "\
# Target

## Backlog

- [ ] `B-007` Moving task

## Done
";

const TARGET_EMPTY: &str = "\
# Target

## Backlog

## Done
";

fn moved() -> Vec<MovedTask> {
    vec![MovedTask { old_id: "A-001".to_string(), new_id: "B-007".to_string() }]
}

#[test]
fn recovery_drops_the_source_copy_once_the_target_holds_it() {
    let mut p = project(vec![("a", SOURCE), ("b", TARGET_LANDED)], None);
    let outcome = recover_cross_track_move(&mut p, "mv".to_string(), &moved(), "a", "b");
    match &outcome {
        Outcome::Completed { operation, steps } => {
            assert_eq!(operation, "mv");
            assert_eq!(
                steps,
                &vec!["removed A-001 from 'a' \u{2014} it is already in 'b' as B-007".to_string()]
            );
        }
        other => panic!("unexpected outcome {other:?}"),
    }
    let text = serialize_track(&p.tracks[0].1);
    assert!(!text.contains("A-001"), "{text}");
    assert!(text.contains("A-002"), "{text}");
    assert_eq!(outcome.operation(), "mv");
}

#[test]
fn recovery_does_nothing_when_nothing_landed() {
    let mut p = project(vec![("a", SOURCE), ("b", TARGET_EMPTY)], None);
    let before = serialize_track(&p.tracks[0].1);
    let outcome = recover_cross_track_move(&mut p, "mv".to_string(), &moved(), "a", "b");
    assert!(matches!(outcome, Outcome::AlreadyComplete { .. }), "{outcome:?}");
    assert_eq!(serialize_track(&p.tracks[0].1), before);
}

#[test]
fn recovery_does_nothing_when_the_move_finished() {
    let source_done = "\
# Source

## Backlog

- [ ] `A-002` Staying task

## Done
";
    let mut p = project(vec![("a", source_done), ("b", TARGET_LANDED)], None);
    let outcome = recover_cross_track_move(&mut p, "mv".to_string(), &moved(), "a", "b");
    assert!(matches!(outcome, Outcome::AlreadyComplete { .. }), "{outcome:?}");
}

#[test]
fn recovery_will_not_drop_a_copy_it_cannot_find_at_top_level() {
    let source_nested = "\
# Source

## Backlog

- [ ] `A-002` Parent
  - [ ] `A-001` Moving task

## Done
";
    let mut p = project(vec![("a", source_nested), ("b", TARGET_LANDED)], None);
    let outcome = recover_cross_track_move(&mut p, "mv".to_string(), &moved(), "a", "b");
    match outcome {
        Outcome::Indeterminate { reason, .. } => {
            assert_eq!(reason, "A-001 could not be removed from 'a'");
        }
        other => panic!("unexpected outcome {other:?}"),
    }
}

fn inbox() -> Inbox {
    parse_inbox(
        "\
# Inbox

- Moving task

- Other item
",
    )
    .0
}

#[test]
fn triage_recovery_drops_the_item_once_the_task_landed() {
    let mut p = project(vec![("b", TARGET_LANDED)], Some(inbox()));
    let outcome = recover_triage(&mut p, "triage".to_string(), 1, "Moving task", "b");
    match outcome {
        Outcome::Completed { steps, .. } => assert_eq!(
            steps,
            vec!["removed inbox item 1 \"Moving task\" \u{2014} it is already a task in 'b'".to_string()]
        ),
        other => panic!("unexpected outcome {other:?}"),
    }
    let items = &p.inbox.as_ref().unwrap().items;
    assert_eq!(items.len(), 1);
    assert_eq!(items[0].title, "Other item");
}

#[test]
fn triage_recovery_refuses_when_the_task_did_not_land() {
    let mut p = project(vec![("b", TARGET_EMPTY)], Some(inbox()));
    let outcome = recover_triage(&mut p, "triage".to_string(), 1, "Moving task", "b");
    match outcome {
        Outcome::Indeterminate { reason, .. } => assert_eq!(
            reason,
            "inbox item 1 \"Moving task\" is still in the inbox but no matching task exists in 'b' \u{2014} triage it again rather than losing it"
        ),
        other => panic!("unexpected outcome {other:?}"),
    }
    assert_eq!(p.inbox.as_ref().unwrap().items.len(), 2);
}

#[test]
fn triage_recovery_leaves_a_shifted_inbox_alone() {
    let mut p = project(vec![("b", TARGET_LANDED)], Some(inbox()));
    let outcome = recover_triage(&mut p, "triage".to_string(), 2, "Moving task", "b");
    assert!(matches!(outcome, Outcome::AlreadyComplete { .. }), "{outcome:?}");
    assert_eq!(p.inbox.as_ref().unwrap().items.len(), 2);
    let mut none = project(vec![("b", TARGET_LANDED)], None);
    let outcome = recover_triage(&mut none, "triage".to_string(), 1, "Moving task", "b");
    assert_eq!(outcome.operation(), "triage");
}
