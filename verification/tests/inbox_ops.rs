use frame_ops::inbox_ops::{add_inbox_item, triage};
use frame_ops::model::{Inbox, Metadata, Track};
use frame_ops::parse::{parse_inbox, parse_track};
use frame_ops::task_ops::InsertPosition;

fn sample_inbox() -> Inbox {
    parse_inbox(
        "\
# Inbox

- Parser crash on empty blocks #bug
  Saw this when testing.

- Think about perform semantics #design

- Quick note
",
    )
    .0
}

fn sample_track() -> Track {
    parse_track(
        "\
# Test

## Backlog

- [ ] `T-001` First task
- [ ] `T-002` Second task

## Done
",
    )
}

#[test]
fn test_add_inbox_item() {
    let mut inbox = sample_inbox();
    assert_eq!(inbox.items.len(), 3);
    add_inbox_item(
        &mut inbox,
        "New item".into(),
        vec!["bug".into()],
        Some("Details here.".into()),
    );
    assert_eq!(inbox.items.len(), 4);
    assert_eq!(inbox.items[3].title, "New item");
    assert_eq!(inbox.items[3].tags, vec!["bug"]);
    assert_eq!(inbox.items[3].body.as_deref(), Some("Details here."));
}

#[test]
fn test_triage_bottom() {
    let mut inbox = sample_inbox();
    let mut track = sample_track();
    let id = triage(&mut inbox, 0, &mut track, InsertPosition::Bottom, "T").unwrap();
    assert_eq!(id, "T-003");
    assert_eq!(inbox.items.len(), 2);
    let tasks = track.backlog();
    assert_eq!(tasks.len(), 3);
    assert_eq!(tasks[2].title, "Parser crash on empty blocks");
    assert!(tasks[2].tags.contains(&"bug".to_string()));
    // Body should become a note
    assert!(
        tasks[2]
            .metadata
            .iter()
            .any(|m| matches!(m, Metadata::Note(n) if n.contains("Saw this")))
    );
}

#[test]
fn test_triage_top() {
    let mut inbox = sample_inbox();
    let mut track = sample_track();
    let id = triage(&mut inbox, 1, &mut track, InsertPosition::Top, "T").unwrap();
    assert_eq!(id, "T-003");
    assert_eq!(track.backlog()[0].title, "Think about perform semantics");
}

#[test]
fn test_triage_after() {
    let mut inbox = sample_inbox();
    let mut track = sample_track();
    let id = triage(
        &mut inbox,
        2,
        &mut track,
        InsertPosition::After("T-001".into()),
        "T",
    )
    .unwrap();
    assert_eq!(id, "T-003");
    assert_eq!(track.backlog()[1].title, "Quick note");
}

#[test]
fn test_triage_out_of_range() {
    let mut inbox = sample_inbox();
    let mut track = sample_track();
    let result = triage(&mut inbox, 10, &mut track, InsertPosition::Bottom, "T");
    assert!(result.is_err());
}

#[test]
fn test_triage_no_backlog_preserves_inbox() {
    let mut inbox = sample_inbox();
    let original_len = inbox.items.len();
    // Track with no Backlog section
    let mut track = parse_track(
        "\
# Test

## Done
",
    );
    let result = triage(&mut inbox, 0, &mut track, InsertPosition::Bottom, "T");
    assert!(result.is_err());
    // Inbox must be unchanged
    assert_eq!(inbox.items.len(), original_len);
    assert_eq!(inbox.items[0].title, "Parser crash on empty blocks");
}

#[test]
fn test_triage_invalid_after_target_preserves_inbox() {
    let mut inbox = sample_inbox();
    let original_len = inbox.items.len();
    let mut track = sample_track();
    let result = triage(
        &mut inbox,
        0,
        &mut track,
        InsertPosition::After("NONEXISTENT".into()),
        "T",
    );
    assert!(result.is_err());
    // Inbox must be unchanged
    assert_eq!(inbox.items.len(), original_len);
    assert_eq!(inbox.items[0].title, "Parser crash on empty blocks");
}

#[test]
fn test_triage_out_of_range_preserves_inbox() {
    let mut inbox = sample_inbox();
    let original_len = inbox.items.len();
    let mut track = sample_track();
    let result = triage(&mut inbox, 10, &mut track, InsertPosition::Bottom, "T");
    assert!(result.is_err());
    assert_eq!(inbox.items.len(), original_len);
}

#[test]
fn test_triage_no_body_no_note() {
    let mut inbox = sample_inbox();
    let mut track = sample_track();
    // Item at index 2 ("Quick note") has no body
    let _id = triage(&mut inbox, 2, &mut track, InsertPosition::Bottom, "T").unwrap();
    let tasks = track.backlog();
    let triaged = &tasks[2];
    assert!(!triaged.metadata.iter().any(|m| m.key() == "note"));
}
