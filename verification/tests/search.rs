use frame_ops::model::{Inbox, Track};
use frame_ops::parse::{parse_inbox, parse_track};
use frame_ops::project::{CleanConfig, Project};
use frame_ops::search::{search_inbox, search_tasks, MatchField, Pattern};

fn sample_track_a() -> Track {
    parse_track(
        "\
# Effects

> Effect system track.

## Backlog

- [ ] `EFF-001` Implement algebraic effects #core
  - added: 2025-05-01
  - note: This is the foundation for the effect system.
  - dep: INFRA-001
  - ref: src/effects/mod.rs
  - spec: docs/effects.md#overview
- [>] `EFF-002` Add handler syntax #parser
  - added: 2025-05-02
- [ ] `EFF-003` Effect type inference
  - added: 2025-05-03
  - [ ] `EFF-003.1` Unification for effects
  - [ ] `EFF-003.2` Subsumption checking #types

## Parked

- [~] `EFF-010` Research continuations

## Done

- [x] `EFF-000` Bootstrap effect module
  - added: 2025-04-20
  - resolved: 2025-04-25
",
    )
}

fn sample_track_b() -> Track {
    parse_track(
        "\
# Infrastructure

> Compiler infrastructure.

## Backlog

- [ ] `INFRA-001` Set up build pipeline #ci
  - added: 2025-05-01
- [ ] `INFRA-002` Add logging framework
  - added: 2025-05-02
  - note: Use tracing crate for structured logging.

## Parked

## Done

",
    )
}

fn sample_project() -> Project {
    Project {
        tracks: vec![
            ("effects".to_string(), sample_track_a()),
            ("infra".to_string(), sample_track_b()),
        ],
        track_order: vec!["effects".to_string(), "infra".to_string()],
        track_states: vec![
            ("effects".to_string(), "active".to_string()),
            ("infra".to_string(), "active".to_string()),
        ],
        prefixes: vec![],
        clean: CleanConfig::default(),
        inbox: None,
        id_floors: vec![],
        archives: vec![],
        missing_paths: vec![],
    }
}

fn sample_inbox() -> Inbox {
    parse_inbox(
        "\
# Inbox

- Think about error handling strategy #design
  More thoughts on error handling approach.
- Review parser performance #perf #parser
- Quick idea
",
    )
    .0
}

// --- Title search ---

#[test]
fn test_search_title_match() {
    let project = sample_project();
    let re = Pattern::new("handler").unwrap();
    let hits = search_tasks(&project, &re, None);
    assert_eq!(hits.len(), 1);
    assert_eq!(hits[0].task_id, "EFF-002");
    assert_eq!(hits[0].field, MatchField::Title);
    assert_eq!(hits[0].track_id, "effects");
    assert_eq!(hits[0].spans, vec![4..11]); // "Add [handler] syntax"
}

#[test]
fn test_search_title_multiple_tracks() {
    let project = sample_project();
    let re = Pattern::new("(?i)add").unwrap();
    let hits = search_tasks(&project, &re, None);
    let title_hits: Vec<_> = hits
        .iter()
        .filter(|h| h.field == MatchField::Title)
        .collect();
    assert_eq!(title_hits.len(), 2); // EFF-002 "Add handler syntax" + INFRA-002 "Add logging framework"
}

// --- ID search ---

#[test]
fn test_search_id() {
    let project = sample_project();
    let re = Pattern::new("EFF-003").unwrap();
    let hits = search_tasks(&project, &re, None);
    let id_hits: Vec<_> = hits.iter().filter(|h| h.field == MatchField::Id).collect();
    // EFF-003, EFF-003.1, EFF-003.2
    assert_eq!(id_hits.len(), 3);
}

// --- Tag search ---

#[test]
fn test_search_tag() {
    let project = sample_project();
    let re = Pattern::new("parser").unwrap();
    let hits = search_tasks(&project, &re, None);
    let tag_hits: Vec<_> = hits.iter().filter(|h| h.field == MatchField::Tag).collect();
    assert_eq!(tag_hits.len(), 1);
    assert_eq!(tag_hits[0].task_id, "EFF-002");
}

// --- Note search ---

#[test]
fn test_search_note() {
    let project = sample_project();
    let re = Pattern::new("foundation").unwrap();
    let hits = search_tasks(&project, &re, None);
    assert_eq!(hits.len(), 1);
    assert_eq!(hits[0].task_id, "EFF-001");
    assert_eq!(hits[0].field, MatchField::Note);
}

// --- Dep search ---

#[test]
fn test_search_dep() {
    let project = sample_project();
    let re = Pattern::new("INFRA-001").unwrap();
    let hits = search_tasks(&project, &re, None);
    let dep_hits: Vec<_> = hits.iter().filter(|h| h.field == MatchField::Dep).collect();
    assert_eq!(dep_hits.len(), 1);
    assert_eq!(dep_hits[0].task_id, "EFF-001");
}

// --- Ref search ---

#[test]
fn test_search_ref() {
    let project = sample_project();
    let re = Pattern::new("effects/mod\\.rs").unwrap();
    let hits = search_tasks(&project, &re, None);
    assert_eq!(hits.len(), 1);
    assert_eq!(hits[0].task_id, "EFF-001");
    assert_eq!(hits[0].field, MatchField::Ref);
}

// --- Spec search ---

#[test]
fn test_search_spec() {
    let project = sample_project();
    let re = Pattern::new("effects\\.md").unwrap();
    let hits = search_tasks(&project, &re, None);
    let spec_hits: Vec<_> = hits
        .iter()
        .filter(|h| h.field == MatchField::Spec)
        .collect();
    assert_eq!(spec_hits.len(), 1);
    assert_eq!(spec_hits[0].task_id, "EFF-001");
}

// --- Subtask search ---

#[test]
fn test_search_subtask_independent() {
    let project = sample_project();
    let re = Pattern::new("Subsumption").unwrap();
    let hits = search_tasks(&project, &re, None);
    assert_eq!(hits.len(), 1);
    assert_eq!(hits[0].task_id, "EFF-003.2");
    assert_eq!(hits[0].field, MatchField::Title);
}

#[test]
fn test_search_subtask_tag() {
    let project = sample_project();
    let re = Pattern::new("types").unwrap();
    let hits = search_tasks(&project, &re, None);
    let tag_hits: Vec<_> = hits.iter().filter(|h| h.field == MatchField::Tag).collect();
    assert_eq!(tag_hits.len(), 1);
    assert_eq!(tag_hits[0].task_id, "EFF-003.2");
}

// --- Track filter ---

#[test]
fn test_search_with_track_filter() {
    let project = sample_project();
    let re = Pattern::new("(?i)add").unwrap();

    // Only effects track
    let hits = search_tasks(&project, &re, Some("effects"));
    let title_hits: Vec<_> = hits
        .iter()
        .filter(|h| h.field == MatchField::Title)
        .collect();
    assert_eq!(title_hits.len(), 1);
    assert_eq!(title_hits[0].task_id, "EFF-002");

    // Only infra track
    let hits = search_tasks(&project, &re, Some("infra"));
    let title_hits: Vec<_> = hits
        .iter()
        .filter(|h| h.field == MatchField::Title)
        .collect();
    assert_eq!(title_hits.len(), 1);
    assert_eq!(title_hits[0].task_id, "INFRA-002");
}

#[test]
fn test_search_track_filter_ignores_state() {
    // Shelved track should be searched when explicitly filtered
    let mut project = sample_project();
    project.track_states[1].1 = "shelved".to_string();

    let re = Pattern::new("logging").unwrap();

    // Default: shelved track excluded
    let hits = search_tasks(&project, &re, None);
    assert!(hits.is_empty());

    // Explicit filter: shelved track included
    // "logging" matches title and note of INFRA-002
    let hits = search_tasks(&project, &re, Some("infra"));
    assert_eq!(hits.len(), 2);
    assert!(hits.iter().any(|h| h.field == MatchField::Title));
    assert!(hits.iter().any(|h| h.field == MatchField::Note));
}

// --- Active-only default ---

#[test]
fn test_search_default_skips_shelved() {
    let mut project = sample_project();
    project.track_states[0].1 = "shelved".to_string();

    let re = Pattern::new("handler").unwrap();
    let hits = search_tasks(&project, &re, None);
    assert!(hits.is_empty());
}

#[test]
fn test_search_default_skips_archived() {
    let mut project = sample_project();
    project.track_states[0].1 = "archived".to_string();

    let re = Pattern::new("handler").unwrap();
    let hits = search_tasks(&project, &re, None);
    assert!(hits.is_empty());
}

// --- Multiple matches in one field ---

#[test]
fn test_search_multiple_spans() {
    let project = sample_project();
    let re = Pattern::new("e").unwrap();
    let hits = search_tasks(&project, &re, Some("effects"));
    // "Implement algebraic effects" has multiple 'e's
    let eff001_title: Vec<_> = hits
        .iter()
        .filter(|h| h.task_id == "EFF-001" && h.field == MatchField::Title)
        .collect();
    assert_eq!(eff001_title.len(), 1);
    assert!(eff001_title[0].spans.len() > 1);
}

// --- No matches ---

#[test]
fn test_search_no_matches() {
    let project = sample_project();
    let re = Pattern::new("zzzznotfound").unwrap();
    let hits = search_tasks(&project, &re, None);
    assert!(hits.is_empty());
}

// --- Searches all sections (backlog, parked, done) ---

#[test]
fn test_search_parked_section() {
    let project = sample_project();
    let re = Pattern::new("continuations").unwrap();
    let hits = search_tasks(&project, &re, None);
    assert_eq!(hits.len(), 1);
    assert_eq!(hits[0].task_id, "EFF-010");
}

#[test]
fn test_search_done_section() {
    let project = sample_project();
    let re = Pattern::new("Bootstrap").unwrap();
    let hits = search_tasks(&project, &re, None);
    assert_eq!(hits.len(), 1);
    assert_eq!(hits[0].task_id, "EFF-000");
}

// --- Inbox search ---

#[test]
fn test_inbox_search_title() {
    let inbox = sample_inbox();
    let re = Pattern::new("error handling").unwrap();
    let hits = search_inbox(&inbox, &re);
    // Matches in both title and body of item 0
    assert_eq!(hits.len(), 2);
    let title_hits: Vec<_> = hits
        .iter()
        .filter(|h| h.field == MatchField::Title)
        .collect();
    assert_eq!(title_hits.len(), 1);
    assert_eq!(title_hits[0].item_index, 0);
}

#[test]
fn test_inbox_search_tag() {
    let inbox = sample_inbox();
    let re = Pattern::new("perf").unwrap();
    let hits = search_inbox(&inbox, &re);
    let tag_hits: Vec<_> = hits.iter().filter(|h| h.field == MatchField::Tag).collect();
    assert_eq!(tag_hits.len(), 1);
    assert_eq!(tag_hits[0].item_index, 1);
}

#[test]
fn test_inbox_search_body() {
    let inbox = sample_inbox();
    let re = Pattern::new("thoughts").unwrap();
    let hits = search_inbox(&inbox, &re);
    assert_eq!(hits.len(), 1);
    assert_eq!(hits[0].item_index, 0);
    assert_eq!(hits[0].field, MatchField::Body);
}

#[test]
fn test_inbox_search_no_matches() {
    let inbox = sample_inbox();
    let re = Pattern::new("zzzznotfound").unwrap();
    let hits = search_inbox(&inbox, &re);
    assert!(hits.is_empty());
}

#[test]
fn test_inbox_search_multiple_items() {
    let inbox = sample_inbox();
    let re = Pattern::new("parser").unwrap();
    let hits = search_inbox(&inbox, &re);
    // tag "parser" on item 1
    let tag_hits: Vec<_> = hits.iter().filter(|h| h.field == MatchField::Tag).collect();
    assert_eq!(tag_hits.len(), 1);
    assert_eq!(tag_hits[0].item_index, 1);
}

// --- Regex features ---

#[test]
fn test_search_case_insensitive_regex() {
    let project = sample_project();
    let re = Pattern::new("(?i)bootstrap").unwrap();
    let hits = search_tasks(&project, &re, None);
    assert_eq!(hits.len(), 1);
    assert_eq!(hits[0].task_id, "EFF-000");
}

#[test]
fn test_search_regex_alternation() {
    let project = sample_project();
    let re = Pattern::new("handler|logging").unwrap();
    let hits = search_tasks(&project, &re, None);
    let title_hits: Vec<_> = hits
        .iter()
        .filter(|h| h.field == MatchField::Title)
        .collect();
    assert_eq!(title_hits.len(), 2);
}

// --- Task with no ID ---

#[test]
fn test_search_task_no_id() {
    // EFF-003's subtasks have IDs, but let's test a task without an ID
    let track = parse_track(
        "\
# Minimal

## Backlog

- [ ] A task without an ID #orphan

## Parked

## Done

",
    );
    let mut project = sample_project();
    project.tracks = vec![("minimal".to_string(), track)];
    project.track_states = vec![("minimal".to_string(), "active".to_string())];

    let re = Pattern::new("orphan").unwrap();
    let hits = search_tasks(&project, &re, None);
    assert_eq!(hits.len(), 1);
    assert_eq!(hits[0].task_id, "");
    assert_eq!(hits[0].field, MatchField::Tag);
}
