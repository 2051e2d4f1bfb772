use frame_ops::parse::{parse_track, serialize_track, parse_inbox, serialize_inbox, parse_archive, serialize_archive};
use frame_ops::model::{Metadata, SectionKind, TaskState};

const SAMPLE: &str = "# Test Track\n\n> A test track.\n\n## Backlog\n\n- [ ] `T-001` First task #core\n  - added: 2025-05-01\n- [>] `T-002` Second task\n  - added: 2025-05-02\n  - dep: T-001\n- [ ] `T-003` Third task with subtasks\n  - added: 2025-05-03\n  - [ ] `T-003.1` Sub one\n  - [ ] `T-003.2` Sub two\n\n## Parked\n\n- [~] `T-010` Parked idea\n\n## Done\n\n- [x] `T-000` Setup project\n  - added: 2025-04-20\n  - resolved: 2025-04-25\n";

#[test]
fn sample_track_reads_and_writes_back() {
    let t = parse_track(SAMPLE);
    let b = t.backlog();
    assert_eq!(b.len(), 3);
    assert_eq!(b[0].id.as_deref(), Some("T-001"));
    assert_eq!(b[0].title, "First task");
    assert_eq!(b[0].tags, vec!["core".to_string()]);
    assert_eq!(b[1].state, TaskState::Active);
    assert!(b[1].metadata.iter().any(|m| matches!(m, Metadata::Dep(d) if d == &vec!["T-001".to_string()])));
    assert_eq!(b[2].subtasks.len(), 2);
    assert_eq!(b[2].subtasks[1].depth, 1);
    assert_eq!(t.section_tasks(SectionKind::Parked).len(), 1);
    assert_eq!(t.done()[0].state, TaskState::Done);
    assert_eq!(serialize_track(&t), SAMPLE);
}

#[test]
fn block_notes_read_and_write_back() {
    let src = "## Backlog\n\n- [ ] `A-1` x\n  - note:\n    line one\n\n    line three\n- [ ] `A-2` y\n";
    let t = parse_track(src);
    assert_eq!(t.backlog().len(), 2);
    assert!(matches!(&t.backlog()[0].metadata[0], Metadata::Note(n) if n == "line one\n\nline three"));
    assert_eq!(serialize_track(&t), src);
}

#[test]
fn inbox_and_archive_read() {
    let (inbox, _) = parse_inbox("# Inbox\n\n- Parser crash on empty blocks #bug\n  Saw this when testing.\n\n- Think about perform semantics #design\n\n- Quick note\n");
    assert_eq!(inbox.items.len(), 3);
    assert_eq!(inbox.items[0].tags, vec!["bug".to_string()]);
    assert_eq!(inbox.items[0].body.as_deref(), Some("Saw this when testing."));
    let s = serialize_inbox(&inbox);
    assert!(s.contains("- Quick note"));
    let a = parse_archive("# Archive — main\r\n\r\n- [x] `MAI-001` one\r\n  - resolved: 2026-08-02\r\n\r\n<!-- tail -->\r\n");
    assert_eq!(a.tasks.len(), 1);
    assert!(a.crlf);
    assert_eq!(serialize_archive(&a), "# Archive — main\r\n\r\n- [x] `MAI-001` one\r\n  - resolved: 2026-08-02\r\n\r\n<!-- tail -->\r\n");
}
