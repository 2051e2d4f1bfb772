use frame_ops::model::{Inbox, Track};
use frame_ops::parse::{parse_track, serialize_track};
use frame_ops::reconcile::{dup_track, reconcile_inbox, reconcile_track, ConflictReason};

fn t(text: &str) -> Track {
    parse_track(text)
}

const BASE: &str = "\
# A

## Backlog

- [ ] `A-001` One
- [ ] `A-002` Two

## Done
";

fn ib(text: &str) -> Inbox {
    frame_ops::parse::parse_inbox(text).0
}

fn titles(inbox: &Inbox) -> Vec<&str> {
    inbox.items.iter().map(|i| i.title.as_str()).collect()
}

const INBOX_BASE: &str = "# Inbox\n\n- one\n- two\n";

#[test]
fn independent_additions_both_survive() {
    let base = t(BASE);
    let ours = t(
        "# A\n\n## Backlog\n\n- [ ] `A-001` One, edited here\n- [ ] `A-002` Two\n\n## Done\n",
    );
    let theirs = t(
        "# A\n\n## Backlog\n\n- [ ] `A-001` One\n- [ ] `A-002` Two\n- [ ] `A-003` Three\n\n## Done\n",
    );

    let r = reconcile_track(&base, &ours, &theirs);
    let out = serialize_track(&r.track);

    assert!(out.contains("One, edited here"), "our edit: {out}");
    assert!(out.contains("A-003` Three"), "their addition: {out}");
    assert!(r.conflicts.is_empty(), "{:?}", r.conflicts);
}

#[test]
fn their_state_change_to_an_untouched_task_is_taken() {
    let base = t(BASE);
    let ours = t(
        "# A\n\n## Backlog\n\n- [ ] `A-001` One, edited here\n- [ ] `A-002` Two\n\n## Done\n",
    );
    let theirs = t("# A\n\n## Backlog\n\n- [ ] `A-001` One\n\n## Done\n\n- [x] `A-002` Two\n");

    let r = reconcile_track(&base, &ours, &theirs);
    let out = serialize_track(&r.track);

    assert!(out.contains("One, edited here"), "{out}");
    let done = r.track.done();
    assert_eq!(done.len(), 1, "their move to Done should land: {out}");
    assert_eq!(done[0].title, "Two");
    assert!(r.conflicts.is_empty(), "{:?}", r.conflicts);
}

#[test]
fn our_edit_wins_over_an_untouched_task_on_their_side() {
    let base = t(BASE);
    let ours = t("# A\n\n## Backlog\n\n- [ ] `A-001` Ours\n- [ ] `A-002` Two\n\n## Done\n");
    let theirs = t(BASE);

    let r = reconcile_track(&base, &ours, &theirs);
    assert!(serialize_track(&r.track).contains("Ours"));
    assert_eq!(r.took_theirs, 0);
}

#[test]
fn a_genuine_conflict_keeps_ours_and_reports_theirs() {
    let base = t(BASE);
    let ours = t("# A\n\n## Backlog\n\n- [ ] `A-001` Ours\n- [ ] `A-002` Two\n\n## Done\n");
    let theirs = t("# A\n\n## Backlog\n\n- [ ] `A-001` Theirs\n- [ ] `A-002` Two\n\n## Done\n");

    let r = reconcile_track(&base, &ours, &theirs);
    assert!(serialize_track(&r.track).contains("Ours"));
    assert_eq!(r.conflicts.len(), 1);
    assert_eq!(r.conflicts[0].reason, ConflictReason::BothEdited);
    assert!(
        r.conflicts[0].theirs.join("\n").contains("Theirs"),
        "their version must be preserved for the log: {:?}",
        r.conflicts[0].theirs
    );
}

#[test]
fn a_deletion_both_sides_agree_on_is_applied() {
    let base = t(BASE);
    let ours = t(BASE);
    let theirs = t("# A\n\n## Backlog\n\n- [ ] `A-001` One\n\n## Done\n");

    let r = reconcile_track(&base, &ours, &theirs);
    let out = serialize_track(&r.track);
    assert!(!out.contains("A-002"), "their deletion should apply: {out}");
    assert_eq!(r.deleted, 1);
}

#[test]
fn our_edit_beats_their_delete() {
    let base = t(BASE);
    let ours =
        t("# A\n\n## Backlog\n\n- [ ] `A-001` One\n- [ ] `A-002` Two, edited\n\n## Done\n");
    let theirs = t("# A\n\n## Backlog\n\n- [ ] `A-001` One\n\n## Done\n");

    let r = reconcile_track(&base, &ours, &theirs);
    let out = serialize_track(&r.track);
    assert!(out.contains("Two, edited"), "{out}");
    assert_eq!(r.conflicts[0].reason, ConflictReason::EditedAndDeleted);
}

#[test]
fn their_edit_beats_our_delete() {
    let base = t(BASE);
    let ours = t("# A\n\n## Backlog\n\n- [ ] `A-001` One\n\n## Done\n");
    let theirs =
        t("# A\n\n## Backlog\n\n- [ ] `A-001` One\n- [ ] `A-002` Two, edited\n\n## Done\n");

    let r = reconcile_track(&base, &ours, &theirs);
    let out = serialize_track(&r.track);
    assert!(out.contains("Two, edited"), "{out}");
}

#[test]
fn subtasks_merge_independently_of_their_parent() {
    let base =
        t("# A\n\n## Backlog\n\n- [ ] `A-001` Parent\n  - [ ] `A-001.1` Child\n\n## Done\n");
    let ours = t(
        "# A\n\n## Backlog\n\n- [ ] `A-001` Parent, ours\n  - [ ] `A-001.1` Child\n\n## Done\n",
    );
    let theirs = t(
        "# A\n\n## Backlog\n\n- [ ] `A-001` Parent\n  - [ ] `A-001.1` Child\n  - [ ] `A-001.2` Second child\n\n## Done\n",
    );

    let r = reconcile_track(&base, &ours, &theirs);
    let out = serialize_track(&r.track);
    assert!(out.contains("Parent, ours"), "{out}");
    assert!(out.contains("A-001.2` Second child"), "{out}");
    assert!(r.conflicts.is_empty(), "{:?}", r.conflicts);
}

#[test]
fn merging_identical_sides_changes_nothing() {
    let base = t(BASE);
    let r = reconcile_track(&base, &dup_track(&base), &dup_track(&base));
    assert_eq!(serialize_track(&r.track), serialize_track(&base));
    assert!(!r.changed_anything());
    assert!(r.conflicts.is_empty());
}

#[test]
fn taking_their_side_wholesale_reproduces_it() {
    let base = t(BASE);
    let theirs = t(
        "# A\n\n## Backlog\n\n- [ ] `A-001` One\n- [ ] `A-002` Two\n- [ ] `A-003` Three\n\n## Done\n",
    );
    let r = reconcile_track(&base, &dup_track(&base), &theirs);
    assert_eq!(serialize_track(&r.track), serialize_track(&theirs));
}

#[test]
fn a_repeated_untitled_task_is_not_guessed_at() {
    let base = t("# A\n\n## Backlog\n\n- [ ] Same\n- [ ] Same\n\n## Done\n");
    let ours = t("# A\n\n## Backlog\n\n- [ ] Same\n- [ ] Same\n\n## Done\n");
    let theirs = t("# A\n\n## Backlog\n\n- [ ] Same\n- [ ] Different\n\n## Done\n");

    let r = reconcile_track(&base, &ours, &theirs);
    // Ours is kept intact rather than half-merged into an unrecognisable
    // shape.
    assert!(serialize_track(&r.track).contains("Same"));
}

#[test]
fn a_repeated_title_keeps_every_copy_of_ours() {
    let base = t("# A\n\n## Backlog\n\n- [ ] Same\n- [ ] Same\n\n## Done\n");
    let ours = t("# A\n\n## Backlog\n\n- [ ] Same\n- [ ] Same\n\n## Done\n");
    let theirs = t("# A\n\n## Backlog\n\n- [ ] Same\n- [ ] Different\n\n## Done\n");
    let r = reconcile_track(&base, &ours, &theirs);
    let text = serialize_track(&r.track);
    assert_eq!(text.matches("- [ ] Same").count(), 2, "{text}");
    assert!(r
        .conflicts
        .iter()
        .any(|c| c.key == "~Same" && c.reason == ConflictReason::AmbiguousTitle));
}

#[test]
fn captures_on_both_sides_survive() {
    let base = ib(INBOX_BASE);
    let ours = ib("# Inbox\n\n- one\n- two\n- ours\n");
    let theirs = ib("# Inbox\n\n- one\n- two\n- theirs\n");

    let r = reconcile_inbox(&base, &ours, &theirs);
    assert_eq!(titles(&r.inbox), vec!["one", "two", "ours", "theirs"]);
    assert_eq!(r.took_theirs, 1);
}

#[test]
fn their_removal_is_applied() {
    let base = ib(INBOX_BASE);
    let ours = ib(INBOX_BASE);
    let theirs = ib("# Inbox\n\n- one\n");

    let r = reconcile_inbox(&base, &ours, &theirs);
    assert_eq!(titles(&r.inbox), vec!["one"]);
    assert_eq!(r.deleted, 1);
}

#[test]
fn our_removal_is_kept_when_they_did_not_touch_it() {
    let base = ib(INBOX_BASE);
    let ours = ib("# Inbox\n\n- one\n");
    let theirs = ib(INBOX_BASE);

    let r = reconcile_inbox(&base, &ours, &theirs);
    assert_eq!(titles(&r.inbox), vec!["one"]);
}

#[test]
fn our_edit_does_not_resurrect_the_original() {
    let base = ib(INBOX_BASE);
    let ours = ib("# Inbox\n\n- one, edited\n- two\n");
    let theirs = ib(INBOX_BASE);

    let r = reconcile_inbox(&base, &ours, &theirs);
    assert_eq!(titles(&r.inbox), vec!["one, edited", "two"]);
}

#[test]
fn their_edit_is_taken() {
    let base = ib(INBOX_BASE);
    let ours = ib(INBOX_BASE);
    let theirs = ib("# Inbox\n\n- one, theirs\n- two\n");

    let r = reconcile_inbox(&base, &ours, &theirs);
    assert_eq!(titles(&r.inbox), vec!["two", "one, theirs"]);
}

#[test]
fn a_double_edit_keeps_both_rather_than_choosing() {
    let base = ib(INBOX_BASE);
    let ours = ib("# Inbox\n\n- one, ours\n- two\n");
    let theirs = ib("# Inbox\n\n- one, theirs\n- two\n");

    let r = reconcile_inbox(&base, &ours, &theirs);
    let t = titles(&r.inbox);
    assert!(t.contains(&"one, ours"), "{t:?}");
    assert!(t.contains(&"one, theirs"), "{t:?}");
}

#[test]
fn identical_items_are_counted_not_deduplicated() {
    let base = ib("# Inbox\n\n- same\n");
    let ours = ib("# Inbox\n\n- same\n");
    let theirs = ib("# Inbox\n\n- same\n- same\n");

    let r = reconcile_inbox(&base, &ours, &theirs);
    assert_eq!(
        titles(&r.inbox),
        vec!["same", "same"],
        "their capture lands"
    );
}

#[test]
fn tags_distinguish_two_items_with_the_same_title() {
    let base = ib("# Inbox\n\n- note #a\n");
    let ours = ib("# Inbox\n\n- note #a\n");
    let theirs = ib("# Inbox\n\n- note #b\n");

    let r = reconcile_inbox(&base, &ours, &theirs);
    assert_eq!(r.inbox.items.len(), 1);
    assert_eq!(r.inbox.items[0].tags, vec!["b".to_string()]);
}

#[test]
fn merging_identical_inboxes_changes_nothing() {
    let base = ib(INBOX_BASE);
    let r = reconcile_inbox(&base, &base.clone(), &base.clone());
    assert_eq!(titles(&r.inbox), vec!["one", "two"]);
    assert!(!r.changed_anything());
}

#[test]
fn an_inbox_we_did_not_touch_takes_their_side_wholesale() {
    let base = ib(INBOX_BASE);
    let theirs = ib("# Inbox\n\n- one\n- two\n- three\n");
    let r = reconcile_inbox(&base, &base.clone(), &theirs);
    assert_eq!(titles(&r.inbox), vec!["one", "two", "three"]);
}

#[test]
fn a_task_only_we_have_is_kept() {
    let base = t(BASE);
    let ours = t(
        "# A\n\n## Backlog\n\n- [ ] `A-001` One\n- [ ] `A-002` Two\n- [ ] `A-009` Ours only\n\n## Done\n",
    );
    let theirs = t(BASE);

    let r = reconcile_track(&base, &ours, &theirs);
    assert!(serialize_track(&r.track).contains("Ours only"));
}

#[test]
fn a_task_list_merged_with_itself_comes_back_unchanged() {
    let text = "# Archive\n\n- [x] `A-001` One\n  - [x] `A-001.1` Inner\n  - [x] Untitled note\n- [x] Loose\n";
    let a = frame_ops::parse::parse_archive(text);
    let b = frame_ops::parse::parse_archive(text);
    let c = frame_ops::parse::parse_archive(text);
    let (merged, conflicts) = frame_ops::reconcile::reconcile_archive_tasks(&a.tasks, &b.tasks, &c.tasks);
    assert!(conflicts.is_empty());
    assert_eq!(merged.len(), 2);
    assert_eq!(merged[0].id.as_deref(), Some("A-001"));
    assert_eq!(merged[0].subtasks.len(), 2);
    assert_eq!(merged[0].subtasks[1].title, "Untitled note");
    assert_eq!(merged[1].title, "Loose");
}

#[test]
fn a_track_with_sections_and_subtasks_merged_with_itself_is_unchanged() {
    let text = "# A\n\n## Backlog\n\n- [ ] `A-001` One\n  - [ ] `A-001.1` Sub\n- [ ] Plain\n\n## Parked\n\n- [~] `A-003` Later\n\n## Done\n\n- [x] `A-002` Two\n";
    let base = t(text);
    let r = reconcile_track(&base, &dup_track(&base), &dup_track(&base));
    assert_eq!(serialize_track(&r.track), serialize_track(&base));
    assert!(r.conflicts.is_empty());
    assert_eq!(r.took_theirs, 0);
    assert_eq!(r.deleted, 0);
}
