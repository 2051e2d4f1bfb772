use frame_ops::git_setup::{planned_gitattributes, planned_gitignore};

#[test]
fn a_project_with_no_gitignore_gets_the_pattern() {
    let (content, removed) = planned_gitignore("", "frame", None).unwrap();
    assert!(content.contains("frame/.*"));
    assert!(removed.is_empty());
}

#[test]
fn an_existing_pattern_is_left_alone() {
    assert!(planned_gitignore("target/\nframe/.*\n", "frame", None).is_none());
}

#[test]
fn legacy_per_file_entries_collapse_into_the_pattern() {
    let existing = "\
target/

# frame — working-copy-local files (never commit these)
frame/.state.json
frame/.lock
frame/.recovery.log
frame/.actor
frame/.rescue/
";
    let (content, removed) = planned_gitignore(existing, "frame", None).unwrap();

    assert_eq!(removed.len(), 5);
    assert!(content.contains("frame/.*"));
    for legacy in [
        "frame/.state.json",
        "frame/.lock",
        "frame/.recovery.log",
        "frame/.actor",
        "frame/.rescue/",
    ] {
        assert!(
            !content.lines().any(|l| l.trim() == legacy),
            "{legacy} survived:\n{content}"
        );
    }
    // Unrelated content and the explanatory comment keep their place.
    assert!(content.contains("target/"));
    assert!(content.contains("# frame — working-copy-local files"));
    // The pattern lands where the first removed line was, under that comment.
    let comment_at = content.find("# frame —").unwrap();
    let pattern_at = content.find("frame/.*").unwrap();
    assert!(pattern_at > comment_at);
}

#[test]
fn leading_and_trailing_slash_spellings_are_recognized() {
    let existing = "/frame/.actor\nframe/.rescue/\n/frame/.lock/\n";
    let (content, removed) = planned_gitignore(existing, "frame", None).unwrap();
    assert_eq!(removed.len(), 3);
    assert!(!content.contains(".actor"));
    assert!(!content.contains(".rescue"));
}

#[test]
fn unrecognized_lines_are_never_removed() {
    let existing = "\
frame/.actor
frame/notes.md
frame/archive/.keep
!frame/.important
frame-other/.actor
";
    let (content, removed) = planned_gitignore(existing, "frame", None).unwrap();
    assert_eq!(removed, vec!["frame/.actor"]);
    assert!(content.contains("frame/notes.md"));
    // Nested dotfiles are NOT covered by `frame/.*`, so removing them would
    // silently start committing them.
    assert!(content.contains("frame/archive/.keep"));
    assert!(content.contains("!frame/.important"));
    assert!(content.contains("frame-other/.actor"));
}

#[test]
fn legacy_entries_follow_the_prefix_they_are_given() {
    let existing = "sub/frame/.actor\nframe/.actor\n";
    let (content, removed) = planned_gitignore(existing, "sub/frame", None).unwrap();

    assert_eq!(removed, vec!["sub/frame/.actor"]);
    assert!(content.contains("sub/frame/.*"));
    // A different prefix's entry is not this one's business.
    assert!(content.contains("frame/.actor"));
}

#[test]
fn gitignore_migration_is_idempotent() {
    let existing = "target/\nframe/.actor\nframe/.lock\n";
    let (once, _) = planned_gitignore(existing, "frame", None).unwrap();
    assert!(
        planned_gitignore(&once, "frame", None).is_none(),
        "second run would rewrite:\n{once}"
    );
}

#[test]
fn attributes_are_added_when_absent() {
    let plan = planned_gitattributes("", "frame", None).unwrap();
    assert_eq!(plan.added.len(), 4);
    assert!(plan.removed.is_empty());
    assert!(plan.content.contains("frame/tracks/*.md merge=frame"));
    assert!(plan.content.contains("frame/inbox.md merge=frame"));
}

#[test]
fn attributes_are_idempotent() {
    let once = planned_gitattributes("", "frame", None).unwrap().content;
    assert!(planned_gitattributes(&once, "frame", None).is_none());
}

#[test]
fn existing_content_is_preserved() {
    let existing = "*.png binary\n";
    let plan = planned_gitattributes(existing, "frame", None).unwrap();
    assert!(plan.content.contains("*.png binary"));
    assert!(plan.content.contains("merge=frame"));
}

#[test]
fn a_deliberate_override_is_not_fought() {
    let existing = "frame/inbox.md merge=union\n";
    let plan = planned_gitattributes(existing, "frame", None).unwrap();
    assert!(plan.content.contains("frame/inbox.md merge=union"));
    assert!(!plan.added.iter().any(|l| l.starts_with("frame/inbox.md")));
}

#[test]
fn a_plan_over_an_unterminated_crlf_file_settles_it() {
    let existing = "*.png binary\r\nframe/inbox.md merge=union";
    let plan = planned_gitattributes(existing, "frame", None).unwrap();
    assert!(plan.content.starts_with(existing));
    assert!(planned_gitattributes(&plan.content, "frame", None).is_none());
}
