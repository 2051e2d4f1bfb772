use frame_ops::merge_files::{kind_for_path, merge_archive_text, merge_inbox_text, merge_track_text, FileKind};
use frame_ops::parse::{parse_track, serialize_track};
use frame_ops::reconcile;

const STAMP: &str = "2026-08-03T04:08:38Z";

const ROUTED: &[(&str, FileKind)] = &[
    ("frame/tracks/*.md", FileKind::Track),
    ("frame/archive/*.md", FileKind::Archive),
    ("frame/archive/_tracks/*.md", FileKind::Track),
    ("frame/inbox.md", FileKind::Inbox),
];

fn track(tasks_backlog: &[&str], tasks_done: &[&str]) -> String {
    let mut s = String::from("# Main\n\n## Backlog\n\n");
    for t in tasks_backlog {
        s.push_str(t);
        s.push('\n');
    }
    s.push_str("\n## Parked\n\n## Done\n\n");
    for t in tasks_done {
        s.push_str(t);
        s.push('\n');
    }
    s
}

fn archive(tasks: &[&str]) -> String {
    let mut s = String::from("# Archive \u{2014} main\n\n");
    for t in tasks {
        s.push_str(t);
        s.push('\n');
    }
    s.push_str("\n<!-- notes below the list -->\n");
    s
}

const A1: &str = "- [x] `MAI-001` base one\n  - resolved: 2026-08-02";
const A2: &str = "- [x] `MAI-002` base two\n  - resolved: 2026-08-02";
const OURS_3: &str = "- [x] `MAI-003` ours three\n  - resolved: 2026-08-09";
const THEIRS_5: &str = "- [x] `MAI-005` theirs five\n  - resolved: 2026-08-10";

#[test]
fn every_routed_pattern_has_a_kind() {
    let lines = frame_ops::git_setup::attribute_lines("frame");
    let patterns: Vec<&str> = lines
        .iter()
        .map(|l| l.split_whitespace().next().unwrap_or_default())
        .collect();

    assert_eq!(
        patterns.len(),
        ROUTED.len(),
        "`fr git setup` routes {} patterns but {} have a declared kind — \
             add the new one to ROUTED and give it a kind in `kind_for_path`.\n\
             routed: {patterns:?}",
        patterns.len(),
        ROUTED.len()
    );

    for (pattern, expected) in ROUTED {
        assert!(
            patterns.contains(pattern),
            "{pattern} is expected to be routed but `attribute_lines` does not write it: \
                 {patterns:?}"
        );
        // A pattern is a glob; a representative path exercises the matcher.
        let path = pattern.replace('*', "sample");
        assert_eq!(
            kind_for_path(&path),
            Some(*expected),
            "{path} (routed as {pattern}) must merge as {expected:?}"
        );

        // The same file in a project that is not at the repo root, and via
        // an absolute path. See `a_project_below_the_repo_root_still_routes`
        // for why both of these are shapes the driver really receives.
        for prefix in ["subdir/", "a/b/c/", "/Users/x/proj/"] {
            let nested = format!("{prefix}{path}");
            assert_eq!(
                kind_for_path(&nested),
                Some(*expected),
                "{nested} must merge as {expected:?} — matching is on the trailing \
                     components, never anchored at the repo root"
            );
        }
    }
}

#[test]
fn a_project_below_the_repo_root_still_routes() {
    assert_eq!(
        kind_for_path("subdir/frame/archive/main.md"),
        Some(FileKind::Archive)
    );
    assert_eq!(
        kind_for_path("subdir/frame/archive/_tracks/old.md"),
        Some(FileKind::Track)
    );
    assert_eq!(
        kind_for_path("subdir/frame/inbox.md"),
        Some(FileKind::Inbox)
    );
    // Absolute, as another VCS or a hand-run may give it.
    assert_eq!(
        kind_for_path("/Users/x/proj/frame/archive/main.md"),
        Some(FileKind::Archive)
    );
    assert_eq!(
        kind_for_path("/Users/x/proj/frame/tracks/main.md"),
        Some(FileKind::Track)
    );
    // Windows separators, nested.
    assert_eq!(
        kind_for_path(r"subdir\frame\archive\main.md"),
        Some(FileKind::Archive)
    );

    // And none of that loosens the strictness: a deeper directory under
    // `archive/` is still not a shape frame knows.
    assert_eq!(kind_for_path("subdir/frame/archive/deep/x.md"), None);
    assert_eq!(kind_for_path("subdir/doc/inbox.md"), None);
}

#[test]
fn track_paths_are_recognized() {
    assert_eq!(kind_for_path("frame/tracks/main.md"), Some(FileKind::Track));
    // A whole track `fr track archive` moved intact: sections and all, so it
    // really is a track — unlike its neighbour one directory up.
    assert_eq!(
        kind_for_path("frame/archive/_tracks/old.md"),
        Some(FileKind::Track)
    );
    // A project in a subdirectory reports a longer path; only the shape matters.
    assert_eq!(
        kind_for_path("sub/dir/frame/tracks/main.md"),
        Some(FileKind::Track)
    );
}

#[test]
fn a_done_archive_is_not_a_track() {
    assert_eq!(
        kind_for_path("frame/archive/main.md"),
        Some(FileKind::Archive)
    );
    assert_eq!(
        kind_for_path("sub/dir/frame/archive/main.md"),
        Some(FileKind::Archive)
    );
}

#[test]
fn inbox_is_recognized_by_name() {
    assert_eq!(kind_for_path("frame/inbox.md"), Some(FileKind::Inbox));
}

#[test]
fn only_the_known_shapes_route() {
    // Not directly under `archive/` or `tracks/`.
    assert_eq!(kind_for_path("frame/archive/deep/nested/x.md"), None);
    assert_eq!(kind_for_path("frame/tracks/sub/x.md"), None);
    // The right directory names, but not under `frame/`.
    assert_eq!(kind_for_path("docs/archive/notes.md"), None);
    assert_eq!(kind_for_path("tracks/main.md"), None);
    // An inbox somewhere else is not the project inbox.
    assert_eq!(kind_for_path("doc/inbox.md"), None);
}

#[test]
fn other_paths_are_declined() {
    assert_eq!(kind_for_path("frame/project.toml"), None);
    assert_eq!(kind_for_path("frame/actors.toml"), None);
    assert_eq!(kind_for_path("README.md"), None);
    assert_eq!(kind_for_path("doc/tracks.txt"), None);
}

#[test]
fn windows_separators_are_normalized() {
    assert_eq!(
        kind_for_path(r"frame\tracks\main.md"),
        Some(FileKind::Track)
    );
}

#[test]
fn a_move_and_an_append_both_land() {
    let base = track(&["- [ ] `BAC-179` Fix the thing"], &[]);
    let ours = track(&[], &["- [x] `BAC-179` Fix the thing"]);
    let theirs = track(
        &[
            "- [ ] `BAC-179` Fix the thing",
            "- [ ] `BAC-180` Another thing",
        ],
        &[],
    );

    let (merged, report) = merge_track_text(&base, &ours, &theirs, STAMP);

    assert!(report.is_clean(), "conflicts: {:?}", report.conflicts);
    assert_eq!(merged.matches("BAC-179").count(), 1, "merged:\n{merged}");
    assert!(merged.contains("BAC-180"));
    // The finished task is in Done, and stayed finished.
    let done = merged.split_once("## Done").unwrap().1;
    assert!(done.contains("- [x] `BAC-179`"), "merged:\n{merged}");
}

#[test]
fn section_headers_survive() {
    let base = track(&["- [ ] `BAC-1` One"], &[]);
    let ours = track(&["- [ ] `BAC-1` One", "- [ ] `BAC-2` Two"], &[]);
    let theirs = track(&[], &["- [x] `BAC-1` One"]);

    let (merged, _) = merge_track_text(&base, &ours, &theirs, STAMP);

    assert!(merged.contains("## Backlog"));
    assert!(merged.contains("## Parked"));
    assert!(merged.contains("## Done"));
}

#[test]
fn empty_base_keeps_both_sides() {
    let ours = track(&["- [ ] `BAC-1` Ours"], &[]);
    let theirs = track(&["- [ ] `BAC-2` Theirs"], &[]);

    let (merged, report) = merge_track_text("", &ours, &theirs, STAMP);

    assert!(report.is_clean(), "conflicts: {:?}", report.conflicts);
    assert!(merged.contains("BAC-1"));
    assert!(merged.contains("BAC-2"));
}

#[test]
fn a_double_edit_conflicts_and_keeps_ours() {
    let base = track(&["- [ ] `BAC-1` Original"], &[]);
    let ours = track(&["- [ ] `BAC-1` Our title"], &[]);
    let theirs = track(&["- [ ] `BAC-1` Their title"], &[]);

    let (merged, report) = merge_track_text(&base, &ours, &theirs, STAMP);

    assert!(!report.is_clean());
    assert_eq!(report.conflicts.len(), 1);
    assert_eq!(report.conflicts[0].key, "#BAC-1");
    assert!(merged.contains("Our title"));
    // Theirs is preserved in the report for the caller to record.
    assert!(
        report.conflicts[0]
            .theirs
            .join("\n")
            .contains("Their title")
    );
}

#[test]
fn output_round_trips_even_when_conflicted() {
    let base = track(&["- [ ] `BAC-1` Original"], &[]);
    let ours = track(&["- [ ] `BAC-1` Our title"], &[]);
    let theirs = track(&["- [ ] `BAC-1` Their title"], &[]);

    let (merged, report) = merge_track_text(&base, &ours, &theirs, STAMP);
    assert!(!report.is_clean());

    assert!(!merged.contains("<<<<<<<"));
    let reparsed = serialize_track(&parse_track(&merged));
    assert_eq!(reparsed, merged, "merged output is not stable");
}

#[test]
fn inbox_captures_from_both_sides_survive() {
    let base = "# Inbox\n\n- one\n";
    let ours = "# Inbox\n\n- one\n- ours\n";
    let theirs = "# Inbox\n\n- one\n- theirs\n";

    let (merged, report) = merge_inbox_text(base, ours, theirs);

    assert!(report.is_clean());
    assert!(merged.contains("- one"));
    assert!(merged.contains("- ours"));
    assert!(merged.contains("- theirs"));
}

#[test]
fn inbox_removal_agreed_by_both_sides_sticks() {
    let base = "# Inbox\n\n- one\n- two\n";
    let ours = "# Inbox\n\n- two\n";
    let theirs = "# Inbox\n\n- two\n";

    let (merged, _) = merge_inbox_text(base, ours, theirs);

    assert!(!merged.contains("- one"));
    assert!(merged.contains("- two"));
}

#[test]
fn both_sides_appended_and_both_survive() {
    let (merged, report) = merge_archive_text(
        &archive(&[A1, A2]),
        &archive(&[A1, A2, OURS_3]),
        &archive(&[A1, A2, THEIRS_5]),
        STAMP,
    );

    assert!(report.is_clean(), "conflicts: {:?}", report.conflicts);
    for id in ["MAI-001", "MAI-002", "MAI-003", "MAI-005"] {
        assert!(
            merged.contains(id),
            "{id} must survive the merge:\n{merged}"
        );
    }
    assert_eq!(report.took_theirs, 1, "one task came across");
    assert_eq!(report.deleted, 0);
    assert_eq!(report.kind, FileKind::Archive);
    // And it is still an archive, not a track: no section headers appear.
    assert!(!merged.contains("##"), "no section leaked in:\n{merged}");
    assert_eq!(frame_ops::parse::parse_archive(&merged).tasks.len(), 4);
}

#[test]
fn an_absent_base_archive_keeps_both_sides() {
    let (merged, report) =
        merge_archive_text("", &archive(&[OURS_3]), &archive(&[THEIRS_5]), STAMP);

    assert!(report.is_clean(), "conflicts: {:?}", report.conflicts);
    assert!(
        merged.contains("MAI-003") && merged.contains("MAI-005"),
        "{merged}"
    );
}

#[test]
fn a_wholesale_rewrite_still_merges_by_identity() {
    // Their side reordered and re-spaced everything a rewrite would touch.
    let theirs = format!(
        "# Archive — main\n\n{}\n{}\n{}\n\n<!-- notes below the list -->\n",
        THEIRS_5, A2, A1
    );

    let (merged, report) = merge_archive_text(
        &archive(&[A1, A2]),
        &archive(&[A1, A2, OURS_3]),
        &theirs,
        STAMP,
    );

    assert!(report.is_clean(), "conflicts: {:?}", report.conflicts);
    for id in ["MAI-001", "MAI-002", "MAI-003", "MAI-005"] {
        assert!(merged.contains(id), "{id} must survive:\n{merged}");
    }
}

#[test]
fn a_double_edit_conflicts_keeps_ours_and_writes_no_marker() {
    let base = archive(&[A1]);
    let ours = archive(&["- [x] `MAI-001` our title\n  - resolved: 2026-08-02"]);
    let theirs = archive(&["- [x] `MAI-001` their title\n  - resolved: 2026-08-02"]);

    let (merged, report) = merge_archive_text(&base, &ours, &theirs, STAMP);

    assert!(!report.is_clean(), "this must not merge silently");
    assert_eq!(report.conflicts.len(), 1);
    assert!(merged.contains("our title"), "ours is kept:\n{merged}");
    assert!(!merged.contains("their title"), "theirs is not:\n{merged}");
    assert!(
        report.conflicts[0]
            .theirs
            .join("\n")
            .contains("their title"),
        "theirs is handed back for the log: {:?}",
        report.conflicts[0].theirs
    );

    // The two things that must never appear in an archive.
    assert!(!merged.contains("conflict:"), "no marker:\n{merged}");
    assert!(!merged.contains("<<<<"), "no conflict markers:\n{merged}");
    let reparsed = frame_ops::parse::parse_archive(&merged);
    assert_eq!(reparsed.tasks.len(), 1, "and it still parses:\n{merged}");
}

#[test]
fn header_trailing_and_crlf_survive() {
    let base = archive(&[A1]).replace('\n', "\r\n");
    let ours = format!(
        "# Archive — main\r\n\r\n> a note someone added up here\r\n\r\n{}\r\n\r\n<!-- tail -->\r\n",
        A1.replace('\n', "\r\n")
    );
    let theirs = archive(&[A1, THEIRS_5]).replace('\n', "\r\n");

    let (merged, report) = merge_archive_text(&base, &ours, &theirs, STAMP);

    assert!(report.is_clean(), "conflicts: {:?}", report.conflicts);
    assert!(merged.contains("MAI-005"), "theirs landed:\n{merged:?}");
    assert!(
        merged.contains("> a note someone added up here"),
        "ours' header survives:\n{merged:?}"
    );
    assert!(
        merged.contains("<!-- tail -->"),
        "trailing survives:\n{merged:?}"
    );
    assert!(
        !merged.contains("\n\n") || merged.contains("\r\n"),
        "line ending is preserved"
    );
    assert!(
        merged.lines().all(|l| !l.ends_with('\r')) || merged.contains("\r\n"),
        "CRLF throughout, not mixed:\n{merged:?}"
    );
    for line in merged.split("\r\n") {
        assert!(
            !line.contains('\n'),
            "a bare LF survived into a CRLF file:\n{merged:?}"
        );
    }
}

#[test]
fn an_ambiguous_title_declines_rather_than_guessing() {
    let dup = "- [x] duplicate title\n- [x] duplicate title";
    let base = archive(&[dup]);
    let ours = archive(&[dup, OURS_3]);
    let theirs = archive(&[dup, THEIRS_5]);

    let (merged, report) = merge_archive_text(&base, &ours, &theirs, STAMP);

    assert!(
        report
            .conflicts
            .iter()
            .any(|c| c.reason == reconcile::ConflictReason::AmbiguousTitle),
        "the ambiguous pair is reported: {:?}",
        report.conflicts
    );
    // Both sides' unambiguous additions still land.
    assert!(
        merged.contains("MAI-003") && merged.contains("MAI-005"),
        "{merged}"
    );
}

#[test]
fn merged_order_is_deterministic_and_the_set_is_symmetric() {
    let base = archive(&[A1]);
    let ours = archive(&[A1, OURS_3]);
    let theirs = archive(&[A1, THEIRS_5]);

    let (a_then_b, _) = merge_archive_text(&base, &ours, &theirs, STAMP);
    let (again, _) = merge_archive_text(&base, &ours, &theirs, STAMP);
    assert_eq!(a_then_b, again, "the same inputs give the same bytes");

    let ids = |s: &str| {
        let mut v: Vec<String> = frame_ops::parse::parse_archive(s)
            .tasks
            .iter()
            .filter_map(|t| t.id.as_ref().map(|i| i.to_string()))
            .collect();
        v.sort();
        v
    };
    let (b_then_a, _) = merge_archive_text(&base, &theirs, &ours, STAMP);
    assert_eq!(
        ids(&a_then_b),
        ids(&b_then_a),
        "the task *set* does not depend on which side is ours"
    );

    // Ours' order is kept, and their addition follows it.
    let order: Vec<String> = frame_ops::parse::parse_archive(&a_then_b)
        .tasks
        .iter()
        .filter_map(|t| t.id.as_ref().map(|i| i.to_string()))
        .collect();
    assert_eq!(order, vec!["MAI-001", "MAI-003", "MAI-005"]);
}
