use frame_ops::refs::{containment, normalize, same_path, strip_line_ref, PathRejection};

#[test]
fn a_colon_run_is_not_eaten_past_a_column() {
    assert_eq!(strip_line_ref("a:1:2:3"), "a:1");
    assert_eq!(strip_line_ref("src/parser.rs"), "src/parser.rs");
    assert_eq!(strip_line_ref("src/parser.rs:807"), "src/parser.rs");
    assert_eq!(strip_line_ref("src/parser.rs:807-820"), "src/parser.rs");
}

#[test]
fn normalize_folds_dot_and_dotdot() {
    assert_eq!(normalize("./sub/../real.md"), "real.md");
    assert_eq!(normalize("doc/../src/parser.rs"), "src/parser.rs");
    assert_eq!(normalize("./real.md"), "real.md");
    assert_eq!(normalize("a//b"), "a/b");
    assert_eq!(normalize("doc/"), "doc");
    assert_eq!(normalize("  real.md  "), "real.md");
    // Already normal: folding is idempotent, which is what lets a stored
    // value be compared against a fresh one without re-deriving either.
    assert_eq!(normalize("src/parser.rs"), "src/parser.rs");
    assert_eq!(normalize(normalize("./sub/../real.md").as_str()), "real.md");
}

#[test]
fn normalize_leaves_the_suffix_alone() {
    assert_eq!(normalize("./sub/../real.md:807"), "real.md:807");
    assert_eq!(normalize("./doc/../design.md#why"), "design.md#why");
    assert_eq!(normalize("doc/issue#3.md"), "doc/issue#3.md");
    assert_eq!(normalize("src/odd:9.rs"), "src/odd:9.rs");
    assert_eq!(normalize("src/parser.rs:807-820"), "src/parser.rs:807-820");
}

#[test]
fn normalize_keeps_what_makes_a_path_escape() {
    assert_eq!(normalize("../outside.md"), "../outside.md");
    assert_eq!(normalize("a/../../b.md"), "../b.md");
    assert_eq!(normalize("../../b.md"), "../../b.md");
    assert_eq!(normalize("/etc/hosts"), "/etc/hosts");
    assert_eq!(normalize("/etc/../etc/hosts"), "/etc/hosts");
    // `..` above the root of an absolute path has nowhere to go.
    assert_eq!(normalize("/../etc/hosts"), "/../etc/hosts");
}

#[test]
fn normalize_does_not_fold_inside_a_segment() {
    assert_eq!(normalize("doc/..hidden.md"), "doc/..hidden.md");
    assert_eq!(normalize("doc/a..b.md"), "doc/a..b.md");
    assert_eq!(normalize("...md"), "...md");
}

#[test]
fn containment_refuses_what_will_not_travel() {
    assert_eq!(containment("../outside.md"), Some(PathRejection::Escapes));
    assert_eq!(containment("a/../../b.md"), Some(PathRejection::Escapes));
    assert_eq!(containment(".."), Some(PathRejection::Escapes));
    assert_eq!(containment("/etc/hosts"), Some(PathRejection::Absolute));
    assert_eq!(
        containment("/etc/../etc/hosts"),
        Some(PathRejection::Absolute)
    );
    // Absolute *into* the project is still absolute: it names this machine.
    assert_eq!(
        containment("/Users/x/proj/doc/design.md"),
        Some(PathRejection::Absolute)
    );
}

#[test]
fn containment_allows_everything_that_stays_inside() {
    assert_eq!(containment("doc/design.md"), None);
    assert_eq!(containment("./sub/../real.md"), None);
    assert_eq!(containment("doc/../src/parser.rs:807"), None);
    assert_eq!(containment("."), None);
    assert_eq!(containment("doc/..hidden.md"), None);
    // Empty is not a containment question — `exists` refuses it on its own,
    // and answering here would give it two different error messages.
    assert_eq!(containment(""), None);
}

#[test]
fn same_path_sees_through_spelling_but_not_through_the_suffix() {
    assert!(same_path("real.md", "./sub/../real.md"));
    assert!(same_path("./sub/../real.md", "real.md"));
    assert!(same_path("./sub/../real.md", "./sub/../real.md"));
    assert!(same_path("doc/design.md#why", "./doc/design.md#why"));
    // Different references to the same file, and `rm` must keep them apart.
    assert!(!same_path("real.md", "real.md:807"));
    assert!(!same_path("doc/design.md", "doc/design.md#why"));
    assert!(!same_path("real.md", "other.md"));
}

#[test]
fn a_non_numeric_suffix_is_part_of_the_path() {
    assert_eq!(strip_line_ref("src/parser.rs:main"), "src/parser.rs:main");
    assert_eq!(strip_line_ref("src/parser.rs:8a"), "src/parser.rs:8a");
    assert_eq!(strip_line_ref("src/parser.rs:-8"), "src/parser.rs:-8");
    assert_eq!(strip_line_ref("src/parser.rs:8-"), "src/parser.rs:8-");
}

#[test]
fn normalizing_a_normal_spelling_changes_nothing() {
    for v in ["./sub/../real.md", "a/../../b.md", "/etc/../etc/hosts", "./", "doc/", "/../etc/hosts"] {
        let once = frame_ops::refs::normalize(v);
        assert_eq!(frame_ops::refs::normalize(&once), once, "{v}");
    }
}
