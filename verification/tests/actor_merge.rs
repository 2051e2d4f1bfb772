use frame_ops::actor_merge::{
    apply_map_to_track, build_merge_map, collect_ids_in_track, scan_prose, validate_merge_request, ProseHit,
};
use frame_ops::model::Metadata;
use frame_ops::parse::parse_track;
use frame_ops::task_id::Token;

fn ids(list: &[&str]) -> Vec<String> {
    list.iter().map(|s| s.to_string()).collect()
}

fn from(list: &[&str]) -> Vec<String> {
    list.iter().map(|s| s.to_string()).collect()
}

fn tok(s: &str) -> Token {
    Token::new(s).unwrap()
}

fn map_of(pairs: &[(String, String)]) -> Vec<(String, String)> {
    pairs.to_vec()
}

#[test]
fn top_level_renumber_continues_target_sequence() {
    let all = ids(&["BAC-b1", "BAC-b2", "BAC-b3", "BAC-f1", "BAC-f2", "BAC-f3"]);
    let out = build_merge_map(&all, &from(&["f"]), Some(&tok("b")));
    assert_eq!(
        map_of(&out),
        vec![
            ("BAC-f1".into(), "BAC-b4".into()),
            ("BAC-f2".into(), "BAC-b5".into()),
            ("BAC-f3".into(), "BAC-b6".into()),
        ]
    );
}

#[test]
fn merges_multiple_sources_into_one_target() {
    let all = ids(&["SEC-b1", "SEC-d1", "SEC-f1"]);
    let out = build_merge_map(&all, &from(&["d", "f"]), Some(&tok("b")));
    assert_eq!(
        map_of(&out),
        vec![
            ("SEC-d1".into(), "SEC-b2".into()),
            ("SEC-f1".into(), "SEC-b3".into()),
        ]
    );
}

#[test]
fn empty_target_namespace_starts_at_one() {
    let all = ids(&["TOO-d1", "TOO-d2"]);
    let out = build_merge_map(&all, &from(&["d"]), Some(&tok("b")));
    assert_eq!(
        map_of(&out),
        vec![
            ("TOO-d1".into(), "TOO-b1".into()),
            ("TOO-d2".into(), "TOO-b2".into()),
        ]
    );
}

#[test]
fn preserves_other_actors_child_segment() {
    let all = ids(&["SEC-b1", "SEC-d1", "SEC-d1.a3"]);
    let out = build_merge_map(&all, &from(&["d"]), Some(&tok("b")));
    assert_eq!(
        map_of(&out),
        vec![
            ("SEC-d1".into(), "SEC-b2".into()),
            ("SEC-d1.a3".into(), "SEC-b2.a3".into()),
        ]
    );
}

#[test]
fn preserves_null_child_under_merged_parent() {
    let all = ids(&["EFF-d1", "EFF-d1.1", "EFF-d1.2"]);
    let out = build_merge_map(&all, &from(&["d"]), Some(&tok("b")));
    assert_eq!(
        map_of(&out),
        vec![
            ("EFF-d1".into(), "EFF-b1".into()),
            ("EFF-d1.1".into(), "EFF-b1.1".into()),
            ("EFF-d1.2".into(), "EFF-b1.2".into()),
        ]
    );
}

#[test]
fn substituted_children_under_new_parent_dont_collide() {
    let all = ids(&["EFF-f1", "EFF-f1.b3", "EFF-f1.d7"]);
    let out = build_merge_map(&all, &from(&["d", "f"]), Some(&tok("b")));
    assert_eq!(
        map_of(&out),
        vec![
            ("EFF-f1".into(), "EFF-b1".into()),
            ("EFF-f1.b3".into(), "EFF-b1.b3".into()),
            ("EFF-f1.d7".into(), "EFF-b1.b4".into()),
        ]
    );
}

#[test]
fn untouched_ids_and_widths_are_preserved() {
    let all = ids(&["EFF-014", "EFF-014.1", "EFF-d1"]);
    let out = build_merge_map(&all, &from(&["d"]), Some(&tok("b")));
    assert_eq!(map_of(&out), vec![("EFF-d1".into(), "EFF-b1".into())]);
}

#[test]
fn different_prefixes_have_independent_sequences() {
    let all = ids(&["BAC-b5", "BAC-d1", "SEC-d1"]);
    let out = build_merge_map(&all, &from(&["d"]), Some(&tok("b")));
    assert_eq!(
        map_of(&out),
        vec![
            ("BAC-d1".into(), "BAC-b6".into()),
            ("SEC-d1".into(), "SEC-b1".into()),
        ]
    );
}

#[test]
fn validate_rejects_bad_requests() {
    assert!(validate_merge_request(&vec![], "b").is_err());
    assert!(validate_merge_request(&vec!["b".into()], "b").is_err());
    assert!(validate_merge_request(&vec!["null".into()], "b").is_err());
    assert!(validate_merge_request(&vec!["d".into()], "null").is_err());
    assert!(validate_merge_request(&vec!["d".into(), "d".into()], "b").is_err());
    assert!(validate_merge_request(&vec!["d".into(), "f".into()], "b").is_ok());
}

#[test]
fn prose_scan_matches_on_boundaries_only() {
    let map = vec![("BAC-f1".to_string(), "BAC-b17".to_string())];
    let (out, hits) = scan_prose("see BAC-f1, not BAC-f10 nor BAC-f1.2", &map, true);
    assert_eq!(hits.len(), 1);
    assert_eq!(out, "see BAC-b17, not BAC-f10 nor BAC-f1.2");
}

#[test]
fn prose_scan_matches_id_before_a_sentence_period() {
    let map = vec![("BAC-f1".to_string(), "BAC-b6".to_string())];
    let (out, hits) = scan_prose("captured as BAC-f1. See BAC-f1.2 later", &map, true);
    assert_eq!(hits.len(), 1);
    assert_eq!(out, "captured as BAC-b6. See BAC-f1.2 later");
}

#[test]
fn prose_scan_reports_but_skips_citations() {
    let map = vec![("SEC-d1".to_string(), "SEC-b2".to_string())];
    let (out, hits) = scan_prose("added by 77071079 fix(SEC-d1)", &map, true);
    assert_eq!(hits.len(), 1);
    assert!(hits[0].is_citation);
    assert_eq!(out, "added by 77071079 fix(SEC-d1)");
}

/// Merging into the null namespace pads new numbers to three digits.
#[test]
fn merging_into_the_null_namespace_pads_numbers() {
    let all = ids(&["M-001", "M-d1"]);
    let out = build_merge_map(&all, &from(&["d"]), None);
    assert_eq!(map_of(&out), vec![("M-d1".into(), "M-002".into())]);
}

/// IDs outside the grammar, and repeats, take no part in a merge.
#[test]
fn raw_and_repeated_ids_are_ignored() {
    let all = ids(&["legacy/thing", "M-d1", "M-d1"]);
    let out = build_merge_map(&all, &from(&["d"]), Some(&tok("b")));
    assert_eq!(map_of(&out), vec![("M-d1".into(), "M-b1".into())]);
}

/// The reasons a request is refused, one per check.
#[test]
fn validate_names_the_problem() {
    assert_eq!(
        validate_merge_request(&vec!["d".into()], "B"),
        Err("invalid token 'B': use lowercase letters only".to_string())
    );
    assert_eq!(
        validate_merge_request(&vec!["d".into(), "d".into()], "b"),
        Err("token 'd' listed more than once".to_string())
    );
    assert_eq!(
        validate_merge_request(&vec!["b".into()], "b"),
        Err("token 'b' is both a source and the target".to_string())
    );
}

/// Applying a map renames IDs and deps and rewrites prose mentions, marking
/// what changed.
#[test]
fn applying_a_map_to_a_track_rewrites_ids_deps_and_notes() {
    let mut track = parse_track(
        "# Main\n\n## Backlog\n\n- [ ] `M-d1` First\n  - note: follows M-d1 closely\n- [ ] `M-002` Second\n  - dep: M-d1\n\n## Done\n",
    );
    let mut all = Vec::new();
    collect_ids_in_track(&track, &mut all);
    assert_eq!(all, vec!["M-d1".to_string(), "M-002".to_string()]);
    let map = build_merge_map(&all, &from(&["d"]), Some(&tok("b")));
    assert_eq!(map, vec![("M-d1".to_string(), "M-b1".to_string())]);
    let mut hits: Vec<ProseHit> = Vec::new();
    assert!(apply_map_to_track(&mut track, &map, true, &mut hits));
    assert_eq!(hits.len(), 1);
    assert_eq!(hits[0].context, "follows M-d1 closely");
    let tasks = track.backlog();
    assert_eq!(tasks[0].id.as_deref(), Some("M-b1"));
    assert!(tasks[0].dirty);
    assert!(matches!(&tasks[0].metadata[0], Metadata::Note(n) if n == "follows M-b1 closely"));
    assert!(matches!(&tasks[1].metadata[0], Metadata::Dep(d) if d == &vec!["M-b1".to_string()]));
    assert!(tasks[1].dirty);
}
