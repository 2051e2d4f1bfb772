use frame_ops::deps::{dep_tree, DepNode, DepStatus};
use frame_ops::parse::parse_track;
use frame_ops::project::{CleanConfig, Project};

fn project(track_md: &str) -> Project {
    Project {
        tracks: vec![("main".to_string(), parse_track(track_md))],
        track_order: vec![],
        track_states: vec![],
        prefixes: vec![],
        clean: CleanConfig::default(),
        inbox: None,
        id_floors: vec![],
        archives: vec![],
        missing_paths: vec![],
    }
}

/// `M-001` → `M-002`, `M-003`; both → `M-004`. `M-005` ↔ `M-006` is a real
/// cycle. `M-007` points at nothing.
fn fixture() -> Project {
    project(
        "# Main\n\n## Backlog\n\n\
             - [ ] `M-001` Root\n  - dep: M-002, M-003\n\
             - [ ] `M-002` Left\n  - dep: M-004\n\
             - [ ] `M-003` Right\n  - dep: M-004\n\
             - [ ] `M-004` Shared leaf\n\
             - [ ] `M-005` Cycle a\n  - dep: M-006\n\
             - [ ] `M-006` Cycle b\n  - dep: M-005\n\
             - [ ] `M-007` Dangling\n  - dep: M-999\n\n## Done\n",
    )
}

fn kid(node: &DepNode, index: usize) -> &DepNode {
    &node.deps[index]
}



#[test]
fn a_shared_dependency_is_a_repeat_not_a_cycle() {
    let tree = dep_tree(&fixture(), "M-001");
    assert_eq!(tree.status, DepStatus::Resolved);

    // First branch expands M-004 in full.
    let left = kid(&tree, 0);
    assert_eq!(left.id, "M-002");
    assert_eq!(kid(left, 0).id, "M-004");
    assert_eq!(kid(left, 0).status, DepStatus::Resolved);

    // Second branch reaches the same task and says so honestly.
    let right = kid(&tree, 1);
    assert_eq!(right.id, "M-003");
    assert_eq!(kid(right, 0).id, "M-004");
    assert_eq!(
        kid(right, 0).status,
        DepStatus::Repeat,
        "a diamond is not a cycle"
    );
}

#[test]
fn a_real_cycle_stops_at_the_root() {
    // The root used to be left out of the visited set, so a cycle through it
    // ran one lap too far: M-005 → M-006 → M-005 → M-006 (circular).
    let tree = dep_tree(&fixture(), "M-005");
    let b = kid(&tree, 0);
    assert_eq!(b.id, "M-006");
    assert_eq!(b.status, DepStatus::Resolved);

    let back = kid(b, 0);
    assert_eq!(back.id, "M-005");
    assert_eq!(back.status, DepStatus::Cycle);
    assert!(back.deps.is_empty(), "a cycle node expands nothing");
}

#[test]
fn a_dangling_dep_is_missing() {
    let tree = dep_tree(&fixture(), "M-007");
    let dangling = kid(&tree, 0);
    assert_eq!(dangling.id, "M-999");
    assert_eq!(dangling.status, DepStatus::Missing);
    assert_eq!(dangling.title, None);
}

#[test]
fn a_root_with_no_deps_has_no_children() {
    let tree = dep_tree(&fixture(), "M-004");
    assert_eq!(tree.status, DepStatus::Resolved);
    assert!(tree.deps.is_empty());
}

#[test]
fn an_unknown_root_is_missing() {
    assert_eq!(dep_tree(&fixture(), "M-999").status, DepStatus::Missing);
}

#[test]
fn a_self_dependency_is_a_cycle() {
    let p = project("# Main\n\n## Backlog\n\n- [ ] `M-001` Self\n  - dep: M-001\n\n## Done\n");
    let tree = dep_tree(&p, "M-001");
    assert_eq!(tree.status, DepStatus::Resolved);
    assert_eq!(kid(&tree, 0).status, DepStatus::Cycle);
}
