use memoryroam::domain::{ContentLine, KernelError, NodeId, Placement, StoredNode};
use memoryroam::structure::{
    check_placement_kind, check_placement_target, check_reparent_delete, check_reparent_target,
    plan_attach, plan_cascade_delete, plan_detach, CascadeStart, ChainWrite,
};

fn id(value: i64) -> NodeId {
    NodeId::new(value).expect("valid test id")
}

fn node(value: i64, parent: Option<i64>, prev: Option<i64>, next: Option<i64>) -> StoredNode {
    StoredNode {
        id: id(value),
        content: ContentLine::parse("text").expect("valid content"),
        parent_id: parent.map(id),
        first_child_id: None,
        last_child_id: None,
        prev_sibling_id: prev.map(id),
        next_sibling_id: next.map(id),
    }
}

fn parent(value: i64, first: Option<i64>, last: Option<i64>) -> StoredNode {
    let mut parent = node(value, None, None, None);
    parent.first_child_id = first.map(id);
    parent.last_child_id = last.map(id);
    parent
}

#[test]
fn detach_bridges_a_middle_node() {
    let middle = node(2, Some(10), Some(1), Some(3));
    let owner = parent(10, Some(1), Some(3));
    let writes = plan_detach(&middle, Some(&owner)).expect("plan");
    assert_eq!(
        writes,
        vec![
            ChainWrite::SetNext { node: id(1), next: Some(id(3)) },
            ChainWrite::SetPrev { node: id(3), prev: Some(id(1)) },
            ChainWrite::SetBounds { parent: id(10), first: Some(id(1)), last: Some(id(3)) },
            ChainWrite::Clear { node: id(2) },
        ]
    );
}

#[test]
fn detach_of_an_only_child_empties_the_parent() {
    let only = node(2, Some(10), None, None);
    let owner = parent(10, Some(2), Some(2));
    let writes = plan_detach(&only, Some(&owner)).expect("plan");
    assert_eq!(
        writes,
        vec![
            ChainWrite::SetBounds { parent: id(10), first: None, last: None },
            ChainWrite::Clear { node: id(2) },
        ]
    );
}

#[test]
fn detach_refuses_top_level_nodes_and_missing_parents() {
    let top = node(2, None, None, None);
    assert!(matches!(plan_detach(&top, None), Err(KernelError::Constraint(_))));
    let orphan = node(2, Some(10), None, None);
    assert!(matches!(
        plan_detach(&orphan, None),
        Err(KernelError::StorageCorruption(_))
    ));
}

#[test]
fn attach_before_the_first_child_moves_the_parent_bound() {
    let target = node(5, Some(10), None, Some(6));
    let owner = parent(10, Some(5), Some(6));
    let writes = plan_attach(id(7), id(8), Placement::Before(id(5)), Some(&target), Some(&owner))
        .expect("plan");
    assert_eq!(
        writes,
        vec![
            ChainWrite::SetParentAlong { first: id(7), last: id(8), parent: Some(id(10)) },
            ChainWrite::SetPrev { node: id(7), prev: None },
            ChainWrite::SetNext { node: id(8), next: Some(id(5)) },
            ChainWrite::SetBounds { parent: id(10), first: Some(id(7)), last: Some(id(6)) },
            ChainWrite::SetPrev { node: id(5), prev: Some(id(8)) },
        ]
    );
}

#[test]
fn attach_after_a_middle_sibling_links_both_sides() {
    let target = node(5, Some(10), Some(4), Some(6));
    let writes = plan_attach(id(7), id(7), Placement::After(id(5)), Some(&target), None)
        .expect("plan");
    assert_eq!(
        writes,
        vec![
            ChainWrite::SetParentAlong { first: id(7), last: id(7), parent: Some(id(10)) },
            ChainWrite::SetPrev { node: id(7), prev: Some(id(5)) },
            ChainWrite::SetNext { node: id(7), next: Some(id(6)) },
            ChainWrite::SetPrev { node: id(6), prev: Some(id(7)) },
            ChainWrite::SetNext { node: id(5), next: Some(id(7)) },
        ]
    );
}

#[test]
fn attach_as_last_child_of_an_empty_parent() {
    let owner = parent(10, None, None);
    let writes = plan_attach(id(7), id(7), Placement::LastChildOf(id(10)), Some(&owner), None)
        .expect("plan");
    assert_eq!(
        writes,
        vec![
            ChainWrite::SetParentAlong { first: id(7), last: id(7), parent: Some(id(10)) },
            ChainWrite::SetNext { node: id(7), next: None },
            ChainWrite::SetPrev { node: id(7), prev: None },
            ChainWrite::SetBounds { parent: id(10), first: Some(id(7)), last: Some(id(7)) },
        ]
    );
}

#[test]
fn attach_as_first_child_keeps_the_old_children_after() {
    let owner = parent(10, Some(3), Some(4));
    let writes = plan_attach(id(7), id(8), Placement::FirstChildOf(id(10)), Some(&owner), None)
        .expect("plan");
    assert_eq!(
        writes,
        vec![
            ChainWrite::SetParentAlong { first: id(7), last: id(8), parent: Some(id(10)) },
            ChainWrite::SetPrev { node: id(7), prev: None },
            ChainWrite::SetNext { node: id(8), next: Some(id(3)) },
            ChainWrite::SetPrev { node: id(3), prev: Some(id(8)) },
            ChainWrite::SetNext { node: id(8), next: Some(id(3)) },
            ChainWrite::SetBounds { parent: id(10), first: Some(id(7)), last: Some(id(4)) },
        ]
    );
}

#[test]
fn attach_refusals() {
    assert!(matches!(
        plan_attach(id(7), id(7), Placement::TopLevelLast, None, None),
        Err(KernelError::Input(_))
    ));
    assert!(matches!(
        plan_attach(id(7), id(7), Placement::After(id(5)), None, None),
        Err(KernelError::NotFound { .. })
    ));
    let top = node(5, None, None, None);
    assert!(matches!(
        plan_attach(id(7), id(7), Placement::Before(id(5)), Some(&top), None),
        Err(KernelError::Constraint(_))
    ));
    let edge = node(5, Some(10), None, None);
    assert!(matches!(
        plan_attach(id(7), id(7), Placement::Before(id(5)), Some(&edge), None),
        Err(KernelError::StorageCorruption(_))
    ));
}

fn constraint(result: Result<(), KernelError>) -> String {
    match result {
        Err(KernelError::Constraint(message)) => message,
        other => panic!("expected a constraint error, got {other:?}"),
    }
}

#[test]
fn placements_need_a_target_node() {
    assert_eq!(
        check_placement_kind(Placement::TopLevelFirst),
        Err(KernelError::Input(String::from("top-level placement is not supported")))
    );
    assert!(check_placement_kind(Placement::TopLevelLast).is_err());
    assert_eq!(check_placement_kind(Placement::After(id(3))), Ok(()));
    assert_eq!(check_placement_kind(Placement::LastChildOf(id(3))), Ok(()));
}

#[test]
fn placement_targets_stay_outside_the_moving_subtree() {
    assert_eq!(constraint(check_placement_target(id(7), Some(id(7)), true)), "node 7 cannot target itself");
    assert_eq!(
        constraint(check_placement_target(id(8), Some(id(7)), true)),
        "cannot place node 7 inside its own subtree"
    );
    assert_eq!(check_placement_target(id(8), Some(id(7)), false), Ok(()));
    assert_eq!(check_placement_target(id(8), None, true), Ok(()));
}

#[test]
fn cascade_deletes_start_by_leaving_the_structure() {
    let child = node(4, Some(1), None, None);
    let top = node(9, None, None, None);
    assert_eq!(plan_cascade_delete(&child, false, None), Ok(CascadeStart::Detach));
    assert_eq!(plan_cascade_delete(&top, true, None), Ok(CascadeStart::DropRoot));
    match plan_cascade_delete(&top, false, None) {
        Err(KernelError::Constraint(message)) => {
            assert_eq!(message, "top-level node 9 cannot be deleted")
        }
        other => panic!("unexpected {other:?}"),
    }
    match plan_cascade_delete(&child, false, Some((id(5), id(12)))) {
        Err(KernelError::Constraint(message)) => assert_eq!(
            message,
            "cannot cascade-delete subtree rooted at 4: node 12 still references node 5"
        ),
        other => panic!("unexpected {other:?}"),
    }
}

#[test]
fn reparent_deletes_need_a_parent_and_no_references() {
    let child = node(4, Some(1), None, None);
    let top = node(9, None, None, None);
    assert_eq!(check_reparent_delete(&child, None), Ok(()));
    assert_eq!(
        constraint(check_reparent_delete(&top, Some(id(2)))),
        "top-level node 9 cannot be reparent-deleted"
    );
    assert_eq!(
        constraint(check_reparent_delete(&child, Some(id(2)))),
        "node 4 is still referenced by node 2"
    );
    assert_eq!(
        constraint(check_reparent_target(id(4), true)),
        "cannot reparent children of 4 into its own subtree"
    );
    assert_eq!(check_reparent_target(id(4), false), Ok(()));
}
