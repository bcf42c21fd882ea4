use wm::tree::commands::{
    detach_container, flatten_split_container, flatten_tiling_container, set_focused_descendant,
    wrap_in_stack_container, SizeEffect, StackContainer,
};
use wm::tree::{ContainerKind, ContainerTree, GapsConfig, TilingDirection, TreeError};

const GAPS: GapsConfig = GapsConfig { scale_with_dpi: false, inner_gap: 4, outer_gap: 8 };

/// Indices of the containers of the fixture tree.
struct Fixture {
    tree: ContainerTree,
    root: usize,
    workspace: usize,
    split: usize,
    a: usize,
    b: usize,
    c: usize,
}

/// root > monitor > workspace > [split > [a, b], c]
fn fixture() -> Fixture {
    let mut tree = ContainerTree::new();
    let h = TilingDirection::Horizontal;
    let root = tree.add_detached(1, ContainerKind::Root, h, None).unwrap();
    let monitor = tree.add_child(root, 2, ContainerKind::Monitor, h, None).unwrap();
    let workspace = tree.add_child(monitor, 3, ContainerKind::Workspace, h, Some(GAPS)).unwrap();
    let split = tree.add_child(workspace, 4, ContainerKind::Split, TilingDirection::Vertical, None).unwrap();
    let a = tree.add_child(split, 10, ContainerKind::TilingWindow, h, None).unwrap();
    let b = tree.add_child(split, 11, ContainerKind::TilingWindow, h, None).unwrap();
    let c = tree.add_child(workspace, 12, ContainerKind::TilingWindow, h, None).unwrap();
    Fixture { tree, root, workspace, split, a, b, c }
}

#[test]
fn fixture_is_built_in_order() {
    let f = fixture();
    assert_eq!(f.tree.len(), 7);
    assert_eq!(f.tree.children(f.workspace), &vec![f.split, f.c]);
    assert_eq!(f.tree.child_focus_order(f.workspace), &vec![4u128, 12]);
    assert_eq!(f.tree.children(f.split), &vec![f.a, f.b]);
    assert_eq!(f.tree.parent(f.a), Some(f.split));
    assert_eq!(f.tree.find_by_id(11), Some(f.b));
    assert_eq!(f.tree.find_by_id(99), None);
}

#[test]
fn add_child_rejects_bad_parents() {
    let mut f = fixture();
    let h = TilingDirection::Horizontal;
    assert_eq!(f.tree.add_child(99, 50, ContainerKind::Split, h, None), Err(TreeError::UnknownContainer));
    assert_eq!(f.tree.add_child(f.a, 50, ContainerKind::TilingWindow, h, None), Err(TreeError::InvalidParent));
    assert_eq!(f.tree.add_child(f.root, 50, ContainerKind::TilingWindow, h, None), Err(TreeError::InvalidParent));
    assert_eq!(f.tree.add_child(f.split, 50, ContainerKind::Workspace, h, None), Err(TreeError::InvalidParent));
    assert_eq!(f.tree.add_child(f.split, 10, ContainerKind::TilingWindow, h, None), Err(TreeError::IdCollision));
    assert_eq!(f.tree.add_detached(3, ContainerKind::Split, h, None), Err(TreeError::IdCollision));
    assert_eq!(f.tree.len(), 7);
}

#[test]
fn flatten_split_moves_children_into_parent() {
    let mut f = fixture();
    let mut effects = Vec::new();
    assert_eq!(flatten_split_container(&mut f.tree, f.split, &mut effects), Ok(()));
    assert_eq!(f.tree.children(f.workspace), &vec![f.a, f.b, f.c]);
    assert_eq!(f.tree.child_focus_order(f.workspace), &vec![10u128, 11, 12]);
    assert_eq!(f.tree.parent(f.a), Some(f.workspace));
    assert_eq!(f.tree.parent(f.b), Some(f.workspace));
    assert_eq!(f.tree.parent(f.split), None);
    assert_eq!(f.tree.child_count(f.split), 0);
    assert_eq!(effects.len(), 1);
    match &effects[0] {
        SizeEffect::Inherit { from, children, evenly } => {
            assert_eq!(*from, f.split);
            assert_eq!(children, &vec![f.a, f.b]);
            assert!(!*evenly);
        },
        _ => panic!("expected an inherit effect"),
    }
}

#[test]
fn flatten_split_without_parent_fails() {
    let mut f = fixture();
    let mut effects = Vec::new();
    let lone = f.tree.add_detached(40, ContainerKind::Split, TilingDirection::Vertical, None).unwrap();
    assert_eq!(flatten_split_container(&mut f.tree, lone, &mut effects), Err(TreeError::NoParent));
    assert!(effects.is_empty());
    assert_eq!(f.tree.len(), 8);
}

#[test]
fn flatten_tiling_gives_direction_container() {
    let mut f = fixture();
    let mut effects = Vec::new();
    assert_eq!(flatten_tiling_container(&mut f.tree, f.split, &mut effects), Ok(f.workspace));
    assert_eq!(f.tree.children(f.workspace), &vec![f.a, f.b, f.c]);
}

#[test]
fn flatten_keeps_focus_order_of_flattened_container() {
    let mut f = fixture();
    let mut effects = Vec::new();
    // focus b, so that the split's focus order is [b, a]
    set_focused_descendant(&mut f.tree, f.b, Some(f.split), &mut effects);
    assert_eq!(f.tree.child_focus_order(f.split), &vec![11u128, 10]);
    effects.clear();
    assert_eq!(flatten_split_container(&mut f.tree, f.split, &mut effects), Ok(()));
    assert_eq!(f.tree.child_focus_order(f.workspace), &vec![11u128, 10, 12]);
    assert_eq!(f.tree.children(f.workspace), &vec![f.a, f.b, f.c]);
}

#[test]
fn detach_window_redistributes_to_siblings() {
    let mut f = fixture();
    let mut effects = Vec::new();
    assert_eq!(detach_container(&mut f.tree, f.c, &mut effects), Ok(()));
    assert_eq!(f.tree.children(f.workspace), &vec![f.split]);
    assert_eq!(f.tree.child_focus_order(f.workspace), &vec![4u128]);
    assert_eq!(f.tree.parent(f.c), None);
    assert_eq!(effects.len(), 1);
    match &effects[0] {
        SizeEffect::Redistribute { removed, siblings } => {
            assert_eq!(*removed, f.c);
            assert_eq!(siblings, &vec![f.split]);
        },
        _ => panic!("expected a redistribute effect"),
    }
}

#[test]
fn detach_last_child_flattens_its_split_first() {
    let mut f = fixture();
    let mut effects = Vec::new();
    assert_eq!(detach_container(&mut f.tree, f.a, &mut effects), Ok(()));
    assert_eq!(detach_container(&mut f.tree, f.b, &mut effects), Ok(()));
    // the split, left with b alone, was flattened before b left
    assert_eq!(f.tree.children(f.workspace), &vec![f.c]);
    assert_eq!(f.tree.parent(f.split), None);
    assert_eq!(f.tree.parent(f.b), None);
    assert_eq!(effects.len(), 3);
    assert!(matches!(effects[1], SizeEffect::Inherit { from, evenly: false, .. } if from == f.split));
    assert!(matches!(effects[2], SizeEffect::Redistribute { removed, .. } if removed == f.b));
}

#[test]
fn detach_without_parent_fails() {
    let mut f = fixture();
    let mut effects = Vec::new();
    assert_eq!(detach_container(&mut f.tree, f.root, &mut effects), Err(TreeError::NoParent));
    assert!(effects.is_empty());
}

#[test]
fn wrap_moves_targets_into_stack() {
    let mut f = fixture();
    let mut effects = Vec::new();
    let stack = StackContainer::new(&mut f.tree, TilingDirection::Vertical, GAPS);
    let s = stack.0;
    assert_eq!(s, 7);
    assert_eq!(f.tree.kind(s), ContainerKind::Stack);
    assert_eq!(f.tree.gaps_config(s), Some(GAPS));
    let sid = f.tree.id(s);
    let targets = vec![f.a, f.b];
    assert_eq!(wrap_in_stack_container(&mut f.tree, s, f.split, &targets, &mut effects), Ok(()));
    assert_eq!(f.tree.children(f.split), &vec![s]);
    assert_eq!(f.tree.child_focus_order(f.split), &vec![sid]);
    assert_eq!(f.tree.children(s), &vec![f.a, f.b]);
    assert_eq!(f.tree.child_focus_order(s), &vec![10u128, 11]);
    assert_eq!(f.tree.parent(s), Some(f.split));
    assert_eq!(f.tree.parent(f.a), Some(s));
    assert!(matches!(&effects[0], SizeEffect::Wrap { stack, children } if *stack == s && *children == vec![f.a, f.b]));
}

#[test]
fn wrap_without_targets_fails() {
    let mut f = fixture();
    let mut effects = Vec::new();
    let s = StackContainer::new(&mut f.tree, TilingDirection::Vertical, GAPS).0;
    assert_eq!(wrap_in_stack_container(&mut f.tree, s, f.split, &vec![], &mut effects), Err(TreeError::NoTargets));
    assert_eq!(f.tree.parent(s), None);
    assert!(effects.is_empty());
}

#[test]
fn wrap_one_of_two_keeps_the_other() {
    let mut f = fixture();
    let mut effects = Vec::new();
    let s = StackContainer::new(&mut f.tree, TilingDirection::Vertical, GAPS).0;
    let sid = f.tree.id(s);
    assert_eq!(wrap_in_stack_container(&mut f.tree, s, f.workspace, &vec![f.c], &mut effects), Ok(()));
    assert_eq!(f.tree.children(f.workspace), &vec![f.split, s]);
    assert_eq!(f.tree.child_focus_order(f.workspace), &vec![4u128, sid]);
    assert_eq!(f.tree.children(s), &vec![f.c]);
}

#[test]
fn focus_moves_path_to_front() {
    let mut f = fixture();
    let mut effects = Vec::new();
    set_focused_descendant(&mut f.tree, f.b, None, &mut effects);
    assert_eq!(f.tree.child_focus_order(f.split), &vec![11u128, 10]);
    // the split already led the workspace's focus order
    assert_eq!(f.tree.child_focus_order(f.workspace), &vec![4u128, 12]);
    assert!(effects.is_empty());
    set_focused_descendant(&mut f.tree, f.c, None, &mut effects);
    assert_eq!(f.tree.child_focus_order(f.workspace), &vec![12u128, 4]);
    assert_eq!(f.tree.child_focus_order(f.split), &vec![11u128, 10]);
}

#[test]
fn focus_stops_at_end_ancestor() {
    let mut f = fixture();
    let mut effects = Vec::new();
    set_focused_descendant(&mut f.tree, f.c, None, &mut effects);
    assert_eq!(f.tree.child_focus_order(f.workspace), &vec![12u128, 4]);
    // b is its own end ancestor, so only its parent's order changes
    set_focused_descendant(&mut f.tree, f.b, Some(f.b), &mut effects);
    assert_eq!(f.tree.child_focus_order(f.split), &vec![11u128, 10]);
    assert_eq!(f.tree.child_focus_order(f.workspace), &vec![12u128, 4]);
}

#[test]
fn focus_in_stack_fills_it() {
    let mut f = fixture();
    let mut effects = Vec::new();
    let s = StackContainer::new(&mut f.tree, TilingDirection::Vertical, GAPS).0;
    wrap_in_stack_container(&mut f.tree, s, f.split, &vec![f.a, f.b], &mut effects).unwrap();
    effects.clear();
    set_focused_descendant(&mut f.tree, f.b, None, &mut effects);
    assert_eq!(f.tree.child_focus_order(s), &vec![11u128, 10]);
    assert_eq!(effects.len(), 1);
    assert!(matches!(effects[0], SizeEffect::Fill { target } if target == f.b));
}

#[test]
fn focus_twice_changes_nothing_more() {
    let mut f = fixture();
    let mut effects = Vec::new();
    set_focused_descendant(&mut f.tree, f.b, None, &mut effects);
    set_focused_descendant(&mut f.tree, f.c, None, &mut effects);
    let split_order = f.tree.child_focus_order(f.split).clone();
    let ws_order = f.tree.child_focus_order(f.workspace).clone();
    set_focused_descendant(&mut f.tree, f.c, None, &mut effects);
    assert_eq!(f.tree.child_focus_order(f.split), &split_order);
    assert_eq!(f.tree.child_focus_order(f.workspace), &ws_order);
    assert_eq!(f.tree.children(f.workspace), &vec![f.split, f.c]);
}

#[test]
fn stack_with_id_takes_it_unless_used() {
    let mut f = fixture();
    assert!(matches!(StackContainer::with_id(&mut f.tree, TilingDirection::Vertical, GAPS, 12), Err(TreeError::IdCollision)));
    assert_eq!(f.tree.len(), 7);
    let s = StackContainer::with_id(&mut f.tree, TilingDirection::Horizontal, GAPS, 77).unwrap().0;
    assert_eq!(s, 7);
    assert_eq!(f.tree.id(s), 77);
    assert_eq!(f.tree.tiling_direction(s), TilingDirection::Horizontal);
    assert_eq!(f.tree.parent(s), None);
}

#[test]
fn flattened_container_is_left_empty() {
    let mut f = fixture();
    let mut effects = Vec::new();
    flatten_tiling_container(&mut f.tree, f.split, &mut effects).unwrap();
    assert_eq!(f.tree.child_count(f.split), 0);
    // its own focus order is kept, as the flattening leaves it
    assert_eq!(f.tree.child_focus_order(f.split), &vec![10u128, 11]);
    assert_eq!(f.tree.parent(f.split), None);
}

#[test]
fn stack_with_used_draw_takes_smallest_free_id() {
    let mut f = fixture();
    // ids 1, 2, 3, 4, 10, 11, 12 are in use; 0 is the smallest free one
    let s = StackContainer::with_fresh_id(&mut f.tree, TilingDirection::Vertical, GAPS, 12).0;
    assert_eq!(f.tree.id(s), 0);
    let t = StackContainer::with_fresh_id(&mut f.tree, TilingDirection::Vertical, GAPS, 4).0;
    assert_eq!(f.tree.id(t), 5);
    let u = StackContainer::with_fresh_id(&mut f.tree, TilingDirection::Vertical, GAPS, 900).0;
    assert_eq!(f.tree.id(u), 900);
    assert_eq!(f.tree.find_by_id(12), Some(f.c));
}
