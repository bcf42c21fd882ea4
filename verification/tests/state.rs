use tokio::sync::broadcast;
use wm::state::{say, toggle_stack, toggle_stack_with_id, UserConfig, WmState};
use wm::tree::commands::{wrap_in_stack_container, SizeEffect};
use wm::tree::{ContainerKind, ContainerTree, GapsConfig, TilingDirection, TreeError};

const GAPS: GapsConfig = GapsConfig { scale_with_dpi: true, inner_gap: 2, outer_gap: 6 };

/// workspace > [a, b], as indices 0, 1, 2.
fn state() -> (WmState, broadcast::Receiver<String>) {
    let mut tree = ContainerTree::new();
    let h = TilingDirection::Horizontal;
    let ws = tree.add_detached(100, ContainerKind::Workspace, h, Some(GAPS)).unwrap();
    tree.add_child(ws, 101, ContainerKind::TilingWindow, h, None).unwrap();
    tree.add_child(ws, 102, ContainerKind::TilingWindow, h, None).unwrap();
    let (tx, rx) = broadcast::channel(8);
    (WmState::new(tree, tx), rx)
}

#[test]
fn say_reaches_subscribers() {
    let (state, mut rx) = state();
    say("hello".to_string(), &state);
    assert_eq!(rx.try_recv().unwrap(), "hello");
}

#[test]
fn say_without_subscribers_is_dropped() {
    let (state, rx) = state();
    drop(rx);
    say("nobody".to_string(), &state);
    assert_eq!(state.tree.len(), 3);
}

#[test]
fn toggle_stack_wraps_window() {
    let (mut state, _rx) = state();
    let config = UserConfig { gaps: GAPS };
    let mut effects = Vec::new();
    assert_eq!(toggle_stack(1, &mut state, &config, &mut effects), Ok(()));
    assert_eq!(state.tree.len(), 4);
    assert_eq!(state.tree.kind(3), ContainerKind::Stack);
    assert_eq!(state.tree.tiling_direction(3), TilingDirection::Vertical);
    assert_eq!(state.tree.gaps_config(3), Some(GAPS));
    assert_eq!(state.tree.children(0), &vec![3, 2]);
    assert_eq!(state.tree.children(3), &vec![1]);
    assert_eq!(state.tree.parent(1), Some(3));
    assert_eq!(state.pending_redraw, vec![3]);
    assert!(matches!(&effects[0], SizeEffect::Wrap { stack: 3, children } if *children == vec![1]));
}

#[test]
fn toggle_stack_twice_restores_tree() {
    let (mut state, _rx) = state();
    let config = UserConfig { gaps: GAPS };
    let mut effects = Vec::new();
    let children = state.tree.children(0).clone();
    let focus = state.tree.child_focus_order(0).clone();
    toggle_stack(1, &mut state, &config, &mut effects).unwrap();
    toggle_stack(1, &mut state, &config, &mut effects).unwrap();
    assert_eq!(state.tree.children(0), &children);
    assert_eq!(state.tree.child_focus_order(0), &focus);
    assert_eq!(state.tree.parent(1), Some(0));
    assert_eq!(state.tree.parent(3), None);
    assert_eq!(state.tree.child_count(3), 0);
    // the second toggle redraws the window's parent
    assert_eq!(state.pending_redraw, vec![3, 0]);
    assert!(matches!(&effects[1], SizeEffect::Inherit { from: 3, evenly: true, .. }));
}

#[test]
fn toggle_stack_ignores_other_containers() {
    let (mut state, _rx) = state();
    let config = UserConfig { gaps: GAPS };
    let mut effects = Vec::new();
    assert_eq!(toggle_stack(0, &mut state, &config, &mut effects), Ok(()));
    assert_eq!(state.tree.len(), 3);
    assert!(state.pending_redraw.is_empty());
    assert!(effects.is_empty());
}

#[test]
fn toggle_stack_on_detached_window_fails() {
    let (mut state, _rx) = state();
    let config = UserConfig { gaps: GAPS };
    let mut effects = Vec::new();
    let w = state.tree.add_detached(200, ContainerKind::TilingWindow, TilingDirection::Horizontal, None).unwrap();
    assert_eq!(toggle_stack(w, &mut state, &config, &mut effects), Err(TreeError::NoDirectionContainer));
    assert!(state.pending_redraw.is_empty());
}

#[test]
fn toggle_stack_with_id_uses_the_id() {
    let (mut state, _rx) = state();
    let config = UserConfig { gaps: GAPS };
    let mut effects = Vec::new();
    assert_eq!(toggle_stack_with_id(2, &mut state, &config, 500, &mut effects), Ok(()));
    assert_eq!(state.tree.id(3), 500);
    assert_eq!(state.tree.children(0), &vec![1, 3]);
    assert_eq!(state.tree.child_focus_order(0), &vec![101u128, 500]);
}

#[test]
fn toggle_stack_with_used_id_still_wraps() {
    let (mut state, _rx) = state();
    let config = UserConfig { gaps: GAPS };
    let mut effects = Vec::new();
    // 102 is taken, so the new stack gets the smallest free id, 0
    assert_eq!(toggle_stack_with_id(1, &mut state, &config, 102, &mut effects), Ok(()));
    assert_eq!(state.tree.len(), 4);
    assert_eq!(state.tree.id(3), 0);
    assert_eq!(state.tree.children(0), &vec![3, 2]);
    assert_eq!(state.tree.children(3), &vec![1]);
    assert_eq!(state.pending_redraw, vec![3]);
}

#[test]
fn toggle_stack_with_id_in_a_stack_ignores_the_id() {
    let (mut state, _rx) = state();
    let config = UserConfig { gaps: GAPS };
    let mut effects = Vec::new();
    toggle_stack_with_id(1, &mut state, &config, 500, &mut effects).unwrap();
    // the window now sits in a stack: toggling flattens it, whatever the id
    assert_eq!(toggle_stack_with_id(1, &mut state, &config, 100, &mut effects), Ok(()));
    assert_eq!(state.tree.parent(1), Some(0));
    assert_eq!(state.pending_redraw, vec![3, 0]);
}

#[test]
fn unstacked_stack_can_wrap_again() {
    let (mut state, _rx) = state();
    let config = UserConfig { gaps: GAPS };
    let mut effects = Vec::new();
    toggle_stack(1, &mut state, &config, &mut effects).unwrap();
    toggle_stack(1, &mut state, &config, &mut effects).unwrap();
    // the stack is left without children but keeps its old focus order
    assert_eq!(state.tree.child_count(3), 0);
    assert_eq!(state.tree.child_focus_order(3), &vec![101u128]);
    let sid = state.tree.id(3);
    assert_eq!(wrap_in_stack_container(&mut state.tree, 3, 0, &vec![2], &mut effects), Ok(()));
    assert_eq!(state.tree.children(3), &vec![2]);
    assert_eq!(state.tree.child_focus_order(3), &vec![102u128]);
    assert_eq!(state.tree.children(0), &vec![1, 3]);
    assert_eq!(state.tree.child_focus_order(0), &vec![101u128, sid]);
}
