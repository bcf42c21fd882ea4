//! The window manager's state as the commands see it: the container tree,
//! the containers waiting to be redrawn, and the channel of the `hear`
//! subscribers.

use vstd::prelude::*;
use tokio::sync::broadcast::Sender;
use crate::tree::{ContainerTree, GapsConfig, TreeError};
use crate::tree::commands::{
    toggle_window_stack, toggle_window_stack_with_id, window_stack_toggled, wraps_with_id, SizeEffect,
};

verus! {

#[verifier::external_type_specification]
#[verifier::external_body]
#[verifier::reject_recursive_types(T)]
pub struct ExBroadcastSender<T>(tokio::sync::broadcast::Sender<T>);

/// The user's configuration, as far as the commands read it.
pub struct UserConfig {
    pub gaps: GapsConfig,
}

pub struct WmState {
    pub tree: ContainerTree,
    /// Direction containers waiting to be redrawn, oldest first.
    pub pending_redraw: Vec<usize>,
    /// Sends words to the `hear` subscribers.
    pub word_tx: Sender<String>,
}

impl WmState {
    pub fn new(tree: ContainerTree, word_tx: Sender<String>) -> (s: Self)
        ensures
            s.tree == tree,
            s.pending_redraw@.len() == 0,
            s.word_tx == word_tx,
    {
        WmState { tree, pending_redraw: Vec::new(), word_tx }
    }
}

/// `tokio::sync::broadcast::Sender::send`: hands `word` to every receiver
/// subscribed now and gives their number, or gives 0 (and drops the word)
/// when there is none. How many are subscribed is the channel's state, so
/// nothing is said of the number.
#[verifier::external_body]
fn broadcast_word(tx: &Sender<String>, word: String) -> usize {
    match tx.send(word) {
        Ok(n) => n,
        Err(_) => 0,
    }
}

/// Broadcasts a single word to all active `hear` subscribers.
///
/// The word is dropped silently when there are no subscribers.
pub fn say(word: String, state: &WmState) {
    let _ = broadcast_word(&state.word_tx, word);
}

/// Toggles the stack around a tiling window (see
/// `window_stack_toggled`) and queues the direction container it gives for
/// redrawing; does nothing for other containers.
pub fn toggle_stack(
    container: usize,
    state: &mut WmState,
    config: &UserConfig,
    effects: &mut Vec<SizeEffect>,
) -> (r: Result<(), TreeError>)
    requires
        old(state).tree.wf(),
        old(state).tree.valid(container as int),
    ensures
        final(state).tree.wf(),
        final(state).word_tx == old(state).word_tx,
        !(old(state).tree@[container as int].kind is TilingWindow) ==> {
            &&& r == Ok::<(), TreeError>(())
            &&& final(state).tree == old(state).tree
            &&& final(state).pending_redraw@ == old(state).pending_redraw@
            &&& final(effects)@ == old(effects)@
        },
        old(state).tree@[container as int].kind is TilingWindow ==> exists|res: Result<usize, TreeError>|
            #[trigger] window_stack_toggled(
                old(state).tree,
                final(state).tree,
                old(effects)@,
                final(effects)@,
                container,
                config.gaps,
                res,
            ) && match res {
                Ok(d) => r == Ok::<(), TreeError>(()) && final(state).pending_redraw@ == old(
                    state,
                ).pending_redraw@.push(d),
                Err(e) => r == Err::<(), TreeError>(e) && final(state).pending_redraw@ == old(
                    state,
                ).pending_redraw@,
            },
{
    if !matches!(state.tree.kind(container), crate::tree::ContainerKind::TilingWindow) {
        return Ok(());
    }
    let res = toggle_window_stack(&mut state.tree, container, config.gaps, effects);
    queue_redraw(state, res)
}

/// Queues the direction container that a toggle gave for redrawing.
fn queue_redraw(state: &mut WmState, res: Result<usize, TreeError>) -> (r: Result<(), TreeError>)
    ensures
        final(state).tree == old(state).tree,
        final(state).word_tx == old(state).word_tx,
        match res {
            Ok(d) => r == Ok::<(), TreeError>(()) && final(state).pending_redraw@ == old(
                state,
            ).pending_redraw@.push(d),
            Err(e) => r == Err::<(), TreeError>(e) && final(state).pending_redraw@ == old(
                state,
            ).pending_redraw@,
        },
{
    match res {
        Ok(d) => {
            state.pending_redraw.push(d);
            Ok(())
        },
        Err(e) => Err(e),
    }
}

/// `toggle_stack` with `id` drawn for the stack it may make: on a tiling
/// window whose parent is no stack, the new stack has the id `id` when that
/// is free, and otherwise the smallest free id.
pub fn toggle_stack_with_id(
    container: usize,
    state: &mut WmState,
    config: &UserConfig,
    id: u128,
    effects: &mut Vec<SizeEffect>,
) -> (r: Result<(), TreeError>)
    requires
        old(state).tree.wf(),
        old(state).tree.valid(container as int),
    ensures
        final(state).tree.wf(),
        final(state).word_tx == old(state).word_tx,
        !(old(state).tree@[container as int].kind is TilingWindow) ==> {
            &&& r == Ok::<(), TreeError>(())
            &&& final(state).tree == old(state).tree
            &&& final(state).pending_redraw@ == old(state).pending_redraw@
            &&& final(effects)@ == old(effects)@
        },
        old(state).tree@[container as int].kind is TilingWindow ==> exists|res: Result<usize, TreeError>|
            #[trigger] window_stack_toggled(
                old(state).tree,
                final(state).tree,
                old(effects)@,
                final(effects)@,
                container,
                config.gaps,
                res,
            ) && wraps_with_id(old(state).tree@, final(state).tree@, container, id) && match res {
                Ok(d) => r == Ok::<(), TreeError>(()) && final(state).pending_redraw@ == old(
                    state,
                ).pending_redraw@.push(d),
                Err(e) => r == Err::<(), TreeError>(e) && final(state).pending_redraw@ == old(
                    state,
                ).pending_redraw@,
            },
{
    if !matches!(state.tree.kind(container), crate::tree::ContainerKind::TilingWindow) {
        return Ok(());
    }
    let res = toggle_window_stack_with_id(&mut state.tree, container, config.gaps, id, effects);
    queue_redraw(state, res)
}

} // verus!
