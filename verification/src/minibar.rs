//! The status bar's layout settings and what a click on one of its buttons
//! asks of the window manager.

use vstd::prelude::*;
use crate::ids::{container_id_text, uuid_text};
use crate::watcher::{WindowStatus, WorkspaceStatus};

verus! {

/// Layout of the bar, in pixels.
pub struct Config {
    pub bar_height: i32,
    pub pad_size: i32,
}

impl Config {
    /// Height of a button: the bar less the padding above and below.
    pub fn box_height(&self) -> (h: i32)
        requires
            i32::MIN <= 2 * self.pad_size <= i32::MAX,
            i32::MIN <= self.bar_height - 2 * self.pad_size <= i32::MAX,
        ensures
            h == self.bar_height - 2 * self.pad_size,
    {
        self.bar_height - 2 * self.pad_size
    }
}

/// The command that focuses the workspace `name`.
pub open spec fn focus_workspace_text(name: Seq<char>) -> Seq<char> {
    "command focus --workspace "@ + name
}

/// The command that focuses the container with the id `id`.
pub open spec fn focus_container_text(id: u128) -> Seq<char> {
    "command focus --container-id "@ + uuid_text(id)
}

/// The command that focuses the workspace `name`.
pub fn focus_workspace_command(name: &String) -> (s: String)
    ensures
        s@ == focus_workspace_text(name@),
{
    let mut s = String::from_str("command focus --workspace ");
    s.append(name.as_str());
    s
}

/// The command that focuses the container with the id `id`.
pub fn focus_container_command(id: u128) -> (s: String)
    ensures
        s@ == focus_container_text(id),
{
    let mut s = String::from_str("command focus --container-id ");
    let text = container_id_text(id);
    s.append(text.as_str());
    s
}

/// What a click sends: a hit workspace button focuses its workspace; else
/// a hit window button focuses its window; else nothing is sent.
pub fn click_command(workspace: Option<&WorkspaceStatus>, window: Option<&WindowStatus>) -> (r: Option<String>)
    ensures
        match (workspace, window) {
            (Some(ws), _) => r matches Some(s) && s@ == focus_workspace_text(ws.name@),
            (None, Some(w)) => r matches Some(s) && s@ == focus_container_text(w.id),
            (None, None) => r is None,
        },
{
    match workspace {
        Some(ws) => Some(focus_workspace_command(&ws.name)),
        None => match window {
            Some(w) => Some(focus_container_command(w.id)),
            None => None,
        },
    }
}

} // verus!
