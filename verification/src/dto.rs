//! What the window manager tells its clients of a container. Ids are UUIDs
//! held as their 128-bit value.

use vstd::prelude::*;
use crate::tree::TilingDirection;

verus! {

/// A monitor, as far as the status bar reads it.
pub struct MonitorDto {
    pub id: u128,
    pub parent_id: Option<u128>,
    pub device_name: String,
}

/// A workspace, as far as the status bar reads it.
pub struct WorkspaceDto {
    pub id: u128,
    pub parent_id: Option<u128>,
    pub name: String,
    pub display_name: Option<String>,
    pub has_focus: bool,
    pub is_displayed: bool,
}

/// A window, as far as the status bar reads it.
pub struct WindowDto {
    pub id: u128,
    pub parent_id: Option<u128>,
    pub title: String,
    pub has_focus: bool,
}

/// A split container.
pub struct SplitContainerDto {
    pub id: u128,
    pub parent_id: Option<u128>,
    pub children: Vec<ContainerDto>,
}

/// A stack container: its children, the monitor it is shown on, and its
/// place on the screen in pixels.
pub struct StackContainerDto {
    pub id: u128,
    pub parent_id: Option<u128>,
    pub children: Vec<ContainerDto>,
    pub device_name: Option<String>,
    pub child_focus_order: Vec<u128>,
    pub has_focus: bool,
    pub width: i32,
    pub height: i32,
    pub x: i32,
    pub y: i32,
    pub tiling_direction: TilingDirection,
    pub switch_provider: Option<u128>,
}

/// A container of any kind.
pub enum ContainerDto {
    Root { id: u128 },
    Monitor(MonitorDto),
    Workspace(WorkspaceDto),
    Split(SplitContainerDto),
    Stack(StackContainerDto),
    Window(WindowDto),
}

} // verus!
