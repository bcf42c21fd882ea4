use wm::dto::{ContainerDto, MonitorDto, StackContainerDto, WindowDto, WorkspaceDto};
use wm::ipc::WmEvent;
use wm::tree::TilingDirection;
use wm::watcher::{
    on_watch_event, truncate_title, MinibarCommand, ServiceState, StackRecord, WatchAction,
    WorkspaceStatus,
};

fn workspace(name: &str, display: Option<&str>, parent: Option<u128>, shown: bool) -> WorkspaceDto {
    WorkspaceDto {
        id: 0,
        parent_id: parent,
        name: name.to_string(),
        display_name: display.map(|d| d.to_string()),
        has_focus: false,
        is_displayed: shown,
    }
}

fn window(id: u128, parent: Option<u128>, title: &str, focus: bool) -> ContainerDto {
    ContainerDto::Window(WindowDto { id, parent_id: parent, title: title.to_string(), has_focus: focus })
}

fn stack(id: u128, device: Option<&str>, children: Vec<ContainerDto>) -> ContainerDto {
    ContainerDto::Stack(StackContainerDto {
        id,
        parent_id: None,
        children,
        device_name: device.map(|d| d.to_string()),
        child_focus_order: vec![],
        has_focus: false,
        width: 100,
        height: 50,
        x: 0,
        y: 0,
        tiling_direction: TilingDirection::Vertical,
        switch_provider: None,
    })
}

#[test]
fn fullname_joins_display_name() {
    let plain = WorkspaceStatus { name: "1".to_string(), display_name: None, activated: true };
    assert_eq!(plain.fullname(), "1");
    let named = WorkspaceStatus { name: "2".to_string(), display_name: Some("web".to_string()), activated: false };
    assert_eq!(named.fullname(), "2:web");
    let empty = WorkspaceStatus { name: "3".to_string(), display_name: Some(String::new()), activated: false };
    assert_eq!(empty.fullname(), "3:");
}

#[test]
fn short_titles_stay() {
    assert_eq!(truncate_title(""), "");
    assert_eq!(truncate_title("Terminal"), "Terminal");
    assert_eq!(truncate_title("exactly twenty bytes"), "exactly twenty bytes");
}

#[test]
fn long_titles_are_cut() {
    assert_eq!(truncate_title("exactly twenty bytes!"), "exactly twenty by...");
    assert_eq!(truncate_title("Mozilla Firefox - a very long page title"), "Mozilla Firefox -...");
}

#[test]
fn long_titles_cut_by_characters() {
    // 18 ASCII bytes and a two-byte character end at byte 20
    let title = "abcdefghijklmnopqré and more";
    assert_eq!(truncate_title(title), "abcdefghijklmnop...");
}

#[test]
fn current_workspaces_keeps_this_monitor() {
    let mut s = ServiceState::new();
    assert!(s.current_workspaces().is_empty());
    s.workspaces = vec![
        workspace("1", None, Some(7), true),
        workspace("2", Some("web"), Some(8), false),
        workspace("3", Some("mail"), Some(7), false),
        workspace("4", None, None, false),
    ];
    // no monitor known: only the workspaces without a parent
    let lone = s.current_workspaces();
    assert_eq!(lone.len(), 1);
    assert_eq!(lone[0].name, "4");
    s.monitor = Some(MonitorDto { id: 7, parent_id: None, device_name: "DISPLAY1".to_string() });
    assert_eq!(s.monitor_id(), Some(7));
    let shown = s.current_workspaces();
    assert_eq!(shown.len(), 2);
    assert_eq!(shown[0].name, "1");
    assert!(shown[0].activated);
    assert_eq!(shown[1].fullname(), "3:mail");
    assert!(!shown[1].activated);
}

#[test]
fn current_windows_of_focused_stack() {
    let mut s = ServiceState::new();
    s.stack = StackRecord {
        id: Some(5),
        children: vec![
            window(20, Some(5), "Editor", true),
            stack(21, None, vec![]),
            window(22, Some(5), "A window with a long title", false),
        ],
    };
    let ws = s.current_windows();
    assert_eq!(ws.len(), 2);
    assert_eq!(ws[0].title, "Editor");
    assert!(ws[0].activated);
    assert_eq!(ws[0].id, 20);
    assert_eq!(ws[1].title, "A window with a l...");
    assert_eq!(ws[1].id, 22);
    s.stack.clear();
    assert!(s.stack.windows().is_none());
    assert!(s.current_windows().is_empty());
}

#[test]
fn workspace_events_refresh() {
    let mut rec = StackRecord { id: Some(1), children: vec![] };
    let dev = "DISPLAY1".to_string();
    let e = WmEvent::WorkspaceActivated { activated_workspace: ContainerDto::Root { id: 0 } };
    assert!(matches!(on_watch_event(&mut rec, Some(e), &dev), WatchAction::Refresh));
    let e = WmEvent::WorkspaceUpdated { updated_workspace: ContainerDto::Root { id: 0 } };
    assert!(matches!(on_watch_event(&mut rec, Some(e), &dev), WatchAction::Refresh));
    assert_eq!(rec.id, Some(1));
}

#[test]
fn focus_outside_stack_forgets_it() {
    let mut rec = StackRecord { id: Some(1), children: vec![window(9, Some(1), "x", true)] };
    let dev = "DISPLAY1".to_string();
    let inside = WmEvent::FocusChanged { focused_container: window(9, Some(1), "x", true) };
    assert!(matches!(on_watch_event(&mut rec, Some(inside), &dev), WatchAction::Refresh));
    assert_eq!(rec.id, Some(1));
    let outside = WmEvent::FocusChanged { focused_container: window(10, Some(2), "y", true) };
    assert!(matches!(on_watch_event(&mut rec, Some(outside), &dev), WatchAction::Refresh));
    assert_eq!(rec.id, None);
    assert_eq!(rec.children.len(), 1);
}

#[test]
fn stack_focus_on_this_monitor_is_recorded() {
    let mut rec = StackRecord { id: None, children: vec![] };
    let dev = "DISPLAY1".to_string();
    let other = WmEvent::StackFocusChanged { stack_container: stack(3, Some("DISPLAY2"), vec![]) };
    assert!(matches!(on_watch_event(&mut rec, Some(other), &dev), WatchAction::Skip));
    assert_eq!(rec.id, None);
    let nameless = WmEvent::StackFocusChanged { stack_container: stack(3, None, vec![]) };
    assert!(matches!(on_watch_event(&mut rec, Some(nameless), &dev), WatchAction::Skip));
    let here = WmEvent::StackFocusChanged {
        stack_container: stack(4, Some("DISPLAY1"), vec![window(30, Some(4), "t", false)]),
    };
    assert!(matches!(on_watch_event(&mut rec, Some(here), &dev), WatchAction::Repaint));
    assert_eq!(rec.id, Some(4));
    assert_eq!(rec.children.len(), 1);
}

#[test]
fn closed_subscription_reconnects() {
    let mut rec = StackRecord { id: Some(1), children: vec![] };
    let dev = "DISPLAY1".to_string();
    assert!(matches!(on_watch_event(&mut rec, None, &dev), WatchAction::Reconnect));
    assert!(matches!(on_watch_event(&mut rec, Some(WmEvent::Other), &dev), WatchAction::Skip));
    assert_eq!(rec.id, Some(1));
}

#[test]
fn minibar_commands() {
    let raw = MinibarCommand::Raw("query monitors".to_string());
    assert!(matches!(raw, MinibarCommand::Raw(ref s) if s == "query monitors"));
    assert!(matches!(MinibarCommand::GetWorkspaces, MinibarCommand::GetWorkspaces));
}

#[test]
fn focused_stack_is_shown_until_focus_leaves() {
    let mut s = ServiceState::new();
    let dev = "DISPLAY1".to_string();
    let here = WmEvent::StackFocusChanged {
        stack_container: stack(4, Some("DISPLAY1"), vec![window(30, Some(4), "one", true), window(31, Some(4), "two", false)]),
    };
    assert!(matches!(on_watch_event(&mut s.stack, Some(here), &dev), WatchAction::Repaint));
    let shown = s.current_windows();
    assert_eq!(shown.len(), 2);
    assert_eq!(shown[1].title, "two");
    let inside = WmEvent::FocusChanged { focused_container: window(31, Some(4), "two", true) };
    on_watch_event(&mut s.stack, Some(inside), &dev);
    assert_eq!(s.current_windows().len(), 2);
    let away = WmEvent::FocusChanged { focused_container: window(40, Some(9), "other", true) };
    on_watch_event(&mut s.stack, Some(away), &dev);
    assert!(s.current_windows().is_empty());
}
