use wm::minibar::{click_command, focus_container_command, focus_workspace_command, Config};
use wm::platform::{
    appbar_request, device_name, font_family, lparam_as_xy, message_action, monitor_info,
    tray_menu_requested, tray_tip, MessageAction, Rect, APPBAR_HEIGHT, DEFAULT_DPI, TIP_LEN,
    WM_CREATE, WM_DESTROY, WM_LBUTTONDOWN, WM_LBUTTONUP, WM_PAINT, WM_RBUTTONUP, WM_SIZE,
    WM_TRAY_CALLBACK,
};
use wm::watcher::{WindowStatus, WorkspaceStatus};

#[test]
fn lparam_splits_into_words() {
    assert_eq!(lparam_as_xy(0x0012_0034), (0x34, 0x12));
    assert_eq!(lparam_as_xy(0), (0, 0));
    assert_eq!(lparam_as_xy(0x7abc_1234), (0x1234, 0x7abc));
    assert_eq!(lparam_as_xy(0x1000_0005), (5, 4096));
    assert_eq!(lparam_as_xy(-1), (0xffff, 0xffff));
}

#[test]
fn messages_are_dispatched() {
    assert!(matches!(message_action(WM_SIZE, 0x1000_0005), MessageAction::Resize { width: 5, height: 4096 }));
    assert!(matches!(message_action(WM_CREATE, 0), MessageAction::Create));
    assert!(matches!(message_action(WM_SIZE, 0x001e_0780), MessageAction::Resize { width: 1920, height: 30 }));
    assert!(matches!(message_action(WM_PAINT, 0), MessageAction::Paint));
    assert!(matches!(message_action(WM_LBUTTONDOWN, 0x000a_0064), MessageAction::Click { x: 100, y: 10 }));
    assert!(matches!(message_action(WM_DESTROY, 0), MessageAction::Destroy));
    assert!(matches!(message_action(0x0084, 0), MessageAction::Unhandled));
    assert_eq!(WM_TRAY_CALLBACK, 0x8001);
}

#[test]
fn tray_menu_opens_on_button_release() {
    assert!(tray_menu_requested(WM_RBUTTONUP as isize));
    assert!(tray_menu_requested(WM_LBUTTONUP as isize));
    assert!(tray_menu_requested(0x0001_0000 + WM_LBUTTONUP as isize));
    assert!(!tray_menu_requested(0x0200));
    assert!(!tray_menu_requested(0x0201));
}

#[test]
fn tray_tip_fills_buffer() {
    let buf = tray_tip("minibar");
    assert_eq!(buf.len(), TIP_LEN);
    let expected: Vec<u16> = "minibar".encode_utf16().collect();
    assert_eq!(&buf[..7], &expected[..]);
    assert!(buf[7..].iter().all(|&u| u == 0));
}

#[test]
fn tray_tip_stops_at_nul_and_encodes_pairs() {
    let buf = tray_tip("a\u{1F600}b\0hidden");
    assert_eq!(&buf[..5], &[0x61, 0xD83D, 0xDE00, 0x62, 0]);
    assert!(buf[5..].iter().all(|&u| u == 0));
}

#[test]
fn tray_tip_is_cut_to_buffer() {
    let long = "x".repeat(200);
    let buf = tray_tip(&long);
    assert_eq!(buf.len(), TIP_LEN);
    // room is left for the terminating nul
    assert!(buf[..TIP_LEN - 1].iter().all(|&u| u == 'x' as u16));
    assert_eq!(buf[TIP_LEN - 1], 0);
}

#[test]
fn rect_geometry() {
    let r = appbar_request(1920, APPBAR_HEIGHT);
    assert_eq!(r, Rect { left: 0, top: 0, right: 1920, bottom: 30 });
    let moved = Rect { left: -1920, top: 10, right: 0, bottom: 40 };
    assert_eq!(moved.placement(), (-1920, 10, 1920, 30));
    assert_eq!(moved.pixel_size(), (1920, 30));
    let flipped = Rect { left: 5, top: 0, right: 3, bottom: 1 };
    assert_eq!(flipped.pixel_size(), (u32::MAX - 1, 1));
}

#[test]
fn font_falls_back() {
    assert_eq!(font_family(true), "JetBrains Mono");
    assert_eq!(font_family(false), "Consolas");
}

#[test]
fn device_names_are_trimmed() {
    let mut raw = [0u8; 32];
    raw[..12].copy_from_slice(b"\\\\.\\DISPLAY1");
    assert_eq!(device_name(&raw), "\\\\.\\DISPLAY1");
    assert_eq!(device_name(&[0u8; 32]), "");
    let bad = [0x41u8, 0xff, 0x42, 0, 0];
    assert_eq!(device_name(&bad), "A\u{FFFD}B");
}

#[test]
fn monitor_info_defaults_dpi() {
    let mut raw = [0u8; 32];
    raw[..2].copy_from_slice(b"M1");
    let rect = Rect { left: 0, top: 0, right: 2560, bottom: 1440 };
    let m = monitor_info(Some(rect), &raw, Some(144)).unwrap();
    assert_eq!(m.rect, rect);
    assert_eq!(m.dev_name, "M1");
    assert_eq!(m.dpi, 144);
    assert_eq!(monitor_info(Some(rect), &raw, None).unwrap().dpi, DEFAULT_DPI);
    assert!(monitor_info(None, &raw, Some(144)).is_none());
}

#[test]
fn config_box_height() {
    let c = Config { bar_height: 30, pad_size: 5 };
    assert_eq!(c.box_height(), 20);
}

#[test]
fn click_commands() {
    let ws = WorkspaceStatus { name: "3".to_string(), display_name: Some("mail".to_string()), activated: false };
    let win = WindowStatus { title: "t".to_string(), activated: true, id: 0x67e5_5044_10b1_426f_9247_bb68_0e5f_e0c8 };
    assert_eq!(focus_workspace_command(&ws.name), "command focus --workspace 3");
    assert_eq!(
        focus_container_command(win.id),
        "command focus --container-id 67e55044-10b1-426f-9247-bb680e5fe0c8"
    );
    assert_eq!(click_command(Some(&ws), Some(&win)).unwrap(), "command focus --workspace 3");
    assert_eq!(
        click_command(None, Some(&win)).unwrap(),
        "command focus --container-id 67e55044-10b1-426f-9247-bb680e5fe0c8"
    );
    assert!(click_command(None, None).is_none());
}
