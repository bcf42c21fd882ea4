//! What the status bar keeps of the window manager's state, and how it
//! answers the events it subscribes to.

use vstd::prelude::*;
use vstd::string::StringSliceAdditionalSpecFns;
use vstd::utf8::{decode_utf8, encode_utf8, is_char_boundary};
use crate::dto::{ContainerDto, MonitorDto, StackContainerDto, WindowDto, WorkspaceDto};
use crate::ipc::WmEvent;

verus! {

/// A workspace button of the status bar.
pub struct WorkspaceStatus {
    pub name: String,
    pub display_name: Option<String>,
    pub activated: bool,
}

impl WorkspaceStatus {
    /// The label of the button: the name, and the display name after a
    /// colon when there is one.
    pub open spec fn spec_fullname(&self) -> Seq<char> {
        match self.display_name {
            Some(dn) => self.name@ + seq![':'] + dn@,
            None => self.name@,
        }
    }

    /// The label of the button: the name, and the display name after a
    /// colon when there is one.
    pub fn fullname(&self) -> (s: String)
        ensures
            s@ == self.spec_fullname(),
    {
        match &self.display_name {
            Some(dn) => {
                let mut s = self.name.clone();
                let colon = ":";
                proof {
                    reveal_strlit(":");
                }
                s.append(colon);
                s.append(dn.as_str());
                s
            },
            None => self.name.clone(),
        }
    }
}

/// A button's label starts with the workspace's name; with a display name
/// it continues with a colon and ends with the display name, and without
/// one it is the name alone.
pub proof fn lemma_fullname(ws: WorkspaceStatus)
    ensures
        ws.spec_fullname().take(ws.name@.len() as int) == ws.name@,
        ws.display_name is None ==> ws.spec_fullname() == ws.name@,
        ws.display_name matches Some(dn) ==> ws.spec_fullname().len() == ws.name@.len() + 1 + dn@.len()
            && ws.spec_fullname()[ws.name@.len() as int] == ':' && ws.spec_fullname().skip(
            (ws.name@.len() + 1) as int,
        ) == dn@,
{
    let f = ws.spec_fullname();
    assert(f.take(ws.name@.len() as int) =~= ws.name@);
    if let Some(dn) = ws.display_name {
        assert(f.skip((ws.name@.len() + 1) as int) =~= dn@);
    }
}

/// A window button of the status bar.
pub struct WindowStatus {
    pub title: String,
    pub activated: bool,
    pub id: u128,
}

/// A command for the status bar's connection to the window manager.
pub enum MinibarCommand {
    /// Send this message as it is.
    Raw(String),
    /// Ask for the workspaces again.
    GetWorkspaces,
}

/// The stack last focused on this bar's monitor, with its children; `id`
/// is `None` once focus has left it.
pub struct StackRecord {
    pub id: Option<u128>,
    pub children: Vec<ContainerDto>,
}

impl StackRecord {
    pub fn clear(&mut self)
        ensures
            final(self).id is None,
            final(self).children@ == old(self).children@,
    {
        self.id = None;
    }

    /// The children of the recorded stack, while focus is in it.
    pub fn windows(&self) -> (r: Option<&Vec<ContainerDto>>)
        ensures
            match self.id {
                Some(_) => r == Some(&self.children),
                None => r is None,
            },
    {
        match self.id {
            Some(_) => Some(&self.children),
            None => None,
        }
    }
}

/// Window titles longer than this many bytes are shortened.
pub const TITLE_MAX_BYTES: usize = 20;

/// A title can be shortened: it is short, or its first 20 bytes end on a
/// character boundary (and its length in bytes fits in `usize`).
pub open spec fn title_fits(title: Seq<char>) -> bool {
    let bytes = encode_utf8(title);
    &&& bytes.len() <= usize::MAX
    &&& bytes.len() <= TITLE_MAX_BYTES || is_char_boundary(bytes, TITLE_MAX_BYTES as int)
}

/// A title of at most 20 bytes as it is; a longer one cut to its first 20
/// bytes, less its last three characters, with `...` after it.
pub open spec fn truncated_title(title: Seq<char>) -> Seq<char> {
    let bytes = encode_utf8(title);
    if bytes.len() <= TITLE_MAX_BYTES {
        title
    } else {
        let head = decode_utf8(bytes.take(TITLE_MAX_BYTES as int));
        head.take(if head.len() >= 3 { head.len() - 3 } else { 0 }) + seq!['.', '.', '.']
    }
}

/// A title of at most 20 bytes is kept whole; a longer one becomes a
/// proper beginning of itself followed by `...`.
pub proof fn lemma_truncated_title(title: Seq<char>)
    requires
        title_fits(title),
    ensures
        encode_utf8(title).len() <= TITLE_MAX_BYTES ==> truncated_title(title) == title,
        encode_utf8(title).len() > TITLE_MAX_BYTES ==> {
            let r = truncated_title(title);
            &&& r.len() >= 3
            &&& r.skip(r.len() - 3) == seq!['.', '.', '.']
            &&& r.take(r.len() - 3).is_prefix_of(title)
            &&& r.len() - 3 < title.len()
        },
{
    let bytes = encode_utf8(title);
    if bytes.len() > TITLE_MAX_BYTES {
        vstd::utf8::encode_utf8_valid_utf8(title);
        vstd::utf8::encode_utf8_decode_utf8(title);
        vstd::utf8::decode_utf8_split(bytes, TITLE_MAX_BYTES as int);
        let head = decode_utf8(bytes.take(TITLE_MAX_BYTES as int));
        let tail = decode_utf8(bytes.subrange(TITLE_MAX_BYTES as int, bytes.len() as int));
        assert(bytes.take(TITLE_MAX_BYTES as int) == bytes.subrange(0, TITLE_MAX_BYTES as int));
        assert(title == head + tail);
        let keep = if head.len() >= 3 { head.len() - 3 } else { 0 };
        let r = truncated_title(title);
        assert(r == head.take(keep) + seq!['.', '.', '.']);
        assert(r.take(r.len() - 3) =~= head.take(keep));
        assert(r.skip(r.len() - 3) =~= seq!['.', '.', '.']);
        assert(head.take(keep) =~= title.subrange(0, keep as int));
        assert(title.len() > 0) by {
            if title.len() == 0 {
                assert(encode_utf8(title) == Seq::<u8>::empty());
            }
        }
    }
}

/// Shortens a window title for its button.
pub fn truncate_title(src: &str) -> (s: String)
    requires
        title_fits(src@),
    ensures
        s@ == truncated_title(src@),
{
    let n = src.len();
    if n <= TITLE_MAX_BYTES {
        return src.to_owned();
    }
    let (head, _) = src.split_at(TITLE_MAX_BYTES);
    proof {
        vstd::utf8::encode_utf8_decode_utf8(head@);
        assert(head.spec_bytes() =~= src.spec_bytes().take(TITLE_MAX_BYTES as int));
    }
    let chars = head.unicode_len();
    let keep = if chars >= 3 {
        chars - 3
    } else {
        0
    };
    let mut s = head.substring_char(0, keep).to_owned();
    let dots = "...";
    proof {
        reveal_strlit("...");
    }
    s.append(dots);
    s
}

/// The button of a workspace.
pub open spec fn workspace_status(w: WorkspaceDto) -> WorkspaceStatus {
    WorkspaceStatus { name: w.name, display_name: w.display_name, activated: w.is_displayed }
}

/// The buttons of the workspaces of `ws` on the monitor `monitor`, in order.
pub open spec fn workspaces_on(ws: Seq<WorkspaceDto>, monitor: Option<u128>) -> Seq<WorkspaceStatus>
    decreases ws.len(),
{
    if ws.len() == 0 {
        Seq::empty()
    } else {
        let rest = workspaces_on(ws.drop_last(), monitor);
        if ws.last().parent_id == monitor {
            rest.push(workspace_status(ws.last()))
        } else {
            rest
        }
    }
}

/// The workspace buttons of a list are one per workspace on the monitor,
/// in the order of the list: the button of the workspace at position `i`
/// comes after those of the workspaces on the monitor before it, and shows
/// that workspace's name and display name, active exactly when the
/// workspace is displayed.
pub proof fn lemma_workspaces_on(ws: Seq<WorkspaceDto>, monitor: Option<u128>)
    ensures
        workspaces_on(ws, monitor).len() == ws.filter(|w: WorkspaceDto| w.parent_id == monitor).len(),
        forall|i: int|
            0 <= i < ws.len() && (#[trigger] ws[i]).parent_id == monitor ==> workspaces_on(ws, monitor)[ws.take(
                i,
            ).filter(|w: WorkspaceDto| w.parent_id == monitor).len() as int] == (WorkspaceStatus {
                name: ws[i].name,
                display_name: ws[i].display_name,
                activated: ws[i].is_displayed,
            }),
    decreases ws.len(),
{
    let p = |w: WorkspaceDto| w.parent_id == monitor;
    if ws.len() > 0 {
        let r = ws.drop_last();
        lemma_workspaces_on(r, monitor);
        assert(ws =~= r.push(ws.last()));
        r.lemma_filter_push(ws.last(), p);
        assert forall|i: int| 0 <= i < ws.len() && (#[trigger] ws[i]).parent_id == monitor implies workspaces_on(
            ws,
            monitor,
        )[ws.take(i).filter(p).len() as int] == (WorkspaceStatus {
            name: ws[i].name,
            display_name: ws[i].display_name,
            activated: ws[i].is_displayed,
        }) by {
            if i < r.len() {
                assert(ws.take(i) =~= r.take(i));
                assert(r[i] == ws[i]);
                crate::seq_util::lemma_filter_prefix_len(r, i, p);
            } else {
                assert(ws.take(i) =~= r);
            }
        }
    } else {
        assert(ws.filter(p) =~= Seq::<WorkspaceDto>::empty());
    }
}

/// Every window among `cs` has a title that can be shortened.
pub open spec fn titles_fit(cs: Seq<ContainerDto>) -> bool {
    forall|i: int|
        0 <= i < cs.len() ==> (#[trigger] cs[i] matches ContainerDto::Window(w) ==> title_fits(w.title@))
}

/// The buttons of the windows among `cs`, in order: for each, its
/// shortened title, whether it has focus, and its id.
pub open spec fn window_buttons(cs: Seq<ContainerDto>) -> Seq<(Seq<char>, bool, u128)>
    decreases cs.len(),
{
    if cs.len() == 0 {
        Seq::empty()
    } else {
        let rest = window_buttons(cs.drop_last());
        match cs.last() {
            ContainerDto::Window(w) => rest.push(
                (truncated_title(w.title@), w.has_focus, w.id),
            ),
            _ => rest,
        }
    }
}

/// `c` is a window entry.
pub open spec fn is_window(c: ContainerDto) -> bool {
    c is Window
}

/// The window buttons of a list are one per window entry, in the order of
/// the list: the button of the window at position `i` comes after those of
/// the windows before it, and shows that window's shortened title, its
/// focus and its id.
pub proof fn lemma_window_buttons(cs: Seq<ContainerDto>)
    ensures
        window_buttons(cs).len() == cs.filter(|c: ContainerDto| is_window(c)).len(),
        forall|i: int|
            0 <= i < cs.len() ==> (#[trigger] cs[i] matches ContainerDto::Window(w) ==> window_buttons(
                cs,
            )[cs.take(i).filter(|c: ContainerDto| is_window(c)).len() as int] == (
                truncated_title(w.title@),
                w.has_focus,
                w.id,
            )),
    decreases cs.len(),
{
    let p = |c: ContainerDto| is_window(c);
    if cs.len() > 0 {
        let r = cs.drop_last();
        lemma_window_buttons(r);
        assert(cs =~= r.push(cs.last()));
        r.lemma_filter_push(cs.last(), p);
        assert forall|i: int| 0 <= i < cs.len() implies (#[trigger] cs[i] matches ContainerDto::Window(
            w,
        ) ==> window_buttons(cs)[cs.take(i).filter(p).len() as int] == (
            truncated_title(w.title@),
            w.has_focus,
            w.id,
        )) by {
            if i < r.len() {
                assert(cs.take(i) =~= r.take(i));
                assert(r[i] == cs[i]);
                crate::seq_util::lemma_filter_prefix_len(r, i, p);
            } else {
                assert(cs.take(i) =~= r);
            }
        }
    } else {
        assert(cs.filter(p) =~= Seq::<ContainerDto>::empty());
    }
}

/// The window buttons the bar shows are those of the recorded stack's
/// windows while focus is in it, each active exactly when its window has
/// focus, and none once focus has left the stack.
pub proof fn lemma_current_windows(stack: StackRecord, i: int)
    requires
        0 <= i < stack.children@.len(),
    ensures
        stack.id is None ==> shown_windows(stack).len() == 0,
        stack.id is Some ==> (stack.children@[i] matches ContainerDto::Window(w) ==> shown_windows(
            stack,
        )[stack.children@.take(i).filter(|c: ContainerDto| is_window(c)).len() as int] == (
            truncated_title(w.title@),
            w.has_focus,
            w.id,
        )),
{
    lemma_window_buttons(stack.children@);
}

/// The view of a list of window buttons.
pub open spec fn buttons_view(bs: Seq<WindowStatus>) -> Seq<(Seq<char>, bool, u128)> {
    bs.map_values(|b: WindowStatus| (b.title@, b.activated, b.id))
}

/// The window buttons the bar shows for a stack record: those of the
/// recorded stack's windows while focus is in it, none otherwise.
pub open spec fn shown_windows(stack: StackRecord) -> Seq<(Seq<char>, bool, u128)> {
    if stack.id is Some {
        window_buttons(stack.children@)
    } else {
        Seq::empty()
    }
}

/// What the status bar has last heard from the window manager.
pub struct ServiceState {
    pub workspaces: Vec<WorkspaceDto>,
    pub monitor: Option<MonitorDto>,
    pub stack: StackRecord,
}

impl ServiceState {
    pub fn new() -> (s: Self)
        ensures
            s.workspaces@.len() == 0,
            s.monitor is None,
            s.stack.id is None,
            s.stack.children@.len() == 0,
    {
        ServiceState {
            workspaces: Vec::new(),
            monitor: None,
            stack: StackRecord { id: None, children: Vec::new() },
        }
    }

    pub open spec fn spec_monitor_id(&self) -> Option<u128> {
        match self.monitor {
            Some(m) => Some(m.id),
            None => None,
        }
    }

    /// Id of this bar's monitor, once known.
    pub fn monitor_id(&self) -> (r: Option<u128>)
        ensures
            r == self.spec_monitor_id(),
    {
        match &self.monitor {
            Some(m) => Some(m.id),
            None => None,
        }
    }

    /// The buttons of the workspaces on this bar's monitor.
    pub fn current_workspaces(&self) -> (r: Vec<WorkspaceStatus>)
        ensures
            r@ == workspaces_on(self.workspaces@, self.spec_monitor_id()),
    {
        let monitor_id = self.monitor_id();
        let mut out: Vec<WorkspaceStatus> = Vec::new();
        let mut i: usize = 0;
        while i < self.workspaces.len()
            invariant
                i <= self.workspaces@.len(),
                monitor_id == self.spec_monitor_id(),
                out@ == workspaces_on(self.workspaces@.take(i as int), monitor_id),
            decreases self.workspaces@.len() - i,
        {
            let ws = &self.workspaces[i];
            proof {
                assert(self.workspaces@.take(i + 1).drop_last() =~= self.workspaces@.take(i as int));
                assert(self.workspaces@.take(i + 1).last() == *ws);
            }
            if same_parent(ws.parent_id, monitor_id) {
                let display_name = match &ws.display_name {
                    Some(d) => Some(d.clone()),
                    None => None,
                };
                out.push(WorkspaceStatus { name: ws.name.clone(), display_name, activated: ws.is_displayed });
            }
            i = i + 1;
        }
        proof {
            assert(self.workspaces@.take(i as int) =~= self.workspaces@);
        }
        out
    }

    /// The buttons of the windows of the focused stack.
    pub fn current_windows(&self) -> (r: Vec<WindowStatus>)
        requires
            titles_fit(self.stack.children@),
        ensures
            buttons_view(r@) == shown_windows(self.stack),
    {
        let mut out: Vec<WindowStatus> = Vec::new();
        match self.stack.windows() {
            Some(cs) => {
                let mut i: usize = 0;
                while i < cs.len()
                    invariant
                        i <= cs@.len(),
                        titles_fit(cs@),
                        buttons_view(out@) == window_buttons(cs@.take(i as int)),
                    decreases cs@.len() - i,
                {
                    let c = &cs[i];
                    proof {
                        assert(cs@.take(i + 1).drop_last() =~= cs@.take(i as int));
                        assert(cs@.take(i + 1).last() == *c);
                    }
                    match c {
                        ContainerDto::Window(w) => {
                            proof {
                                assert(cs@[i as int] matches ContainerDto::Window(w) ==> title_fits(w.title@));
                            }
                            let b = WindowStatus {
                                title: truncate_title(w.title.as_str()),
                                activated: w.has_focus,
                                id: w.id,
                            };
                            let ghost before = out@;
                            out.push(b);
                            proof {
                                assert(buttons_view(out@) =~= buttons_view(before).push(
                                    (b.title@, b.activated, b.id),
                                ));
                            }
                        },
                        _ => {},
                    }
                    i = i + 1;
                }
                proof {
                    assert(cs@.take(i as int) =~= cs@);
                }
            },
            None => {
                proof {
                    assert(buttons_view(out@) =~= Seq::empty());
                }
            },
        }
        out
    }
}

/// Whether a container's parent is the monitor `monitor`.
fn same_parent(parent: Option<u128>, monitor: Option<u128>) -> (r: bool)
    ensures
        r == (parent == monitor),
{
    match (parent, monitor) {
        (Some(a), Some(b)) => a == b,
        (None, None) => true,
        _ => false,
    }
}

/// What the subscription loop does after an event.
pub enum WatchAction {
    /// Ask for the workspaces again.
    Refresh,
    /// Redraw the bar.
    Repaint,
    /// The connection closed: connect again.
    Reconnect,
    /// Wait for the next event.
    Skip,
}

/// The record after an event, and what follows it: workspace changes ask
/// for the workspaces again; focus moving to a window outside the
/// recorded stack forgets that stack; a stack focused on this bar's
/// monitor (`device_name`) is recorded and the bar redrawn; the end of the
/// subscription asks for a new connection; anything else is skipped.
pub open spec fn watched(
    before: StackRecord,
    after: StackRecord,
    event: Option<WmEvent>,
    device_name: Seq<char>,
    action: WatchAction,
) -> bool {
    match event {
        Some(WmEvent::WorkspaceActivated { .. }) | Some(WmEvent::WorkspaceUpdated { .. }) => {
            action is Refresh && after == before
        },
        Some(WmEvent::FocusChanged { focused_container }) => {
            &&& action is Refresh
            &&& after.children@ == before.children@
            &&& after.id == match focused_container {
                ContainerDto::Window(w) => if before.id != w.parent_id {
                    None
                } else {
                    before.id
                },
                _ => before.id,
            }
        },
        Some(WmEvent::StackFocusChanged { stack_container }) => match stack_container {
            ContainerDto::Stack(s) => if s.device_name matches Some(d) && d@ == device_name {
                action is Repaint && after == (StackRecord { id: Some(s.id), children: s.children })
            } else {
                action is Skip && after == before
            },
            _ => action is Skip && after == before,
        },
        Some(WmEvent::Other) => action is Skip && after == before,
        None => action is Reconnect && after == before,
    }
}

/// Answers one event of the subscription (see `watched`).
pub fn on_watch_event(stack: &mut StackRecord, event: Option<WmEvent>, device_name: &String) -> (a: WatchAction)
    ensures
        watched(*old(stack), *final(stack), event, device_name@, a),
{
    match event {
        Some(WmEvent::WorkspaceActivated { .. }) | Some(WmEvent::WorkspaceUpdated { .. }) => {
            WatchAction::Refresh
        },
        Some(WmEvent::FocusChanged { focused_container }) => {
            match focused_container {
                ContainerDto::Window(w) => {
                    if !same_parent(stack.id, w.parent_id) {
                        stack.clear();
                    }
                },
                _ => {},
            }
            WatchAction::Refresh
        },
        Some(WmEvent::StackFocusChanged { stack_container }) => match stack_container {
            ContainerDto::Stack(s) => {
                let on_this_monitor = match &s.device_name {
                    Some(d) => *d == *device_name,
                    None => false,
                };
                if on_this_monitor {
                    *stack = StackRecord { id: Some(s.id), children: s.children };
                    WatchAction::Repaint
                } else {
                    WatchAction::Skip
                }
            },
            _ => WatchAction::Skip,
        },
        Some(WmEvent::Other) => WatchAction::Skip,
        None => WatchAction::Reconnect,
    }
}

/// A stack that gains focus on this bar's monitor is shown: the bar's
/// window buttons become those of its windows. Focus that then moves to a
/// window outside the recorded stack hides them again.
pub proof fn lemma_stack_focus_shown(
    before: StackRecord,
    after: StackRecord,
    s: StackContainerDto,
    device_name: Seq<char>,
    a: WatchAction,
    next: StackRecord,
    w: WindowDto,
    b: WatchAction,
)
    requires
        s.device_name matches Some(d) && d@ == device_name,
        watched(
            before,
            after,
            Some(WmEvent::StackFocusChanged { stack_container: ContainerDto::Stack(s) }),
            device_name,
            a,
        ),
        watched(
            after,
            next,
            Some(WmEvent::FocusChanged { focused_container: ContainerDto::Window(w) }),
            device_name,
            b,
        ),
    ensures
        a is Repaint,
        shown_windows(after) == window_buttons(s.children@),
        b is Refresh,
        w.parent_id != Some(s.id) ==> shown_windows(next) == Seq::<(Seq<char>, bool, u128)>::empty(),
        w.parent_id == Some(s.id) ==> shown_windows(next) == shown_windows(after),
{
}

/// Workspace events ask for the workspaces again and leave the record
/// alone; the end of the subscription asks for a new connection and leaves
/// the record alone; a stack focused on another monitor, or an event the
/// bar does not read, changes nothing and is skipped.
pub proof fn lemma_watch_other_events(
    before: StackRecord,
    after: StackRecord,
    event: Option<WmEvent>,
    device_name: Seq<char>,
    a: WatchAction,
)
    requires
        watched(before, after, event, device_name, a),
    ensures
        event matches Some(e) && (e is WorkspaceActivated || e is WorkspaceUpdated) ==> a is Refresh
            && after == before,
        event is None ==> a is Reconnect && after == before,
        event == Some(WmEvent::Other) ==> a is Skip && after == before,
        event matches Some(WmEvent::StackFocusChanged { stack_container: ContainerDto::Stack(s) })
            ==> (!(s.device_name matches Some(d) && d@ == device_name) ==> a is Skip && after == before),
        event matches Some(WmEvent::FocusChanged { .. }) ==> a is Refresh && after.children@
            == before.children@,
{
}

} // verus!
