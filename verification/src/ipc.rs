//! Messages between the window manager and its clients, and what a client
//! reads out of them.

use vstd::prelude::*;
use crate::dto::{ContainerDto, MonitorDto, WorkspaceDto};
use crate::tree::TilingDirection;

verus! {

/// The TCP socket number the window manager's IPC server listens on.
pub const DEFAULT_IPC_PORT: u32 = 6123;

/// A message from the server.
pub enum ServerMessage {
    ClientResponse(ClientResponseMessage),
    EventSubscription(EventSubscriptionMessage),
    HearBroadcast(HearBroadcastMessage),
}

/// The answer to a client's message.
pub struct ClientResponseMessage {
    pub client_message: String,
    pub data: Option<ClientResponseData>,
    pub error: Option<String>,
    pub success: bool,
}

/// What an answer carries, by the kind of message it answers.
pub enum ClientResponseData {
    AppMetadata(AppMetadataData),
    BindingModes(BindingModesData),
    Command(CommandData),
    EventSubscribe(EventSubscribeData),
    EventUnsubscribe,
    Focused(FocusedData),
    Say,
    Monitors(MonitorsData),
    TilingDirection(TilingDirectionData),
    Windows(WindowsData),
    Workspaces(WorkspacesData),
    Paused(bool),
}

pub struct AppMetadataData {
    pub version: String,
}

/// A binding mode by its name.
pub struct BindingModeConfig {
    pub name: String,
    pub display_name: Option<String>,
}

pub struct BindingModesData {
    pub binding_modes: Vec<BindingModeConfig>,
}

pub struct CommandData {
    pub subject_container_id: u128,
}

pub struct EventSubscribeData {
    pub subscription_id: u128,
}

pub struct FocusedData {
    pub focused: ContainerDto,
}

pub struct MonitorsData {
    pub monitors: Vec<ContainerDto>,
}

pub struct TilingDirectionData {
    pub tiling_direction: TilingDirection,
    pub direction_container: ContainerDto,
}

pub struct WindowsData {
    pub windows: Vec<ContainerDto>,
}

pub struct WorkspacesData {
    pub workspaces: Vec<ContainerDto>,
}

/// The events a client of the status bar reads; `Other` stands for every
/// other event.
pub enum WmEvent {
    FocusChanged { focused_container: ContainerDto },
    StackFocusChanged { stack_container: ContainerDto },
    WorkspaceActivated { activated_workspace: ContainerDto },
    WorkspaceUpdated { updated_workspace: ContainerDto },
    Other,
}

/// An event sent to a subscription.
pub struct EventSubscriptionMessage {
    pub data: Option<WmEvent>,
    pub error: Option<String>,
    pub subscription_id: u128,
    pub success: bool,
}

/// A word sent to a `hear` subscription.
pub struct HearBroadcastMessage {
    pub subscription_id: u128,
    pub word: String,
}

/// The subscription id an answer to a subscription carries.
pub open spec fn spec_subscription_id(response: Option<ClientResponseMessage>) -> Option<u128> {
    match response {
        Some(r) => match r.data {
            Some(ClientResponseData::EventSubscribe(d)) => Some(d.subscription_id),
            _ => None,
        },
        None => None,
    }
}

/// Reads the subscription id out of the answer to a subscription; `None`
/// when there is no answer or it is of another kind.
pub fn subscription_id(response: &Option<ClientResponseMessage>) -> (r: Option<u128>)
    ensures
        r == spec_subscription_id(*response),
{
    match response {
        Some(r) => match &r.data {
            Some(ClientResponseData::EventSubscribe(d)) => Some(d.subscription_id),
            _ => None,
        },
        None => None,
    }
}

/// The workspaces among `cs`, in order.
pub open spec fn workspaces_of(cs: Seq<ContainerDto>) -> Seq<WorkspaceDto>
    decreases cs.len(),
{
    if cs.len() == 0 {
        Seq::empty()
    } else {
        let rest = workspaces_of(cs.drop_last());
        match cs.last() {
            ContainerDto::Workspace(w) => rest.push(w),
            _ => rest,
        }
    }
}

/// The first monitor among `cs` shown on the display device `dev_name`.
pub open spec fn monitor_named(cs: Seq<ContainerDto>, dev_name: Seq<char>) -> Option<MonitorDto>
    decreases cs.len(),
{
    if cs.len() == 0 {
        None
    } else {
        match cs[0] {
            ContainerDto::Monitor(m) if m.device_name@ == dev_name => Some(m),
            _ => monitor_named(cs.drop_first(), dev_name),
        }
    }
}

/// `c` is a monitor shown on the display device `dev_name`.
pub open spec fn names_device(c: ContainerDto, dev_name: Seq<char>) -> bool {
    c matches ContainerDto::Monitor(m) && m.device_name@ == dev_name
}

/// Looking a monitor up by its display device finds the first monitor of
/// the list shown on that device, and finds none only when no monitor of
/// the list is shown on it.
pub proof fn lemma_monitor_named(cs: Seq<ContainerDto>, dev_name: Seq<char>)
    ensures
        monitor_named(cs, dev_name) is None <==> forall|k: int| 0 <= k < cs.len() ==> !names_device(
            #[trigger] cs[k],
            dev_name,
        ),
        monitor_named(cs, dev_name) matches Some(m) ==> exists|j: int|
            0 <= j < cs.len() && #[trigger] cs[j] == ContainerDto::Monitor(m) && m.device_name@ == dev_name
                && forall|k: int| 0 <= k < j ==> !names_device(#[trigger] cs[k], dev_name),
    decreases cs.len(),
{
    if cs.len() > 0 {
        let r = cs.drop_first();
        lemma_monitor_named(r, dev_name);
        assert forall|k: int| 0 < k < cs.len() implies cs[k] == r[k - 1] by {}
        if names_device(cs[0], dev_name) {
            assert(monitor_named(cs, dev_name) matches Some(m) && cs[0] == ContainerDto::Monitor(m));
        } else {
            assert(monitor_named(cs, dev_name) == monitor_named(r, dev_name));
            if let Some(m) = monitor_named(r, dev_name) {
                let j = choose|j: int|
                    0 <= j < r.len() && #[trigger] r[j] == ContainerDto::Monitor(m) && m.device_name@ == dev_name
                        && forall|k: int| 0 <= k < j ==> !names_device(#[trigger] r[k], dev_name);
                assert(cs[j + 1] == r[j]);
                assert forall|k: int| 0 <= k < j + 1 implies !names_device(#[trigger] cs[k], dev_name) by {
                    if k > 0 {
                        assert(cs[k] == r[k - 1]);
                    }
                }
            } else {
                assert forall|k: int| 0 <= k < cs.len() implies !names_device(#[trigger] cs[k], dev_name) by {
                    if k > 0 {
                        assert(cs[k] == r[k - 1]);
                    }
                }
            }
        }
    }
}

/// The answer to a query that does not carry what was asked for.
#[derive(Clone, Copy, Debug, PartialEq, Eq, Structural)]
pub enum QueryError {
    InvalidWorkspaces,
    InvalidMonitors,
}

/// The workspaces that the answer to `query workspaces` lists.
pub open spec fn spec_queried_workspaces(response: Option<ClientResponseMessage>) -> Result<
    Seq<WorkspaceDto>,
    QueryError,
> {
    match response {
        Some(r) => match r.data {
            Some(ClientResponseData::Workspaces(d)) => Ok(workspaces_of(d.workspaces@)),
            _ => Err(QueryError::InvalidWorkspaces),
        },
        None => Err(QueryError::InvalidWorkspaces),
    }
}

/// The monitor shown on `dev_name` that the answer to `query monitors`
/// lists, if any.
pub open spec fn spec_queried_monitor(response: Option<ClientResponseMessage>, dev_name: Seq<char>) -> Result<
    Option<MonitorDto>,
    QueryError,
> {
    match response {
        Some(r) => match r.data {
            Some(ClientResponseData::Monitors(d)) => Ok(monitor_named(d.monitors@, dev_name)),
            _ => Err(QueryError::InvalidMonitors),
        },
        None => Err(QueryError::InvalidMonitors),
    }
}

/// `c` is a workspace entry.
pub open spec fn is_workspace(c: ContainerDto) -> bool {
    c is Workspace
}

/// Reading the workspaces of a list keeps every workspace entry, whatever
/// its fields, in the order of the list, and nothing else: there are as
/// many as the list has workspace entries, and the workspace at position
/// `i` of the list comes after those of the workspace entries before it.
pub proof fn lemma_workspaces_of(cs: Seq<ContainerDto>)
    ensures
        workspaces_of(cs).len() == cs.filter(|c: ContainerDto| is_workspace(c)).len(),
        forall|i: int|
            0 <= i < cs.len() ==> (#[trigger] cs[i] matches ContainerDto::Workspace(w) ==> workspaces_of(
                cs,
            )[cs.take(i).filter(|c: ContainerDto| is_workspace(c)).len() as int] == w),
    decreases cs.len(),
{
    let p = |c: ContainerDto| is_workspace(c);
    if cs.len() > 0 {
        let r = cs.drop_last();
        lemma_workspaces_of(r);
        assert(cs =~= r.push(cs.last()));
        r.lemma_filter_push(cs.last(), p);
        assert forall|i: int| 0 <= i < cs.len() implies (#[trigger] cs[i] matches ContainerDto::Workspace(
            w,
        ) ==> workspaces_of(cs)[cs.take(i).filter(p).len() as int] == w) by {
            if i < r.len() {
                assert(cs.take(i) =~= r.take(i));
                assert(r[i] == cs[i]);
                crate::seq_util::lemma_filter_prefix_len(r, i, p);
            } else {
                assert(cs.take(i) =~= r);
            }
        }
    } else {
        assert(cs.filter(p) =~= Seq::<ContainerDto>::empty());
    }
}

/// A workspaces answer gives all its workspace entries; a monitors answer
/// gives its first monitor on the device; any other answer, or none, is an
/// error of its query.
pub proof fn lemma_queried(response: Option<ClientResponseMessage>, dev_name: Seq<char>)
    ensures
        response matches Some(r) ==> (r.data matches Some(ClientResponseData::Workspaces(d)) ==> (
        spec_queried_workspaces(response) matches Ok(ws) && ws.len() == d.workspaces@.filter(
            |c: ContainerDto| is_workspace(c),
        ).len())),
        !(response matches Some(r) && r.data matches Some(ClientResponseData::Workspaces(_)))
            ==> spec_queried_workspaces(response) == Err::<Seq<WorkspaceDto>, QueryError>(
            QueryError::InvalidWorkspaces,
        ),
        response matches Some(r) ==> (r.data matches Some(ClientResponseData::Monitors(d)) ==> (
        spec_queried_monitor(response, dev_name) matches Ok(m) && (m is None <==> forall|k: int|
            0 <= k < d.monitors@.len() ==> !names_device(#[trigger] d.monitors@[k], dev_name)))),
        !(response matches Some(r) && r.data matches Some(ClientResponseData::Monitors(_)))
            ==> spec_queried_monitor(response, dev_name) == Err::<Option<MonitorDto>, QueryError>(
            QueryError::InvalidMonitors,
        ),
{
    if let Some(r) = response {
        if let Some(ClientResponseData::Workspaces(d)) = r.data {
            lemma_workspaces_of(d.workspaces@);
        }
        if let Some(ClientResponseData::Monitors(d)) = r.data {
            lemma_monitor_named(d.monitors@, dev_name);
        }
    }
}

/// Keeps the workspaces of `cs`, in order.
pub fn take_workspaces(cs: Vec<ContainerDto>) -> (r: Vec<WorkspaceDto>)
    ensures
        r@ == workspaces_of(cs@),
{
    let mut out: Vec<WorkspaceDto> = Vec::new();
    let mut rest = cs;
    let ghost all = rest@;
    let ghost mut done: Seq<ContainerDto> = Seq::empty();
    while rest.len() > 0
        invariant
            out@ == workspaces_of(done),
            done + rest@ == all,
        decreases rest.len(),
    {
        let ghost before = rest@;
        let c = rest.remove(0);
        proof {
            assert(done.push(c) + rest@ =~= all) by {
                assert(before =~= seq![c] + rest@);
            }
            assert(done.push(c).drop_last() =~= done);
            done = done.push(c);
        }
        match c {
            ContainerDto::Workspace(w) => {
                out.push(w);
            },
            _ => {},
        }
    }
    proof {
        assert(done =~= all);
    }
    out
}

/// The first monitor of `cs` shown on the display device `dev_name`.
pub fn find_monitor(cs: Vec<ContainerDto>, dev_name: &String) -> (r: Option<MonitorDto>)
    ensures
        r == monitor_named(cs@, dev_name@),
{
    let mut rest = cs;
    let ghost all = rest@;
    while rest.len() > 0
        invariant
            all == cs@,
            monitor_named(rest@, dev_name@) == monitor_named(all, dev_name@),
        decreases rest.len(),
    {
        let ghost before = rest@;
        let c = rest.remove(0);
        proof {
            assert(before.drop_first() =~= rest@);
            assert(before[0] == c);
        }
        match c {
            ContainerDto::Monitor(m) => {
                if m.device_name == *dev_name {
                    assert(monitor_named(before, dev_name@) == Some(m));
                    return Some(m);
                }
            },
            _ => {},
        }
    }
    None
}

/// The workspaces that the answer to `query workspaces` lists.
pub fn queried_workspaces(response: Option<ClientResponseMessage>) -> (r: Result<Vec<WorkspaceDto>, QueryError>)
    ensures
        match (r, spec_queried_workspaces(response)) {
            (Ok(v), Ok(s)) => v@ == s,
            (Err(a), Err(b)) => a == b,
            _ => false,
        },
{
    match response {
        Some(r) => match r.data {
            Some(ClientResponseData::Workspaces(d)) => Ok(take_workspaces(d.workspaces)),
            _ => Err(QueryError::InvalidWorkspaces),
        },
        None => Err(QueryError::InvalidWorkspaces),
    }
}

/// The monitor shown on `dev_name` that the answer to `query monitors`
/// lists, if any.
pub fn queried_monitor(response: Option<ClientResponseMessage>, dev_name: &String) -> (r: Result<Option<MonitorDto>, QueryError>)
    ensures
        r == spec_queried_monitor(response, dev_name@),
{
    match response {
        Some(r) => match r.data {
            Some(ClientResponseData::Monitors(d)) => Ok(find_monitor(d.monitors, dev_name)),
            _ => Err(QueryError::InvalidMonitors),
        },
        None => Err(QueryError::InvalidMonitors),
    }
}

} // verus!
