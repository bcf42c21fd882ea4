use wm::cli::{cli_message, cli_mode, streamed, CliMode};
use wm::dto::{ContainerDto, MonitorDto, WorkspaceDto};
use wm::ipc::{
    queried_monitor, queried_workspaces, subscription_id, AppMetadataData, BindingModeConfig,
    BindingModesData, ClientResponseData, ClientResponseMessage, EventSubscribeData,
    EventSubscriptionMessage, HearBroadcastMessage, MonitorsData, QueryError, ServerMessage,
    WorkspacesData, DEFAULT_IPC_PORT,
};

fn response(data: Option<ClientResponseData>) -> ClientResponseMessage {
    ClientResponseMessage { client_message: "m".to_string(), data, error: None, success: true }
}

fn ws(name: &str) -> ContainerDto {
    ContainerDto::Workspace(WorkspaceDto {
        id: 1,
        parent_id: Some(9),
        name: name.to_string(),
        display_name: None,
        has_focus: false,
        is_displayed: true,
    })
}

fn monitor(id: u128, dev: &str) -> ContainerDto {
    ContainerDto::Monitor(MonitorDto { id, parent_id: None, device_name: dev.to_string() })
}

#[test]
fn ipc_port() {
    assert_eq!(DEFAULT_IPC_PORT, 6123);
}

#[test]
fn subscription_id_of_answers() {
    let sub = response(Some(ClientResponseData::EventSubscribe(EventSubscribeData { subscription_id: 77 })));
    assert_eq!(subscription_id(&Some(sub)), Some(77));
    assert_eq!(subscription_id(&Some(response(Some(ClientResponseData::Say)))), None);
    assert_eq!(subscription_id(&Some(response(None))), None);
    assert_eq!(subscription_id(&None), None);
}

#[test]
fn workspaces_query_keeps_workspaces() {
    let data = WorkspacesData { workspaces: vec![ws("1"), monitor(3, "D"), ws("2")] };
    let got = queried_workspaces(Some(response(Some(ClientResponseData::Workspaces(data))))).unwrap();
    assert_eq!(got.len(), 2);
    assert_eq!(got[0].name, "1");
    assert_eq!(got[1].name, "2");
    let meta = ClientResponseData::AppMetadata(AppMetadataData { version: "3.0".to_string() });
    assert!(matches!(queried_workspaces(Some(response(Some(meta)))), Err(QueryError::InvalidWorkspaces)));
    assert!(matches!(queried_workspaces(None), Err(QueryError::InvalidWorkspaces)));
}

#[test]
fn monitors_query_finds_device() {
    let data = || MonitorsData { monitors: vec![monitor(1, "A"), ws("x"), monitor(2, "B"), monitor(3, "B")] };
    let found = queried_monitor(Some(response(Some(ClientResponseData::Monitors(data())))), &"B".to_string());
    assert_eq!(found.unwrap().unwrap().id, 2);
    let none = queried_monitor(Some(response(Some(ClientResponseData::Monitors(data())))), &"C".to_string());
    assert!(none.unwrap().is_none());
    let modes = ClientResponseData::BindingModes(BindingModesData {
        binding_modes: vec![BindingModeConfig { name: "resize".to_string(), display_name: None }],
    });
    assert!(matches!(queried_monitor(Some(response(Some(modes))), &"B".to_string()), Err(QueryError::InvalidMonitors)));
    assert!(matches!(queried_monitor(None, &"B".to_string()), Err(QueryError::InvalidMonitors)));
}

#[test]
fn cli_joins_arguments() {
    let args: Vec<String> = vec!["wm".to_string(), "query".to_string(), "workspaces".to_string()];
    assert_eq!(cli_message(&args), "query workspaces");
    assert_eq!(cli_message(&vec!["wm".to_string()]), "");
    assert_eq!(cli_message(&vec!["wm".to_string(), "say".to_string(), "hi there".to_string()]), "say hi there");
}

#[test]
fn cli_streams_subscriptions() {
    let sub = response(Some(ClientResponseData::EventSubscribe(EventSubscribeData { subscription_id: 5 })));
    assert!(matches!(cli_mode(&sub), CliMode::Stream(5)));
    assert!(matches!(cli_mode(&response(Some(ClientResponseData::Say))), CliMode::Print));
    assert!(matches!(cli_mode(&response(Some(ClientResponseData::Paused(true)))), CliMode::Print));
    assert!(matches!(cli_mode(&response(None)), CliMode::Print));
}

#[test]
fn cli_prints_own_subscription() {
    let word = ServerMessage::HearBroadcast(HearBroadcastMessage { subscription_id: 5, word: "hello".to_string() });
    assert!(streamed(&word, 5));
    assert!(!streamed(&word, 6));
    let event = ServerMessage::EventSubscription(EventSubscriptionMessage {
        data: None,
        error: None,
        subscription_id: 5,
        success: true,
    });
    assert!(streamed(&event, 5));
    assert!(!streamed(&event, 4));
    let answer = ServerMessage::ClientResponse(response(Some(ClientResponseData::EventUnsubscribe)));
    assert!(!streamed(&answer, 5));
}
