use rdc_notifier::event::{Transition, TransitionKind};
use rdc_notifier::session::{SessionInfo, SessionState};
use rdc_notifier::table::ClientStateMap;

fn pc1(state: SessionState) -> SessionInfo {
    SessionInfo::new("PC1", "alice", state)
}

fn kinds(events: &[Transition]) -> Vec<(TransitionKind, String)> {
    events.iter().map(|e| (e.kind, e.client.clone())).collect()
}

#[test]
fn first_active_observation_is_reported() {
    let mut table = ClientStateMap::new();
    let messages = table.update("SRV1", &[pc1(SessionState::Active)]);
    assert_eq!(messages, vec!["'PC1/alice' is now connected to 'SRV1'".to_string()]);
    assert_eq!(table.len(), 1);
    let record = table.get("PC1/alice").unwrap();
    assert_eq!(record.state, SessionState::Active);
    assert_eq!(record.user, "alice");
    assert!(table.is_active("PC1/alice"));
}

#[test]
fn reported_disconnect_is_announced() {
    let mut table = ClientStateMap::new();
    table.update("SRV1", &[pc1(SessionState::Active)]);
    let messages = table.update("SRV1", &[pc1(SessionState::Disconnected)]);
    assert_eq!(messages, vec!["'PC1/alice' is disconnected from 'SRV1'".to_string()]);
    assert_eq!(table.get("PC1/alice").unwrap().state, SessionState::Disconnected);
}

#[test]
fn empty_list_deactivates_active_client() {
    let mut table = ClientStateMap::new();
    table.update("SRV1", &[pc1(SessionState::Active)]);
    let messages = table.update("SRV1", &[]);
    assert_eq!(messages, vec!["'PC1/alice' is disconnected from 'SRV1'".to_string()]);
    assert_eq!(table.len(), 1);
    assert_eq!(table.get("PC1/alice").unwrap().state, SessionState::Disconnected);
    assert!(!table.is_active("PC1/alice"));
}

#[test]
fn first_observation_as_disconnected_is_silent() {
    let mut table = ClientStateMap::new();
    let events = table.update_state(&[pc1(SessionState::Disconnected)]);
    assert!(events.is_empty());
    assert_eq!(table.get("PC1/alice").unwrap().state, SessionState::Disconnected);
}

#[test]
fn same_list_twice_reports_once() {
    let list = vec![
        pc1(SessionState::Active),
        SessionInfo::new("PC2", "", SessionState::Idle),
        SessionInfo::new("PC3", "bob", SessionState::Active),
    ];
    let mut table = ClientStateMap::new();
    let first = table.update_state(&list);
    assert_eq!(
        kinds(&first),
        vec![
            (TransitionKind::Activated, "PC1/alice".to_string()),
            (TransitionKind::Activated, "PC3/bob".to_string()),
        ]
    );
    let second = table.update_state(&list);
    assert!(second.is_empty());
}

#[test]
fn client_returning_after_absence_is_reported_again() {
    let mut table = ClientStateMap::new();
    table.update_state(&[pc1(SessionState::Active)]);
    table.update_state(&[]);
    let events = table.update_state(&[pc1(SessionState::Active)]);
    assert_eq!(kinds(&events), vec![(TransitionKind::Activated, "PC1/alice".to_string())]);
    assert_eq!(table.len(), 1);
}

#[test]
fn absent_clients_follow_present_ones_in_table_order() {
    let mut table = ClientStateMap::new();
    table.update_state(&[
        SessionInfo::new("A", "", SessionState::Active),
        SessionInfo::new("B", "", SessionState::Active),
        SessionInfo::new("C", "", SessionState::Disconnected),
        SessionInfo::new("D", "", SessionState::Active),
    ]);
    let events = table.update_state(&[
        SessionInfo::new("C", "", SessionState::Active),
        SessionInfo::new("B", "", SessionState::Listen),
    ]);
    assert_eq!(
        kinds(&events),
        vec![
            (TransitionKind::Activated, "C".to_string()),
            (TransitionKind::Deactivated, "B".to_string()),
            (TransitionKind::Deactivated, "A".to_string()),
            (TransitionKind::Deactivated, "D".to_string()),
        ]
    );
    assert_eq!(table.get("A").unwrap().state, SessionState::Disconnected);
    assert_eq!(table.get("B").unwrap().state, SessionState::Listen);
    assert_eq!(table.get("C").unwrap().state, SessionState::Active);
    assert_eq!(table.get("D").unwrap().state, SessionState::Disconnected);
}

#[test]
fn steady_active_client_refreshes_user_without_event() {
    let mut table = ClientStateMap::new();
    table.update_state(&[SessionInfo::new("PC1", "", SessionState::Active)]);
    assert_eq!(table.get("PC1").unwrap().user, "");
    let mut entry = SessionInfo::new("PC1", "", SessionState::Active);
    entry.state = SessionState::Active;
    let events = table.update_state(&[entry]);
    assert!(events.is_empty());
    assert!(table.get("PC9").is_none());
}

#[test]
fn identity_joins_client_and_user() {
    assert_eq!(SessionInfo::new("PC1", "alice", SessionState::Active).identity(), "PC1/alice");
    assert_eq!(SessionInfo::new("PC1", "", SessionState::Active).identity(), "PC1");
}

#[test]
fn only_active_counts_as_connected() {
    assert!(SessionState::Active.is_active());
    for state in [
        SessionState::Connected,
        SessionState::ConnectQuery,
        SessionState::Shadow,
        SessionState::Disconnected,
        SessionState::Idle,
        SessionState::Listen,
        SessionState::Reset,
        SessionState::Down,
        SessionState::Init,
    ] {
        assert!(!state.is_active());
    }
}

#[test]
fn repeated_client_in_one_list_is_taken_entry_by_entry() {
    let mut table = ClientStateMap::new();
    let events = table.update_state(&[pc1(SessionState::Active), pc1(SessionState::Disconnected)]);
    assert_eq!(
        kinds(&events),
        vec![
            (TransitionKind::Activated, "PC1/alice".to_string()),
            (TransitionKind::Deactivated, "PC1/alice".to_string()),
        ]
    );
    assert_eq!(table.len(), 1);
    assert_eq!(table.get("PC1/alice").unwrap().state, SessionState::Disconnected);
}

#[test]
fn each_client_is_reported_once_in_one_poll() {
    let mut table = ClientStateMap::new();
    table.update_state(&[
        SessionInfo::new("A", "", SessionState::Active),
        SessionInfo::new("B", "", SessionState::Disconnected),
        SessionInfo::new("C", "", SessionState::Active),
    ]);
    let events = table.update_state(&[
        SessionInfo::new("B", "", SessionState::Active),
        SessionInfo::new("A", "", SessionState::Active),
        SessionInfo::new("B", "", SessionState::Active),
        SessionInfo::new("D", "", SessionState::Shadow),
    ]);
    assert_eq!(
        kinds(&events),
        vec![
            (TransitionKind::Activated, "B".to_string()),
            (TransitionKind::Deactivated, "C".to_string()),
        ]
    );
    for client in ["A", "B", "C", "D"] {
        assert!(events.iter().filter(|e| e.client == client).count() <= 1);
    }
    assert_eq!(table.len(), 4);
}

#[test]
fn message_names_client_and_server() {
    let on = Transition { kind: TransitionKind::Activated, client: "PC1/alice".to_string() };
    let off = Transition { kind: TransitionKind::Deactivated, client: "PC1".to_string() };
    assert_eq!(on.message("SRV1"), "'PC1/alice' is now connected to 'SRV1'");
    assert_eq!(off.message(""), "'PC1' is disconnected from ''");
}
