use rdc_notifier::registry::{PollFailure, ServerClientMap, ServerPoll};
use rdc_notifier::session::{SessionInfo, SessionState};

fn two_servers() -> ServerClientMap {
    let mut registry = ServerClientMap::new();
    registry.register_server("SRVA");
    registry.register_server("SRVB");
    registry
}

fn sessions(server: &str, list: Vec<SessionInfo>) -> ServerPoll {
    ServerPoll { server: server.to_string(), outcome: Ok(list) }
}

fn failed(server: &str, failure: PollFailure) -> ServerPoll {
    ServerPoll { server: server.to_string(), outcome: Err(failure) }
}

#[test]
fn registering_twice_keeps_the_table() {
    let mut registry = ServerClientMap::new();
    assert_eq!(registry.len(), 0);
    assert!(!registry.contains("SRV1"));
    registry.register_server("SRV1");
    assert!(registry.contains("SRV1"));
    assert_eq!(registry.table("SRV1").unwrap().len(), 0);
    registry.update("SRV1", &[SessionInfo::new("PC1", "alice", SessionState::Active)]);
    registry.register_server("SRV1");
    assert_eq!(registry.len(), 1);
    assert_eq!(registry.table("SRV1").unwrap().len(), 1);
    assert!(registry.table("SRV1").unwrap().is_active("PC1/alice"));
    assert!(registry.table("SRV2").is_none());
}

#[test]
fn failed_server_does_not_silence_the_other() {
    let mut registry = two_servers();
    let polls = vec![
        failed("SRVA", PollFailure::Connection),
        sessions("SRVB", vec![SessionInfo::new("PC1", "alice", SessionState::Active)]),
    ];
    let messages = registry.refresh_all_connections(&polls);
    assert_eq!(messages, vec!["'PC1/alice' is now connected to 'SRVB'".to_string()]);
    assert_eq!(registry.table("SRVA").unwrap().len(), 0);
    assert_eq!(registry.table("SRVB").unwrap().len(), 1);
}

#[test]
fn failed_poll_leaves_known_clients_as_they_were() {
    let mut registry = two_servers();
    registry.update("SRVA", &[SessionInfo::new("PC7", "", SessionState::Active)]);
    let first = registry.read_active_connections(&failed("SRVA", PollFailure::Fetch));
    assert!(first.is_empty());
    assert!(registry.table("SRVA").unwrap().is_active("PC7"));
    let second = registry.read_active_connections(&failed("SRVA", PollFailure::Connection));
    assert!(second.is_empty());
    assert!(registry.table("SRVA").unwrap().is_active("PC7"));
    let third = registry.read_active_connections(&sessions("SRVA", vec![]));
    assert_eq!(third, vec!["'PC7' is disconnected from 'SRVA'".to_string()]);
}

#[test]
fn failed_poll_of_unknown_server_is_harmless() {
    let mut registry = two_servers();
    let messages = registry.read_active_connections(&failed("SRVX", PollFailure::Connection));
    assert!(messages.is_empty());
    assert_eq!(registry.len(), 2);
}

#[test]
fn messages_follow_the_order_of_the_polls() {
    let mut registry = two_servers();
    let polls = vec![
        sessions(
            "SRVB",
            vec![
                SessionInfo::new("PC2", "bob", SessionState::Active),
                SessionInfo::new("PC3", "", SessionState::Active),
            ],
        ),
        sessions("SRVA", vec![SessionInfo::new("PC2", "bob", SessionState::Active)]),
    ];
    let messages = registry.refresh_all_connections(&polls);
    assert_eq!(
        messages,
        vec![
            "'PC2/bob' is now connected to 'SRVB'".to_string(),
            "'PC3' is now connected to 'SRVB'".to_string(),
            "'PC2/bob' is now connected to 'SRVA'".to_string(),
        ]
    );
    let next = vec![
        sessions("SRVA", vec![SessionInfo::new("PC2", "bob", SessionState::Disconnected)]),
        failed("SRVB", PollFailure::Fetch),
    ];
    let messages = registry.refresh_all_connections(&next);
    assert_eq!(messages, vec!["'PC2/bob' is disconnected from 'SRVA'".to_string()]);
    assert!(registry.table("SRVB").unwrap().is_active("PC2/bob"));
    assert!(!registry.table("SRVA").unwrap().is_active("PC2/bob"));
}

#[test]
fn same_client_on_two_servers_is_tracked_apart() {
    let mut registry = two_servers();
    registry.update("SRVA", &[SessionInfo::new("PC1", "", SessionState::Active)]);
    let messages = registry.update("SRVB", &[SessionInfo::new("PC1", "", SessionState::Active)]);
    assert_eq!(messages, vec!["'PC1' is now connected to 'SRVB'".to_string()]);
    let messages = registry.update("SRVB", &[]);
    assert_eq!(messages, vec!["'PC1' is disconnected from 'SRVB'".to_string()]);
    assert!(registry.table("SRVA").unwrap().is_active("PC1"));
}

#[test]
fn cycle_without_polls_says_nothing() {
    let mut registry = two_servers();
    let messages = registry.refresh_all_connections(&[]);
    assert!(messages.is_empty());
    assert_eq!(registry.len(), 2);
}
