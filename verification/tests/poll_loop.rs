use rdc_notifier::poll_loop::{LoopAction, LoopEvent, PollLoop};
use rdc_notifier::registry::{PollFailure, ServerPoll};
use rdc_notifier::session::{SessionInfo, SessionState};

fn servers() -> Vec<String> {
    vec!["SRVA".to_string(), "SRVB".to_string()]
}

fn two_active() -> Vec<ServerPoll> {
    vec![
        ServerPoll {
            server: "SRVA".to_string(),
            outcome: Ok(vec![SessionInfo::new("PC1", "alice", SessionState::Active)]),
        },
        ServerPoll {
            server: "SRVB".to_string(),
            outcome: Ok(vec![SessionInfo::new("PC2", "", SessionState::Active)]),
        },
    ]
}

fn hand_over(poll_loop: &mut PollLoop, polls: Vec<ServerPoll>) -> LoopAction {
    for poll in polls {
        let event = LoopEvent::ServerPolled(poll);
        assert!(poll_loop.can_take(&event));
        let action = poll_loop.advance(event);
        assert_eq!(poll_of(&action), servers());
    }
    poll_loop.advance(LoopEvent::PollsDone)
}

fn poll_of(action: &LoopAction) -> Vec<String> {
    match action {
        LoopAction::Poll(names) => names.clone(),
        other => panic!("expected a poll, got {:?}", other),
    }
}

fn message_of(action: &LoopAction) -> String {
    match action {
        LoopAction::Deliver(message) => message.clone(),
        other => panic!("expected a delivery, got {:?}", other),
    }
}

fn seconds_of(action: &LoopAction) -> u64 {
    match action {
        LoopAction::Sleep(seconds) => *seconds,
        other => panic!("expected a sleep, got {:?}", other),
    }
}

#[test]
fn loop_starts_by_polling_every_server() {
    let poll_loop = PollLoop::new(servers(), 30);
    assert_eq!(poll_of(&poll_loop.action()), servers());
    assert_eq!(poll_loop.registry().len(), 2);
    assert!(poll_loop.registry().contains("SRVA"));
    assert!(poll_loop.registry().contains("SRVB"));
}

#[test]
fn failed_delivery_does_not_stop_the_next() {
    let mut poll_loop = PollLoop::new(servers(), 30);
    let action = hand_over(&mut poll_loop, two_active());
    assert_eq!(message_of(&action), "'PC1/alice' is now connected to 'SRVA'");
    let action = poll_loop.advance(LoopEvent::Delivered(false));
    assert_eq!(message_of(&action), "'PC2' is now connected to 'SRVB'");
    let action = poll_loop.advance(LoopEvent::Delivered(true));
    assert_eq!(seconds_of(&action), 30);
    let action = poll_loop.advance(LoopEvent::Woke);
    assert_eq!(poll_of(&action), servers());
}

#[test]
fn cycle_without_transitions_goes_to_sleep() {
    let mut poll_loop = PollLoop::new(servers(), 5);
    let failures = vec![
        ServerPoll { server: "SRVA".to_string(), outcome: Err(PollFailure::Connection) },
        ServerPoll { server: "SRVB".to_string(), outcome: Err(PollFailure::Fetch) },
    ];
    let action = hand_over(&mut poll_loop, failures);
    assert_eq!(seconds_of(&action), 5);
    let action = poll_loop.advance(LoopEvent::Woke);
    assert_eq!(poll_of(&action), servers());
    let action = hand_over(&mut poll_loop, two_active());
    assert_eq!(message_of(&action), "'PC1/alice' is now connected to 'SRVA'");
}

#[test]
fn second_cycle_with_same_lists_is_silent() {
    let mut poll_loop = PollLoop::new(servers(), 1);
    hand_over(&mut poll_loop, two_active());
    poll_loop.advance(LoopEvent::Delivered(true));
    poll_loop.advance(LoopEvent::Delivered(true));
    poll_loop.advance(LoopEvent::Woke);
    let action = hand_over(&mut poll_loop, two_active());
    assert_eq!(seconds_of(&action), 1);
    assert!(poll_loop.registry().table("SRVA").unwrap().is_active("PC1/alice"));
}

#[test]
fn event_that_was_not_asked_for_changes_nothing() {
    let mut poll_loop = PollLoop::new(servers(), 7);
    let action = poll_loop.advance(LoopEvent::Woke);
    assert_eq!(poll_of(&action), servers());
    let action = poll_loop.advance(LoopEvent::Delivered(true));
    assert_eq!(poll_of(&action), servers());
    hand_over(&mut poll_loop, two_active());
    let action = poll_loop.advance(LoopEvent::Woke);
    assert_eq!(message_of(&action), "'PC1/alice' is now connected to 'SRVA'");
    let late = ServerPoll { server: "SRVA".to_string(), outcome: Ok(vec![]) };
    let action = poll_loop.advance(LoopEvent::ServerPolled(late));
    assert_eq!(message_of(&action), "'PC1/alice' is now connected to 'SRVA'");
    assert!(poll_loop.registry().table("SRVA").unwrap().is_active("PC1/alice"));
    let action = poll_loop.advance(LoopEvent::PollsDone);
    assert_eq!(message_of(&action), "'PC1/alice' is now connected to 'SRVA'");
}

#[test]
fn polls_are_taken_in_the_order_in_which_they_end() {
    let mut poll_loop = PollLoop::new(servers(), 9);
    let mut polls = two_active();
    polls.reverse();
    let action = hand_over(&mut poll_loop, polls);
    assert_eq!(message_of(&action), "'PC2' is now connected to 'SRVB'");
    let action = poll_loop.advance(LoopEvent::Delivered(true));
    assert_eq!(message_of(&action), "'PC1/alice' is now connected to 'SRVA'");
    let action = poll_loop.advance(LoopEvent::Delivered(false));
    assert_eq!(seconds_of(&action), 9);
}

#[test]
fn failed_server_leaves_the_events_of_the_other() {
    let mut poll_loop = PollLoop::new(servers(), 9);
    let polls = vec![
        ServerPoll { server: "SRVA".to_string(), outcome: Err(PollFailure::Connection) },
        ServerPoll {
            server: "SRVB".to_string(),
            outcome: Ok(vec![SessionInfo::new("PC1", "alice", SessionState::Active)]),
        },
    ];
    let action = hand_over(&mut poll_loop, polls);
    assert_eq!(message_of(&action), "'PC1/alice' is now connected to 'SRVB'");
    let action = poll_loop.advance(LoopEvent::Delivered(true));
    assert_eq!(seconds_of(&action), 9);
    assert_eq!(poll_loop.registry().table("SRVA").unwrap().len(), 0);
    assert_eq!(poll_loop.registry().table("SRVB").unwrap().len(), 1);
}

#[test]
fn poll_of_unregistered_server_is_not_taken() {
    let poll_loop = PollLoop::new(servers(), 7);
    let stray =
        LoopEvent::ServerPolled(ServerPoll { server: "SRVX".to_string(), outcome: Ok(vec![]) });
    assert!(!poll_loop.can_take(&stray));
    let failed_stray = LoopEvent::ServerPolled(ServerPoll {
        server: "SRVX".to_string(),
        outcome: Err(PollFailure::Connection),
    });
    assert!(poll_loop.can_take(&failed_stray));
    assert!(poll_loop.can_take(&LoopEvent::Woke));
    assert!(poll_loop.can_take(&LoopEvent::PollsDone));
}
