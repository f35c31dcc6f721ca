use hive::hive_core::{ping_events, reply_text, HiveCommand, HiveState, HiveStep};
use hive::link::PodConfig;
use hive::pods::ping::PingResponses;

#[test]
fn ping_asks_the_ping_actor() {
    let mut s = HiveState::new();
    assert!(matches!(s.step(HiveCommand::Ping), HiveStep::AskPing));
}

#[test]
fn spawn_gives_increasing_ids() {
    let mut s = HiveState::new();
    for expected in 0..3u64 {
        assert!(s.can_spawn());
        match s.step(HiveCommand::SpawnPod(PodConfig)) {
            HiveStep::StartPod { id, pod, event } => {
                assert_eq!(id, expected);
                assert_eq!(pod.generation, 0);
                assert_eq!(event.text, format!("spawned pod {}", expected));
            }
            _ => panic!("expected a pod to start"),
        }
    }
}

#[test]
fn submit_queues_the_query() {
    let mut s = HiveState::new();
    assert!(matches!(
        s.step(HiveCommand::Submit("find x".to_string())),
        HiveStep::Queued
    ));
    match s.step(HiveCommand::SpawnPod(PodConfig)) {
        HiveStep::StartPod { id, .. } => assert_eq!(id, 0),
        _ => panic!("expected a pod to start"),
    }
}

#[test]
fn ping_event_texts() {
    let events = ping_events(Ok(PingResponses::GotPing), Ok(PingResponses::GotPong));
    assert_eq!(events.len(), 2);
    assert_eq!(events[0].text, "Ping: GotPing");
    assert_eq!(events[1].text, "Pong: GotPong");
    assert_eq!(
        reply_text("Pong", &Err("Mailbox has closed".to_string())),
        "Pong error: Mailbox has closed"
    );
}

#[test]
fn spawn_ids_reach_two_digits() {
    let mut s = HiveState::new();
    let mut last = String::new();
    for _ in 0..11 {
        if let HiveStep::StartPod { event, .. } = s.step(HiveCommand::SpawnPod(PodConfig)) {
            last = event.text;
        }
    }
    assert_eq!(last, "spawned pod 10");
}

#[test]
fn queries_are_taken_oldest_first() {
    let mut s = HiveState::new();
    assert_eq!(s.take_query(), None);
    s.step(HiveCommand::Submit("first".to_string()));
    s.step(HiveCommand::Ping);
    s.step(HiveCommand::Submit("second".to_string()));
    assert_eq!(s.take_query(), Some("first".to_string()));
    assert_eq!(s.take_query(), Some("second".to_string()));
    assert_eq!(s.take_query(), None);
}
