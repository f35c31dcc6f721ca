use hive::pods::ping::{Ping, PingMessages, PingResponses};
use hive::link::{PodConfig, PodMessage, PodResponse};
use hive::pods::pod::Pod;

#[test]
fn new_pod_is_first_generation() {
    let p = Pod::new(PodConfig);
    assert_eq!(p.generation, 0);
    assert_eq!(p.genome.nodes.len(), 8);
    assert_eq!(p.genome.outputs.len(), 1);
    assert_eq!(p.genome.n_inputs, 1);
}

#[test]
fn breeding_increments_generation() {
    let p = Pod::new(PodConfig);
    let c = p.breed(1);
    assert_eq!(c.generation, 1);
    let g = c.breed(2);
    assert_eq!(g.generation, 2);
    assert_eq!(g.genome.outputs, p.genome.outputs);
}

#[test]
fn query_reply_reports_generation_and_active_nodes() {
    let mut p = Pod::new(PodConfig);
    let active = p.genome.active_nodes().len();
    match p.handle(PodMessage::Query("what?".to_string())) {
        PodResponse::Response(text) => {
            assert_eq!(text, format!("[Pod gen=0 active={}/8] what?", active));
        }
        PodResponse::Error => panic!("query failed"),
    }
}

#[test]
fn other_messages_get_no_query() {
    let mut p = Pod::new(PodConfig);
    match p.handle(PodMessage::Kill) {
        PodResponse::Response(text) => assert_eq!(text, "No Query"),
        PodResponse::Error => panic!("kill failed"),
    }
}

#[test]
fn ping_answers() {
    let mut ping = Ping;
    assert_eq!(ping.handle(PingMessages::Ping), PingResponses::GotPing);
    assert_eq!(ping.handle(PingMessages::Pong), PingResponses::GotPong);
}

#[test]
fn query_reply_after_many_generations() {
    let mut p = Pod::new(PodConfig);
    for seed in 0..12 {
        p = p.breed(seed);
    }
    assert_eq!(p.generation, 12);
    let active = p.genome.active_nodes().len();
    match p.handle(PodMessage::Query("x".to_string())) {
        PodResponse::Response(text) => {
            assert_eq!(text, format!("[Pod gen=12 active={}/8] x", active));
        }
        PodResponse::Error => panic!("query failed"),
    }
}

#[test]
fn outputs_of_a_new_pod_are_active() {
    let p = Pod::new(PodConfig);
    let active = p.genome.active_nodes();
    for &o in &p.genome.outputs {
        assert!(active.contains(&(o - p.genome.n_inputs)));
    }
}
