use hive::hive::{outcome_event, startup_events, submitted_event, TaskOutcome};
use hive::pod::{PodError, TaskResult};

#[test]
fn startup_event_texts() {
    let events = startup_events();
    assert_eq!(events[0].text, "hive started");
    assert_eq!(events[1].text, "speaker pod spawned");
}

#[test]
fn submission_and_outcome_texts() {
    assert_eq!(submitted_event("hi").text, "\u{203a} hi");
    assert_eq!(
        outcome_event(TaskOutcome::Done(TaskResult::text("hello"))).text,
        "\u{25c4} hello"
    );
    assert_eq!(
        outcome_event(TaskOutcome::Failed(PodError { message: "boom".to_string() })).text,
        "\u{2716} error: boom"
    );
    assert_eq!(
        outcome_event(TaskOutcome::Undelivered("closed".to_string())).text,
        "\u{2716} mailbox error: closed"
    );
}

#[test]
fn default_config() {
    let c = hive::config::HiveConfig::default();
    assert_eq!(c, hive::config::HiveConfig {});
}
