//! Pod lifecycle: a speaker pod handles tasks and routes replies.

use hive::pod::{Pod, Task};
use hive::pods::speaker::SpeakerPod;

#[test]
fn test_speaker_pod_echos_task() {
    // 1. Start the pod
    let mut pod = SpeakerPod::new();
    assert!(pod.init().is_ok());

    // 2. Send a text task (no channel routing)
    let result = pod.handle_task(Task::text("hello from test"));

    // 3. Verify we got a result back
    assert!(result.is_ok(), "handle_task should succeed");
    let task_result = result.unwrap();

    // 4. Verify the response contains our input
    assert!(
        task_result.response.contains("hello from test"),
        "response should echo the input text"
    );
}

#[test]
fn test_speaker_pod_routes_reply() {
    // 1. Start the pod
    let mut pod = SpeakerPod::new();

    // 2. Send a chat task tied to a channel
    let result = pod.handle_task(Task::chat("hello", "#test-channel"));

    // 3. Verify routing is set
    let task_result = result.unwrap();
    assert_eq!(
        task_result.reply_to,
        Some("#test-channel".to_string()),
        "reply_to should match the input channel"
    );
}

#[test]
fn speaker_pod_metadata_and_lifecycle() {
    let mut pod = SpeakerPod::default();
    assert_eq!(pod.pod_type().name, "speaker");
    assert!(pod.init().is_ok());
    assert!(pod.shutdown().is_ok());
}

#[test]
fn speaker_pod_text_task_has_no_channel() {
    let mut pod = SpeakerPod::new();
    let result = pod.handle_task(Task::text("plain")).unwrap();
    assert_eq!(result.response, "plain");
    assert_eq!(result.reply_to, None);
}

#[test]
fn task_and_result_constructors() {
    let t = Task::chat("hi", "#c");
    assert_eq!(t.text, "hi");
    assert_eq!(t.channel, Some("#c".to_string()));
    let r = hive::pod::TaskResult::reply("ok", "#c");
    assert_eq!(r.response, "ok");
    assert_eq!(r.reply_to, Some("#c".to_string()));
    let r = hive::pod::TaskResult::text("ok");
    assert_eq!(r.reply_to, None);
}
