//! The activity feed of a hive that hands submitted text to a speaker
//! pod: the texts of the events it shows.
use crate::pod::{PodError, TaskResult};
use vstd::prelude::*;

verus! {

/// An activity event, as the terminal UI shows it.
#[derive(Clone, Debug)]
pub struct ActivityEvent {
    pub text: String,
}

/// What became of a task handed to the speaker pod.
#[derive(Debug)]
pub enum TaskOutcome {
    /// The pod answered.
    Done(TaskResult),
    /// The pod failed on the task.
    Failed(PodError),
    /// The task never reached the pod; the text says why.
    Undelivered(String),
}

/// The text of the event for a task's outcome.
pub open spec fn outcome_text(outcome: TaskOutcome) -> Seq<char> {
    match outcome {
        TaskOutcome::Done(result) => "\u{25c4} "@ + result.response@,
        TaskOutcome::Failed(e) => "\u{2716} error: "@ + e.message@,
        TaskOutcome::Undelivered(why) => "\u{2716} mailbox error: "@ + why@,
    }
}

/// The events of a hive that has just started its speaker pod.
pub fn startup_events() -> (r: Vec<ActivityEvent>)
    ensures
        r.len() == 2,
        r@[0].text@ == "hive started"@,
        r@[1].text@ == "speaker pod spawned"@,
{
    let mut r: Vec<ActivityEvent> = Vec::new();
    r.push(ActivityEvent { text: String::from_str("hive started") });
    r.push(ActivityEvent { text: String::from_str("speaker pod spawned") });
    r
}

/// The event echoing text submitted from the input bar.
pub fn submitted_event(text: &str) -> (e: ActivityEvent)
    ensures
        e.text@ == "\u{203a} "@ + text@,
{
    let mut s = String::from_str("\u{203a} ");
    s.append(text);
    ActivityEvent { text: s }
}

/// The event reporting what became of a task.
pub fn outcome_event(outcome: TaskOutcome) -> (e: ActivityEvent)
    ensures
        e.text@ == outcome_text(outcome),
{
    let text = match &outcome {
        TaskOutcome::Done(result) => {
            let mut s = String::from_str("\u{25c4} ");
            s.append(result.response.as_str());
            s
        },
        TaskOutcome::Failed(e) => {
            let mut s = String::from_str("\u{2716} error: ");
            s.append(e.message.as_str());
            s
        },
        TaskOutcome::Undelivered(why) => {
            let mut s = String::from_str("\u{2716} mailbox error: ");
            s.append(why.as_str());
            s
        },
    };
    ActivityEvent { text }
}

} // verus!
