//! Speaker pod: answers each task with its text, routed back to the
//! channel the task came from.
use crate::pod::{Pod, PodError, PodType, Task, TaskResult};
use vstd::prelude::*;

verus! {

/// Pod that speaks the text of each task back.
///
/// # Pod Type
/// - Name: `"speaker"`
///
/// # Task Handling
/// The result of a task carries the task's text as its response and the
/// task's channel, if any, as the channel to reply to.
#[derive(Debug)]
pub struct SpeakerPod;

impl SpeakerPod {
    /// A speaker pod.
    pub fn new() -> (p: SpeakerPod)
        ensures
            p == SpeakerPod,
    {
        SpeakerPod
    }
}

impl Default for SpeakerPod {
    fn default() -> (p: SpeakerPod)
        ensures
            p == SpeakerPod,
    {
        SpeakerPod
    }
}

impl Pod for SpeakerPod {
    /// A speaker needs no preparation.
    fn init(&mut self) -> (r: Result<(), PodError>)
        ensures
            r is Ok,
    {
        Ok(())
    }

    /// Echo the task's text, routed to the task's channel.
    fn handle_task(&mut self, task: Task) -> (r: Result<TaskResult, PodError>)
        ensures
            r matches Ok(res) && res.response@ == task.text@ && res.reply_to == task.channel,
    {
        Ok(TaskResult { response: task.text, reply_to: task.channel })
    }

    /// A speaker holds no state to flush.
    fn shutdown(&mut self) -> (r: Result<(), PodError>)
        ensures
            r is Ok,
    {
        Ok(())
    }

    /// The speaker type.
    fn pod_type(&self) -> (t: PodType)
        ensures
            t.name@ == "speaker"@,
    {
        PodType { name: String::from_str("speaker") }
    }
}

} // verus!
