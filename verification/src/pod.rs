//! Pod runtime: typed agent units that execute within a Hive.
//!
//! Pods are the worker agents of the hive. Each pod has a type that
//! declares its domain; the hive hands it [`Task`]s and routes the
//! [`TaskResult`]s it returns. The registry keeps the names of the pod
//! types the hive knows.
use crate::text::{lemma_lex_total, lemma_lex_transitive, lex_less, lex_lt, same_text};
use vstd::prelude::*;

verus! {

// ---------------------------------------------------------------------------
// Tasks and results
// ---------------------------------------------------------------------------

/// Assign a task to a pod.
#[derive(Debug)]
pub struct Task {
    /// Text payload for the task (e.g., user message for a speaker pod).
    pub text: String,
    /// Optional channel/source identifier for routing responses back.
    pub channel: Option<String>,
}

impl Task {
    /// Create a simple text task.
    pub fn text(input: &str) -> (t: Task)
        ensures
            t.text@ == input@,
            t.channel is None,
    {
        Task { text: String::from_str(input), channel: None }
    }

    /// Create a task tied to a specific channel (e.g., a chat channel ID).
    pub fn chat(input: &str, channel: &str) -> (t: Task)
        ensures
            t.text@ == input@,
            t.channel matches Some(c) && c@ == channel@,
    {
        Task { text: String::from_str(input), channel: Some(String::from_str(channel)) }
    }
}

/// Result of processing a [`Task`].
///
/// If `reply_to` is set, the hive routes the response to that channel.
#[derive(Debug)]
pub struct TaskResult {
    /// Response text from the pod (e.g., chat reply).
    pub response: String,
    /// If set, hive should send this response back to the given channel.
    pub reply_to: Option<String>,
}

impl TaskResult {
    /// Create a simple text result with no routing.
    pub fn text(response: &str) -> (r: TaskResult)
        ensures
            r.response@ == response@,
            r.reply_to is None,
    {
        TaskResult { response: String::from_str(response), reply_to: None }
    }

    /// Create a result that routes back to a specific channel.
    pub fn reply(response: &str, channel: &str) -> (r: TaskResult)
        ensures
            r.response@ == response@,
            r.reply_to matches Some(c) && c@ == channel@,
    {
        TaskResult { response: String::from_str(response), reply_to: Some(String::from_str(channel)) }
    }
}

/// Why a pod could not do what the hive asked.
#[derive(Debug)]
pub struct PodError {
    pub message: String,
}

/// Metadata describing a pod type for hive registration.
#[derive(Debug)]
pub struct PodType {
    /// Unique type name (e.g., "planner", "summarizer", "code-gen").
    pub name: String,
}

/// Snapshot of a pod's current status.
#[derive(Debug)]
pub struct PodStatus;

/// A running pod handle used by the hive for lifecycle management.
#[derive(Debug)]
pub struct RunningPod;

/// Resource budget allocated to a pod type.
#[derive(Debug)]
pub struct ResourceBudget;

/// Trait that all pods implement to participate in a Hive runtime.
///
/// # Lifecycle
///
/// 1. `init`: called once before any tasks.
/// 2. `handle_task`: called for each incoming [`Task`].
/// 3. `shutdown`: called when the pod is killed or the system stops.
pub trait Pod {
    /// Initialize the pod before it begins processing tasks.
    fn init(&mut self) -> Result<(), PodError>;

    /// Process a single task and return its result.
    fn handle_task(&mut self, task: Task) -> Result<TaskResult, PodError>;

    /// Shut down the pod cleanly.
    fn shutdown(&mut self) -> Result<(), PodError>;

    /// Return metadata about this pod's type.
    fn pod_type(&self) -> PodType;
}

// ---------------------------------------------------------------------------
// Registry
// ---------------------------------------------------------------------------

/// Registry of the pod type names that the hive knows.
#[derive(Debug)]
pub struct PodRegistry {
    names: Vec<String>,
}

impl View for PodRegistry {
    type V = Set<Seq<char>>;

    closed spec fn view(&self) -> Set<Seq<char>> {
        self.name_seq().to_set()
    }
}

impl PodRegistry {
    /// The registered names, in increasing order.
    pub closed spec fn name_seq(&self) -> Seq<Seq<char>> {
        self.names@.map_values(|s: String| s@)
    }

    #[verifier::type_invariant]
    closed spec fn sorted(&self) -> bool {
        forall|a: int, b: int|
            0 <= a < b < self.names@.len() ==> lex_lt(#[trigger] self.names@[a]@, #[trigger] self.names@[b]@)
    }

    /// Create an empty registry.
    pub fn new() -> (r: PodRegistry)
        ensures
            r@ == Set::<Seq<char>>::empty(),
    {
        let r = PodRegistry { names: Vec::new() };
        assert(r.name_seq().to_set() =~= Set::<Seq<char>>::empty());
        r
    }

    /// Register a pod type by name. Registering a name twice keeps one.
    pub fn register(&mut self, pod_type_name: &str)
        ensures
            final(self)@ == old(self)@.insert(pod_type_name@),
    {
        proof {
            use_type_invariant(&*self);
        }
        let ghost old_seq = self.name_seq();
        let mut names: Vec<String> = Vec::new();
        std::mem::swap(&mut names, &mut self.names);
        assert(names@.map_values(|s: String| s@) == old_seq);
        let len = names.len();
        let mut p: usize = 0;
        while p < len && lex_less(names[p].as_str(), pod_type_name)
            invariant
                p <= len,
                len == names.len(),
                forall|q: int| 0 <= q < p ==> lex_lt(#[trigger] names@[q]@, pod_type_name@),
            decreases len - p,
        {
            p = p + 1;
        }
        if p < len && !lex_less(pod_type_name, names[p].as_str()) {
            proof {
                lemma_lex_total(names@[p as int]@, pod_type_name@);
                assert(names@[p as int]@ == pod_type_name@);
                assert(old_seq[p as int] == pod_type_name@);
                assert(old_seq.to_set().insert(pod_type_name@) =~= old_seq.to_set());
            }
        } else {
            let ghost before = names@;
            names.insert(p, String::from_str(pod_type_name));
            proof {
                assert forall|a: int, b: int|
                    0 <= a < b < names@.len() implies lex_lt(#[trigger] names@[a]@, #[trigger] names@[b]@) by {
                    if b == p as int {
                        assert(names@[a] == before[a]);
                    } else if a == p as int {
                        assert(names@[b] == before[b - 1]);
                        lemma_lex_total(before[p as int]@, pod_type_name@);
                        if b - 1 > p {
                            lemma_lex_transitive(pod_type_name@, before[p as int]@, before[b - 1]@);
                        }
                    } else if a < p {
                        assert(names@[a] == before[a]);
                        if b < p {
                            assert(names@[b] == before[b]);
                        } else {
                            assert(names@[b] == before[b - 1]);
                            lemma_lex_total(before[p as int]@, pod_type_name@);
                            lemma_lex_transitive(before[a]@, pod_type_name@, before[p as int]@);
                        }
                    } else {
                        assert(names@[a] == before[a - 1]);
                        assert(names@[b] == before[b - 1]);
                    }
                }
                let new_seq = names@.map_values(|s: String| s@);
                assert(new_seq =~= old_seq.insert(p as int, pod_type_name@));
                assert forall|x: Seq<char>| new_seq.to_set().contains(x) == old_seq.to_set().insert(
                    pod_type_name@,
                ).contains(x) by {
                    if old_seq.contains(x) {
                        let w = choose|w: int| 0 <= w < old_seq.len() && old_seq[w] == x;
                        if w < p {
                            assert(new_seq[w] == x);
                        } else {
                            assert(new_seq[w + 1] == x);
                        }
                    }
                    if new_seq.contains(x) && x != pod_type_name@ {
                        let w = choose|w: int| 0 <= w < new_seq.len() && new_seq[w] == x;
                        if w < p {
                            assert(old_seq[w] == x);
                        } else {
                            assert(old_seq[w - 1] == x);
                        }
                    }
                    if x == pod_type_name@ {
                        assert(new_seq[p as int] == x);
                    }
                }
                assert(new_seq.to_set() =~= old_seq.to_set().insert(pod_type_name@));
            }
        }
        self.names = names;
    }

    /// Look up a pod type by name: `Some(())` if it is registered.
    pub fn get(&self, pod_type_name: &str) -> (r: Option<()>)
        ensures
            r is Some <==> self@.contains(pod_type_name@),
    {
        let mut i: usize = 0;
        while i < self.names.len()
            invariant
                i <= self.names.len(),
                forall|q: int| 0 <= q < i ==> self.names@[q]@ != pod_type_name@,
            decreases self.names.len() - i,
        {
            if same_text(self.names[i].as_str(), pod_type_name) {
                assert(self.name_seq()[i as int] == pod_type_name@);
                return Some(());
            }
            i = i + 1;
        }
        proof {
            if self.name_seq().contains(pod_type_name@) {
                let w = choose|w: int| 0 <= w < self.name_seq().len() && self.name_seq()[w] == pod_type_name@;
                assert(self.names@[w]@ == pod_type_name@);
            }
        }
        None
    }

    /// Return all registered type names, in sorted order.
    pub fn type_names(&self) -> (res: Vec<String>)
        ensures
            res@.map_values(|s: String| s@) == self.name_seq(),
            forall|a: int, b: int| 0 <= a < b < res.len() ==> lex_lt(#[trigger] res@[a]@, #[trigger] res@[b]@),
            forall|x: Seq<char>| self@.contains(x) <==> exists|i: int| 0 <= i < res.len() && #[trigger] res@[i]@ == x,
    {
        proof {
            use_type_invariant(self);
        }
        let mut res: Vec<String> = Vec::new();
        let mut i: usize = 0;
        while i < self.names.len()
            invariant
                i <= self.names.len(),
                res.len() == i,
                forall|q: int| 0 <= q < i ==> #[trigger] res@[q]@ == self.names@[q]@,
            decreases self.names.len() - i,
        {
            res.push(self.names[i].clone());
            i = i + 1;
        }
        proof {
            assert(res@.map_values(|s: String| s@) =~= self.name_seq());
            assert forall|x: Seq<char>| self@.contains(x) implies exists|i: int|
                0 <= i < res.len() && #[trigger] res@[i]@ == x by {
                let w = choose|w: int| 0 <= w < self.name_seq().len() && self.name_seq()[w] == x;
                assert(res@[w]@ == x);
            }
            assert forall|x: Seq<char>| (exists|i: int| 0 <= i < res.len() && #[trigger] res@[i]@ == x) implies self@.contains(x) by {
                let w = choose|w: int| 0 <= w < res.len() && #[trigger] res@[w]@ == x;
                assert(self.name_seq()[w] == x);
            }
        }
        res
    }
}

/// The names a fresh registry holds after `register` was called with each
/// of `names` in turn.
pub open spec fn registered_after(names: Seq<Seq<char>>) -> Set<Seq<char>>
    decreases names.len(),
{
    if names.len() == 0 {
        Set::empty()
    } else {
        registered_after(names.drop_last()).insert(names.last())
    }
}

/// A registry lists exactly the names registered in it: after
/// registering `names` in any order, with repeats, it holds the set of
/// those names (none after no registration), which `type_names` lists in
/// increasing order without repeats.
pub proof fn lemma_registry_holds_registered(names: Seq<Seq<char>>)
    ensures
        registered_after(names) == names.to_set(),
    decreases names.len(),
{
    if names.len() == 0 {
        assert(names.to_set() =~= Set::<Seq<char>>::empty());
    } else {
        let init = names.drop_last();
        lemma_registry_holds_registered(init);
        assert forall|x: Seq<char>| names.to_set().contains(x) == init.to_set().insert(names.last()).contains(x) by {
            if names.contains(x) && x != names.last() {
                let w = choose|w: int| 0 <= w < names.len() && names[w] == x;
                assert(init[w] == x);
            }
            if init.contains(x) {
                let w = choose|w: int| 0 <= w < init.len() && init[w] == x;
                assert(names[w] == x);
            }
            if x == names.last() {
                assert(names[names.len() - 1] == x);
            }
        }
        assert(names.to_set() =~= init.to_set().insert(names.last()));
    }
}

/// Registering a name twice leaves the registry as registering it once.
pub proof fn lemma_register_idempotent(names: Set<Seq<char>>, name: Seq<char>)
    ensures
        names.insert(name).insert(name) == names.insert(name),
{
    assert(names.insert(name).insert(name) =~= names.insert(name));
}

} // verus!
