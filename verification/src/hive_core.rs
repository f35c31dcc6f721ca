//! Hive core: the decisions of the hive's command loop.
//!
//! The loop itself (channels, actors, awaiting replies) runs outside the
//! library. For each command it receives, it asks [`HiveState::step`] what
//! to do, performs the step, and turns the replies of the ping actor into
//! events with [`ping_events`].
use crate::link::PodConfig;
use crate::pods::ping::PingResponses;
use crate::pods::pod::{Pod, N_FUNCS, N_INPUTS, N_NODES, N_OUTPUTS};
use crate::text::{decimal, decimal_text, lemma_decimal_injective};
use vstd::prelude::*;

verus! {

/// A command sent to the hive.
#[derive(Clone, Debug)]
pub enum HiveCommand {
    /// Ask the ping actor for a ping and a pong.
    Ping,
    /// Add a query to the queue that pods work from.
    Submit(String),
    /// Spawn a new pod.
    SpawnPod(PodConfig),
}

/// An event the hive broadcasts to its subscribers.
#[derive(Clone, Debug)]
pub struct HiveResponse {
    pub text: String,
}

/// What the loop has to do for a command.
#[derive(Debug)]
pub enum HiveStep {
    /// Send `Ping` and `Pong` to the ping actor and broadcast the events
    /// that [`ping_events`] makes of the two replies.
    AskPing,
    /// Start `pod` as an actor under identifier `id` and broadcast `event`.
    StartPod { id: u64, pod: Pod, event: HiveResponse },
    /// The query was queued; nothing else to do.
    Queued,
}

/// The state of the hive's command loop: the identifier the next pod gets
/// and the queue of submitted queries.
#[derive(Debug)]
pub struct HiveState {
    next_id: u64,
    queue: Vec<String>,
}

/// The event announcing pod `id`: `spawned pod <id>`.
pub open spec fn spawned_text(id: nat) -> Seq<char> {
    "spawned pod "@ + decimal(id)
}

/// The event text for one reply of the ping actor.
pub open spec fn reply_text_spec(label: Seq<char>, reply: Result<PingResponses, String>) -> Seq<char> {
    match reply {
        Ok(PingResponses::GotPing) => label + ": GotPing"@,
        Ok(PingResponses::GotPong) => label + ": GotPong"@,
        Err(e) => label + " error: "@ + e@,
    }
}

impl HiveState {
    /// A fresh loop: no pods spawned, no queries queued.
    pub fn new() -> (s: HiveState)
        ensures
            s.next_id() == 0,
            s.queued() == Seq::<Seq<char>>::empty(),
    {
        let s = HiveState { next_id: 0, queue: Vec::new() };
        assert(s.queued() =~= Seq::<Seq<char>>::empty());
        s
    }

    /// The identifier the next spawned pod gets.
    pub closed spec fn next_id(&self) -> nat {
        self.next_id as nat
    }

    /// The queued queries, oldest first.
    pub closed spec fn queued(&self) -> Seq<Seq<char>> {
        self.queue@.map_values(|q: String| q@)
    }

    /// Whether another pod can get an identifier.
    pub fn can_spawn(&self) -> (r: bool)
        ensures
            r == (self.next_id() < u64::MAX),
    {
        self.next_id < u64::MAX
    }

    /// Take the oldest queued query, for a pod to work on.
    pub fn take_query(&mut self) -> (r: Option<String>)
        ensures
            old(self).queued().len() == 0 ==> r is None && final(self).queued() == old(self).queued(),
            old(self).queued().len() > 0 ==> (r matches Some(q) && q@ == old(self).queued()[0])
                && final(self).queued() == old(self).queued().drop_first(),
            final(self).next_id() == old(self).next_id(),
    {
        if self.queue.len() == 0 {
            return None;
        }
        let q = self.queue.remove(0);
        assert(self.queued() =~= old(self).queued().drop_first());
        Some(q)
    }

    /// Decide what to do for `cmd`.
    ///
    /// - `Ping`: ask the ping actor.
    /// - `SpawnPod`: a new pod gets the next identifier, which then moves
    ///   on by one, and the event `spawned pod <id>` is broadcast.
    /// - `Submit`: the query joins the end of the queue.
    pub fn step(&mut self, cmd: HiveCommand) -> (r: HiveStep)
        requires
            cmd is SpawnPod ==> old(self).next_id() < u64::MAX,
        ensures
            match cmd {
                HiveCommand::Ping => r is AskPing && final(self).next_id() == old(self).next_id()
                    && final(self).queued() == old(self).queued(),
                HiveCommand::Submit(q) => r is Queued && final(self).next_id() == old(self).next_id()
                    && final(self).queued() == old(self).queued().push(q@),
                HiveCommand::SpawnPod(_) => (r matches HiveStep::StartPod { id, pod, event } && id
                    == old(self).next_id() && event.text@ == spawned_text(id as nat)
                    && pod.generation == 0 && pod.genome@.well_formed(N_FUNCS as nat)
                    && pod.genome.n_inputs == N_INPUTS && pod.genome.arity == 2
                    && pod.genome.nodes.len() == N_NODES && pod.genome.outputs.len() == N_OUTPUTS
                    && pod.genome@.can_mutate())
                    && final(self).next_id() == old(self).next_id() + 1 && final(self).queued()
                    == old(self).queued(),
            },
    {
        match cmd {
            HiveCommand::Ping => HiveStep::AskPing,
            HiveCommand::Submit(q) => {
                self.queue.push(q);
                assert(self.queued() =~= old(self).queued().push(q@));
                HiveStep::Queued
            },
            HiveCommand::SpawnPod(config) => {
                let id = self.next_id;
                let pod = Pod::new(config);
                let mut text = String::from_str("spawned pod ");
                text.append(decimal_text(id).as_str());
                self.next_id = id + 1;
                HiveStep::StartPod { id, pod, event: HiveResponse { text } }
            },
        }
    }
}

/// Pod identifiers count up from 0 and are never given twice: when the
/// identifiers `ids` of consecutive spawns start at a fresh loop's 0 and
/// each is one more than the one before, as [`HiveState::step`] gives
/// them, the `j`-th spawned pod has identifier `j`, and no two spawn
/// events carry the same text.
pub proof fn lemma_spawn_ids_count_up(ids: Seq<nat>)
    requires
        ids.len() > 0 ==> ids[0] == 0,
        forall|j: int| 0 <= j < ids.len() - 1 ==> #[trigger] ids[j + 1] == ids[j] + 1,
    ensures
        forall|j: int| 0 <= j < ids.len() ==> #[trigger] ids[j] == j,
        forall|a: int, b: int|
            0 <= a < ids.len() && 0 <= b < ids.len() && a != b ==> spawned_text(#[trigger] ids[a])
                != spawned_text(#[trigger] ids[b]),
{
    lemma_ids_count_up(ids, ids.len() as int);
    assert forall|a: int, b: int|
        0 <= a < ids.len() && 0 <= b < ids.len() && a != b implies spawned_text(#[trigger] ids[a])
        != spawned_text(#[trigger] ids[b]) by {
        if spawned_text(ids[a]) == spawned_text(ids[b]) {
            let pre = "spawned pod "@;
            assert(spawned_text(ids[a]).subrange(pre.len() as int, spawned_text(ids[a]).len() as int)
                =~= decimal(ids[a]));
            assert(spawned_text(ids[b]).subrange(pre.len() as int, spawned_text(ids[b]).len() as int)
                =~= decimal(ids[b]));
            lemma_decimal_injective(ids[a], ids[b]);
        }
    }
}

proof fn lemma_ids_count_up(ids: Seq<nat>, n: int)
    requires
        0 <= n <= ids.len(),
        ids.len() > 0 ==> ids[0] == 0,
        forall|j: int| 0 <= j < ids.len() - 1 ==> #[trigger] ids[j + 1] == ids[j] + 1,
    ensures
        forall|j: int| 0 <= j < n ==> #[trigger] ids[j] == j,
    decreases n,
{
    if n > 0 {
        lemma_ids_count_up(ids, n - 1);
        if n > 1 {
            assert(ids[(n - 2) + 1] == ids[n - 2] + 1);
        }
    }
}

/// The event text for one reply of the ping actor: `<label>: GotPing`,
/// `<label>: GotPong`, or `<label> error: <message>` when the reply could
/// not be had.
pub fn reply_text(label: &str, reply: &Result<PingResponses, String>) -> (s: String)
    ensures
        s@ == reply_text_spec(label@, *reply),
{
    let mut s = String::from_str(label);
    match reply {
        Ok(PingResponses::GotPing) => s.append(": GotPing"),
        Ok(PingResponses::GotPong) => s.append(": GotPong"),
        Err(e) => {
            s.append(" error: ");
            s.append(e.as_str());
        },
    }
    s
}

/// The two events of a `Ping` command: the reply to `Ping`, labelled
/// `Ping`, then the reply to `Pong`, labelled `Pong`.
pub fn ping_events(ping: Result<PingResponses, String>, pong: Result<PingResponses, String>) -> (r: Vec<HiveResponse>)
    ensures
        r.len() == 2,
        r@[0].text@ == reply_text_spec("Ping"@, ping),
        r@[1].text@ == reply_text_spec("Pong"@, pong),
{
    let mut r: Vec<HiveResponse> = Vec::new();
    r.push(HiveResponse { text: reply_text("Ping", &ping) });
    r.push(HiveResponse { text: reply_text("Pong", &pong) });
    r
}

} // verus!
