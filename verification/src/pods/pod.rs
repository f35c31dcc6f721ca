//! An evolving pod: it carries a genome and breeds mutated offspring.
use crate::link::{PodConfig, PodMessage, PodResponse};
use crate::pods::genome::{after_flips, draws_fit, drawn_genome, flip_fits, Genome, GenomeView};
use crate::text::{decimal, decimal_text};
use vstd::prelude::*;

verus! {

/// Primary inputs of a pod's genome.
pub const N_INPUTS: usize = 1;

/// Nodes in a pod's genome.
pub const N_NODES: usize = 8;

/// Output pointers of a pod's genome.
pub const N_OUTPUTS: usize = 1;

/// Functions in a pod's function set.
pub const N_FUNCS: usize = 4;

/// Seed of the generator that draws the genome of a new pod.
pub const GENESIS_SEED: u64 = 18;

/// Genes that one round of breeding flips.
pub const BREED_FLIPS: usize = 3;

/// An evolving pod.
#[derive(Debug)]
pub struct Pod {
    pub genome: Genome,
    pub generation: u32,
}

/// The reply of a pod to a query: `[Pod gen=G active=A/T] Q`.
pub open spec fn query_reply(generation: nat, active: nat, total: nat, query: Seq<char>) -> Seq<char> {
    "[Pod gen="@ + decimal(generation) + " active="@ + decimal(active) + "/"@ + decimal(total) + "] "@
        + query
}

impl Pod {
    /// A first-generation pod with a random genome of `N_INPUTS` inputs,
    /// `N_NODES` nodes and `N_OUTPUTS` outputs over `N_FUNCS` functions,
    /// drawn from the fixed seed `GENESIS_SEED`.
    pub fn new(config: PodConfig) -> (p: Pod)
        ensures
            p.generation == 0,
            p.genome.n_inputs == N_INPUTS,
            p.genome.arity == 2,
            p.genome.nodes.len() == N_NODES,
            p.genome.outputs.len() == N_OUTPUTS,
            p.genome@.well_formed(N_FUNCS as nat),
            p.genome@.can_mutate(),
            exists|d: Seq<usize>|
                d.len() == 3 * N_NODES + N_OUTPUTS && draws_fit(N_INPUTS, N_NODES as nat, N_FUNCS as nat, d)
                    && p.genome@ == #[trigger] drawn_genome(N_INPUTS, N_NODES as nat, d),
    {
        let genome = Genome::random(N_INPUTS, N_NODES, N_OUTPUTS, N_FUNCS, GENESIS_SEED);
        proof {
            let g = genome@;
            assert forall|i: int| 0 <= i < g.nodes.len() implies #[trigger] g.nodes[i].inputs.len()
                >= g.arity by {
                assert(g.nodes[i].inputs.len() == g.arity);
            }
        }
        Pod { genome, generation: 0 }
    }

    /// The next generation: the genome mutated by `BREED_FLIPS` gene flips
    /// drawn from `seed`, the generation one higher.
    pub fn breed(&self, seed: u64) -> (child: Pod)
        requires
            self.generation < u32::MAX,
            self.genome@.can_mutate(),
        ensures
            child.generation == self.generation + 1,
            child.genome@.is_mutation_of(self.genome@, BREED_FLIPS as nat, N_FUNCS as nat),
            child.genome@.can_mutate(),
            self.genome@.well_formed(N_FUNCS as nat) ==> child.genome@.well_formed(
                N_FUNCS as nat,
            ),
            exists|flips: Seq<(int, bool, usize, int)>|
                flips.len() == BREED_FLIPS && (forall|j: int|
                    0 <= j < BREED_FLIPS ==> #[trigger] flip_fits(self.genome@, flips[j], N_FUNCS as nat))
                    && child.genome@ == #[trigger] after_flips(self.genome@, flips),
    {
        let genome = self.genome.mutate(BREED_FLIPS, N_FUNCS, seed);
        proof {
            let g = genome@;
            let p = self.genome@;
            assert forall|i: int| 0 <= i < g.nodes.len() implies #[trigger] g.nodes[i].inputs.len()
                >= g.arity by {
                assert(p.nodes[i].inputs.len() >= p.arity);
            }
        }
        Pod { genome, generation: self.generation + 1 }
    }

    /// Answer a message: a query is echoed behind the pod's generation and
    /// the count of active nodes out of all nodes; any other message gets
    /// `No Query`.
    pub fn handle(&mut self, msg: PodMessage) -> (r: PodResponse)
        ensures
            final(self).genome@ == old(self).genome@,
            final(self).generation == old(self).generation,
            match msg {
                PodMessage::Query(q) => r matches PodResponse::Response(text) && text@ == query_reply(
                    old(self).generation as nat,
                    old(self).genome@.active_count(),
                    old(self).genome.nodes.len() as nat,
                    q@,
                ),
                _ => r matches PodResponse::Response(text) && text@ == "No Query"@,
            },
    {
        match msg {
            PodMessage::Query(q) => {
                let active = self.genome.active_nodes().len();
                let total = self.genome.nodes.len();
                let mut text = String::from_str("[Pod gen=");
                text.append(decimal_text(self.generation as u64).as_str());
                text.append(" active=");
                text.append(decimal_text(active as u64).as_str());
                text.append("/");
                text.append(decimal_text(total as u64).as_str());
                text.append("] ");
                text.append(q.as_str());
                PodResponse::Response(text)
            },
            _ => PodResponse::Response(String::from_str("No Query")),
        }
    }
}

} // verus!
