//! Cartesian genetic programming genome carried by evolving pods.
//!
//! A genome is a fixed grid of nodes. The value table of a genome holds the
//! primary inputs first (indices `0..n_inputs`) and then one value per node
//! (index `n_inputs + i` for node `i`). Every node reads `arity` entries of
//! that table and applies one function of the pod's function set; the
//! output pointers name the table entries that form the genome's result.
use rand::rngs::SmallRng;
use rand::{RngExt, SeedableRng};
use vstd::prelude::*;

verus! {

// ---------------------------------------------------------------------------
// Random numbers (rand's SmallRng)
// ---------------------------------------------------------------------------

#[verifier::external_type_specification]
#[verifier::external_body]
pub struct ExSmallRng(SmallRng);

/// Calls `SmallRng::seed_from_u64`. Nothing is claimed of the generator
/// that comes back: its stream differs between platforms and versions.
#[verifier::external_body]
fn seeded_rng(seed: u64) -> (rng: SmallRng) {
    SmallRng::seed_from_u64(seed)
}

/// Calls `RngExt::random_range` on the half-open range `lo..hi`. rand
/// documents that the sample lies in the range and that an empty range
/// panics, which `requires` rules out. Which value comes is left open.
#[verifier::external_body]
fn random_below(rng: &mut SmallRng, lo: usize, hi: usize) -> (r: usize)
    requires
        lo < hi,
    ensures
        lo <= r < hi,
{
    rng.random_range(lo..hi)
}

/// Calls `RngExt::random_ratio`, a coin with `numerator` chances in
/// `denominator`. rand documents that it panics unless
/// `0 < denominator` and `numerator <= denominator`, that equal arguments
/// always give `true` and a zero numerator always gives `false`. Any other
/// outcome is left open.
#[verifier::external_body]
fn random_ratio(rng: &mut SmallRng, numerator: u32, denominator: u32) -> (r: bool)
    requires
        0 < denominator,
        numerator <= denominator,
    ensures
        numerator == denominator ==> r,
        numerator == 0 ==> !r,
{
    rng.random_ratio(numerator, denominator)
}

// ---------------------------------------------------------------------------
// Data and its model
// ---------------------------------------------------------------------------

/// A single node in the CGP grid.
/// `func` indexes into the pod's function set.
/// `inputs` are value-table indices (primary inputs first, then nodes).
#[derive(Clone, Debug)]
pub struct Node {
    pub func: usize,
    pub inputs: Vec<usize>,
}

/// The mathematical content of a [`Node`].
pub struct NodeView {
    pub func: usize,
    pub inputs: Seq<usize>,
}

impl View for Node {
    type V = NodeView;

    open spec fn view(&self) -> NodeView {
        NodeView { func: self.func, inputs: self.inputs@ }
    }
}

/// The genome: a fixed grid of nodes plus output pointers.
#[derive(Clone, Debug)]
pub struct Genome {
    pub nodes: Vec<Node>,
    /// Value-table indices pointing to active outputs.
    pub outputs: Vec<usize>,
    pub n_inputs: usize,
    /// Inputs per node (uniform for now).
    pub arity: usize,
}

/// The mathematical content of a [`Genome`].
pub struct GenomeView {
    pub nodes: Seq<NodeView>,
    pub outputs: Seq<usize>,
    pub n_inputs: usize,
    pub arity: usize,
}

impl View for Genome {
    type V = GenomeView;

    open spec fn view(&self) -> GenomeView {
        GenomeView {
            nodes: self.nodes@.map_values(|n: Node| n@),
            outputs: self.outputs@,
            n_inputs: self.n_inputs,
            arity: self.arity,
        }
    }
}

/// The exclusive upper bound on the value-table index that node `i` may
/// read: `max(n_inputs + i, 1)`.
pub open spec fn source_bound(n_inputs: usize, i: int) -> int {
    if n_inputs + i >= 1 {
        n_inputs + i
    } else {
        1
    }
}

/// Number of `false` entries of a sequence.
pub open spec fn count_false(s: Seq<bool>) -> nat
    decreases s.len(),
{
    if s.len() == 0 {
        0
    } else {
        count_false(s.drop_last()) + if s.last() {
            0nat
        } else {
            1nat
        }
    }
}

/// The node built from the draws for node `i`: its function, then the
/// sources of its two inputs.
pub open spec fn drawn_node(draws: Seq<usize>, i: int) -> NodeView {
    NodeView { func: draws[3 * i], inputs: seq![draws[3 * i + 1], draws[3 * i + 2]] }
}

/// The genome built from `draws`: three draws per node (function, first
/// source, second source), then one draw per output pointer.
pub open spec fn drawn_genome(n_inputs: usize, n_nodes: nat, draws: Seq<usize>) -> GenomeView {
    GenomeView {
        nodes: Seq::new(n_nodes, |i: int| drawn_node(draws, i)),
        outputs: draws.subrange((3 * n_nodes) as int, draws.len() as int),
        n_inputs,
        arity: 2,
    }
}

/// Every draw lies in the range [`Genome::random`] draws it from: a
/// function below `n_funcs`, a source of node `i` below
/// `source_bound(n_inputs, i)`, an output pointer naming a node.
pub open spec fn draws_fit(n_inputs: usize, n_nodes: nat, n_funcs: nat, draws: Seq<usize>) -> bool {
    &&& forall|i: int| 0 <= i < n_nodes ==> #[trigger] drawn_node(draws, i).func < n_funcs
    &&& forall|i: int| 0 <= i < n_nodes ==> #[trigger] drawn_node(draws, i).inputs[0] < source_bound(n_inputs, i)
        && drawn_node(draws, i).inputs[1] < source_bound(n_inputs, i)
    &&& forall|k: int| 3 * n_nodes <= k < draws.len() ==> n_inputs <= #[trigger] draws[k] < n_inputs + n_nodes
}

/// Node `n` after one gene flip: a new function `value` when `coin`
/// comes up, else `value` as the new source of input slot `slot`.
pub open spec fn flipped(n: NodeView, coin: bool, value: usize, slot: int) -> NodeView {
    if coin {
        NodeView { func: value, inputs: n.inputs }
    } else {
        NodeView { func: n.func, inputs: n.inputs.update(slot, value) }
    }
}

/// `g` after one gene flip of node `node` (see [`flipped`]); every other
/// node, the outputs and the parameters stay as they are.
pub open spec fn flip_view(g: GenomeView, node: int, coin: bool, value: usize, slot: int) -> GenomeView {
    GenomeView { nodes: g.nodes.update(node, flipped(g.nodes[node], coin, value, slot)), ..g }
}

/// A flip `(node, coin, value, slot)` as [`Genome::mutate`] draws it for
/// `g`: a node of the grid, then a function below `n_funcs`, or an input
/// slot below the arity and a source below `source_bound`.
pub open spec fn flip_fits(g: GenomeView, f: (int, bool, usize, int), n_funcs: nat) -> bool {
    &&& 0 <= f.0 < g.nodes.len()
    &&& f.1 ==> f.2 < n_funcs
    &&& !f.1 ==> 0 <= f.3 < g.arity && f.2 < source_bound(g.n_inputs, f.0)
}

/// `g` after the flips `flips`, in order.
pub open spec fn after_flips(g: GenomeView, flips: Seq<(int, bool, usize, int)>) -> GenomeView
    decreases flips.len(),
{
    if flips.len() == 0 {
        g
    } else {
        let f = flips.last();
        flip_view(after_flips(g, flips.drop_last()), f.0, f.1, f.2, f.3)
    }
}

impl GenomeView {
    /// Node `i` is named by one of the output pointers.
    pub open spec fn is_seed(self, i: int) -> bool {
        &&& 0 <= i < self.nodes.len()
        &&& exists|k: int|
            0 <= k < self.outputs.len() && self.outputs[k] >= self.n_inputs && self.outputs[k]
                - self.n_inputs == i
    }

    /// Node `i` reads the value of node `j` through one of its inputs.
    pub open spec fn is_edge(self, i: int, j: int) -> bool {
        &&& 0 <= i < self.nodes.len()
        &&& 0 <= j < self.nodes.len()
        &&& exists|s: int|
            0 <= s < self.nodes[i].inputs.len() && self.nodes[i].inputs[s] >= self.n_inputs
                && self.nodes[i].inputs[s] - self.n_inputs == j
    }

    /// Every step of `p` follows an input of the node it leaves.
    pub open spec fn follows_edges(self, p: Seq<int>) -> bool
        decreases p.len(),
    {
        if p.len() <= 1 {
            true
        } else {
            self.follows_edges(p.drop_last()) && self.is_edge(p[p.len() - 2], p.last())
        }
    }

    /// `p` starts at an output node and walks backwards along inputs.
    pub open spec fn is_path(self, p: Seq<int>) -> bool {
        &&& p.len() > 0
        &&& self.is_seed(p[0])
        &&& self.follows_edges(p)
    }

    /// Node `i` is active: it is reachable from an output pointer.
    pub open spec fn is_active(self, i: int) -> bool {
        exists|p: Seq<int>| #[trigger] self.is_path(p) && p.last() == i
    }

    /// The shape a genome produced for a function set of `n_funcs`
    /// functions has: every function index is in range, every node has
    /// `arity` inputs that only read primary inputs or earlier nodes
    /// (below `source_bound`), and every output pointer names a node.
    pub open spec fn well_formed(self, n_funcs: nat) -> bool {
        &&& forall|i: int| 0 <= i < self.nodes.len() ==> #[trigger] self.nodes[i].func < n_funcs
        &&& forall|i: int|
            0 <= i < self.nodes.len() ==> #[trigger] self.nodes[i].inputs.len() == self.arity
        &&& forall|i: int, s: int|
            0 <= i < self.nodes.len() && 0 <= s < self.nodes[i].inputs.len()
                ==> #[trigger] self.nodes[i].inputs[s] < source_bound(self.n_inputs, i)
        &&& forall|k: int|
            0 <= k < self.outputs.len() ==> self.n_inputs <= #[trigger] self.outputs[k]
                < self.n_inputs + self.nodes.len()
    }

    /// The genes in which `other` differs from `self`: `(i, -1)` for the
    /// function of node `i`, `(i, s)` for its input slot `s`.
    pub open spec fn changed_genes(self, other: GenomeView) -> Set<(int, int)> {
        Set::new(
            |p: (int, int)|
                0 <= p.0 < self.nodes.len() && ((p.1 == -1 && self.nodes[p.0].func
                    != other.nodes[p.0].func) || (0 <= p.1 < self.nodes[p.0].inputs.len()
                    && self.nodes[p.0].inputs[p.1] != other.nodes[p.0].inputs[p.1])),
        )
    }

    /// `self` came from `parent` by at most `n` gene flips as
    /// [`Genome::mutate`] makes them for a function set of `n_funcs`
    /// functions: same shape and outputs, every changed function below
    /// `n_funcs`, every changed input below `source_bound`.
    pub open spec fn is_mutation_of(self, parent: GenomeView, n: nat, n_funcs: nat) -> bool {
        &&& self.nodes.len() == parent.nodes.len()
        &&& self.outputs == parent.outputs
        &&& self.n_inputs == parent.n_inputs
        &&& self.arity == parent.arity
        &&& forall|i: int|
            0 <= i < parent.nodes.len() ==> #[trigger] self.nodes[i].inputs.len()
                == parent.nodes[i].inputs.len()
        &&& forall|i: int|
            0 <= i < parent.nodes.len() ==> #[trigger] self.nodes[i].func == parent.nodes[i].func
                || self.nodes[i].func < n_funcs
        &&& forall|i: int, s: int|
            0 <= i < parent.nodes.len() && 0 <= s < parent.nodes[i].inputs.len()
                ==> #[trigger] self.nodes[i].inputs[s] == parent.nodes[i].inputs[s]
                || self.nodes[i].inputs[s] < source_bound(parent.n_inputs, i)
        &&& parent.changed_genes(self).finite()
        &&& parent.changed_genes(self).len() <= n
    }

    /// The conditions under which [`Genome::mutate`] can flip genes
    /// without panicking: there is a node to pick, an input slot to pick in
    /// every node, and the value-table index of every node fits in a
    /// `usize`.
    pub open spec fn can_mutate(self) -> bool {
        &&& self.n_inputs + self.nodes.len() - 1 <= usize::MAX
        &&& self.nodes.len() > 0
        &&& self.arity > 0
        &&& forall|i: int| 0 <= i < self.nodes.len() ==> #[trigger] self.nodes[i].inputs.len() >= self.arity
    }

    /// Number of active nodes below `k`.
    pub open spec fn active_below(self, k: int) -> nat
        decreases k,
    {
        if k <= 0 {
            0
        } else {
            self.active_below(k - 1) + if self.is_active(k - 1) {
                1nat
            } else {
                0nat
            }
        }
    }

    /// Number of active nodes.
    pub open spec fn active_count(self) -> nat {
        self.active_below(self.nodes.len() as int)
    }

    /// The genes of `self` that lie on the grid: every function and every
    /// input slot.
    pub open spec fn all_genes(self) -> Set<(int, int)> {
        Set::new(
            |p: (int, int)|
                0 <= p.0 < self.nodes.len() && (p.1 == -1 || 0 <= p.1
                    < self.nodes[p.0].inputs.len()),
        )
    }
}

// ---------------------------------------------------------------------------
// Lemmas
// ---------------------------------------------------------------------------

proof fn lemma_count_false_update(s: Seq<bool>, i: int)
    requires
        0 <= i < s.len(),
        !s[i],
    ensures
        count_false(s.update(i, true)) < count_false(s),
    decreases s.len(),
{
    let t = s.update(i, true);
    if i == s.len() - 1 {
        assert(t.drop_last() =~= s.drop_last());
    } else {
        assert(t.drop_last() =~= s.drop_last().update(i, true));
        lemma_count_false_update(s.drop_last(), i);
    }
}

proof fn lemma_path_extend(g: GenomeView, p: Seq<int>, j: int)
    requires
        g.is_path(p),
        g.is_edge(p.last(), j),
    ensures
        g.is_path(p.push(j)),
        p.push(j).last() == j,
{
    assert(p.push(j).drop_last() =~= p);
}

/// A set of nodes that holds every output node and is closed under
/// inputs holds every active node.
proof fn lemma_closed_holds_path(g: GenomeView, act: Seq<bool>, p: Seq<int>)
    requires
        act.len() == g.nodes.len(),
        forall|i: int| #[trigger] g.is_seed(i) ==> act[i],
        forall|i: int, j: int| 0 <= i < act.len() && act[i] && #[trigger] g.is_edge(i, j) ==> act[j],
        g.is_path(p),
    ensures
        0 <= p.last() < act.len(),
        act[p.last()],
    decreases p.len(),
{
    if p.len() == 1 {
        assert(g.is_seed(p[0]));
    } else {
        let q = p.drop_last();
        assert(q[0] == p[0]);
        assert(g.is_path(q));
        lemma_closed_holds_path(g, act, q);
        assert(g.is_edge(q.last(), p.last()));
    }
}

/// An output node is active.
pub proof fn lemma_seed_is_active(g: GenomeView, i: int)
    requires
        g.is_seed(i),
    ensures
        g.is_active(i),
{
    let p = seq![i];
    assert(g.is_path(p));
}

/// Every output pointer that names a node names an active node.
pub proof fn lemma_outputs_are_active(g: GenomeView, k: int)
    requires
        0 <= k < g.outputs.len(),
        g.n_inputs <= g.outputs[k] < g.n_inputs + g.nodes.len(),
    ensures
        g.is_active(g.outputs[k] - g.n_inputs),
{
    assert(g.is_seed(g.outputs[k] - g.n_inputs));
    lemma_seed_is_active(g, g.outputs[k] - g.n_inputs);
}

/// The nodes that an active node reads are active too.
pub proof fn lemma_active_closed_under_inputs(g: GenomeView, i: int, j: int)
    requires
        g.is_active(i),
        g.is_edge(i, j),
    ensures
        g.is_active(j),
{
    let p = choose|p: Seq<int>| #[trigger] g.is_path(p) && p.last() == i;
    lemma_path_extend(g, p, j);
    assert(g.is_path(p.push(j)));
}

/// In a well-formed genome with at least one primary input, every node
/// reads only strictly earlier nodes, so the grid holds no cycle.
pub proof fn lemma_well_formed_edges_point_back(g: GenomeView, n_funcs: nat, i: int, j: int)
    requires
        g.well_formed(n_funcs),
        g.n_inputs >= 1,
        g.is_edge(i, j),
    ensures
        j < i,
{
    let s = choose|s: int|
        0 <= s < g.nodes[i].inputs.len() && g.nodes[i].inputs[s] >= g.n_inputs
            && g.nodes[i].inputs[s] - g.n_inputs == j;
    assert(g.nodes[i].inputs[s] < source_bound(g.n_inputs, i));
}

/// `g2` has the wiring of `g1` (the same nodes with the same inputs, the
/// same primary inputs) and names at least the nodes `g1`'s outputs name.
pub open spec fn wiring_covers(g1: GenomeView, g2: GenomeView) -> bool {
    &&& g1.nodes.len() == g2.nodes.len()
    &&& g1.n_inputs == g2.n_inputs
    &&& forall|i: int| 0 <= i < g1.nodes.len() ==> #[trigger] g1.nodes[i].inputs == g2.nodes[i].inputs
    &&& forall|k: int| 0 <= k < g1.outputs.len() ==> #[trigger] g2.outputs.contains(g1.outputs[k])
}

/// Two genomes with the same wiring follow the same paths.
proof fn lemma_same_wiring_follows(g1: GenomeView, g2: GenomeView, p: Seq<int>)
    requires
        wiring_covers(g1, g2),
        g1.follows_edges(p),
    ensures
        g2.follows_edges(p),
    decreases p.len(),
{
    if p.len() > 1 {
        lemma_same_wiring_follows(g1, g2, p.drop_last());
        let i = p[p.len() - 2];
        let j = p.last();
        let s = choose|s: int|
            0 <= s < g1.nodes[i].inputs.len() && g1.nodes[i].inputs[s] >= g1.n_inputs
                && g1.nodes[i].inputs[s] - g1.n_inputs == j;
        assert(g1.nodes[i].inputs == g2.nodes[i].inputs);
        assert(g2.is_edge(i, j));
    }
}

/// Adding output pointers never makes a node inactive, and the node
/// functions play no part: a genome whose wiring covers `g1`'s keeps
/// every node of `g1` active.
pub proof fn lemma_active_monotone_in_outputs(g1: GenomeView, g2: GenomeView, i: int)
    requires
        wiring_covers(g1, g2),
        g1.is_active(i),
    ensures
        g2.is_active(i),
{
    let p = choose|p: Seq<int>| #[trigger] g1.is_path(p) && p.last() == i;
    lemma_same_wiring_follows(g1, g2, p);
    let k = choose|k: int|
        0 <= k < g1.outputs.len() && g1.outputs[k] >= g1.n_inputs && g1.outputs[k] - g1.n_inputs == p[0];
    assert(g2.outputs.contains(g1.outputs[k]));
    let k2 = choose|k2: int| 0 <= k2 < g2.outputs.len() && g2.outputs[k2] == g1.outputs[k];
    assert(g2.is_seed(p[0]));
    assert(g2.is_path(p));
}

/// Which nodes are active depends only on the wiring: two genomes with the
/// same inputs in every node and outputs naming the same values, in any
/// order or repetition, have the same active nodes, whatever their node
/// functions.
pub proof fn lemma_active_depends_on_wiring(g1: GenomeView, g2: GenomeView)
    requires
        wiring_covers(g1, g2),
        wiring_covers(g2, g1),
    ensures
        forall|i: int| #[trigger] g1.is_active(i) == g2.is_active(i),
        forall|k: int| #[trigger] g1.active_below(k) == g2.active_below(k),
        g1.active_count() == g2.active_count(),
{
    assert forall|i: int| #[trigger] g1.is_active(i) == g2.is_active(i) by {
        if g1.is_active(i) {
            lemma_active_monotone_in_outputs(g1, g2, i);
        }
        if g2.is_active(i) {
            lemma_active_monotone_in_outputs(g2, g1, i);
        }
    }
    assert forall|k: int| #[trigger] g1.active_below(k) == g2.active_below(k) by {
        lemma_active_below_equal(g1, g2, k);
    }
}

proof fn lemma_active_below_equal(g1: GenomeView, g2: GenomeView, k: int)
    requires
        forall|i: int| #[trigger] g1.is_active(i) == g2.is_active(i),
    ensures
        g1.active_below(k) == g2.active_below(k),
    decreases k,
{
    if k > 0 {
        lemma_active_below_equal(g1, g2, k - 1);
        assert(g1.is_active(k - 1) == g2.is_active(k - 1));
    }
}

// ---------------------------------------------------------------------------
// Operations
// ---------------------------------------------------------------------------

impl Node {
    /// A node with the same function and inputs.
    pub fn duplicate(&self) -> (r: Node)
        ensures
            r@ == self@,
    {
        let mut inputs: Vec<usize> = Vec::new();
        let mut s: usize = 0;
        while s < self.inputs.len()
            invariant
                s <= self.inputs.len(),
                inputs@ =~= self.inputs@.subrange(0, s as int),
            decreases self.inputs.len() - s,
        {
            inputs.push(self.inputs[s]);
            s = s + 1;
        }
        assert(inputs@ =~= self.inputs@);
        Node { func: self.func, inputs }
    }
}

impl Genome {
    /// A genome with the same nodes, outputs and parameters.
    pub fn duplicate(&self) -> (r: Genome)
        ensures
            r@ == self@,
            r.nodes.len() == self.nodes.len(),
    {
        let mut nodes: Vec<Node> = Vec::new();
        let mut i: usize = 0;
        while i < self.nodes.len()
            invariant
                i <= self.nodes.len(),
                nodes.len() == i,
                forall|k: int| 0 <= k < i ==> #[trigger] nodes@[k]@ == self.nodes@[k]@,
            decreases self.nodes.len() - i,
        {
            nodes.push(self.nodes[i].duplicate());
            i = i + 1;
        }
        let mut outputs: Vec<usize> = Vec::new();
        let mut k: usize = 0;
        while k < self.outputs.len()
            invariant
                k <= self.outputs.len(),
                outputs@ =~= self.outputs@.subrange(0, k as int),
            decreases self.outputs.len() - k,
        {
            outputs.push(self.outputs[k]);
            k = k + 1;
        }
        let r = Genome { nodes, outputs, n_inputs: self.n_inputs, arity: self.arity };
        assert(r@.nodes =~= self@.nodes);
        assert(r@.outputs =~= self@.outputs);
        r
    }

    /// Build the genome that `draws` describe: for each node its function
    /// and the sources of its two inputs, then the output pointers. Draws
    /// that lie in the ranges [`Genome::random`] uses give a well-formed
    /// genome.
    pub fn from_draws(n_inputs: usize, n_nodes: usize, n_outputs: usize, n_funcs: usize, draws: &Vec<usize>) -> (g: Genome)
        requires
            draws.len() == 3 * n_nodes + n_outputs,
        ensures
            g@ == drawn_genome(n_inputs, n_nodes as nat, draws@),
            g.nodes.len() == n_nodes,
            g.outputs.len() == n_outputs,
            draws_fit(n_inputs, n_nodes as nat, n_funcs as nat, draws@) ==> g@.well_formed(n_funcs as nat),
    {
        let ghost d = draws@;
        let mut nodes: Vec<Node> = Vec::new();
        let mut i: usize = 0;
        while i < n_nodes
            invariant
                i <= n_nodes,
                d == draws@,
                draws.len() == 3 * n_nodes + n_outputs,
                nodes.len() == i,
                forall|q: int| 0 <= q < i ==> #[trigger] nodes@[q]@ == drawn_node(d, q),
            decreases n_nodes - i,
        {
            let func = draws[3 * i];
            let a = draws[3 * i + 1];
            let b = draws[3 * i + 2];
            let inputs = vec![a, b];
            nodes.push(Node { func, inputs });
            proof {
                assert(nodes@[i as int]@.inputs =~= drawn_node(d, i as int).inputs);
            }
            i = i + 1;
        }
        let mut outputs: Vec<usize> = Vec::new();
        let mut k: usize = 0;
        while k < n_outputs
            invariant
                k <= n_outputs,
                d == draws@,
                draws.len() == 3 * n_nodes + n_outputs,
                outputs@ =~= d.subrange(3 * n_nodes, 3 * n_nodes + k),
            decreases n_outputs - k,
        {
            outputs.push(draws[3 * n_nodes + k]);
            k = k + 1;
        }
        let g = Genome { nodes, outputs, n_inputs, arity: 2 };
        let ghost want = drawn_genome(n_inputs, n_nodes as nat, d);
        assert forall|q: int| 0 <= q < n_nodes implies #[trigger] g@.nodes[q] == want.nodes[q] by {
            assert(g@.nodes[q] == g.nodes@[q]@);
        }
        assert(g@.nodes =~= want.nodes);
        assert(g@.outputs =~= want.outputs);
        proof {
            if draws_fit(n_inputs, n_nodes as nat, n_funcs as nat, d) {
                let w = g@;
                assert forall|q: int| 0 <= q < w.nodes.len() implies #[trigger] w.nodes[q].func < n_funcs by {
                    assert(w.nodes[q] == drawn_node(d, q));
                }
                assert forall|q: int| 0 <= q < w.nodes.len() implies #[trigger] w.nodes[q].inputs.len() == w.arity by {
                    assert(w.nodes[q] == drawn_node(d, q));
                }
                assert forall|q: int, t: int|
                    0 <= q < w.nodes.len() && 0 <= t < w.nodes[q].inputs.len() implies #[trigger] w.nodes[q].inputs[t]
                    < source_bound(w.n_inputs, q) by {
                    assert(w.nodes[q] == drawn_node(d, q));
                    assert(drawn_node(d, q).inputs[0] < source_bound(n_inputs, q));
                }
                assert forall|q: int| 0 <= q < w.outputs.len() implies w.n_inputs <= #[trigger] w.outputs[q]
                    < w.n_inputs + w.nodes.len() by {
                    assert(w.outputs[q] == d[3 * n_nodes + q]);
                }
            }
        }
        g
    }

    /// Flip one gene of node `node`: when `coin` comes up its function
    /// becomes `value`, otherwise input slot `slot` reads from `value`.
    /// Every other gene, the outputs and the parameters stay as they are.
    pub fn apply_flip(&mut self, node: usize, coin: bool, value: usize, slot: usize)
        requires
            node < old(self).nodes.len(),
            !coin ==> slot < old(self)@.nodes[node as int].inputs.len(),
        ensures
            final(self)@ == flip_view(old(self)@, node as int, coin, value, slot as int),
            final(self).nodes.len() == old(self).nodes.len(),
    {
        let ghost before = self@;
        assert(before.nodes[node as int] == self.nodes@[node as int]@);
        let mut inputs = self.nodes[node].duplicate().inputs;
        let func = if coin {
            value
        } else {
            inputs.set(slot, value);
            self.nodes[node].func
        };
        self.nodes.set(node, Node { func, inputs });
        proof {
            let want = before.nodes.update(node as int, flipped(before.nodes[node as int], coin, value, slot as int));
            assert forall|q: int| 0 <= q < self.nodes.len() implies #[trigger] self@.nodes[q] == want[q] by {
                assert(self@.nodes[q] == self.nodes@[q]@);
                if q == node {
                    assert(self.nodes@[q]@.inputs =~= want[q].inputs);
                } else {
                    assert(before.nodes[q] == old(self).nodes@[q]@);
                }
            }
            assert(self@.nodes =~= want);
        }
    }

    /// Generate a random genome with `n_inputs` primary inputs, `n_nodes`
    /// nodes of arity two and `n_outputs` output pointers, for a function
    /// set of `n_funcs` functions, from a generator seeded with `seed`.
    ///
    /// For each node it draws the function and then the two input sources,
    /// then it draws the output pointers, and builds the genome with
    /// [`Genome::from_draws`]. Node `i` only reads value-table entries
    /// below `max(n_inputs + i, 1)`, and every output pointer names a node.
    pub fn random(n_inputs: usize, n_nodes: usize, n_outputs: usize, n_funcs: usize, seed: u64) -> (g: Genome)
        requires
            n_inputs + n_nodes <= usize::MAX,
            n_nodes > 0 ==> n_funcs > 0,
            n_outputs > 0 ==> n_nodes > 0,
            3 * n_nodes + n_outputs <= usize::MAX,
        ensures
            g.n_inputs == n_inputs,
            g.arity == 2,
            g.nodes.len() == n_nodes,
            g.outputs.len() == n_outputs,
            g@.well_formed(n_funcs as nat),
            exists|d: Seq<usize>|
                d.len() == 3 * n_nodes + n_outputs && draws_fit(n_inputs, n_nodes as nat, n_funcs as nat, d)
                    && g@ == #[trigger] drawn_genome(n_inputs, n_nodes as nat, d),
    {
        let mut rng = seeded_rng(seed);
        let pool_size = n_inputs + n_nodes;
        let mut draws: Vec<usize> = Vec::new();
        let mut i: usize = 0;
        while i < n_nodes
            invariant
                i <= n_nodes,
                n_inputs + n_nodes <= usize::MAX,
                n_nodes > 0 ==> n_funcs > 0,
                draws.len() == 3 * i,
                forall|q: int| 0 <= q < i ==> #[trigger] drawn_node(draws@, q).func < n_funcs,
                forall|q: int| 0 <= q < i ==> #[trigger] drawn_node(draws@, q).inputs[0] < source_bound(n_inputs, q)
                    && drawn_node(draws@, q).inputs[1] < source_bound(n_inputs, q),
            decreases n_nodes - i,
        {
            let ghost before = draws@;
            let func = random_below(&mut rng, 0, n_funcs);
            let bound = if n_inputs + i >= 1 {
                n_inputs + i
            } else {
                1
            };
            let a = random_below(&mut rng, 0, bound);
            let b = random_below(&mut rng, 0, bound);
            draws.push(func);
            draws.push(a);
            draws.push(b);
            proof {
                assert forall|q: int| 0 <= q <= i implies #[trigger] drawn_node(draws@, q) == if q < i {
                    drawn_node(before, q)
                } else {
                    NodeView { func, inputs: seq![a, b] }
                } by {
                    if q < i {
                        assert(drawn_node(draws@, q).inputs =~= drawn_node(before, q).inputs);
                    } else {
                        assert(drawn_node(draws@, q).inputs =~= seq![a, b]);
                    }
                }
            }
            i = i + 1;
        }
        let ghost node_draws = draws@;
        let mut k: usize = 0;
        while k < n_outputs
            invariant
                k <= n_outputs,
                pool_size == n_inputs + n_nodes,
                n_outputs > 0 ==> n_nodes > 0,
                3 * n_nodes + n_outputs <= usize::MAX,
                draws.len() == 3 * n_nodes + k,
                draws@.subrange(0, 3 * n_nodes) == node_draws,
                forall|q: int| 3 * n_nodes <= q < draws.len() ==> n_inputs <= #[trigger] draws@[q] < pool_size,
            decreases n_outputs - k,
        {
            let o = random_below(&mut rng, n_inputs, pool_size);
            draws.push(o);
            assert(draws@.subrange(0, 3 * n_nodes) =~= node_draws);
            k = k + 1;
        }
        proof {
            assert forall|q: int| 0 <= q < n_nodes implies #[trigger] drawn_node(draws@, q) == drawn_node(node_draws, q) by {
                assert(draws@[3 * q] == node_draws[3 * q]);
                assert(draws@[3 * q + 1] == node_draws[3 * q + 1]);
                assert(draws@[3 * q + 2] == node_draws[3 * q + 2]);
                assert(drawn_node(draws@, q).inputs =~= drawn_node(node_draws, q).inputs);
            }
            assert(draws_fit(n_inputs, n_nodes as nat, n_funcs as nat, draws@));
        }
        let g = Genome::from_draws(n_inputs, n_nodes, n_outputs, n_funcs, &draws);
        assert(g@ == drawn_genome(n_inputs, n_nodes as nat, draws@));
        g
    }

    /// Mutate a clone of this genome, flipping `n` random genes.
    ///
    /// Each round draws a node and a fair coin; on heads it draws a new
    /// function below `n_funcs`, on tails an input slot and a new source
    /// for it below `max(n_inputs + node, 1)`, and applies the flip with
    /// [`Genome::apply_flip`]. The shape and the output pointers stay as
    /// they are, at most `n` genes change, and a genome that was well
    /// formed for `n_funcs` stays so.
    pub fn mutate(&self, n: usize, n_funcs: usize, seed: u64) -> (child: Genome)
        requires
            n > 0 ==> self@.can_mutate(),
            n > 0 ==> n_funcs > 0,
        ensures
            child@.is_mutation_of(self@, n as nat, n_funcs as nat),
            self@.well_formed(n_funcs as nat) ==> child@.well_formed(n_funcs as nat),
            exists|flips: Seq<(int, bool, usize, int)>|
                flips.len() == n && (forall|j: int| 0 <= j < n ==> #[trigger] flip_fits(self@, flips[j], n_funcs as nat))
                    && child@ == #[trigger] after_flips(self@, flips),
    {
        let mut child = self.duplicate();
        let ghost mut flips: Seq<(int, bool, usize, int)> = Seq::empty();
        let mut rng = seeded_rng(seed);
        let ghost parent = self@;
        let ghost mut touched: Set<(int, int)> = Set::empty();
        let mut round: usize = 0;
        while round < n
            invariant
                parent == self@,
                round <= n,
                n > 0 ==> self@.can_mutate(),
                n > 0 ==> n_funcs > 0,
                child.nodes.len() == self.nodes.len(),
                child@.nodes.len() == parent.nodes.len(),
                child@.outputs == parent.outputs,
                child@.n_inputs == parent.n_inputs,
                child@.arity == parent.arity,
                child.n_inputs == self.n_inputs,
                child.arity == self.arity,
                forall|i: int|
                    0 <= i < self.nodes.len() ==> #[trigger] child@.nodes[i].inputs.len()
                        == parent.nodes[i].inputs.len(),
                forall|i: int|
                    0 <= i < self.nodes.len() ==> #[trigger] child@.nodes[i].func == parent.nodes[i].func
                        || child@.nodes[i].func < n_funcs,
                forall|i: int, s: int|
                    0 <= i < self.nodes.len() && 0 <= s < parent.nodes[i].inputs.len()
                        ==> #[trigger] child@.nodes[i].inputs[s] == parent.nodes[i].inputs[s]
                        || child@.nodes[i].inputs[s] < source_bound(self.n_inputs, i),
                touched.finite(),
                touched.len() <= round,
                parent.changed_genes(child@).subset_of(touched),
                flips.len() == round,
                forall|j: int| 0 <= j < round ==> #[trigger] flip_fits(parent, flips[j], n_funcs as nat),
                child@ == after_flips(parent, flips),
            decreases n - round,
        {
            let node = random_below(&mut rng, 0, child.nodes.len());
            let ghost before = child@;
            let coin = random_ratio(&mut rng, 1, 2);
            let mut slot: usize = 0;
            let value = if coin {
                random_below(&mut rng, 0, n_funcs)
            } else {
                slot = random_below(&mut rng, 0, child.arity);
                let max_src = if child.n_inputs + node >= 1 {
                    child.n_inputs + node
                } else {
                    1
                };
                random_below(&mut rng, 0, max_src)
            };
            assert(parent.nodes[node as int].inputs.len() >= self.arity);
            child.apply_flip(node, coin, value, slot);
            proof {
                let f = (node as int, coin, value, slot as int);
                let old_flips = flips;
                flips = flips.push(f);
                assert(flips.drop_last() =~= old_flips);
                assert(flip_fits(parent, f, n_funcs as nat));
                assert forall|j: int| 0 <= j < round + 1 implies #[trigger] flip_fits(parent, flips[j], n_funcs as nat) by {
                    if j < round {
                        assert(flips[j] == old_flips[j]);
                    }
                }
                let gene: (int, int) = if coin {
                    (node as int, -1)
                } else {
                    (node as int, slot as int)
                };
                touched = touched.insert(gene);
                assert forall|i: int| 0 <= i < child@.nodes.len() && i != node implies #[trigger] child@.nodes[i]
                    == before.nodes[i] by {}
                assert forall|i: int| 0 <= i < self.nodes.len() implies #[trigger] child@.nodes[i].inputs.len()
                    == parent.nodes[i].inputs.len() by {
                    assert(before.nodes[i].inputs.len() == parent.nodes[i].inputs.len());
                }
                assert forall|i: int| 0 <= i < self.nodes.len() implies #[trigger] child@.nodes[i].func == parent.nodes[i].func
                    || child@.nodes[i].func < n_funcs by {
                    assert(before.nodes[i].func == parent.nodes[i].func || before.nodes[i].func < n_funcs);
                }
                assert forall|i: int, s: int|
                    0 <= i < self.nodes.len() && 0 <= s < parent.nodes[i].inputs.len()
                    implies #[trigger] child@.nodes[i].inputs[s] == parent.nodes[i].inputs[s]
                    || child@.nodes[i].inputs[s] < source_bound(self.n_inputs, i) by {
                    assert(before.nodes[i].inputs[s] == parent.nodes[i].inputs[s]
                        || before.nodes[i].inputs[s] < source_bound(self.n_inputs, i));
                }
                assert forall|p: (int, int)| parent.changed_genes(child@).contains(p) implies touched.contains(p) by {
                    if p != gene && !parent.changed_genes(before).contains(p) {
                        if p.0 != node {
                            assert(child@.nodes[p.0] == before.nodes[p.0]);
                        } else if p.1 == -1 {
                            assert(child@.nodes[p.0].func == before.nodes[p.0].func);
                        } else {
                            assert(child@.nodes[p.0].inputs[p.1] == before.nodes[p.0].inputs[p.1]);
                        }
                    }
                }
            }
            round = round + 1;
        }
        proof {
            vstd::set_lib::lemma_len_subset(parent.changed_genes(child@), touched);
            assert(child@ == after_flips(self@, flips));
            if parent.well_formed(n_funcs as nat) {
                let c = child@;
                assert forall|i: int| 0 <= i < c.nodes.len() implies #[trigger] c.nodes[i].func < n_funcs by {
                    assert(parent.nodes[i].func < n_funcs);
                }
                assert forall|i: int| 0 <= i < c.nodes.len() implies #[trigger] c.nodes[i].inputs.len() == c.arity by {
                    assert(parent.nodes[i].inputs.len() == parent.arity);
                }
                assert forall|i: int, s: int|
                    0 <= i < c.nodes.len() && 0 <= s < c.nodes[i].inputs.len() implies #[trigger] c.nodes[i].inputs[s]
                    < source_bound(c.n_inputs, i) by {
                    assert(c.nodes[i].inputs.len() == parent.nodes[i].inputs.len());
                    assert(parent.nodes[i].inputs[s] < source_bound(parent.n_inputs, i));
                }
                assert forall|k: int| 0 <= k < c.outputs.len() implies c.n_inputs <= #[trigger] c.outputs[k]
                    < c.n_inputs + c.nodes.len() by {
                    assert(parent.outputs[k] == c.outputs[k]);
                }
            }
        }
        child
    }

    /// Returns node indices reachable from the output pointers, in
    /// increasing order.
    pub fn active_nodes(&self) -> (res: Vec<usize>)
        ensures
            forall|a: int, b: int| 0 <= a < b < res.len() ==> res[a] < res[b],
            forall|k: int| 0 <= k < res.len() ==> res[k] < self.nodes.len(),
            forall|i: int|
                0 <= i < self.nodes.len() ==> (res@.contains(i as usize) <==> self@.is_active(i)),
            res.len() == self@.active_count(),
    {
        let ghost g = self@;
        let len = self.nodes.len();
        let n_inputs = self.n_inputs;

        let mut active: Vec<bool> = Vec::new();
        let mut a: usize = 0;
        while a < len
            invariant
                a <= len,
                active.len() == a,
                forall|k: int| 0 <= k < a ==> !active@[k],
            decreases len - a,
        {
            active.push(false);
            a = a + 1;
        }

        // Seed the stack with the nodes that the output pointers name.
        let mut stack: Vec<usize> = Vec::new();
        let mut k: usize = 0;
        while k < self.outputs.len()
            invariant
                g == self@,
                n_inputs == self.n_inputs,
                len == self.nodes.len(),
                k <= self.outputs.len(),
                forall|q: int| 0 <= q < stack.len() && stack@[q] < len ==> g.is_active(stack@[q] as int),
                forall|q: int|
                    0 <= q < k && self.outputs@[q] >= n_inputs ==> stack@.contains(
                        (self.outputs@[q] - n_inputs) as usize,
                    ),
            decreases self.outputs.len() - k,
        {
            let o = self.outputs[k];
            if o >= n_inputs {
                let ghost before = stack@;
                stack.push(o - n_inputs);
                proof {
                    if o - n_inputs < len {
                        assert(g.outputs[k as int] == o);
                        assert(g.is_seed((o - n_inputs) as int));
                        lemma_seed_is_active(g, (o - n_inputs) as int);
                    }
                    assert(stack@[stack@.len() - 1] == o - n_inputs);
                    assert forall|q: int|
                        0 <= q < k && self.outputs@[q] >= n_inputs implies stack@.contains(
                        (self.outputs@[q] - n_inputs) as usize,
                    ) by {
                        let x = (self.outputs@[q] - n_inputs) as usize;
                        let w = choose|w: int| 0 <= w < before.len() && before[w] == x;
                        assert(stack@[w] == x);
                    }
                }
            }
            k = k + 1;
        }
        proof {
            assert forall|i: int| #[trigger] g.is_seed(i) implies active@[i] || stack@.contains(
                i as usize,
            ) by {
                let q = choose|q: int|
                    0 <= q < g.outputs.len() && g.outputs[q] >= g.n_inputs && g.outputs[q]
                        - g.n_inputs == i;
                assert(self.outputs@[q] == g.outputs[q]);
            }
        }

        // Depth-first walk backwards along inputs.
        while stack.len() > 0
            invariant
                g == self@,
                n_inputs == self.n_inputs,
                len == self.nodes.len(),
                active.len() == len,
                forall|i: int| 0 <= i < len && active@[i] ==> g.is_active(i),
                forall|q: int| 0 <= q < stack.len() && stack@[q] < len ==> g.is_active(stack@[q] as int),
                forall|i: int| #[trigger] g.is_seed(i) ==> active@[i] || stack@.contains(i as usize),
                forall|i: int, j: int|
                    0 <= i < len && active@[i] && #[trigger] g.is_edge(i, j) ==> active@[j]
                        || stack@.contains(j as usize),
            decreases count_false(active@), stack.len(),
        {
            let ghost st0 = stack@;
            let ghost act0 = active@;
            let i = stack.pop().unwrap();
            let ghost st1 = stack@;
            proof {
                assert(st0 =~= st1.push(i));
                assert forall|x: usize| st0.contains(x) && x != i implies st1.contains(x) by {
                    let w = choose|w: int| 0 <= w < st0.len() && st0[w] == x;
                    assert(w < st1.len());
                    assert(st1[w] == x);
                }
            }
            if i >= len || active[i] {
                proof {
                    assert forall|y: int| #[trigger] g.is_seed(y) implies active@[y] || stack@.contains(
                        y as usize,
                    ) by {
                        if !active@[y] {
                            assert(st0.contains(y as usize));
                        }
                    }
                    assert forall|x: int, j: int|
                        0 <= x < len && active@[x] && #[trigger] g.is_edge(x, j) implies active@[j]
                        || stack@.contains(j as usize) by {
                        if !active@[j] {
                            assert(st0.contains(j as usize));
                        }
                    }
                }
                continue;
            }
            proof {
                lemma_count_false_update(active@, i as int);
            }
            active.set(i, true);
            let ghost st_mid = stack@;
            let ghost act1 = active@;
            assert(g.is_active(i as int));

            let inputs = &self.nodes[i].inputs;
            assert(inputs@ == g.nodes[i as int].inputs);
            let mut s: usize = 0;
            while s < inputs.len()
                invariant
                    g == self@,
                    n_inputs == self.n_inputs,
                    len == self.nodes.len(),
                    i < len,
                    inputs@ == g.nodes[i as int].inputs,
                    g.is_active(i as int),
                    active@ == act1,
                    s <= inputs.len(),
                    stack.len() >= st_mid.len(),
                    stack@.subrange(0, st_mid.len() as int) == st_mid,
                    forall|q: int|
                        0 <= q < stack.len() && stack@[q] < len ==> g.is_active(stack@[q] as int),
                    forall|t: int|
                        0 <= t < s && inputs@[t] >= n_inputs ==> stack@.contains(
                            (inputs@[t] - n_inputs) as usize,
                        ),
                decreases inputs.len() - s,
            {
                let src = inputs[s];
                if src >= n_inputs {
                    let ghost before = stack@;
                    stack.push(src - n_inputs);
                    proof {
                        let c = (src - n_inputs) as int;
                        if c < len {
                            assert(g.is_edge(i as int, c));
                            lemma_active_closed_under_inputs(g, i as int, c);
                        }
                        assert(stack@.subrange(0, st_mid.len() as int) =~= before.subrange(
                            0,
                            st_mid.len() as int,
                        ));
                        assert(stack@[stack@.len() - 1] == src - n_inputs);
                        assert forall|t: int|
                            0 <= t < s && inputs@[t] >= n_inputs implies stack@.contains(
                            (inputs@[t] - n_inputs) as usize,
                        ) by {
                            let x = (inputs@[t] - n_inputs) as usize;
                            let w = choose|w: int| 0 <= w < before.len() && before[w] == x;
                            assert(stack@[w] == x);
                        }
                    }
                }
                s = s + 1;
            }
            proof {
                assert forall|x: usize| st1.contains(x) implies stack@.contains(x) by {
                    let w = choose|w: int| 0 <= w < st1.len() && st1[w] == x;
                    assert(stack@.subrange(0, st_mid.len() as int)[w] == x);
                }
                assert forall|y: int| #[trigger] g.is_seed(y) implies active@[y] || stack@.contains(
                    y as usize,
                ) by {
                    if y != i && !active@[y] {
                        assert(!act0[y]);
                        assert(st0.contains(y as usize));
                        assert(st1.contains(y as usize));
                    }
                }
                assert forall|x: int, j: int|
                    0 <= x < len && active@[x] && #[trigger] g.is_edge(x, j) implies active@[j]
                    || stack@.contains(j as usize) by {
                    if x == i {
                        let t = choose|t: int|
                            0 <= t < g.nodes[x].inputs.len() && g.nodes[x].inputs[t] >= g.n_inputs
                                && g.nodes[x].inputs[t] - g.n_inputs == j;
                        assert(stack@.contains((inputs@[t] - n_inputs) as usize));
                    } else if j != i && !active@[j] {
                        assert(act0[x]);
                        assert(st0.contains(j as usize));
                        assert(st1.contains(j as usize));
                    }
                }
            }
        }

        proof {
            assert forall|i: int| 0 <= i < len && g.is_active(i) implies active@[i] by {
                let p = choose|p: Seq<int>| #[trigger] g.is_path(p) && p.last() == i;
                lemma_closed_holds_path(g, active@, p);
            }
        }

        let mut res: Vec<usize> = Vec::new();
        let mut i: usize = 0;
        while i < len
            invariant
                i <= len,
                active.len() == len,
                forall|k: int| 0 <= k < res.len() ==> res@[k] < i,
                forall|a: int, b: int| 0 <= a < b < res.len() ==> res@[a] < res@[b],
                forall|j: int| 0 <= j < i ==> (res@.contains(j as usize) <==> active@[j]),
                len == self.nodes.len(),
                g == self@,
                forall|j: int| 0 <= j < len ==> (active@[j] <==> g.is_active(j)),
                res.len() == g.active_below(i as int),
            decreases len - i,
        {
            if active[i] {
                let ghost before = res@;
                res.push(i);
                proof {
                    assert forall|j: int| 0 <= j < i + 1 implies (res@.contains(j as usize)
                        <==> active@[j]) by {
                        if j < i {
                            if before.contains(j as usize) {
                                let w = choose|w: int| 0 <= w < before.len() && before[w] == j;
                                assert(res@[w] == j);
                            }
                            if res@.contains(j as usize) {
                                let w = choose|w: int| 0 <= w < res@.len() && res@[w] == j;
                                assert(w < before.len());
                            }
                        } else {
                            assert(res@[res@.len() - 1] == i);
                        }
                    }
                }
            } else {
                proof {
                    assert(!res@.contains(i)) by {
                        if res@.contains(i) {
                            let w = choose|w: int| 0 <= w < res@.len() && res@[w] == i;
                        }
                    }
                }
            }
            i = i + 1;
        }
        res
    }
}

} // verus!
