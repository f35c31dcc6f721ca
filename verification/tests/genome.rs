use hive::pods::genome::{Genome, Node};

fn check_well_formed(g: &Genome, n_funcs: usize) {
    for (i, node) in g.nodes.iter().enumerate() {
        assert!(node.func < n_funcs);
        assert_eq!(node.inputs.len(), g.arity);
        for &src in &node.inputs {
            assert!(src < (g.n_inputs + i).max(1));
        }
    }
    for &o in &g.outputs {
        assert!(g.n_inputs <= o && o < g.n_inputs + g.nodes.len());
    }
}

fn node(func: usize, inputs: Vec<usize>) -> Node {
    Node { func, inputs }
}

#[test]
fn random_genome_is_well_formed() {
    for seed in 0..20 {
        let g = Genome::random(2, 10, 3, 5, seed);
        assert_eq!(g.n_inputs, 2);
        assert_eq!(g.arity, 2);
        assert_eq!(g.nodes.len(), 10);
        assert_eq!(g.outputs.len(), 3);
        check_well_formed(&g, 5);
    }
}

#[test]
fn random_genome_with_no_primary_inputs_reads_node_zero() {
    // Node 0 may only read value 0, which is node 0 itself.
    let g = Genome::random(0, 3, 1, 2, 7);
    assert_eq!(g.nodes[0].inputs, vec![0, 0]);
    check_well_formed(&g, 2);
}

#[test]
fn mutate_keeps_shape_and_flips_few_genes() {
    let parent = Genome::random(1, 8, 2, 4, 18);
    for seed in 0..20 {
        let child = parent.mutate(3, 4, seed);
        assert_eq!(child.nodes.len(), parent.nodes.len());
        assert_eq!(child.outputs, parent.outputs);
        assert_eq!(child.n_inputs, parent.n_inputs);
        check_well_formed(&child, 4);
        let mut changed = 0;
        for (a, b) in parent.nodes.iter().zip(child.nodes.iter()) {
            if a.func != b.func {
                changed += 1;
            }
            for (x, y) in a.inputs.iter().zip(b.inputs.iter()) {
                if x != y {
                    changed += 1;
                }
            }
        }
        assert!(changed <= 3);
    }
}

#[test]
fn mutate_zero_flips_is_a_copy() {
    let parent = Genome::random(1, 4, 1, 3, 5);
    let child = parent.mutate(0, 0, 9);
    for (a, b) in parent.nodes.iter().zip(child.nodes.iter()) {
        assert_eq!(a.func, b.func);
        assert_eq!(a.inputs, b.inputs);
    }
}

#[test]
fn active_nodes_follow_inputs_back_from_outputs() {
    // value table: [in0, n0, n1, n2, n3]
    let g = Genome {
        nodes: vec![
            node(0, vec![0, 0]), // n0 reads in0
            node(1, vec![1, 0]), // n1 reads n0
            node(2, vec![0, 0]), // n2 unused
            node(3, vec![2, 1]), // n3 reads n1, n0
        ],
        outputs: vec![4],
        n_inputs: 1,
        arity: 2,
    };
    assert_eq!(g.active_nodes(), vec![0, 1, 3]);
}

#[test]
fn active_nodes_ignore_primary_inputs_and_out_of_range() {
    let g = Genome {
        nodes: vec![node(0, vec![0, 9]), node(0, vec![0, 0])],
        outputs: vec![0, 2, 7],
        n_inputs: 1,
        arity: 2,
    };
    assert_eq!(g.active_nodes(), vec![1]);
}

#[test]
fn active_nodes_handle_cycles() {
    let g = Genome {
        nodes: vec![node(0, vec![1]), node(0, vec![0])],
        outputs: vec![0],
        n_inputs: 0,
        arity: 1,
    };
    assert_eq!(g.active_nodes(), vec![0, 1]);
}

#[test]
fn active_nodes_empty_without_outputs() {
    let g = Genome::random(1, 5, 0, 2, 3);
    assert!(g.active_nodes().is_empty());
}

#[test]
fn duplicate_is_equal() {
    let g = Genome::random(2, 6, 2, 3, 11);
    let d = g.duplicate();
    assert_eq!(d.outputs, g.outputs);
    for (a, b) in g.nodes.iter().zip(d.nodes.iter()) {
        assert_eq!(a.func, b.func);
        assert_eq!(a.inputs, b.inputs);
    }
}

#[test]
fn random_genomes_vary_with_the_seed() {
    let first = Genome::random(1, 8, 1, 4, 0);
    let mut differs = false;
    for seed in 1..20 {
        let g = Genome::random(1, 8, 1, 4, seed);
        for (a, b) in first.nodes.iter().zip(g.nodes.iter()) {
            if a.func != b.func || a.inputs != b.inputs {
                differs = true;
            }
        }
    }
    assert!(differs);
    let funcs: Vec<usize> = (0..20)
        .flat_map(|seed| Genome::random(1, 8, 1, 4, seed).nodes.into_iter().map(|n| n.func))
        .collect();
    assert!(funcs.iter().any(|&f| f != 0));
}

#[test]
fn mutation_flips_both_kinds_of_gene() {
    let parent = Genome::random(1, 8, 1, 4, 18);
    let mut func_changes = 0;
    let mut input_changes = 0;
    for seed in 0..50 {
        let child = parent.mutate(3, 4, seed);
        for (a, b) in parent.nodes.iter().zip(child.nodes.iter()) {
            if a.func != b.func {
                func_changes += 1;
            }
            if a.inputs != b.inputs {
                input_changes += 1;
            }
        }
    }
    assert!(func_changes > 0);
    assert!(input_changes > 0);
}

#[test]
fn from_draws_places_each_draw() {
    // Node 0: func 3, sources 0, 1; node 1: func 1, sources 2, 0;
    // outputs 2 and 3.
    let draws = vec![3, 0, 1, 1, 2, 0, 2, 3];
    let g = Genome::from_draws(2, 2, 2, 4, &draws);
    assert_eq!(g.n_inputs, 2);
    assert_eq!(g.arity, 2);
    assert_eq!(g.nodes.len(), 2);
    assert_eq!(g.nodes[0].func, 3);
    assert_eq!(g.nodes[0].inputs, vec![0, 1]);
    assert_eq!(g.nodes[1].func, 1);
    assert_eq!(g.nodes[1].inputs, vec![2, 0]);
    assert_eq!(g.outputs, vec![2, 3]);
    check_well_formed(&g, 4);
}

#[test]
fn from_draws_with_no_nodes_keeps_only_outputs() {
    let g = Genome::from_draws(1, 0, 0, 0, &vec![]);
    assert!(g.nodes.is_empty());
    assert!(g.outputs.is_empty());
}

#[test]
fn apply_flip_changes_one_gene() {
    let base = Genome {
        nodes: vec![node(0, vec![0, 0]), node(1, vec![0, 1])],
        outputs: vec![2],
        n_inputs: 1,
        arity: 2,
    };
    let mut g = base.duplicate();
    g.apply_flip(1, true, 3, 0);
    assert_eq!(g.nodes[1].func, 3);
    assert_eq!(g.nodes[1].inputs, vec![0, 1]);
    assert_eq!(g.nodes[0].func, 0);
    assert_eq!(g.nodes[0].inputs, vec![0, 0]);

    let mut h = base.duplicate();
    h.apply_flip(1, false, 0, 1);
    assert_eq!(h.nodes[1].func, 1);
    assert_eq!(h.nodes[1].inputs, vec![0, 0]);
    assert_eq!(h.nodes[0].inputs, vec![0, 0]);
    assert_eq!(h.outputs, vec![2]);
}

#[test]
fn active_nodes_ignore_functions_and_output_order() {
    let g = Genome {
        nodes: vec![node(0, vec![0, 0]), node(1, vec![1, 0]), node(2, vec![0, 0])],
        outputs: vec![2],
        n_inputs: 1,
        arity: 2,
    };
    let mut funcs_changed = g.duplicate();
    funcs_changed.nodes[0].func = 3;
    funcs_changed.nodes[1].func = 0;
    assert_eq!(g.active_nodes(), funcs_changed.active_nodes());

    let mut more_outputs = g.duplicate();
    more_outputs.outputs = vec![3, 2, 2];
    let before = g.active_nodes();
    let after = more_outputs.active_nodes();
    for x in &before {
        assert!(after.contains(x));
    }
    assert_eq!(before, vec![0, 1]);
    assert_eq!(after, vec![0, 1, 2]);
}
