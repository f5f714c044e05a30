use synthesizer_io::graph::{Graph, GraphError, Wiring, SENTINEL};

fn wiring(bufs: Vec<(usize, usize)>, ctrls: Vec<(usize, usize)>, n_bufs_out: usize, n_ctrl_out: usize) -> Wiring {
    Wiring { bufs, ctrls, n_bufs_out, n_ctrl_out }
}

fn order_from(g: &Graph, head: usize) -> Vec<usize> {
    let mut out = Vec::new();
    let mut ix = head;
    while ix != SENTINEL {
        out.push(ix);
        ix = g.next(ix);
    }
    out
}

#[test]
fn chain_runs_sources_first() {
    let mut g = Graph::new(8);
    g.replace(3, Some(wiring(vec![], vec![], 1, 0)));
    g.replace(2, Some(wiring(vec![(3, 0)], vec![], 1, 0)));
    g.replace(1, Some(wiring(vec![(2, 0)], vec![], 1, 0)));
    g.replace(0, Some(wiring(vec![(1, 0)], vec![], 1, 0)));
    let head = g.topo_sort(0).unwrap();
    assert_eq!(order_from(&g, head), vec![3, 2, 1, 0]);
}

#[test]
fn sine_mixer_order() {
    let mut g = Graph::new(4);
    g.replace(1, Some(wiring(vec![], vec![], 1, 0)));
    g.replace(2, Some(wiring(vec![], vec![], 1, 0)));
    g.replace(0, Some(wiring(vec![(1, 0), (2, 0)], vec![], 1, 0)));
    let head = g.topo_sort(0).unwrap();
    assert_eq!(order_from(&g, head), vec![1, 2, 0]);
}

#[test]
fn diamond_puts_shared_input_first() {
    // Root reads 2 then 1; node 1 reads 2 as well.
    let mut g = Graph::new(4);
    g.replace(2, Some(wiring(vec![], vec![], 1, 1)));
    g.replace(1, Some(wiring(vec![(2, 0)], vec![], 1, 0)));
    g.replace(0, Some(wiring(vec![(2, 0), (1, 0)], vec![], 1, 0)));
    let head = g.topo_sort(0).unwrap();
    assert_eq!(order_from(&g, head), vec![2, 1, 0]);

    let mut h = Graph::new(4);
    h.replace(2, Some(wiring(vec![], vec![], 1, 1)));
    h.replace(1, Some(wiring(vec![(2, 0)], vec![], 1, 0)));
    h.replace(0, Some(wiring(vec![(1, 0), (2, 0)], vec![], 1, 0)));
    let head = h.topo_sort(0).unwrap();
    assert_eq!(order_from(&h, head), vec![2, 1, 0]);
}

#[test]
fn control_inputs_are_followed() {
    let mut g = Graph::new(4);
    g.replace(1, Some(wiring(vec![], vec![], 0, 1)));
    g.replace(2, Some(wiring(vec![], vec![], 1, 0)));
    g.replace(0, Some(wiring(vec![(2, 0)], vec![(1, 0)], 1, 0)));
    let head = g.topo_sort(0).unwrap();
    assert_eq!(order_from(&g, head), vec![2, 1, 0]);
}

#[test]
fn sort_is_repeatable() {
    let mut g = Graph::new(4);
    g.replace(1, Some(wiring(vec![], vec![], 1, 0)));
    g.replace(2, Some(wiring(vec![(1, 0)], vec![], 1, 0)));
    g.replace(0, Some(wiring(vec![(2, 0), (1, 0)], vec![], 1, 0)));
    let first = g.topo_sort(0).unwrap();
    let a = order_from(&g, first);
    let second = g.topo_sort(0).unwrap();
    let b = order_from(&g, second);
    assert_eq!(a, b);
    assert_eq!(a, vec![1, 2, 0]);
}

#[test]
fn unreached_nodes_are_not_run() {
    let mut g = Graph::new(4);
    g.replace(3, Some(wiring(vec![], vec![], 1, 0)));
    g.replace(0, Some(wiring(vec![], vec![], 1, 0)));
    let head = g.topo_sort(0).unwrap();
    assert_eq!(order_from(&g, head), vec![0]);
}

#[test]
fn replace_returns_previous_wiring() {
    let mut g = Graph::new(3);
    assert!(g.replace(1, Some(wiring(vec![], vec![], 1, 0))).is_none());
    let old = g.replace(1, Some(wiring(vec![], vec![], 2, 0))).unwrap();
    assert_eq!(old.n_bufs_out, 1);
    match g.wiring(1) {
        Some(w) => assert_eq!(w.n_bufs_out, 2),
        None => panic!("slot 1 is empty"),
    }
    assert!(g.replace(1, None).is_some());
    assert!(g.wiring(1).is_none());
    assert_eq!(g.capacity(), 3);
}

#[test]
fn missing_root_is_reported() {
    let mut g = Graph::new(2);
    assert_eq!(g.topo_sort(0), Err(GraphError::NoRoot(0)));
    assert_eq!(g.topo_sort(5), Err(GraphError::NoRoot(5)));
}

#[test]
fn missing_source_is_reported() {
    let mut g = Graph::new(4);
    g.replace(0, Some(wiring(vec![(2, 0)], vec![], 1, 0)));
    assert_eq!(g.topo_sort(0), Err(GraphError::MissingSource { node: 0, source: 2 }));
    let mut h = Graph::new(4);
    h.replace(0, Some(wiring(vec![(9, 0)], vec![], 1, 0)));
    assert_eq!(h.topo_sort(0), Err(GraphError::MissingSource { node: 0, source: 9 }));
}

#[test]
fn self_wire_is_reported() {
    let mut g = Graph::new(2);
    g.replace(0, Some(wiring(vec![(0, 0)], vec![], 1, 0)));
    assert_eq!(g.topo_sort(0), Err(GraphError::SelfWire { node: 0 }));
}

#[test]
fn bad_index_is_reported() {
    let mut g = Graph::new(3);
    g.replace(1, Some(wiring(vec![], vec![], 1, 0)));
    g.replace(0, Some(wiring(vec![], vec![(1, 0)], 1, 0)));
    assert_eq!(g.topo_sort(0), Err(GraphError::BadIndex { node: 0, source: 1, index: 0 }));
}

#[test]
fn cycle_is_reported_and_graph_recovers() {
    let mut g = Graph::new(3);
    g.replace(1, Some(wiring(vec![(2, 0)], vec![], 1, 0)));
    g.replace(2, Some(wiring(vec![(1, 0)], vec![], 1, 0)));
    g.replace(0, Some(wiring(vec![(1, 0)], vec![], 1, 0)));
    assert_eq!(g.topo_sort(0), Err(GraphError::Cycle { node: 2, source: 1 }));
    g.replace(2, Some(wiring(vec![], vec![], 1, 0)));
    let head = g.topo_sort(0).unwrap();
    assert_eq!(order_from(&g, head), vec![2, 1, 0]);
}

#[test]
fn repeated_replacement_displaces_all_but_last() {
    let mut g = Graph::new(4);
    let mut displaced = 0;
    for i in 0..1000 {
        if g.replace(1, Some(wiring(vec![], vec![], 0, i % 3 + 1))).is_some() {
            displaced += 1;
        }
    }
    assert_eq!(displaced, 999);
    match g.wiring(1) {
        Some(w) => assert_eq!(w.n_ctrl_out, 999 % 3 + 1),
        None => panic!("slot 1 is empty"),
    }
}

#[test]
fn replacing_a_node_invalidates_the_last_order() {
    let mut g = Graph::new(4);
    g.replace(1, Some(wiring(vec![], vec![], 1, 0)));
    g.replace(0, Some(wiring(vec![(1, 0)], vec![], 1, 0)));
    let head = g.topo_sort(0).unwrap();
    assert_eq!(order_from(&g, head), vec![1, 0]);
    g.replace(2, Some(wiring(vec![], vec![], 1, 0)));
    g.replace(1, Some(wiring(vec![(2, 0)], vec![], 1, 0)));
    let head = g.topo_sort(0).unwrap();
    assert_eq!(order_from(&g, head), vec![2, 1, 0]);
    g.replace(2, Some(wiring(vec![(1, 0)], vec![], 1, 0)));
    assert_eq!(g.topo_sort(0), Err(GraphError::Cycle { node: 2, source: 1 }));
}

#[test]
fn sorting_from_another_root() {
    let mut g = Graph::new(4);
    g.replace(2, Some(wiring(vec![], vec![], 1, 0)));
    g.replace(1, Some(wiring(vec![(2, 0)], vec![], 1, 0)));
    g.replace(0, Some(wiring(vec![(1, 0)], vec![], 1, 0)));
    let head = g.topo_sort(1).unwrap();
    assert_eq!(order_from(&g, head), vec![2, 1]);
    let head = g.topo_sort(0).unwrap();
    assert_eq!(order_from(&g, head), vec![2, 1, 0]);
    let head = g.topo_sort(0).unwrap();
    assert_eq!(order_from(&g, head), vec![2, 1, 0]);
}

#[test]
fn hot_swap_keeps_the_mixer_running() {
    let mut g = Graph::new(4);
    g.replace(1, Some(wiring(vec![], vec![], 1, 0)));
    g.replace(2, Some(wiring(vec![], vec![], 1, 0)));
    g.replace(0, Some(wiring(vec![(1, 0), (2, 0)], vec![], 1, 0)));
    g.topo_sort(0).unwrap();
    let old = g.replace(2, Some(wiring(vec![], vec![], 1, 0)));
    assert!(old.is_some());
    let head = g.topo_sort(0).unwrap();
    assert_eq!(order_from(&g, head), vec![1, 2, 0]);
}

#[test]
fn smoothing_patch_order() {
    // Gain at the root reads the buzz at 2 and the smoothed control at 1.
    let mut g = Graph::new(3);
    g.replace(1, Some(wiring(vec![], vec![], 0, 1)));
    g.replace(0, Some(wiring(vec![(2, 0)], vec![(1, 0)], 1, 0)));
    g.replace(2, Some(wiring(vec![], vec![], 1, 0)));
    let head = g.topo_sort(0).unwrap();
    assert_eq!(order_from(&g, head), vec![2, 1, 0]);
}
