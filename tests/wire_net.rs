use synthesizer_io::grid::WireGrid;
use synthesizer_io::wire_net::WireNet;

fn grid_with(segments: &[(u16, u16, bool)]) -> WireGrid {
    let mut g = WireGrid::new();
    for &s in segments {
        g.set(s, true);
    }
    g
}

#[test]
fn segments_join_points_into_nets() {
    // (0,0)-(1,0)-(1,1) and, apart, (5,5)-(5,6)
    let g = grid_with(&[(0, 0, false), (1, 0, true), (5, 5, true)]);
    let mut net = WireNet::build(&g);
    assert!(net.connected((0, 0), (1, 1)));
    assert!(net.connected((1, 1), (0, 0)));
    assert!(net.connected((5, 6), (5, 5)));
    assert!(!net.connected((0, 0), (5, 5)));
    assert!(!net.connected((0, 0), (0, 1)));
    assert!(net.connected((9, 9), (9, 9)));
    assert!(!net.connected((9, 9), (9, 8)));
}

#[test]
fn cleared_segment_splits_a_net() {
    let mut g = grid_with(&[(0, 0, false), (1, 0, false)]);
    assert!(WireNet::build(&g).connected((0, 0), (2, 0)));
    g.set((1, 0, false), false);
    let mut net = WireNet::build(&g);
    assert!(!net.connected((0, 0), (2, 0)));
    assert!(net.connected((0, 0), (1, 0)));
}

#[test]
fn output_bus_collects_pins_on_the_output_net() {
    // A wire from (17,15) to (19,15), and one from (3,3) down to (3,4).
    let g = grid_with(&[(17, 15, false), (18, 15, false), (3, 3, true)]);
    let mut net = WireNet::build(&g);
    let outputs = vec![((17, 15), 4), ((3, 3), 7), ((18, 15), 9), ((19, 15), 2)];
    assert_eq!(net.output_bus((19, 15), &outputs), vec![4, 9, 2]);
    assert_eq!(net.output_bus((3, 4), &outputs), vec![7]);
    assert!(net.output_bus((0, 0), &outputs).is_empty());
}
