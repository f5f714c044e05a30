use synthesizer_io::grid::{make_mod_spec, ModuleGrid, ModuleInstance, WireGrid};

#[test]
fn wires_set_and_clear() {
    let mut g = WireGrid::new();
    assert!(!g.is_set((1, 2, false)));
    g.set((1, 2, false), true);
    g.set((1, 2, false), true);
    assert!(g.is_set((1, 2, false)));
    assert!(!g.is_set((1, 2, true)));
    assert_eq!(g.segments().len(), 1);
    g.set((1, 2, true), true);
    g.set((1, 2, false), false);
    assert!(!g.is_set((1, 2, false)));
    assert!(g.is_set((1, 2, true)));
    assert_eq!(g.segments(), vec![(1, 2, true)]);
}

#[test]
fn unit_lines_map_to_segments() {
    assert_eq!(WireGrid::unit_line_to_grid_ix(3, 4, 4, 4), (3, 4, false));
    assert_eq!(WireGrid::unit_line_to_grid_ix(4, 4, 3, 4), (3, 4, false));
    assert_eq!(WireGrid::unit_line_to_grid_ix(3, 4, 3, 5), (3, 4, true));
    assert_eq!(WireGrid::unit_line_to_grid_ix(3, 5, 3, 4), (3, 4, true));
}

#[test]
fn module_specs_by_name() {
    let s = make_mod_spec("sine");
    assert_eq!(s.size, (2, 1));
    assert_eq!(s.name, "sine");
    assert_eq!(make_mod_spec("saw").size, (2, 1));
    assert_eq!(make_mod_spec("adsr").size, (2, 3));
    assert_eq!(make_mod_spec("control").size, (1, 1));
    assert_eq!(make_mod_spec("gain").size, (2, 2));
    assert_eq!(make_mod_spec("gain").name, "gain");
}

#[test]
fn module_conflicts() {
    let mut grid = ModuleGrid::new();
    let a = ModuleInstance { loc: (0, 0), spec: make_mod_spec("sine") };
    assert!(!grid.is_conflict(&a));
    grid.add(a);
    assert_eq!(grid.len(), 1);
    let near = ModuleInstance { loc: (2, 1), spec: make_mod_spec("sine") };
    assert!(grid.is_conflict(&near));
    let far = ModuleInstance { loc: (5, 0), spec: make_mod_spec("sine") };
    assert!(!grid.is_conflict(&far));
    assert!(!grid.get(0).is_conflict(&far));
    let edge = ModuleInstance { loc: (65535, 65535), spec: make_mod_spec("adsr") };
    assert!(!grid.is_conflict(&edge));
}

#[test]
fn it_works() {
    assert_eq!(2 + 2, 4);
}
