//! Datatypes representing the model of a patching grid: wire segments between
//! grid points, and module instances placed on the grid.

use vstd::prelude::*;

verus! {

/// A wire segment: the grid point it starts at, and whether it runs down
/// (`true`) or right (`false`) from there.
pub type GridIx = (u16, u16, bool);

/// The set of wire segments drawn on the grid.
pub struct WireGrid {
    grid: Vec<GridIx>,
}

/// The module instances placed on the grid.
pub struct ModuleGrid {
    modules: Vec<ModuleInstance>,
}

#[derive(Debug)]
pub struct ModuleInstance {
    pub loc: (u16, u16),
    pub spec: ModuleSpec,
}

#[derive(Debug)]
pub struct ModuleSpec {
    pub size: (u16, u16),
    pub name: String,
}

#[derive(Debug)]
pub enum Delta {
    Wire(WireDelta),
    /// Add a module.
    Module(ModuleInstance),
}

#[derive(Debug)]
pub struct WireDelta {
    pub grid_ix: GridIx,
    pub val: bool,
}

/// What a user action on the patcher asks for.
#[derive(Debug)]
pub enum PatcherAction {
    WireMode,
    JumperMode,
    Module(String),
}

/// The two grid points are one step apart in `x` or in `y`.
pub open spec fn is_unit_line(x0: u16, y0: u16, x1: u16, y1: u16) -> bool {
    x1 == x0 + 1 || x0 == x1 + 1 || y1 == y0 + 1 || y0 == y1 + 1
}

/// The segment between two grid points one step apart, where a step in `x`
/// is looked for first, then one in `y`.
pub open spec fn unit_line_ix(x0: u16, y0: u16, x1: u16, y1: u16) -> GridIx {
    if x1 == x0 + 1 {
        (x0, y0, false)
    } else if x0 == x1 + 1 {
        (x1, y0, false)
    } else if y1 == y0 + 1 {
        (x0, y0, true)
    } else {
        (x0, y1, true)
    }
}

/// The rectangles of two instances, each grown by one cell to the right and
/// down, touch or overlap.
pub open spec fn conflicts(a: ModuleInstance, b: ModuleInstance) -> bool {
    &&& a.loc.0 + a.spec.size.0 >= b.loc.0
    &&& b.loc.0 + b.spec.size.0 >= a.loc.0
    &&& a.loc.1 + a.spec.size.1 >= b.loc.1
    &&& b.loc.1 + b.spec.size.1 >= a.loc.1
}

/// The footprint of the module named `name`.
pub open spec fn mod_size(name: Seq<char>) -> (u16, u16) {
    if name == "sine"@ || name == "saw"@ {
        (2, 1)
    } else if name == "adsr"@ {
        (2, 3)
    } else if name == "control"@ {
        (1, 1)
    } else {
        (2, 2)
    }
}

impl WireGrid {
    /// The segments that are set.
    pub closed spec fn view(&self) -> Set<GridIx> {
        self.grid@.to_set()
    }

    pub closed spec fn wf(&self) -> bool {
        self.grid@.no_duplicates()
    }

    /// An empty grid.
    pub fn new() -> (r: WireGrid)
        ensures
            r.wf(),
            r@ == Set::<GridIx>::empty(),
    {
        let r = WireGrid { grid: Vec::new() };
        assert(r@ =~= Set::<GridIx>::empty());
        r
    }

    fn find(&self, grid_ix: GridIx) -> (r: Option<usize>)
        ensures
            r matches Some(i) ==> i < self.grid@.len() && self.grid@[i as int] == grid_ix,
            r is None ==> !self.grid@.contains(grid_ix),
    {
        let mut i: usize = 0;
        while i < self.grid.len()
            invariant
                i <= self.grid@.len(),
                forall|j: int| 0 <= j < i ==> self.grid@[j] != grid_ix,
            decreases self.grid@.len() - i,
        {
            let g = self.grid[i];
            if g.0 == grid_ix.0 && g.1 == grid_ix.1 && g.2 == grid_ix.2 {
                return Some(i);
            }
            i = i + 1;
        }
        None
    }

    /// Set (`val == true`) or clear the segment `grid_ix`.
    pub fn set(&mut self, grid_ix: GridIx, val: bool)
        requires
            old(self).wf(),
        ensures
            final(self).wf(),
            final(self)@ == if val {
                old(self)@.insert(grid_ix)
            } else {
                old(self)@.remove(grid_ix)
            },
    {
        let found = self.find(grid_ix);
        match found {
            Some(i) => {
                if !val {
                    let ghost g0 = self.grid@;
                    self.grid.swap_remove(i);
                    proof {
                        let g1 = self.grid@;
                        assert forall|x: GridIx| g1.contains(x) <==> (g0.contains(x) && x != grid_ix) by {
                            if g1.contains(x) {
                                let k = choose|k: int| 0 <= k < g1.len() && g1[k] == x;
                                if k == i {
                                    assert(g0[g0.len() - 1] == x);
                                } else {
                                    assert(g0[k] == x);
                                }
                                assert(x != grid_ix);
                            }
                            if g0.contains(x) && x != grid_ix {
                                let k = choose|k: int| 0 <= k < g0.len() && g0[k] == x;
                                if k == g0.len() - 1 {
                                    assert(g1[i as int] == x);
                                } else {
                                    assert(g1[k] == x);
                                }
                            }
                        }
                        assert forall|a: int, b: int| 0 <= a < b < g1.len() implies g1[a] != g1[b] by {
                            let ia = if a == i { g0.len() - 1 } else { a };
                            let ib = if b == i { g0.len() - 1 } else { b };
                            assert(g1[a] == g0[ia] && g1[b] == g0[ib]);
                        }
                        assert(self@ =~= old(self)@.remove(grid_ix));
                    }
                } else {
                    proof {
                        assert(self@ =~= old(self)@.insert(grid_ix));
                    }
                }
            },
            None => {
                if val {
                    self.grid.push(grid_ix);
                    proof {
                        let g0 = old(self).grid@;
                        let g1 = self.grid@;
                        assert forall|x: GridIx| g1.contains(x) <==> (g0.contains(x) || x == grid_ix) by {
                            if g1.contains(x) && x != grid_ix {
                                let k = choose|k: int| 0 <= k < g1.len() && g1[k] == x;
                                assert(g0[k] == x);
                            }
                            if g0.contains(x) {
                                let k = choose|k: int| 0 <= k < g0.len() && g0[k] == x;
                                assert(g1[k] == x);
                            }
                            if x == grid_ix {
                                assert(g1[g0.len() as int] == x);
                            }
                        }
                        assert(self@ =~= old(self)@.insert(grid_ix));
                    }
                } else {
                    proof {
                        assert(self@ =~= old(self)@.remove(grid_ix));
                    }
                }
            },
        }
    }

    /// Whether the segment `grid_ix` is set.
    pub fn is_set(&self, grid_ix: GridIx) -> (r: bool)
        ensures
            r == self@.contains(grid_ix),
    {
        self.find(grid_ix).is_some()
    }

    /// The segment joining two grid points one step apart.
    pub fn unit_line_to_grid_ix(x0: u16, y0: u16, x1: u16, y1: u16) -> (r: GridIx)
        requires
            is_unit_line(x0, y0, x1, y1),
        ensures
            r == unit_line_ix(x0, y0, x1, y1),
    {
        if x1 as u32 == x0 as u32 + 1 {
            (x0, y0, false)
        } else if x0 as u32 == x1 as u32 + 1 {
            (x1, y0, false)
        } else if y1 as u32 == y0 as u32 + 1 {
            (x0, y0, true)
        } else {
            (x0, y1, true)
        }
    }

    /// The segments that are set, each once.
    pub fn segments(&self) -> (r: Vec<GridIx>)
        requires
            self.wf(),
        ensures
            r@.to_set() == self@,
            r@.no_duplicates(),
    {
        let mut r: Vec<GridIx> = Vec::new();
        let mut i: usize = 0;
        while i < self.grid.len()
            invariant
                i <= self.grid@.len(),
                r@ == self.grid@.subrange(0, i as int),
            decreases self.grid@.len() - i,
        {
            r.push(self.grid[i]);
            i = i + 1;
            assert(r@ =~= self.grid@.subrange(0, i as int));
        }
        assert(r@ =~= self.grid@);
        r
    }
}

impl ModuleInstance {
    /// Whether this instance conflicts with another proposed instance.
    pub fn is_conflict(&self, other: &ModuleInstance) -> (r: bool)
        ensures
            r == conflicts(*self, *other),
    {
        self.loc.0 as u32 + self.spec.size.0 as u32 >= other.loc.0 as u32 && other.loc.0 as u32
            + other.spec.size.0 as u32 >= self.loc.0 as u32 && self.loc.1 as u32
            + self.spec.size.1 as u32 >= other.loc.1 as u32 && other.loc.1 as u32
            + other.spec.size.1 as u32 >= self.loc.1 as u32
    }
}

impl ModuleGrid {
    /// The instances on the grid, in the order they were added.
    pub closed spec fn view(&self) -> Seq<ModuleInstance> {
        self.modules@
    }

    /// An empty grid.
    pub fn new() -> (r: ModuleGrid)
        ensures
            r@ == Seq::<ModuleInstance>::empty(),
    {
        ModuleGrid { modules: Vec::new() }
    }

    /// Add a module instance to the grid.
    pub fn add(&mut self, instance: ModuleInstance)
        ensures
            final(self)@ == old(self)@.push(instance),
    {
        self.modules.push(instance);
    }

    /// The instance at position `i`.
    pub fn get(&self, i: usize) -> (r: &ModuleInstance)
        requires
            i < self@.len(),
        ensures
            *r == self@[i as int],
    {
        &self.modules[i]
    }

    /// The number of instances on the grid.
    pub fn len(&self) -> (r: usize)
        ensures
            r == self@.len(),
    {
        self.modules.len()
    }

    /// Whether the proposed instance conflicts with any on the grid.
    pub fn is_conflict(&self, other: &ModuleInstance) -> (r: bool)
        ensures
            r == exists|i: int| 0 <= i < self@.len() && conflicts(#[trigger] self@[i], *other),
    {
        let mut i: usize = 0;
        while i < self.modules.len()
            invariant
                i <= self@.len(),
                forall|j: int| 0 <= j < i ==> !conflicts(#[trigger] self@[j], *other),
            decreases self@.len() - i,
        {
            if self.modules[i].is_conflict(other) {
                return true;
            }
            i = i + 1;
        }
        false
    }
}

fn str_eq(a: &str, b: &str) -> (r: bool)
    ensures
        r == (a@ == b@),
{
    let n = a.unicode_len();
    if n != b.unicode_len() {
        return false;
    }
    let mut i: usize = 0;
    while i < n
        invariant
            n == a@.len(),
            n == b@.len(),
            i <= n,
            forall|j: int| 0 <= j < i ==> a@[j] == b@[j],
        decreases n - i,
    {
        if a.get_char(i) != b.get_char(i) {
            return false;
        }
        i = i + 1;
    }
    assert(a@ =~= b@);
    true
}

/// Make a module spec given a name.
pub fn make_mod_spec(name: &str) -> (r: ModuleSpec)
    ensures
        r.size == mod_size(name@),
        r.name@ == name@,
{
    proof {
        reveal_strlit("sine");
        reveal_strlit("saw");
        reveal_strlit("adsr");
        reveal_strlit("control");
    }
    let size: (u16, u16) = if str_eq(name, "sine") || str_eq(name, "saw") {
        (2, 1)
    } else if str_eq(name, "adsr") {
        (2, 3)
    } else if str_eq(name, "control") {
        (1, 1)
    } else {
        (2, 2)
    };
    ModuleSpec { size, name: String::from_str(name) }
}

} // verus!
