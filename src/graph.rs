//! The wiring topology of the processing graph: a fixed-capacity slot array
//! indexed by node id, and the allocation-free topological sort that gives
//! the order in which the audio worker runs the nodes.

use vstd::prelude::*;

verus! {

/// The link value that ends a chain in the link array.
pub const SENTINEL: usize = usize::MAX;

/// The input wiring of one node and the number of outputs its module makes.
pub struct Wiring {
    /// For each buffer input: the source node and the index of its output buffer.
    pub bufs: Vec<(usize, usize)>,
    /// For each control input: the source node and the index of its control output.
    pub ctrls: Vec<(usize, usize)>,
    /// How many output buffers the node produces.
    pub n_bufs_out: usize,
    /// How many control values the node produces.
    pub n_ctrl_out: usize,
}

/// Why a graph cannot be run from a given root.
#[derive(PartialEq, Eq, Structural, Clone, Copy, Debug)]
pub enum GraphError {
    /// The root id holds no node.
    NoRoot(usize),
    /// `node` reads from `source`, which holds no node.
    MissingSource { node: usize, source: usize },
    /// `node` reads from itself.
    SelfWire { node: usize },
    /// `node` reads output `index` of `source`, which has no such output.
    BadIndex { node: usize, source: usize, index: usize },
    /// `node` reads from `source`, which in turn depends on `node`.
    Cycle { node: usize, source: usize },
}

#[derive(PartialEq, Eq, Structural, Clone, Copy)]
enum VisitState {
    NotVisited,
    Pushed,
    Scanned,
}

/// The outcome of looking over one node's inputs during the sort.
enum Step {
    Fail(GraphError),
    Descend(usize),
    Finished,
}

/// The buffer inputs (`ctrl == false`) or the control inputs of a node.
pub open spec fn part(w: Wiring, ctrl: bool) -> Seq<(usize, usize)> {
    if ctrl { w.ctrls@ } else { w.bufs@ }
}

/// How many outputs of the given kind a node produces.
pub open spec fn n_out(w: Wiring, ctrl: bool) -> usize {
    if ctrl { w.n_ctrl_out } else { w.n_bufs_out }
}

/// Slot `x` holds a node.
pub open spec fn installed(nodes: Seq<Option<Wiring>>, x: usize) -> bool {
    x < nodes.len() && nodes[x as int] is Some
}

/// Some input of the given kind of `w` reads from `s`.
pub open spec fn wired(w: Wiring, ctrl: bool, s: usize) -> bool {
    exists|i: int| 0 <= i < part(w, ctrl).len() && (#[trigger] part(w, ctrl)[i]).0 == s
}

/// Node `x` reads from node `s`.
pub open spec fn is_source(nodes: Seq<Option<Wiring>>, x: usize, s: usize) -> bool {
    installed(nodes, x) && (wired(nodes[x as int].unwrap(), false, s) || wired(
        nodes[x as int].unwrap(),
        true,
        s,
    ))
}

/// Each node of `p` reads from the next one.
pub open spec fn is_path(nodes: Seq<Option<Wiring>>, p: Seq<usize>) -> bool {
    &&& p.len() >= 1
    &&& forall|i: int| 0 <= i < p.len() - 1 ==> is_source(nodes, #[trigger] p[i], p[i + 1])
}

/// `x` is reached from `from` by following inputs.
pub open spec fn reachable(nodes: Seq<Option<Wiring>>, from: usize, x: usize) -> bool {
    exists|p: Seq<usize>| is_path(nodes, p) && p[0] == from && #[trigger] p.last() == x
}

/// Some node reached from `root` depends on itself.
pub open spec fn has_cycle_from(nodes: Seq<Option<Wiring>>, root: usize) -> bool {
    exists|p: Seq<usize>|
        is_path(nodes, p) && p.len() >= 2 && #[trigger] p[0] == p.last() && reachable(
            nodes,
            root,
            p[0],
        )
}

/// Input `(s, k)` of kind `ctrl` of node `x` names an existing output of another node.
pub open spec fn wire_ok(nodes: Seq<Option<Wiring>>, x: usize, ctrl: bool, wire: (usize, usize)) -> bool {
    &&& wire.0 != x
    &&& installed(nodes, wire.0)
    &&& wire.1 < n_out(nodes[wire.0 as int].unwrap(), ctrl)
}

/// Node `x` is installed and every input of it names an existing output of another node.
pub open spec fn wiring_ok(nodes: Seq<Option<Wiring>>, x: usize) -> bool {
    &&& installed(nodes, x)
    &&& forall|i: int|
        0 <= i < part(nodes[x as int].unwrap(), false).len() ==> wire_ok(
            nodes,
            x,
            false,
            #[trigger] part(nodes[x as int].unwrap(), false)[i],
        )
    &&& forall|i: int|
        0 <= i < part(nodes[x as int].unwrap(), true).len() ==> wire_ok(
            nodes,
            x,
            true,
            #[trigger] part(nodes[x as int].unwrap(), true)[i],
        )
}

/// The part of the graph reached from `root` can be run: the root is installed,
/// every reached node is wired to existing outputs, and no reached node
/// depends on itself.
pub open spec fn runnable(nodes: Seq<Option<Wiring>>, root: usize) -> bool {
    &&& installed(nodes, root)
    &&& forall|x: usize| reachable(nodes, root, x) ==> #[trigger] wiring_ok(nodes, x)
    &&& !has_cycle_from(nodes, root)
}

/// `s` stands in `order` before position `i`.
pub open spec fn earlier(order: Seq<usize>, i: int, s: usize) -> bool {
    exists|k: int| 0 <= k < i && order[k] == s
}

/// `order` runs each node reached from `root` exactly once, every node after
/// all the nodes it reads from, and `root` last.
pub open spec fn is_schedule(nodes: Seq<Option<Wiring>>, root: usize, order: Seq<usize>) -> bool {
    &&& order.no_duplicates()
    &&& forall|x: usize| order.contains(x) <==> reachable(nodes, root, x)
    &&& closed_under_inputs(nodes, order)
    &&& order.len() >= 1
    &&& order.last() == root
}

/// What an error says of the graph reached from `root`.
pub open spec fn shows(nodes: Seq<Option<Wiring>>, root: usize, e: GraphError) -> bool {
    match e {
        GraphError::NoRoot(id) => id == root && !installed(nodes, root),
        GraphError::MissingSource { node, source } => {
            &&& reachable(nodes, root, node)
            &&& is_source(nodes, node, source)
            &&& !installed(nodes, source)
        },
        GraphError::SelfWire { node } => reachable(nodes, root, node) && is_source(nodes, node, node),
        GraphError::BadIndex { node, source, index } => {
            &&& reachable(nodes, root, node)
            &&& installed(nodes, node)
            &&& installed(nodes, source)
            &&& exists|ctrl: bool, i: int|
                0 <= i < part(nodes[node as int].unwrap(), ctrl).len() && #[trigger] part(
                    nodes[node as int].unwrap(),
                    ctrl,
                )[i] == (source, index) && index >= n_out(nodes[source as int].unwrap(), ctrl)
        },
        GraphError::Cycle { node, source } => {
            &&& reachable(nodes, root, node)
            &&& is_source(nodes, node, source)
            &&& reachable(nodes, source, node)
        },
    }
}

/// Following `link` from `order[0]` visits `order` and then meets `SENTINEL`.
pub open spec fn chain(link: Seq<usize>, order: Seq<usize>) -> bool {
    &&& forall|i: int| 0 <= i < order.len() ==> (#[trigger] order[i]) < link.len()
    &&& forall|i: int| 0 <= i < order.len() - 1 ==> link[#[trigger] order[i] as int] == order[i + 1]
    &&& order.len() > 0 ==> link[order.last() as int] == SENTINEL
}

/// The set of ids below `n`.
pub open spec fn below(n: usize) -> Set<usize> {
    Set::new(|x: usize| x < n)
}

proof fn lemma_below(n: usize)
    ensures
        below(n).finite(),
        below(n).len() == n,
    decreases n,
{
    if n == 0 {
        assert(below(0) =~= Set::<usize>::empty());
    } else {
        let m = (n - 1) as usize;
        lemma_below(m);
        assert(below(n) =~= below(m).insert(m));
    }
}

/// A sequence of distinct ids below `n` has at most `n` elements.
proof fn lemma_distinct_below(s: Seq<usize>, n: usize)
    requires
        s.no_duplicates(),
        forall|i: int| 0 <= i < s.len() ==> s[i] < n,
    ensures
        s.len() <= n,
{
    lemma_below(n);
    s.unique_seq_to_set();
    assert(s.to_set().subset_of(below(n)));
    vstd::set_lib::lemma_len_subset(s.to_set(), below(n));
}

proof fn lemma_path_subrange(nodes: Seq<Option<Wiring>>, p: Seq<usize>, a: int, b: int)
    requires
        is_path(nodes, p),
        0 <= a < b <= p.len(),
    ensures
        is_path(nodes, p.subrange(a, b)),
{
    let q = p.subrange(a, b);
    assert forall|i: int| 0 <= i < q.len() - 1 implies is_source(nodes, #[trigger] q[i], q[i + 1]) by {
        assert(q[i] == p[a + i] && q[i + 1] == p[a + i + 1]);
    }
}

proof fn lemma_path_push(nodes: Seq<Option<Wiring>>, p: Seq<usize>, s: usize)
    requires
        is_path(nodes, p),
        is_source(nodes, p.last(), s),
    ensures
        is_path(nodes, p.push(s)),
        p.push(s)[0] == p[0],
        p.push(s).last() == s,
{
    let q = p.push(s);
    assert forall|i: int| 0 <= i < q.len() - 1 implies is_source(nodes, #[trigger] q[i], q[i + 1]) by {
        if i < p.len() - 1 {
            assert(q[i] == p[i] && q[i + 1] == p[i + 1]);
        }
    }
}

/// Every input of a node of `order` is a node of `order`.
pub open spec fn closed_under_inputs(nodes: Seq<Option<Wiring>>, order: Seq<usize>) -> bool {
    forall|i: int, s: usize|
        0 <= i < order.len() && #[trigger] is_source(nodes, order[i], s) ==> earlier(order, i, s)
}

/// Following a path from a node of a set closed under inputs stays in the set,
/// and, where each input stands earlier, goes strictly backwards in it.
proof fn lemma_descend(nodes: Seq<Option<Wiring>>, order: Seq<usize>, p: Seq<usize>, i0: int) -> (k: int)
    requires
        closed_under_inputs(nodes, order),
        is_path(nodes, p),
        0 <= i0 < order.len(),
        order[i0] == p[0],
    ensures
        0 <= k < order.len(),
        order[k] == p.last(),
        k <= i0,
        p.len() >= 2 ==> k < i0,
    decreases p.len(),
{
    if p.len() == 1 {
        i0
    } else {
        let q = p.drop_last();
        lemma_path_subrange(nodes, p, 0, p.len() - 1);
        assert(q =~= p.subrange(0, p.len() - 1));
        let j = lemma_descend(nodes, order, q, i0);
        assert(is_source(nodes, p[p.len() - 2], p[p.len() - 1]));
        assert(order[j] == p[p.len() - 2]);
        assert(earlier(order, j, p.last()));
        let k = choose|k: int| 0 <= k < j && order[k] == p.last();
        k
    }
}

/// Every node reached from a node of a set closed under inputs is in the set.
proof fn lemma_closed_reach(nodes: Seq<Option<Wiring>>, order: Seq<usize>, from: usize, x: usize)
    requires
        closed_under_inputs(nodes, order),
        order.contains(from),
        reachable(nodes, from, x),
    ensures
        order.contains(x),
{
    let p = choose|p: Seq<usize>| is_path(nodes, p) && p[0] == from && #[trigger] p.last() == x;
    let i0 = choose|i: int| 0 <= i < order.len() && order[i] == from;
    let k = lemma_descend(nodes, order, p, i0);
}

/// A set of distinct nodes in which each node's inputs come earlier holds no
/// node that depends on itself.
proof fn lemma_no_cycle(nodes: Seq<Option<Wiring>>, order: Seq<usize>, root: usize)
    requires
        closed_under_inputs(nodes, order),
        order.no_duplicates(),
        forall|x: usize| reachable(nodes, root, x) ==> order.contains(x),
    ensures
        !has_cycle_from(nodes, root),
{
    if has_cycle_from(nodes, root) {
        let p = choose|p: Seq<usize>|
            is_path(nodes, p) && p.len() >= 2 && #[trigger] p[0] == p.last() && reachable(
                nodes,
                root,
                p[0],
            );
        assert(order.contains(p[0]));
        let i0 = choose|i: int| 0 <= i < order.len() && order[i] == p[0];
        let k = lemma_descend(nodes, order, p, i0);
        assert(order[k] == order[i0]);
    }
}

/// The nodes that `x` reads from, buffer inputs first, each list in wiring order.
pub open spec fn srcs(nodes: Seq<Option<Wiring>>, x: usize) -> Seq<usize> {
    part(nodes[x as int].unwrap(), false).map_values(|p: (usize, usize)| p.0) + part(
        nodes[x as int].unwrap(),
        true,
    ).map_values(|p: (usize, usize)| p.0)
}

/// Depth-first visit of `x` after the nodes of `done`: the sources of `x` not
/// yet placed are visited in order, then `x` is placed. `fuel` bounds the depth.
pub open spec fn visit(nodes: Seq<Option<Wiring>>, fuel: nat, done: Seq<usize>, x: usize) -> Seq<usize>
    decreases fuel, 0nat, 0nat,
{
    if fuel == 0 {
        done.push(x)
    } else {
        visit_from(nodes, (fuel - 1) as nat, done, x, 0).push(x)
    }
}

/// The visits of the sources of `x` from the `i`-th on, after `done`.
pub open spec fn visit_from(
    nodes: Seq<Option<Wiring>>,
    fuel: nat,
    done: Seq<usize>,
    x: usize,
    i: nat,
) -> Seq<usize>
    decreases fuel, 1nat, srcs(nodes, x).len() - i,
{
    if i >= srcs(nodes, x).len() {
        done
    } else {
        let s = srcs(nodes, x)[i as int];
        let d2 = if done.contains(s) {
            done
        } else {
            visit(nodes, fuel, done, s)
        };
        visit_from(nodes, fuel, d2, x, i + 1)
    }
}

/// The order in which the nodes reached from `root` run: the depth-first
/// post-order that visits each node's sources in wiring order.
pub open spec fn dfs_order(nodes: Seq<Option<Wiring>>, root: usize) -> Seq<usize> {
    visit(nodes, nodes.len(), Seq::empty(), root)
}

/// What the visits still to finish make of `done`: the node on top of
/// `stack` (at depth `stack.len() - 1`) is completed, then the one below it,
/// down to the root.
spec fn unwind(nodes: Seq<Option<Wiring>>, stack: Seq<usize>, done: Seq<usize>) -> Seq<usize>
    decreases stack.len(),
{
    if stack.len() == 0 {
        done
    } else {
        let k = stack.len() - 1;
        let fuel = (nodes.len() - k - 1) as nat;
        unwind(nodes, stack.drop_last(), visit_from(nodes, fuel, done, stack[k], 0).push(stack[k]))
    }
}

proof fn lemma_visit_grows(nodes: Seq<Option<Wiring>>, fuel: nat, done: Seq<usize>, x: usize, y: usize)
    requires
        done.contains(y),
    ensures
        visit(nodes, fuel, done, x).contains(y),
        visit(nodes, fuel, done, x).contains(x),
    decreases fuel, 0nat, 0nat,
{
    if fuel > 0 {
        lemma_visit_from_grows(nodes, (fuel - 1) as nat, done, x, 0, y);
        lemma_push_keeps(visit_from(nodes, (fuel - 1) as nat, done, x, 0), x, y);
    } else {
        lemma_push_keeps(done, x, y);
    }
}

proof fn lemma_visit_from_grows(
    nodes: Seq<Option<Wiring>>,
    fuel: nat,
    done: Seq<usize>,
    x: usize,
    i: nat,
    y: usize,
)
    requires
        done.contains(y),
    ensures
        visit_from(nodes, fuel, done, x, i).contains(y),
    decreases fuel, 1nat, srcs(nodes, x).len() - i,
{
    if i < srcs(nodes, x).len() {
        let s = srcs(nodes, x)[i as int];
        if !done.contains(s) {
            lemma_visit_grows(nodes, fuel, done, s, y);
            lemma_visit_from_grows(nodes, fuel, visit(nodes, fuel, done, s), x, i + 1, y);
        } else {
            lemma_visit_from_grows(nodes, fuel, done, x, i + 1, y);
        }
    }
}

proof fn lemma_push_keeps(s: Seq<usize>, x: usize, y: usize)
    ensures
        s.contains(y) ==> s.push(x).contains(y),
        s.push(x).contains(x),
{
    assert(s.push(x)[s.len() as int] == x);
    if s.contains(y) {
        let j = choose|j: int| 0 <= j < s.len() && s[j] == y;
        assert(s.push(x)[j] == y);
    }
}

/// Sources already placed are skipped.
proof fn lemma_skip_placed(nodes: Seq<Option<Wiring>>, fuel: nat, done: Seq<usize>, x: usize, i: nat)
    requires
        i <= srcs(nodes, x).len(),
        forall|j: int| 0 <= j < i ==> done.contains(#[trigger] srcs(nodes, x)[j]),
    ensures
        visit_from(nodes, fuel, done, x, 0) == visit_from(nodes, fuel, done, x, i),
    decreases i,
{
    if i > 0 {
        lemma_skip_placed(nodes, fuel, done, x, (i - 1) as nat);
        assert(done.contains(srcs(nodes, x)[i - 1]));
    }
}

proof fn lemma_unwind_start(nodes: Seq<Option<Wiring>>, root: usize)
    requires
        nodes.len() >= 1,
    ensures
        unwind(nodes, seq![root], Seq::empty()) == dfs_order(nodes, root),
{
    let st = seq![root];
    assert(st.drop_last() =~= Seq::<usize>::empty());
    assert(st[0] == root);
    let v = visit_from(nodes, (nodes.len() - 1) as nat, Seq::empty(), root, 0).push(root);
    assert(unwind(nodes, st, Seq::empty()) == unwind(nodes, Seq::<usize>::empty(), v));
    assert(unwind(nodes, Seq::<usize>::empty(), v) == v);
}

proof fn lemma_unwind_finish(nodes: Seq<Option<Wiring>>, stack: Seq<usize>, res: Seq<usize>)
    requires
        stack.len() >= 1,
        forall|j: int|
            0 <= j < srcs(nodes, stack.last()).len() ==> res.contains(
                #[trigger] srcs(nodes, stack.last())[j],
            ),
    ensures
        unwind(nodes, stack, res) == unwind(nodes, stack.drop_last(), res.push(stack.last())),
{
    let k = stack.len() - 1;
    let x = stack[k];
    assert(x == stack.last());
    let fuel = (nodes.len() - k - 1) as nat;
    lemma_skip_placed(nodes, fuel, res, x, srcs(nodes, x).len());
}

proof fn lemma_unwind_descend(
    nodes: Seq<Option<Wiring>>,
    stack: Seq<usize>,
    res: Seq<usize>,
    s: usize,
    i: int,
)
    requires
        stack.len() >= 1,
        stack.len() + 1 <= nodes.len(),
        0 <= i < srcs(nodes, stack.last()).len(),
        srcs(nodes, stack.last())[i] == s,
        forall|j: int| 0 <= j < i ==> res.contains(#[trigger] srcs(nodes, stack.last())[j]),
        !res.contains(s),
    ensures
        unwind(nodes, stack.push(s), res) == unwind(nodes, stack, res),
{
    let k = stack.len() - 1;
    let x = stack[k];
    let f = (nodes.len() - k - 1) as nat;
    let st2 = stack.push(s);
    assert(st2.drop_last() =~= stack);
    assert(st2[k + 1] == s);
    let v = visit(nodes, f, res, s);
    assert(v == visit_from(nodes, (f - 1) as nat, res, s, 0).push(s));
    assert(unwind(nodes, st2, res) == unwind(nodes, stack, v));
    lemma_skip_placed(nodes, f, res, x, i as nat);
    assert(visit_from(nodes, f, res, x, i as nat) == visit_from(nodes, f, v, x, (i + 1) as nat));
    lemma_push_keeps(visit_from(nodes, (f - 1) as nat, res, s, 0), s, s);
    assert forall|j: int| 0 <= j < i + 1 implies v.contains(#[trigger] srcs(nodes, x)[j]) by {
        if j < i {
            lemma_visit_grows(nodes, f, res, s, srcs(nodes, x)[j]);
        }
    }
    lemma_skip_placed(nodes, f, v, x, (i + 1) as nat);
}

/// The evaluation order depends on the installed wiring and the root alone:
/// two successful sorts of graphs whose slots hold the same wiring, from the
/// same root, leave the same order, and so run the same modules in the same
/// sequence.
pub proof fn lemma_sort_deterministic(
    a: Seq<Option<Wiring>>,
    order_a: Seq<usize>,
    b: Seq<Option<Wiring>>,
    order_b: Seq<usize>,
    root: usize,
)
    requires
        a == b,
        order_a == dfs_order(a, root),
        order_b == dfs_order(b, root),
    ensures
        order_a == order_b,
        is_schedule(a, root, order_a) <==> is_schedule(b, root, order_b),
{
}

/// What a failed look over node `x`'s inputs found.
spec fn fails_at(nodes: Seq<Option<Wiring>>, visited: Seq<VisitState>, x: usize, e: GraphError) -> bool {
    let w = nodes[x as int].unwrap();
    match e {
        GraphError::NoRoot(_) => false,
        GraphError::MissingSource { node, source } => {
            node == x && is_source(nodes, x, source) && !installed(nodes, source)
        },
        GraphError::SelfWire { node } => node == x && is_source(nodes, x, x),
        GraphError::BadIndex { node, source, index } => {
            &&& node == x
            &&& installed(nodes, source)
            &&& exists|ctrl: bool, i: int|
                0 <= i < part(w, ctrl).len() && #[trigger] part(w, ctrl)[i] == (source, index)
                    && index >= n_out(nodes[source as int].unwrap(), ctrl)
        },
        GraphError::Cycle { node, source } => {
            &&& node == x
            &&& is_source(nodes, x, source)
            &&& installed(nodes, source)
            &&& visited[source as int] == VisitState::Pushed
        },
    }
}

proof fn lemma_disjoint_bound(
    nodes: Seq<Option<Wiring>>,
    visited: Seq<VisitState>,
    stack: Seq<usize>,
    res: Seq<usize>,
    n: usize,
)
    requires
        nodes.len() == n,
        visited.len() == n,
        stack.no_duplicates(),
        res.no_duplicates(),
        forall|i: int| 0 <= i < stack.len() ==> installed(nodes, #[trigger] stack[i]),
        forall|i: int| 0 <= i < res.len() ==> installed(nodes, #[trigger] res[i]),
        forall|y: usize| y < n ==> (visited[y as int] == VisitState::Pushed <==> stack.contains(y)),
        forall|y: usize| y < n ==> (visited[y as int] == VisitState::Scanned <==> res.contains(y)),
    ensures
        stack.len() + res.len() <= n,
{
    assert forall|i: int| 0 <= i < (stack + res).len() implies (stack + res)[i] < n by {
        if i < stack.len() {
            assert(installed(nodes, stack[i]));
        } else {
            assert(installed(nodes, res[i - stack.len()]));
        }
    }
    assert forall|i: int, j: int| 0 <= i < j < (stack + res).len() implies (stack + res)[i] != (stack
        + res)[j] by {
        if i < stack.len() && j >= stack.len() {
            let y = stack[i];
            assert(installed(nodes, y));
            assert(stack.contains(y));
            assert(res[j - stack.len()] == (stack + res)[j]);
            if y == res[j - stack.len()] {
                assert(res.contains(y));
            }
        }
    }
    lemma_distinct_below(stack + res, n);
}

/// A failed look over the inputs of the top of the sort's stack shows a defect
/// of the graph reached from `root`.
proof fn lemma_fail(
    nodes: Seq<Option<Wiring>>,
    visited: Seq<VisitState>,
    stack: Seq<usize>,
    root: usize,
    x: usize,
    e: GraphError,
)
    requires
        visited.len() == nodes.len(),
        stack.len() > 0,
        stack[0] == root,
        stack.last() == x,
        installed(nodes, x),
        forall|i: int| 0 <= i < stack.len() - 1 ==> is_source(nodes, #[trigger] stack[i], stack[i + 1]),
        forall|i: int| 0 <= i < stack.len() ==> reachable(nodes, root, #[trigger] stack[i]),
        forall|y: usize|
            y < nodes.len() ==> (visited[y as int] == VisitState::Pushed <==> stack.contains(y)),
        fails_at(nodes, visited, x, e),
    ensures
        shows(nodes, root, e),
        !runnable(nodes, root),
{
    let k = stack.len() - 1;
    assert(reachable(nodes, root, stack[k]));
    let w = nodes[x as int].unwrap();
    match e {
        GraphError::Cycle { node, source } => {
            assert(stack.contains(source));
            let j = choose|j: int| 0 <= j < stack.len() && stack[j] == source;
            let q = stack.subrange(j, stack.len() as int);
            assert(is_path(nodes, stack));
            lemma_path_subrange(nodes, stack, j, stack.len() as int);
            assert(q[0] == source && q.last() == x);
            assert(reachable(nodes, source, x));
            lemma_path_push(nodes, q, source);
            let p = q.push(source);
            assert(reachable(nodes, root, stack[j]));
            assert(is_path(nodes, p) && p.len() >= 2 && p[0] == p.last() && reachable(nodes, root, p[0]));
            assert(has_cycle_from(nodes, root));
        },
        GraphError::MissingSource { node, source } => {
            let c = !wired(w, false, source);
            let i = choose|i: int| 0 <= i < part(w, c).len() && (#[trigger] part(w, c)[i]).0 == source;
            assert(!wire_ok(nodes, x, c, part(w, c)[i]));
            assert(!wiring_ok(nodes, x));
        },
        GraphError::SelfWire { node } => {
            let c = !wired(w, false, x);
            let i = choose|i: int| 0 <= i < part(w, c).len() && (#[trigger] part(w, c)[i]).0 == x;
            assert(!wire_ok(nodes, x, c, part(w, c)[i]));
            assert(!wiring_ok(nodes, x));
        },
        GraphError::BadIndex { node, source, index } => {
            let (c, i) = choose|c: bool, i: int|
                0 <= i < part(w, c).len() && #[trigger] part(w, c)[i] == (source, index)
                    && index >= n_out(nodes[source as int].unwrap(), c);
            assert(!wire_ok(nodes, x, c, part(w, c)[i]));
            assert(!wiring_ok(nodes, x));
        },
        GraphError::NoRoot(_) => {},
    }
}

/// `s` is the first source of `x` not yet placed.
spec fn first_unplaced(nodes: Seq<Option<Wiring>>, visited: Seq<VisitState>, x: usize, s: usize) -> bool {
    exists|i: int|
        0 <= i < srcs(nodes, x).len() && srcs(nodes, x)[i] == s && forall|j: int|
            0 <= j < i ==> (#[trigger] srcs(nodes, x)[j]) < nodes.len() && visited[srcs(
                nodes,
                x,
            )[j] as int] == VisitState::Scanned
}

/// `s` is the first source among the inputs of kind `ctrl` of `x` not yet placed.
spec fn descend_at(nodes: Seq<Option<Wiring>>, visited: Seq<VisitState>, x: usize, ctrl: bool, s: usize) -> bool {
    let w = nodes[x as int].unwrap();
    exists|i: int|
        0 <= i < part(w, ctrl).len() && part(w, ctrl)[i].0 == s && forall|j: int|
            0 <= j < i ==> wire_ok(nodes, x, ctrl, #[trigger] part(w, ctrl)[j]) && visited[part(
                w,
                ctrl,
            )[j].0 as int] == VisitState::Scanned
}

proof fn lemma_first_unplaced(nodes: Seq<Option<Wiring>>, visited: Seq<VisitState>, x: usize, s: usize, ctrl: bool)
    requires
        installed(nodes, x),
        descend_at(nodes, visited, x, ctrl, s),
        ctrl ==> inputs_placed(nodes, visited, x, false),
    ensures
        first_unplaced(nodes, visited, x, s),
{
    let w = nodes[x as int].unwrap();
    let a = part(w, false).map_values(|p: (usize, usize)| p.0);
    let b = part(w, true).map_values(|p: (usize, usize)| p.0);
    let sr = srcs(nodes, x);
    assert(sr == a + b);
    let i = choose|i: int|
        0 <= i < part(w, ctrl).len() && part(w, ctrl)[i].0 == s && forall|j: int|
            0 <= j < i ==> wire_ok(nodes, x, ctrl, #[trigger] part(w, ctrl)[j]) && visited[part(
                w,
                ctrl,
            )[j].0 as int] == VisitState::Scanned;
    let off = if ctrl { a.len() } else { 0 };
    let t = off + i;
    assert(sr[t] == s);
    assert forall|j: int| 0 <= j < t implies (#[trigger] sr[j]) < nodes.len() && visited[sr[j] as int] == VisitState::Scanned by {
        if j < a.len() {
            assert(sr[j] == part(w, false)[j].0);
            assert(wire_ok(nodes, x, false, part(w, false)[j]));
        } else {
            assert(sr[j] == part(w, true)[j - a.len()].0);
            assert(wire_ok(nodes, x, true, part(w, true)[j - a.len()]));
        }
    }
}

/// The state of the sort between steps: `stack` is the path from `root` to
/// the node being looked at, `res` the nodes already placed, in order.
#[verifier::opaque]
spec fn sort_inv(
    nodes: Seq<Option<Wiring>>,
    visited: Seq<VisitState>,
    link: Seq<usize>,
    root: usize,
    stack: Seq<usize>,
    res: Seq<usize>,
    top: usize,
    head: usize,
    tail: usize,
) -> bool {
    let n = nodes.len();
    &&& n < usize::MAX
    &&& visited.len() == n
    &&& link.len() == n
    &&& installed(nodes, root)
    &&& top == if stack.len() > 0 { stack.last() } else { SENTINEL }
    &&& stack.len() > 0 ==> stack[0] == root
    &&& stack.len() == 0 ==> res.len() > 0 && res.last() == root
    &&& forall|i: int| 0 <= i < stack.len() ==> installed(nodes, #[trigger] stack[i])
    &&& forall|i: int| 0 <= i < stack.len() - 1 ==> is_source(nodes, #[trigger] stack[i], stack[i + 1])
    &&& forall|i: int|
        0 <= i < stack.len() ==> link[#[trigger] stack[i] as int] == if i == 0 {
            SENTINEL
        } else {
            stack[i - 1]
        }
    &&& forall|i: int| 0 <= i < stack.len() ==> reachable(nodes, root, #[trigger] stack[i])
    &&& stack.no_duplicates()
    &&& forall|i: int| 0 <= i < res.len() ==> installed(nodes, #[trigger] res[i])
    &&& forall|i: int| 0 <= i < res.len() - 1 ==> link[#[trigger] res[i] as int] == res[i + 1]
    &&& res.len() > 0 ==> link[res.last() as int] == SENTINEL
    &&& head == if res.len() > 0 { res[0] } else { SENTINEL }
    &&& tail == if res.len() > 0 { res.last() } else { SENTINEL }
    &&& forall|i: int| 0 <= i < res.len() ==> wiring_ok(nodes, #[trigger] res[i])
    &&& forall|i: int| 0 <= i < res.len() ==> reachable(nodes, root, #[trigger] res[i])
    &&& closed_under_inputs(nodes, res)
    &&& res.no_duplicates()
    &&& forall|y: usize| y < n ==> (visited[y as int] == VisitState::Pushed <==> stack.contains(y))
    &&& forall|y: usize| y < n ==> (visited[y as int] == VisitState::Scanned <==> res.contains(y))
    &&& unwind(nodes, stack, res) == dfs_order(nodes, root)
}

proof fn lemma_sort_start(
    nodes: Seq<Option<Wiring>>,
    visited0: Seq<VisitState>,
    visited: Seq<VisitState>,
    link: Seq<usize>,
    root: usize,
)
    requires
        nodes.len() < usize::MAX,
        visited0.len() == nodes.len(),
        link.len() == nodes.len(),
        forall|i: int| 0 <= i < visited0.len() ==> visited0[i] == VisitState::NotVisited,
        visited == visited0.update(root as int, VisitState::Pushed),
        installed(nodes, root),
        link[root as int] == SENTINEL,
    ensures
        sort_inv(nodes, visited, link, root, seq![root], Seq::empty(), root, SENTINEL, SENTINEL),
{
    reveal(sort_inv);
    let stack = seq![root];
    let res = Seq::<usize>::empty();
    lemma_unwind_start(nodes, root);
    assert(is_path(nodes, stack));
    assert(stack.last() == root);
    assert(reachable(nodes, root, stack[0]));
    assert(closed_under_inputs(nodes, res));
    assert forall|y: usize| y < nodes.len() implies (visited[y as int] == VisitState::Pushed <==> stack.contains(y)) by {
        if y == root {
            assert(stack[0] == root);
        }
    }
}

proof fn lemma_sort_top(
    nodes: Seq<Option<Wiring>>,
    visited: Seq<VisitState>,
    link: Seq<usize>,
    root: usize,
    stack: Seq<usize>,
    res: Seq<usize>,
    top: usize,
    head: usize,
    tail: usize,
)
    requires
        sort_inv(nodes, visited, link, root, stack, res, top, head, tail),
        top != SENTINEL,
    ensures
        stack.len() > 0,
        top == stack.last(),
        installed(nodes, top),
        visited.len() == nodes.len(),
        link.len() == nodes.len(),
        tail == SENTINEL || tail < nodes.len(),
        res.len() > 0 ==> head < nodes.len() && tail < nodes.len(),
        head == if res.len() > 0 { res[0] } else { SENTINEL },
        tail == if res.len() > 0 { res.last() } else { SENTINEL },
        nodes.len() < usize::MAX,
{
    reveal(sort_inv);
    assert(installed(nodes, stack[stack.len() - 1]));
    if res.len() > 0 {
        assert(installed(nodes, res[res.len() - 1]));
        assert(installed(nodes, res[0]));
    }
}

proof fn lemma_sort_fail(
    nodes: Seq<Option<Wiring>>,
    visited: Seq<VisitState>,
    link: Seq<usize>,
    root: usize,
    stack: Seq<usize>,
    res: Seq<usize>,
    top: usize,
    head: usize,
    tail: usize,
    e: GraphError,
)
    requires
        sort_inv(nodes, visited, link, root, stack, res, top, head, tail),
        top != SENTINEL,
        fails_at(nodes, visited, top, e),
    ensures
        shows(nodes, root, e),
        !runnable(nodes, root),
{
    reveal(sort_inv);
    assert(installed(nodes, stack[stack.len() - 1]));
    lemma_fail(nodes, visited, stack, root, top, e);
}

proof fn lemma_sort_descend(
    nodes: Seq<Option<Wiring>>,
    visited: Seq<VisitState>,
    link: Seq<usize>,
    root: usize,
    stack: Seq<usize>,
    res: Seq<usize>,
    x: usize,
    head: usize,
    tail: usize,
    s: usize,
)
    requires
        sort_inv(nodes, visited, link, root, stack, res, x, head, tail),
        x != SENTINEL,
        wired(nodes[x as int].unwrap(), false, s) || wired(nodes[x as int].unwrap(), true, s),
        installed(nodes, s),
        s != x,
        visited[s as int] == VisitState::NotVisited,
        first_unplaced(nodes, visited, x, s),
    ensures
        sort_inv(
            nodes,
            visited.update(s as int, VisitState::Pushed),
            link.update(s as int, x),
            root,
            stack.push(s),
            res,
            s,
            head,
            tail,
        ),
        stack.len() + 1 + res.len() <= nodes.len(),
{
    reveal(sort_inv);
    let n = nodes.len() as usize;
    let old_stack = stack;
    let st = stack.push(s);
    let vis = visited.update(s as int, VisitState::Pushed);
    let lk = link.update(s as int, x);
    let k = stack.len() - 1;
    assert(installed(nodes, stack[k]));
    assert(is_source(nodes, x, s));
    assert(reachable(nodes, root, stack[k]));
    let p0 = choose|p: Seq<usize>| is_path(nodes, p) && p[0] == root && #[trigger] p.last() == x;
    lemma_path_push(nodes, p0, s);
    assert(reachable(nodes, root, s));
    assert(!stack.contains(s));
    assert(!res.contains(s));
    assert forall|i: int| 0 <= i < st.len() - 1 implies is_source(nodes, #[trigger] st[i], st[i + 1]) by {
        if i < old_stack.len() - 1 {
            assert(st[i] == old_stack[i] && st[i + 1] == old_stack[i + 1]);
        }
    }
    assert forall|i: int| 0 <= i < st.len() implies lk[#[trigger] st[i] as int] == if i == 0 {
        SENTINEL
    } else {
        st[i - 1]
    } by {
        if i < old_stack.len() {
            assert(st[i] == old_stack[i]);
            assert(st[i] != s);
        }
    }
    assert forall|i: int| 0 <= i < st.len() implies reachable(nodes, root, #[trigger] st[i]) && installed(nodes, st[i]) by {
        if i < old_stack.len() {
            assert(st[i] == old_stack[i]);
        }
    }
    assert forall|i: int| 0 <= i < res.len() - 1 implies lk[#[trigger] res[i] as int] == res[i + 1] by {
        assert(res[i] != s);
    }
    if res.len() > 0 {
        assert(res.last() != s);
    }
    assert forall|y: usize| y < n implies (vis[y as int] == VisitState::Pushed <==> st.contains(y)) && (vis[y as int] == VisitState::Scanned <==> res.contains(y)) by {
        if y == s {
            assert(st[st.len() - 1] == s);
        } else {
            if st.contains(y) {
                let j = choose|j: int| 0 <= j < st.len() && st[j] == y;
                assert(old_stack[j] == y);
            }
            if old_stack.contains(y) {
                let j = choose|j: int| 0 <= j < old_stack.len() && old_stack[j] == y;
                assert(st[j] == y);
            }
        }
    }
    assert(st.no_duplicates());
    lemma_disjoint_bound(nodes, vis, st, res, n);
    let i = choose|i: int|
        0 <= i < srcs(nodes, x).len() && srcs(nodes, x)[i] == s && forall|j: int|
            0 <= j < i ==> (#[trigger] srcs(nodes, x)[j]) < nodes.len() && visited[srcs(
                nodes,
                x,
            )[j] as int] == VisitState::Scanned;
    assert forall|j: int| 0 <= j < i implies res.contains(#[trigger] srcs(nodes, stack.last())[j]) by {
        assert(srcs(nodes, x)[j] < nodes.len());
    }
    lemma_unwind_descend(nodes, stack, res, s, i);
}

/// Every input of kind `ctrl` of `x` names an existing output of another node,
/// and that node is already placed.
spec fn inputs_placed(nodes: Seq<Option<Wiring>>, visited: Seq<VisitState>, x: usize, ctrl: bool) -> bool {
    forall|i: int|
        0 <= i < part(nodes[x as int].unwrap(), ctrl).len() ==> wire_ok(
            nodes,
            x,
            ctrl,
            #[trigger] part(nodes[x as int].unwrap(), ctrl)[i],
        ) && visited[part(nodes[x as int].unwrap(), ctrl)[i].0 as int] == VisitState::Scanned
}

proof fn lemma_sort_finish(
    nodes: Seq<Option<Wiring>>,
    visited: Seq<VisitState>,
    link: Seq<usize>,
    link2: Seq<usize>,
    root: usize,
    stack: Seq<usize>,
    res: Seq<usize>,
    x: usize,
    tail: usize,
)
    requires
        exists|head: usize| sort_inv(nodes, visited, link, root, stack, res, x, head, tail),
        x != SENTINEL,
        inputs_placed(nodes, visited, x, false),
        inputs_placed(nodes, visited, x, true),
        link2 == if tail != SENTINEL {
            link.update(x as int, SENTINEL).update(tail as int, x)
        } else {
            link.update(x as int, SENTINEL)
        },
    ensures
        sort_inv(
            nodes,
            visited.update(x as int, VisitState::Scanned),
            link2,
            root,
            stack.drop_last(),
            res.push(x),
            link[x as int],
            if res.len() > 0 { res[0] } else { x },
            x,
        ),
{
    reveal(sort_inv);
    let head = choose|head: usize| sort_inv(nodes, visited, link, root, stack, res, x, head, tail);
    let n = nodes.len() as usize;
    let old_stack = stack;
    let old_res = res;
    let st = stack.drop_last();
    let rs = res.push(x);
    let vis = visited.update(x as int, VisitState::Scanned);
    let k = old_stack.len() - 1;
    assert(old_stack[k] == x);
    assert(installed(nodes, old_stack[k]));
    assert(!old_res.contains(x));
    if old_res.len() > 0 {
        assert(old_res.contains(tail));
        assert(!old_stack.contains(tail));
    }
    assert(link[x as int] == if st.len() > 0 { st.last() } else { SENTINEL });
    assert forall|i: int| 0 <= i < st.len() implies link2[#[trigger] st[i] as int] == if i == 0 {
        SENTINEL
    } else {
        st[i - 1]
    } by {
        assert(st[i] == old_stack[i]);
        assert(old_stack[i] != x);
        if old_res.len() > 0 {
            assert(old_stack.contains(st[i]));
            assert(st[i] != tail);
        }
    }
    assert forall|i: int| 0 <= i < st.len() - 1 implies is_source(nodes, #[trigger] st[i], st[i + 1]) by {
        assert(st[i] == old_stack[i] && st[i + 1] == old_stack[i + 1]);
    }
    assert forall|i: int| 0 <= i < st.len() implies installed(nodes, #[trigger] st[i]) && reachable(nodes, root, st[i]) by {
        assert(st[i] == old_stack[i]);
    }
    assert forall|i: int| 0 <= i < rs.len() - 1 implies link2[#[trigger] rs[i] as int] == rs[i + 1] by {
        assert(rs[i] == old_res[i]);
        if i < old_res.len() - 1 {
            assert(old_res[i] != old_res.last());
            assert(old_res[i] != x);
        }
    }
    assert(reachable(nodes, root, old_stack[k]));
    assert(wiring_ok(nodes, x));
    assert forall|i: int| 0 <= i < rs.len() implies wiring_ok(nodes, #[trigger] rs[i]) && reachable(nodes, root, rs[i]) && installed(nodes, rs[i]) by {
        if i < old_res.len() {
            assert(rs[i] == old_res[i]);
        }
    }
    assert forall|i: int, s: usize|
        0 <= i < rs.len() && #[trigger] is_source(nodes, rs[i], s) implies earlier(rs, i, s) by {
        if i < old_res.len() {
            assert(rs[i] == old_res[i]);
            assert(earlier(old_res, i, s));
            let k2 = choose|k2: int| 0 <= k2 < i && old_res[k2] == s;
            assert(rs[k2] == s);
        } else {
            let w = nodes[x as int].unwrap();
            let c = !wired(w, false, s);
            let j = choose|j: int| 0 <= j < part(w, c).len() && (#[trigger] part(w, c)[j]).0 == s;
            assert(wire_ok(nodes, x, c, part(w, c)[j]));
            assert(visited[s as int] == VisitState::Scanned);
            assert(old_res.contains(s));
            let k2 = choose|k2: int| 0 <= k2 < old_res.len() && old_res[k2] == s;
            assert(rs[k2] == s);
        }
    }
    assert(rs.no_duplicates());
    let w = nodes[x as int].unwrap();
    let sa = part(w, false).map_values(|p: (usize, usize)| p.0);
    assert forall|j: int| 0 <= j < srcs(nodes, stack.last()).len() implies old_res.contains(
        #[trigger] srcs(nodes, stack.last())[j]) by {
        if j < sa.len() {
            assert(srcs(nodes, x)[j] == part(w, false)[j].0);
            assert(wire_ok(nodes, x, false, part(w, false)[j]));
        } else {
            assert(srcs(nodes, x)[j] == part(w, true)[j - sa.len()].0);
            assert(wire_ok(nodes, x, true, part(w, true)[j - sa.len()]));
        }
    }
    lemma_unwind_finish(nodes, old_stack, old_res);
    assert forall|y: usize| y < n implies (vis[y as int] == VisitState::Pushed <==> st.contains(y)) && (vis[y as int] == VisitState::Scanned <==> rs.contains(y)) by {
        if y == x {
            assert(rs[rs.len() - 1] == x);
            if st.contains(y) {
                let j = choose|j: int| 0 <= j < st.len() && st[j] == y;
                assert(old_stack[j] == y);
            }
        } else {
            if st.contains(y) {
                let j = choose|j: int| 0 <= j < st.len() && st[j] == y;
                assert(old_stack[j] == y);
            }
            if old_stack.contains(y) {
                let j = choose|j: int| 0 <= j < old_stack.len() && old_stack[j] == y;
                assert(j != k);
                assert(st[j] == y);
            }
            if rs.contains(y) {
                let j = choose|j: int| 0 <= j < rs.len() && rs[j] == y;
                assert(old_res[j] == y);
            }
            if old_res.contains(y) {
                let j = choose|j: int| 0 <= j < old_res.len() && old_res[j] == y;
                assert(rs[j] == y);
            }
        }
    }
}

proof fn lemma_sort_end(
    nodes: Seq<Option<Wiring>>,
    visited: Seq<VisitState>,
    link: Seq<usize>,
    root: usize,
    stack: Seq<usize>,
    res: Seq<usize>,
    top: usize,
    head: usize,
    tail: usize,
)
    requires
        sort_inv(nodes, visited, link, root, stack, res, top, head, tail),
        top == SENTINEL,
    ensures
        is_schedule(nodes, root, res),
        res == dfs_order(nodes, root),
        runnable(nodes, root),
        res.len() >= 1,
        head == res[0],
        visited.len() == nodes.len(),
        link.len() == nodes.len(),
        nodes.len() < usize::MAX,
        forall|j: int| 0 <= j < res.len() ==> installed(nodes, #[trigger] res[j]),
        forall|j: int| 0 <= j < res.len() - 1 ==> link[#[trigger] res[j] as int] == res[j + 1],
        link[res.last() as int] == SENTINEL,
        forall|y: usize|
            y < nodes.len() && visited[y as int] != VisitState::NotVisited ==> exists|j: int|
                0 <= j < res.len() && res[j] == y,
{
    reveal(sort_inv);
    if stack.len() > 0 {
        assert(installed(nodes, stack[stack.len() - 1]));
    }
    assert(stack.len() == 0);
    assert forall|x: usize| reachable(nodes, root, x) implies res.contains(x) by {
        assert(res[res.len() - 1] == root);
        lemma_closed_reach(nodes, res, root, x);
    }
    lemma_no_cycle(nodes, res, root);
    assert forall|x: usize| reachable(nodes, root, x) implies #[trigger] wiring_ok(nodes, x) by {
        assert(res.contains(x));
        let j = choose|j: int| 0 <= j < res.len() && res[j] == x;
        assert(wiring_ok(nodes, res[j]));
    }
    assert forall|x: usize| res.contains(x) implies reachable(nodes, root, x) by {
        let j = choose|j: int| 0 <= j < res.len() && res[j] == x;
        assert(reachable(nodes, root, res[j]));
    }
    assert forall|y: usize|
        y < nodes.len() && visited[y as int] != VisitState::NotVisited implies exists|j: int|
            0 <= j < res.len() && res[j] == y by {
        if visited[y as int] == VisitState::Pushed {
            assert(stack.contains(y));
        }
        assert(res.contains(y));
    }
}

/// The slot array of the processing graph with the scratch state of its sort.
pub struct Graph {
    nodes: Vec<Option<Wiring>>,
    visited: Vec<VisitState>,
    /// Both the stack link and the result link of the sort.
    link: Vec<usize>,
    order: Ghost<Seq<usize>>,
    /// The root and first node of the last order, while no slot has changed
    /// since it was computed.
    cached: Option<(usize, usize)>,
}

impl Graph {
    /// The wiring installed in each slot.
    pub closed spec fn nodes(&self) -> Seq<Option<Wiring>> {
        self.nodes@
    }

    /// The order that the last successful sort produced.
    pub closed spec fn order(&self) -> Seq<usize> {
        self.order@
    }

    pub closed spec fn wf(&self) -> bool {
        &&& self.visited@.len() == self.nodes@.len()
        &&& self.link@.len() == self.nodes@.len()
        &&& self.nodes@.len() < usize::MAX
        &&& forall|i: int| 0 <= i < self.visited@.len() ==> self.visited@[i] == VisitState::NotVisited
        &&& chain(self.link@, self.order@)
        &&& self.order@.no_duplicates()
        &&& self.cached matches Some((root, head)) ==> {
            &&& runnable(self.nodes@, root)
            &&& is_schedule(self.nodes@, root, self.order@)
            &&& self.order@ == dfs_order(self.nodes@, root)
            &&& head == self.order@[0]
        }
    }

    /// Create a graph with `max_size` empty slots.
    pub fn new(max_size: usize) -> (g: Graph)
        requires
            max_size < usize::MAX,
        ensures
            g.wf(),
            g.nodes() == Seq::new(max_size as nat, |i: int| None::<Wiring>),
            g.order() == Seq::<usize>::empty(),
    {
        let mut nodes: Vec<Option<Wiring>> = Vec::with_capacity(max_size);
        let mut visited: Vec<VisitState> = Vec::with_capacity(max_size);
        let mut link: Vec<usize> = Vec::with_capacity(max_size);
        let mut i: usize = 0;
        while i < max_size
            invariant
                i <= max_size,
                nodes@.len() == i,
                visited@.len() == i,
                link@.len() == i,
                forall|j: int| 0 <= j < i ==> nodes@[j] is None,
                forall|j: int| 0 <= j < i ==> visited@[j] == VisitState::NotVisited,
            decreases max_size - i,
        {
            nodes.push(None);
            visited.push(VisitState::NotVisited);
            link.push(0);
            i = i + 1;
        }
        let g = Graph { nodes, visited, link, order: Ghost(Seq::empty()), cached: None };
        assert(g.nodes() =~= Seq::new(max_size as nat, |i: int| None::<Wiring>));
        g
    }

    /// The number of slots.
    pub fn capacity(&self) -> (n: usize)
        ensures
            n == self.nodes().len(),
    {
        self.nodes.len()
    }

    /// The wiring installed at `ix`.
    pub fn wiring(&self, ix: usize) -> (r: &Option<Wiring>)
        requires
            ix < self.nodes().len(),
        ensures
            *r == self.nodes()[ix as int],
    {
        &self.nodes[ix]
    }

    /// Install `wiring` at `ix` (or clear the slot), returning what was there.
    /// Allocation-free.
    pub fn replace(&mut self, ix: usize, wiring: Option<Wiring>) -> (r: Option<Wiring>)
        requires
            old(self).wf(),
            ix < old(self).nodes().len(),
        ensures
            final(self).wf(),
            r == old(self).nodes()[ix as int],
            final(self).nodes() == old(self).nodes().update(ix as int, wiring),
            final(self).order() == old(self).order(),
    {
        let mut w = wiring;
        self.nodes.set_and_swap(ix, &mut w);
        self.cached = None;
        w
    }

    /// The node that runs after `ix` in the last computed order, or `SENTINEL`
    /// after the last one.
    pub fn next(&self, ix: usize) -> (r: usize)
        requires
            self.wf(),
            self.order().contains(ix),
        ensures
            forall|i: int|
                0 <= i < self.order().len() && #[trigger] self.order()[i] == ix ==> r == if i + 1
                    < self.order().len() {
                    self.order()[i + 1]
                } else {
                    SENTINEL
                },
    {
        proof {
            let i = choose|i: int| 0 <= i < self.order().len() && self.order()[i] == ix;
            assert(self.order@[i] < self.link@.len());
            assert forall|j: int| 0 <= j < self.order().len() && self.order()[j] == ix implies j
                == i by {}
        }
        self.link[ix]
    }

    /// Sort the nodes reached from `root` so that each runs after the nodes it
    /// reads from, leaving the order as a chain in the link array; returns its
    /// first node. Fails, with the reason, where that part of the graph cannot
    /// be run. While no slot changes, a sort from the same root reuses the
    /// last order. Allocation-free.
    /// Sort the nodes reached from `root` so that each runs after the nodes it
    /// reads from, leaving the order as a chain in the link array; returns its
    /// first node. Fails, with the reason, where that part of the graph cannot
    /// be run. While no slot changes, a sort from the same root reuses the
    /// last order. Allocation-free.
    pub fn topo_sort(&mut self, root: usize) -> (r: Result<usize, GraphError>)
        requires
            old(self).wf(),
        ensures
            final(self).wf(),
            final(self).nodes() == old(self).nodes(),
            r is Ok <==> runnable(old(self).nodes(), root),
            r matches Ok(head) ==> is_schedule(old(self).nodes(), root, final(self).order())
                && final(self).order() == dfs_order(old(self).nodes(), root)
                && head == final(self).order()[0],
            r matches Err(e) ==> shows(old(self).nodes(), root, e),
    {
        if let Some((last_root, head)) = self.cached {
            if last_root == root {
                return Ok(head);
            }
        }
        let n = self.nodes.len();
        if root >= n {
            return Err(GraphError::NoRoot(root));
        }
        if self.nodes[root].is_none() {
            return Err(GraphError::NoRoot(root));
        }
        let ghost nodes = self.nodes@;
        let ghost mut stack: Seq<usize> = seq![root];
        let ghost mut res: Seq<usize> = Seq::empty();
        self.link.set(root, SENTINEL);
        self.visited.set(root, VisitState::Pushed);
        let mut top = root;
        let mut head = SENTINEL;
        let mut tail = SENTINEL;
        proof {
            lemma_sort_start(nodes, old(self).visited@, self.visited@, self.link@, root);
        }
        while top != SENTINEL
            invariant
                self.nodes@ == nodes,
                nodes == old(self).nodes@,
                n == nodes.len(),
                stack.len() + res.len() <= n,
                sort_inv(nodes, self.visited@, self.link@, root, stack, res, top, head, tail),
            decreases 2 * n - 2 * res.len() - stack.len(),
        {
            proof {
                lemma_sort_top(nodes, self.visited@, self.link@, root, stack, res, top, head, tail);
            }
            let x = top;
            let first = self.scan_wires(x, false);
            let ghost bufs_placed = first is Finished;
            let step = match first {
                Step::Finished => {
                    let second = self.scan_wires(x, true);
                    second
                },
                other => other,
            };
            match step {
                Step::Fail(e) => {
                    proof {
                        lemma_sort_fail(nodes, self.visited@, self.link@, root, stack, res, top, head, tail, e);
                    }
                    self.clear_visits();
                    self.order = Ghost(Seq::empty());
                    self.cached = None;
                    return Err(e);
                },
                Step::Descend(s) => {
                    let ghost link0 = self.link@;
                    let ghost visited0 = self.visited@;
                    proof {
                        lemma_first_unplaced(nodes, visited0, x, s, bufs_placed);
                    }
                    self.link.set(s, x);
                    self.visited.set(s, VisitState::Pushed);
                    top = s;
                    proof {
                        lemma_sort_descend(nodes, visited0, link0, root, stack, res, x, head, tail, s);
                        stack = stack.push(s);
                    }
                },
                Step::Finished => {
                    let ghost link0 = self.link@;
                    let ghost visited0 = self.visited@;
                    let next = self.link[x];
                    self.visited.set(x, VisitState::Scanned);
                    self.link.set(x, SENTINEL);
                    if head == SENTINEL {
                        head = x;
                    }
                    if tail != SENTINEL {
                        self.link.set(tail, x);
                    }
                    proof {
                        lemma_sort_finish(nodes, visited0, link0, self.link@, root, stack, res, x, tail);
                        stack = stack.drop_last();
                        res = res.push(x);
                    }
                    tail = x;
                    top = next;
                },
            }
        }
        proof {
            lemma_sort_end(nodes, self.visited@, self.link@, root, stack, res, top, head, tail);
        }
        let mut cur = head;
        let ghost mut i: int = 0;
        let ghost link1 = self.link@;
        while cur != SENTINEL
            invariant
                self.nodes@ == nodes,
                nodes == old(self).nodes@,
                n == nodes.len(),
                self.link@ == link1,
                link1.len() == n,
                self.visited@.len() == n,
                n < usize::MAX,
                0 <= i <= res.len(),
                res.len() >= 1,
                forall|j: int| 0 <= j < res.len() ==> installed(nodes, #[trigger] res[j]),
                forall|j: int| 0 <= j < res.len() - 1 ==> link1[#[trigger] res[j] as int] == res[j + 1],
                link1[res.last() as int] == SENTINEL,
                cur == if i < res.len() { res[i] } else { SENTINEL },
                forall|y: usize|
                    y < n && self.visited@[y as int] != VisitState::NotVisited ==> exists|j: int|
                        i <= j < res.len() && res[j] == y,
            decreases res.len() - i,
        {
            assert(installed(nodes, res[i]));
            self.visited.set(cur, VisitState::NotVisited);
            proof {
                assert forall|y: usize|
                    y < n && self.visited@[y as int] != VisitState::NotVisited implies exists|j: int|
                        i + 1 <= j < res.len() && res[j] == y by {
                    let j = choose|j: int| i <= j < res.len() && res[j] == y;
                    assert(j != i);
                }
            }
            cur = self.link[cur];
            proof {
                i = i + 1;
            }
        }
        self.order = Ghost(res);
        self.cached = Some((root, head));
        proof {
            assert forall|k: int| 0 <= k < self.visited@.len() implies self.visited@[k] == VisitState::NotVisited by {
                let y = k as usize;
                if self.visited@[y as int] != VisitState::NotVisited {
                    let j = choose|j: int| i <= j < res.len() && res[j] == y;
                }
            }
            assert forall|k: int| 0 <= k < res.len() implies (#[trigger] res[k]) < self.link@.len() by {
                assert(installed(nodes, res[k]));
            }
        }
        Ok(head)
    }

    fn clear_visits(&mut self)
        requires
            old(self).visited@.len() == old(self).nodes@.len(),
        ensures
            final(self).nodes@ == old(self).nodes@,
            final(self).link@ == old(self).link@,
            final(self).order@ == old(self).order@,
            final(self).visited@.len() == final(self).nodes@.len(),
            forall|i: int| 0 <= i < final(self).visited@.len() ==> final(self).visited@[i] == VisitState::NotVisited,
    {
        let mut i: usize = 0;
        while i < self.visited.len()
            invariant
                self.nodes@ == old(self).nodes@,
                self.link@ == old(self).link@,
                self.order@ == old(self).order@,
                self.visited@.len() == self.nodes@.len(),
                i <= self.visited@.len(),
                forall|j: int| 0 <= j < i ==> self.visited@[j] == VisitState::NotVisited,
            decreases self.visited@.len() - i,
        {
            self.visited.set(i, VisitState::NotVisited);
            i = i + 1;
        }
    }

    fn scan_wires(&self, x: usize, ctrl: bool) -> (r: Step)
        requires
            self.visited@.len() == self.nodes@.len(),
            installed(self.nodes@, x),
        ensures
            r matches Step::Finished ==> inputs_placed(self.nodes@, self.visited@, x, ctrl),
            r matches Step::Descend(s) ==> {
                &&& wired(self.nodes@[x as int].unwrap(), ctrl, s)
                &&& installed(self.nodes@, s)
                &&& s != x
                &&& self.visited@[s as int] == VisitState::NotVisited
                &&& descend_at(self.nodes@, self.visited@, x, ctrl, s)
            },
            r matches Step::Fail(e) ==> fails_at(self.nodes@, self.visited@, x, e),
    {
        let w = match &self.nodes[x] {
            Some(w) => w,
            None => {
                return Step::Finished;
            },
        };
        let v = if ctrl {
            &w.ctrls
        } else {
            &w.bufs
        };
        assert(v@ == part(self.nodes@[x as int].unwrap(), ctrl));
        let mut i: usize = 0;
        while i < v.len()
            invariant
                self.visited@.len() == self.nodes@.len(),
                installed(self.nodes@, x),
                *w == self.nodes@[x as int].unwrap(),
                v@ == part(*w, ctrl),
                i <= v@.len(),
                forall|j: int|
                    0 <= j < i ==> wire_ok(self.nodes@, x, ctrl, #[trigger] v@[j])
                        && self.visited@[v@[j].0 as int] == VisitState::Scanned,
            decreases v@.len() - i,
        {
            let (s, k) = v[i];
            assert(v@[i as int] == (s, k));
            assert(wired(*w, ctrl, s));
            if s == x {
                return Step::Fail(GraphError::SelfWire { node: x });
            }
            if s >= self.nodes.len() {
                return Step::Fail(GraphError::MissingSource { node: x, source: s });
            }
            match &self.nodes[s] {
                None => {
                    return Step::Fail(GraphError::MissingSource { node: x, source: s });
                },
                Some(ws) => {
                    let lim = if ctrl {
                        ws.n_ctrl_out
                    } else {
                        ws.n_bufs_out
                    };
                    if k >= lim {
                        assert(part(*w, ctrl)[i as int] == (s, k));
                        return Step::Fail(GraphError::BadIndex { node: x, source: s, index: k });
                    }
                },
            }
            match self.visited[s] {
                VisitState::Pushed => {
                    return Step::Fail(GraphError::Cycle { node: x, source: s });
                },
                VisitState::NotVisited => {
                    return Step::Descend(s);
                },
                VisitState::Scanned => {},
            }
            i = i + 1;
        }
        Step::Finished
    }
}

} // verus!
