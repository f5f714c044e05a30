//! The electrical nets of the patching grid: grid points joined by wire
//! segments form one net, found with a union-find structure, and the output
//! pins on the net of the output jack feed the output bus.

use vstd::prelude::*;
use union_find::{QuickUnionUf, UnionByRank, UnionFind};

use crate::grid::{GridIx, WireGrid};

verus! {

#[verifier::external_type_specification]
#[verifier::external_body]
#[verifier::reject_recursive_types(V)]
pub struct ExQuickUnionUf<V>(QuickUnionUf<V>);

#[verifier::external_type_specification]
#[verifier::external_body]
pub struct ExUnionByRank(UnionByRank);

/// For each key of the structure, the key of the root of its set.
pub uninterp spec fn uf_roots(uf: QuickUnionUf<UnionByRank>) -> Seq<usize>;

/// Relies on `UnionFind::new` of union-find: `new(0)` holds no keys.
#[verifier::external_body]
fn uf_new() -> (r: QuickUnionUf<UnionByRank>)
    ensures
        uf_roots(r) == Seq::<usize>::empty(),
{
    QuickUnionUf::new(0)
}

/// Relies on `QuickUnionUf::insert`: the new key is the number of keys before
/// it, and it is the root of a set of its own.
#[verifier::external_body]
fn uf_insert(uf: &mut QuickUnionUf<UnionByRank>) -> (k: usize)
    ensures
        k == uf_roots(*old(uf)).len(),
        uf_roots(*final(uf)) == uf_roots(*old(uf)).push(k),
{
    uf.insert(UnionByRank::default())
}

/// Relies on `QuickUnionUf::find`: it returns the root of the key's set, and
/// its path compression leaves every key's root as it was.
#[verifier::external_body]
fn uf_find(uf: &mut QuickUnionUf<UnionByRank>, key: usize) -> (r: usize)
    requires
        key < uf_roots(*old(uf)).len(),
    ensures
        r == uf_roots(*old(uf))[key as int],
        uf_roots(*final(uf)) == uf_roots(*old(uf)),
{
    uf.find(key)
}

/// Relies on `QuickUnionUf::union`: the sets of the two keys become one,
/// whose root is one of their two roots; other sets keep their roots.
#[verifier::external_body]
fn uf_union(uf: &mut QuickUnionUf<UnionByRank>, key0: usize, key1: usize)
    requires
        key0 < uf_roots(*old(uf)).len(),
        key1 < uf_roots(*old(uf)).len(),
    ensures
        uf_roots(*final(uf)).len() == uf_roots(*old(uf)).len(),
        merged(uf_roots(*old(uf)), uf_roots(*final(uf)), key0, key1),
{
    uf.union(key0, key1);
}

/// `after` joins the sets of `k0` and `k1` in `before` under one of their
/// two roots and leaves the other sets alone.
pub open spec fn merged(before: Seq<usize>, after: Seq<usize>, k0: usize, k1: usize) -> bool {
    let p = after[k0 as int];
    &&& p == before[k0 as int] || p == before[k1 as int]
    &&& forall|x: int|
        0 <= x < before.len() ==> #[trigger] after[x] == if before[x] == before[k0 as int]
            || before[x] == before[k1 as int] {
            p
        } else {
            before[x]
        }
}

/// A grid point, as integers.
pub type Pt = (int, int);

pub open spec fn pt(c: (u16, u16)) -> Pt {
    (c.0 as int, c.1 as int)
}

/// The grid point a segment starts at.
pub open spec fn seg_a(s: GridIx) -> Pt {
    (s.0 as int, s.1 as int)
}

/// The grid point a segment ends at: one down or one to the right.
pub open spec fn seg_b(s: GridIx) -> Pt {
    if s.2 {
        (s.0 as int, s.1 as int + 1)
    } else {
        (s.0 as int + 1, s.1 as int)
    }
}

/// Every segment ends on the grid.
pub open spec fn fits(g: Set<GridIx>) -> bool {
    forall|s: GridIx| #[trigger] g.contains(s) ==> (if s.2 { s.1 < u16::MAX } else { s.0 < u16::MAX })
}

/// A segment of `g` joins `u` and `v`.
pub open spec fn adjacent(g: Set<GridIx>, u: Pt, v: Pt) -> bool {
    exists|s: GridIx|
        #[trigger] g.contains(s) && ((seg_a(s) == u && seg_b(s) == v) || (seg_a(s) == v && seg_b(s)
            == u))
}

/// Some segment of `g` starts or ends at `c`.
pub open spec fn endpoint(g: Set<GridIx>, c: Pt) -> bool {
    exists|s: GridIx| #[trigger] g.contains(s) && (seg_a(s) == c || seg_b(s) == c)
}

/// Each point of `w` is joined to the next by a segment of `g`.
pub open spec fn is_walk(g: Set<GridIx>, w: Seq<Pt>) -> bool {
    &&& w.len() >= 1
    &&& forall|i: int| 0 <= i < w.len() - 1 ==> adjacent(g, #[trigger] w[i], w[i + 1])
}

/// `p` and `q` are on the same net of `g`.
pub open spec fn joined(g: Set<GridIx>, p: Pt, q: Pt) -> bool {
    exists|w: Seq<Pt>| is_walk(g, w) && w[0] == p && #[trigger] w.last() == q
}

proof fn lemma_refl(g: Set<GridIx>, p: Pt)
    ensures
        joined(g, p, p),
{
    let w = seq![p];
    assert(is_walk(g, w) && w[0] == p && w.last() == p);
}

proof fn lemma_sym(g: Set<GridIx>, p: Pt, q: Pt)
    requires
        joined(g, p, q),
    ensures
        joined(g, q, p),
{
    let w = choose|w: Seq<Pt>| is_walk(g, w) && w[0] == p && #[trigger] w.last() == q;
    let r = w.reverse();
    assert forall|i: int| 0 <= i < r.len() - 1 implies adjacent(g, #[trigger] r[i], r[i + 1]) by {
        let j = w.len() - 2 - i;
        assert(r[i] == w[j + 1] && r[i + 1] == w[j]);
        assert(adjacent(g, w[j], w[j + 1]));
        let s = choose|s: GridIx|
            #[trigger] g.contains(s) && ((seg_a(s) == w[j] && seg_b(s) == w[j + 1]) || (seg_a(s)
                == w[j + 1] && seg_b(s) == w[j]));
        assert(g.contains(s));
    }
    assert(is_walk(g, r) && r[0] == q && r.last() == p);
}

proof fn lemma_trans(g: Set<GridIx>, p: Pt, q: Pt, r: Pt)
    requires
        joined(g, p, q),
        joined(g, q, r),
    ensures
        joined(g, p, r),
{
    let w1 = choose|w: Seq<Pt>| is_walk(g, w) && w[0] == p && #[trigger] w.last() == q;
    let w2 = choose|w: Seq<Pt>| is_walk(g, w) && w[0] == q && #[trigger] w.last() == r;
    let w = w1 + w2.drop_first();
    assert forall|i: int| 0 <= i < w.len() - 1 implies adjacent(g, #[trigger] w[i], w[i + 1]) by {
        if i < w1.len() - 1 {
            assert(w[i] == w1[i] && w[i + 1] == w1[i + 1]);
        } else if i == w1.len() - 1 {
            assert(w[i] == w2[0] && w[i + 1] == w2[1]);
            assert(adjacent(g, w2[0], w2[1]));
        } else {
            let j = i - w1.len() + 1;
            assert(w[i] == w2[j] && w[i + 1] == w2[j + 1]);
            assert(adjacent(g, w2[j], w2[j + 1]));
        }
    }
    if w2.len() == 1 {
        assert(w =~= w1);
    } else {
        assert(w.last() == w2.last());
    }
    assert(is_walk(g, w) && w[0] == p && w.last() == r);
}

proof fn lemma_mono(g: Set<GridIx>, e: GridIx, p: Pt, q: Pt)
    requires
        joined(g, p, q),
    ensures
        joined(g.insert(e), p, q),
{
    let g2 = g.insert(e);
    let w = choose|w: Seq<Pt>| is_walk(g, w) && w[0] == p && #[trigger] w.last() == q;
    assert forall|i: int| 0 <= i < w.len() - 1 implies adjacent(g2, #[trigger] w[i], w[i + 1]) by {
        assert(adjacent(g, w[i], w[i + 1]));
        let s = choose|s: GridIx|
            #[trigger] g.contains(s) && ((seg_a(s) == w[i] && seg_b(s) == w[i + 1]) || (seg_a(s)
                == w[i + 1] && seg_b(s) == w[i]));
        assert(g2.contains(s));
    }
    assert(is_walk(g2, w));
}

proof fn lemma_edge(g: Set<GridIx>, e: GridIx)
    ensures
        joined(g.insert(e), seg_a(e), seg_b(e)),
{
    let g2 = g.insert(e);
    let w = seq![seg_a(e), seg_b(e)];
    assert(g2.contains(e));
    assert(adjacent(g2, w[0], w[1]));
    assert(is_walk(g2, w) && w[0] == seg_a(e) && w.last() == seg_b(e));
}

/// What adding one segment does to the nets.
pub open spec fn joined_via(g: Set<GridIx>, e: GridIx, p: Pt, q: Pt) -> bool {
    ||| joined(g, p, q)
    ||| joined(g, p, seg_a(e)) && joined(g, seg_b(e), q)
    ||| joined(g, p, seg_b(e)) && joined(g, seg_a(e), q)
}

proof fn lemma_via_extend(g: Set<GridIx>, e: GridIx, p: Pt, u: Pt, x: Pt)
    requires
        joined_via(g, e, p, u),
        joined(g, u, x),
    ensures
        joined_via(g, e, p, x),
{
    if joined(g, p, u) {
        lemma_trans(g, p, u, x);
    } else if joined(g, p, seg_a(e)) && joined(g, seg_b(e), u) {
        lemma_trans(g, seg_b(e), u, x);
    } else {
        lemma_trans(g, seg_a(e), u, x);
    }
}

proof fn lemma_via_cross(g: Set<GridIx>, e: GridIx, p: Pt, u: Pt, x: Pt)
    requires
        joined_via(g, e, p, u),
        (u == seg_a(e) && x == seg_b(e)) || (u == seg_b(e) && x == seg_a(e)),
    ensures
        joined_via(g, e, p, x),
{
    lemma_refl(g, seg_a(e));
    lemma_refl(g, seg_b(e));
}

proof fn lemma_split_walk(g: Set<GridIx>, e: GridIx, w: Seq<Pt>)
    requires
        is_walk(g.insert(e), w),
    ensures
        joined_via(g, e, w[0], w.last()),
    decreases w.len(),
{
    if w.len() == 1 {
        lemma_refl(g, w[0]);
    } else {
        let v = w.drop_last();
        assert forall|i: int| 0 <= i < v.len() - 1 implies adjacent(g.insert(e), #[trigger] v[i], v[i + 1]) by {
            assert(v[i] == w[i] && v[i + 1] == w[i + 1]);
        }
        lemma_split_walk(g, e, v);
        let u = v.last();
        let x = w.last();
        assert(u == w[w.len() - 2]);
        assert(adjacent(g.insert(e), w[w.len() - 2], w[w.len() - 1]));
        let s = choose|s: GridIx|
            #[trigger] g.insert(e).contains(s) && ((seg_a(s) == u && seg_b(s) == x) || (seg_a(s)
                == x && seg_b(s) == u));
        if g.contains(s) {
            let st = seq![u, x];
            assert(adjacent(g, st[0], st[1]));
            assert(is_walk(g, st) && st[0] == u && st.last() == x);
            lemma_via_extend(g, e, w[0], u, x);
        } else {
            lemma_via_cross(g, e, w[0], u, x);
        }
    }
}

/// Two points are on one net of `g` with `e` added exactly when they are on
/// one net of `g`, or one is on the net of one end of `e` and the other on the
/// net of its other end.
pub proof fn lemma_add_segment(g: Set<GridIx>, e: GridIx, p: Pt, q: Pt)
    ensures
        joined(g.insert(e), p, q) <==> joined_via(g, e, p, q),
{
    let g2 = g.insert(e);
    if joined(g2, p, q) {
        let w = choose|w: Seq<Pt>| is_walk(g2, w) && w[0] == p && #[trigger] w.last() == q;
        lemma_split_walk(g, e, w);
    }
    if joined_via(g, e, p, q) {
        lemma_edge(g, e);
        if joined(g, p, q) {
            lemma_mono(g, e, p, q);
        } else if joined(g, p, seg_a(e)) && joined(g, seg_b(e), q) {
            lemma_mono(g, e, p, seg_a(e));
            lemma_mono(g, e, seg_b(e), q);
            lemma_trans(g2, p, seg_a(e), seg_b(e));
            lemma_trans(g2, p, seg_b(e), q);
        } else {
            lemma_mono(g, e, p, seg_b(e));
            lemma_mono(g, e, seg_a(e), q);
            lemma_sym(g2, seg_a(e), seg_b(e));
            lemma_trans(g2, p, seg_b(e), seg_a(e));
            lemma_trans(g2, p, seg_a(e), q);
        }
    }
}

/// A point that no segment touches is on a net of its own.
proof fn lemma_isolated(g: Set<GridIx>, c: Pt, d: Pt)
    requires
        !endpoint(g, c),
        joined(g, c, d),
    ensures
        c == d,
{
    let w = choose|w: Seq<Pt>| is_walk(g, w) && w[0] == c && #[trigger] w.last() == d;
    if w.len() > 1 {
        assert(adjacent(g, w[0], w[1]));
        let s = choose|s: GridIx|
            #[trigger] g.contains(s) && ((seg_a(s) == w[0] && seg_b(s) == w[1]) || (seg_a(s) == w[1]
                && seg_b(s) == w[0]));
        assert(endpoint(g, c));
    }
}

/// The output ids of the entries of `outputs` whose pin is on the net of
/// `out`, in order.
pub open spec fn bus(g: Set<GridIx>, out: Pt, outputs: Seq<((u16, u16), usize)>) -> Seq<usize>
    decreases outputs.len(),
{
    if outputs.len() == 0 {
        Seq::empty()
    } else if joined(g, pt(outputs.last().0), out) {
        bus(g, out, outputs.drop_last()).push(outputs.last().1)
    } else {
        bus(g, out, outputs.drop_last())
    }
}

/// The nets formed by a set of wire segments. Each grid point met so far has
/// a key in the union-find structure: its position in `coords`.
pub struct WireNet {
    uf: QuickUnionUf<UnionByRank>,
    coords: Vec<(u16, u16)>,
    segs: Ghost<Set<GridIx>>,
}

impl WireNet {
    /// The wire segments the nets are made of.
    pub closed spec fn segs(&self) -> Set<GridIx> {
        self.segs@
    }

    pub closed spec fn wf(&self) -> bool {
        let r = uf_roots(self.uf);
        let c = self.coords@;
        let g = self.segs@;
        &&& r.len() == c.len()
        &&& forall|x: int| 0 <= x < c.len() ==> #[trigger] r[x] < c.len()
        &&& forall|i: int, j: int|
            0 <= i < c.len() && 0 <= j < c.len() && i != j ==> pt(#[trigger] c[i]) != pt(
                #[trigger] c[j],
            )
        &&& forall|i: int, j: int|
            #![trigger r[i], r[j]]
            0 <= i < c.len() && 0 <= j < c.len() ==> (r[i] == r[j] <==> joined(
                g,
                pt(c[i]),
                pt(c[j]),
            ))
        &&& forall|q: Pt| endpoint(g, q) ==> exists|i: int| 0 <= i < c.len() && pt(#[trigger] c[i]) == q
    }

    /// Add segment `e`, whose ends have the keys `k0` and `k1`.
    fn join(&mut self, k0: usize, k1: usize, Ghost(e): Ghost<GridIx>)
        requires
            old(self).wf(),
            k0 < old(self).coords@.len(),
            k1 < old(self).coords@.len(),
            pt(old(self).coords@[k0 as int]) == seg_a(e),
            pt(old(self).coords@[k1 as int]) == seg_b(e),
        ensures
            final(self).wf(),
            final(self).segs() == old(self).segs().insert(e),
            final(self).coords@ == old(self).coords@,
    {
        let ghost r0 = uf_roots(self.uf);
        let ghost g = self.segs@;
        uf_union(&mut self.uf, k0, k1);
        self.segs = Ghost(g.insert(e));
        proof {
            let r = uf_roots(self.uf);
            let cs = self.coords@;
            let n = cs.len();
            let ra = r0[k0 as int];
            let rb = r0[k1 as int];
            let p = r[k0 as int];
            assert forall|x: int| 0 <= x < n implies #[trigger] r[x] < n by {
                assert(r0[x] < n);
            }
            assert forall|a: int, b: int|
                #![trigger r[a], r[b]]
                0 <= a < n && 0 <= b < n implies (r[a] == r[b] <==> joined(
                g.insert(e),
                pt(cs[a]),
                pt(cs[b]),
            )) by {
                lemma_add_segment(g, e, pt(cs[a]), pt(cs[b]));
                assert(r0[a] == r0[b] <==> joined(g, pt(cs[a]), pt(cs[b])));
                assert(r0[a] == r0[k0 as int] <==> joined(g, pt(cs[a]), pt(cs[k0 as int])));
                assert(r0[a] == r0[k1 as int] <==> joined(g, pt(cs[a]), pt(cs[k1 as int])));
                assert(r0[k0 as int] == r0[b] <==> joined(g, pt(cs[k0 as int]), pt(cs[b])));
                assert(r0[k1 as int] == r0[b] <==> joined(g, pt(cs[k1 as int]), pt(cs[b])));
                assert(r0[a] < n && r0[b] < n);
                assert(r[a] == if r0[a] == ra || r0[a] == rb { p } else { r0[a] });
                assert(r[b] == if r0[b] == ra || r0[b] == rb { p } else { r0[b] });
            }
            assert forall|q: Pt| endpoint(g.insert(e), q) implies exists|j: int| 0 <= j < n && pt(#[trigger] cs[j]) == q by {
                let t = choose|t: GridIx| #[trigger] g.insert(e).contains(t) && (seg_a(t) == q || seg_b(t) == q);
                if t == e {
                    if seg_a(e) == q {
                        assert(pt(cs[k0 as int]) == q);
                    } else {
                        assert(pt(cs[k1 as int]) == q);
                    }
                } else {
                    assert(g.contains(t));
                    assert(endpoint(g, q));
                }
            }
        }
    }

    /// The nets of the segments of `grid`.
    pub fn build(grid: &WireGrid) -> (r: WireNet)
        requires
            grid.wf(),
            fits(grid@),
        ensures
            r.wf(),
            r.segs() == grid@,
    {
        let segments = grid.segments();
        let mut net = WireNet { uf: uf_new(), coords: Vec::new(), segs: Ghost(Set::empty()) };
        proof {
            assert forall|q: Pt| endpoint(net.segs@, q) implies exists|j: int| 0 <= j < net.coords@.len() && pt(#[trigger] net.coords@[j]) == q by {
                let t = choose|t: GridIx| #[trigger] net.segs@.contains(t) && (seg_a(t) == q || seg_b(t) == q);
            }
        }
        let mut i: usize = 0;
        proof {
            assert(segments@.subrange(0, 0) =~= Seq::<GridIx>::empty());
            assert(Seq::<GridIx>::empty().to_set() =~= Set::<GridIx>::empty());
        }
        while i < segments.len()
            invariant
                net.wf(),
                i <= segments@.len(),
                segments@.to_set() == grid@,
                fits(grid@),
                net.segs@ == segments@.subrange(0, i as int).to_set(),
            decreases segments@.len() - i,
        {
            let (x, y, vert) = segments[i];
            let ghost e = segments@[i as int];
            assert(grid@.contains(e));
            let k0 = net.find_node((x, y));
            let end: (u16, u16) = if vert {
                (x, y + 1)
            } else {
                (x + 1, y)
            };
            let k1 = net.find_node(end);
            net.join(k0, k1, Ghost(e));
            i = i + 1;
            proof {
                assert(segments@.subrange(0, i as int) == segments@.subrange(0, i - 1).push(e));
                segments@.subrange(0, i - 1).lemma_push_to_set_commute(e);
            }
        }
        proof {
            assert(segments@.subrange(0, segments@.len() as int) == segments@);
        }
        net
    }

    /// Whether `p` and `q` are on one net.
    pub fn connected(&mut self, p: (u16, u16), q: (u16, u16)) -> (r: bool)
        requires
            old(self).wf(),
        ensures
            final(self).wf(),
            final(self).segs() == old(self).segs(),
            r == joined(old(self).segs(), pt(p), pt(q)),
    {
        let kp = self.find_node(p);
        let kq = self.find_node(q);
        let rp = uf_find(&mut self.uf, kp);
        let rq = uf_find(&mut self.uf, kq);
        proof {
            let r = uf_roots(self.uf);
            assert(r[kp as int] == r[kq as int] <==> joined(self.segs@, pt(self.coords@[kp as int]), pt(self.coords@[kq as int])));
        }
        rp == rq
    }

    /// The output ids of the entries of `outputs` whose pin is on the net of
    /// `out_pin`, in order: what feeds the output bus.
    pub fn output_bus(&mut self, out_pin: (u16, u16), outputs: &Vec<((u16, u16), usize)>) -> (r: Vec<usize>)
        requires
            old(self).wf(),
        ensures
            final(self).wf(),
            final(self).segs() == old(self).segs(),
            r@ == bus(old(self).segs(), pt(out_pin), outputs@),
    {
        let mut bus_ids: Vec<usize> = Vec::new();
        let mut i: usize = 0;
        proof {
            assert(outputs@.subrange(0, 0) =~= Seq::<((u16, u16), usize)>::empty());
        }
        while i < outputs.len()
            invariant
                self.wf(),
                self.segs() == old(self).segs(),
                i <= outputs@.len(),
                bus_ids@ == bus(self.segs(), pt(out_pin), outputs@.subrange(0, i as int)),
            decreases outputs@.len() - i,
        {
            let (pin, id) = outputs[i];
            let on_bus = self.connected(pin, out_pin);
            if on_bus {
                bus_ids.push(id);
            }
            proof {
                let pre = outputs@.subrange(0, i as int);
                let post = outputs@.subrange(0, i + 1);
                assert(post.drop_last() =~= pre);
                assert(post.last() == outputs@[i as int]);
            }
            i = i + 1;
        }
        proof {
            assert(outputs@.subrange(0, outputs@.len() as int) =~= outputs@);
        }
        bus_ids
    }

    /// The key of grid point `c`, given one if it has none yet.
    fn find_node(&mut self, c: (u16, u16)) -> (k: usize)
        requires
            old(self).wf(),
        ensures
            final(self).wf(),
            final(self).segs() == old(self).segs(),
            k < final(self).coords@.len(),
            pt(final(self).coords@[k as int]) == pt(c),
            final(self).coords@.len() >= old(self).coords@.len(),
            forall|i: int|
                0 <= i < old(self).coords@.len() ==> #[trigger] final(self).coords@[i] == old(
                    self,
                ).coords@[i],
    {
        let n = self.coords.len();
        let mut i: usize = 0;
        while i < n
            invariant
                n == self.coords@.len(),
                self.wf(),
                self.segs@ == old(self).segs@,
                self.coords@ == old(self).coords@,
                i <= n,
                forall|j: int| 0 <= j < i ==> pt(#[trigger] self.coords@[j]) != pt(c),
            decreases n - i,
        {
            let d = self.coords[i];
            if d.0 == c.0 && d.1 == c.1 {
                return i;
            }
            i = i + 1;
        }
        let ghost r0 = uf_roots(self.uf);
        let ghost c0 = self.coords@;
        let ghost g = self.segs@;
        let k = uf_insert(&mut self.uf);
        self.coords.push(c);
        proof {
            let r = uf_roots(self.uf);
            let cs = self.coords@;
            assert(cs == c0.push(c));
            assert(r == r0.push(k));
            if endpoint(g, pt(c)) {
                let j = choose|j: int| 0 <= j < c0.len() && pt(#[trigger] c0[j]) == pt(c);
                assert(pt(self.coords@[j]) != pt(c));
            }
            assert forall|x: int| 0 <= x < cs.len() implies #[trigger] r[x] < cs.len() by {
                if x < c0.len() {
                    assert(r[x] == r0[x]);
                }
            }
            assert forall|a: int, b: int|
                0 <= a < cs.len() && 0 <= b < cs.len() && a != b implies pt(#[trigger] cs[a]) != pt(
                #[trigger] cs[b]) by {
                if a == n {
                    assert(pt(self.coords@[b]) != pt(c));
                } else if b == n {
                    assert(pt(self.coords@[a]) != pt(c));
                } else {
                    assert(cs[a] == c0[a] && cs[b] == c0[b]);
                }
            }
            assert forall|a: int, b: int|
                #![trigger r[a], r[b]]
                0 <= a < cs.len() && 0 <= b < cs.len() implies (r[a] == r[b] <==> joined(
                g,
                pt(cs[a]),
                pt(cs[b]),
            )) by {
                if a == n && b == n {
                    lemma_refl(g, pt(c));
                } else if a == n {
                    assert(r[b] == r0[b] && r0[b] < n);
                    assert(cs[b] == c0[b]);
                    if joined(g, pt(c), pt(cs[b])) {
                        lemma_isolated(g, pt(c), pt(cs[b]));
                        assert(pt(self.coords@[b]) != pt(c));
                    }
                } else if b == n {
                    assert(r[a] == r0[a] && r0[a] < n);
                    assert(cs[a] == c0[a]);
                    if joined(g, pt(cs[a]), pt(c)) {
                        lemma_sym(g, pt(cs[a]), pt(c));
                        lemma_isolated(g, pt(c), pt(cs[a]));
                        assert(pt(self.coords@[a]) != pt(c));
                    }
                } else {
                    assert(r[a] == r0[a] && r[b] == r0[b]);
                    assert(cs[a] == c0[a] && cs[b] == c0[b]);
                }
            }
            assert forall|q: Pt| endpoint(g, q) implies exists|j: int| 0 <= j < cs.len() && pt(#[trigger] cs[j]) == q by {
                let j = choose|j: int| 0 <= j < c0.len() && pt(#[trigger] c0[j]) == q;
                assert(cs[j] == c0[j]);
            }
        }
        k
    }
}

} // verus!
