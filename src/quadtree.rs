//! A capacity-bounded region quadtree over integer rectangles, with
//! circular range queries: the hierarchical alternative to the grid.
use vstd::prelude::*;
use crate::config::EXTENT_LIMIT;
use crate::fixed::Vec2;

verus! {

/// A half-open rectangle `[x, x + w) x [y, y + h)`.
#[derive(Clone, Copy, Debug, PartialEq, Eq, Structural)]
pub struct Rect {
    pub x: i64,
    pub y: i64,
    pub w: i64,
    pub h: i64,
}

/// The disc of points strictly closer than `r` to `(x, y)`.
#[derive(Clone, Copy, Debug, PartialEq, Eq, Structural)]
pub struct Circle {
    pub x: i64,
    pub y: i64,
    pub r: i64,
}

impl Rect {
    /// Within the coordinate range the tree accepts.
    pub open spec fn valid(&self) -> bool {
        &&& -EXTENT_LIMIT <= self.x
        &&& -EXTENT_LIMIT <= self.y
        &&& 0 <= self.w
        &&& 0 <= self.h
        &&& self.x + self.w <= EXTENT_LIMIT
        &&& self.y + self.h <= EXTENT_LIMIT
    }

    pub open spec fn holds(&self, p: Vec2) -> bool {
        self.x <= p.x < self.x + self.w && self.y <= p.y < self.y + self.h
    }

    pub fn contains(&self, p: Vec2) -> (r: bool)
        requires
            self.valid(),
        ensures
            r == self.holds(p),
    {
        self.x <= p.x && (p.x as i128) < self.x as i128 + self.w as i128 && self.y <= p.y
            && (p.y as i128) < self.y as i128 + self.h as i128
    }

    /// Whether the rectangle can be split into strictly smaller quadrants.
    pub open spec fn splittable(&self) -> bool {
        self.w >= 1 && self.h >= 1 && (self.w >= 2 || self.h >= 2)
    }

    /// Quadrant `k` (0: north-west, 1: north-east, 2: south-west,
    /// 3: south-east); the western and northern halves take the smaller part
    /// of an odd length.
    pub open spec fn quadrant(&self, k: int) -> Rect {
        let wa = self.w / 2;
        let ha = self.h / 2;
        let east = k == 1 || k == 3;
        let south = k == 2 || k == 3;
        Rect {
            x: (if east { self.x + wa } else { self.x as int }) as i64,
            y: (if south { self.y + ha } else { self.y as int }) as i64,
            w: (if east { self.w - wa } else { wa as int }) as i64,
            h: (if south { self.h - ha } else { ha as int }) as i64,
        }
    }
}

impl Circle {
    pub open spec fn valid(&self) -> bool {
        &&& -EXTENT_LIMIT <= self.x <= EXTENT_LIMIT
        &&& -EXTENT_LIMIT <= self.y <= EXTENT_LIMIT
        &&& 0 <= self.r <= EXTENT_LIMIT
    }

    pub open spec fn holds(&self, p: Vec2) -> bool {
        (p.x - self.x) * (p.x - self.x) + (p.y - self.y) * (p.y - self.y) < self.r * self.r
    }
}

/// Distance along one axis from `c` to the nearest point of `[lo, lo + len)`.
pub open spec fn gap(c: int, lo: int, len: int) -> int {
    if c < lo {
        lo - c
    } else if c > lo + len - 1 {
        c - (lo + len - 1)
    } else {
        0
    }
}

/// Whether the disc can hold a point of the rectangle.
pub open spec fn reaches(c: Circle, b: Rect) -> bool {
    let dx = gap(c.x as int, b.x as int, b.w as int);
    let dy = gap(c.y as int, b.y as int, b.h as int);
    b.w > 0 && b.h > 0 && dx * dx + dy * dy < c.r * c.r
}

/// The indices of the entries of `es` whose position lies in the disc, in order.
pub open spec fn indices_within(es: Seq<(usize, Vec2)>, c: Circle) -> Seq<usize>
    decreases es.len(),
{
    if es.len() == 0 {
        seq![]
    } else {
        let rest = indices_within(es.drop_last(), c);
        if c.holds(es.last().1) {
            rest.push(es.last().0)
        } else {
            rest
        }
    }
}

/// A node of the tree: up to `capacity` points of its own, and once full,
/// four children covering its quadrants.
pub struct Quadtree {
    capacity: usize,
    boundary: Rect,
    points: Vec<(usize, Vec2)>,
    children: Option<Box<Quadrants>>,
}

pub struct Quadrants {
    pub nw: Quadtree,
    pub ne: Quadtree,
    pub sw: Quadtree,
    pub se: Quadtree,
}

impl Quadtree {
    pub closed spec fn capacity_spec(&self) -> nat {
        self.capacity as nat
    }

    pub closed spec fn boundary_spec(&self) -> Rect {
        self.boundary
    }

    /// Whether the node has children.
    pub closed spec fn divided(&self) -> bool {
        self.children is Some
    }

    /// The entries stored in this node itself, not in its children.
    pub closed spec fn own_points(&self) -> Seq<(usize, Vec2)> {
        self.points@
    }

    /// Child `k` of a divided node (0: north-west, 1: north-east,
    /// 2: south-west, 3: south-east).
    pub closed spec fn child(&self, k: int) -> Quadtree
        recommends
            self.divided(),
            0 <= k < 4,
    {
        match self.children {
            Some(q) => if k == 0 {
                q.nw
            } else if k == 1 {
                q.ne
            } else if k == 2 {
                q.sw
            } else {
                q.se
            },
            None => *self,
        }
    }

    /// Every stored entry, own points first, then the children's in the
    /// order north-west, north-east, south-west, south-east.
    pub closed spec fn contents(&self) -> Seq<(usize, Vec2)>
        decreases self,
    {
        match self.children {
            None => self.points@,
            Some(q) => self.points@ + q.nw.contents() + q.ne.contents() + q.sw.contents()
                + q.se.contents(),
        }
    }

    pub closed spec fn wf(&self) -> bool
        decreases self,
    {
        &&& self.boundary.valid()
        &&& forall|k: int| 0 <= k < self.points@.len() ==> self.boundary.holds(#[trigger] self.points@[k].1)
        &&& (self.points@.len() <= self.capacity || !self.boundary.splittable())
        &&& match self.children {
            None => true,
            Some(q) => {
                &&& self.boundary.splittable()
                &&& q.nw.boundary == self.boundary.quadrant(0)
                &&& q.ne.boundary == self.boundary.quadrant(1)
                &&& q.sw.boundary == self.boundary.quadrant(2)
                &&& q.se.boundary == self.boundary.quadrant(3)
                &&& q.nw.capacity == self.capacity
                &&& q.ne.capacity == self.capacity
                &&& q.sw.capacity == self.capacity
                &&& q.se.capacity == self.capacity
                &&& q.nw.wf()
                &&& q.ne.wf()
                &&& q.sw.wf()
                &&& q.se.wf()
            },
        }
    }

    /// An empty tree over `boundary`.
    pub fn new(capacity: usize, boundary: Rect) -> (r: Quadtree)
        requires
            boundary.valid(),
        ensures
            r.wf(),
            r.contents().len() == 0,
            r.own_points().len() == 0,
            !r.divided(),
            r.node_boundaries() == seq![boundary],
            r.capacity_spec() == capacity,
            r.boundary_spec() == boundary,
    {
        let r = Quadtree { capacity, boundary, points: Vec::new(), children: None };
        assert(r.contents() == r.points@);
        r
    }
}


impl Rect {
    /// Quadrant `k`, computed.
    pub fn quadrant_of(&self, k: usize) -> (r: Rect)
        requires
            self.valid(),
            self.splittable(),
            k < 4,
        ensures
            r == self.quadrant(k as int),
    {
        let wa = self.w / 2;
        let ha = self.h / 2;
        let east = k == 1 || k == 3;
        let south = k == 2 || k == 3;
        Rect {
            x: if east { self.x + wa } else { self.x },
            y: if south { self.y + ha } else { self.y },
            w: if east { self.w - wa } else { wa },
            h: if south { self.h - ha } else { ha },
        }
    }
}

/// The quadrants of a splittable rectangle are valid, strictly smaller, and
/// hold exactly the points of the rectangle, each point in exactly one.
pub proof fn lemma_quadrants(b: Rect, p: Vec2)
    requires
        b.valid(),
        b.splittable(),
    ensures
        forall|k: int| 0 <= k < 4 ==> (#[trigger] b.quadrant(k)).valid(),
        forall|k: int| 0 <= k < 4 ==> (#[trigger] b.quadrant(k)).w + b.quadrant(k).h < b.w + b.h,
        forall|k: int| 0 <= k < 4 && (#[trigger] b.quadrant(k)).holds(p) ==> b.holds(p),
        b.holds(p) ==> (b.quadrant(0).holds(p) || b.quadrant(1).holds(p) || b.quadrant(2).holds(p)
            || b.quadrant(3).holds(p)),
{
    vstd::arithmetic::div_mod::lemma_fundamental_div_mod(b.w as int, 2);
    vstd::arithmetic::div_mod::lemma_fundamental_div_mod(b.h as int, 2);
    assert(0 <= b.w / 2 <= b.w);
    assert(0 <= b.h / 2 <= b.h);
    assert(b.w >= 2 ==> b.w / 2 >= 1);
    assert(b.h >= 2 ==> b.h / 2 >= 1);
}

impl Quadtree {
    /// Gives a leaf four empty children, one per quadrant.
    pub fn divide(&mut self)
        requires
            old(self).wf(),
            !old(self).divided(),
            old(self).boundary_spec().splittable(),
        ensures
            final(self).wf(),
            final(self).contents() == old(self).contents(),
            final(self).boundary_spec() == old(self).boundary_spec(),
            final(self).capacity_spec() == old(self).capacity_spec(),
            final(self).divided(),
            final(self).own_points() == old(self).own_points(),
            final(self).node_boundaries() == seq![
                old(self).boundary_spec(),
                old(self).boundary_spec().quadrant(0),
                old(self).boundary_spec().quadrant(1),
                old(self).boundary_spec().quadrant(2),
                old(self).boundary_spec().quadrant(3),
            ],
            forall|k: int|
                0 <= k < 4 ==> {
                    let c = #[trigger] final(self).child(k);
                    &&& c.boundary_spec() == old(self).boundary_spec().quadrant(k)
                    &&& c.capacity_spec() == old(self).capacity_spec()
                    &&& c.contents().len() == 0
                    &&& !c.divided()
                    &&& c.node_boundaries() == seq![old(self).boundary_spec().quadrant(k)]
                },
    {
        proof {
            lemma_quadrants(self.boundary, Vec2 { x: 0, y: 0 });
        }
        let nw = Quadtree::new(self.capacity, self.boundary.quadrant_of(0));
        let ne = Quadtree::new(self.capacity, self.boundary.quadrant_of(1));
        let sw = Quadtree::new(self.capacity, self.boundary.quadrant_of(2));
        let se = Quadtree::new(self.capacity, self.boundary.quadrant_of(3));
        self.children = Some(Box::new(Quadrants { nw, ne, sw, se }));
        proof {
            let q = self.children->Some_0;
            assert(q.nw.contents() =~= seq![]);
            assert(q.ne.contents() =~= seq![]);
            assert(q.sw.contents() =~= seq![]);
            assert(q.se.contents() =~= seq![]);
            assert(self.contents() =~= old(self).contents());
            assert(self.node_boundaries() =~= seq![
                self.boundary,
                self.boundary.quadrant(0),
                self.boundary.quadrant(1),
                self.boundary.quadrant(2),
                self.boundary.quadrant(3),
            ]);
        }
    }

    /// Stores `index` at `pos` if `pos` lies in the tree's boundary: in this
    /// node while it has room (or cannot be split), else in the child whose
    /// quadrant holds it, dividing the node first if needed.
    pub fn insert(&mut self, index: usize, pos: Vec2) -> (r: bool)
        requires
            old(self).wf(),
        ensures
            final(self).wf(),
            r == old(self).boundary_spec().holds(pos),
            r ==> final(self).contents().to_multiset() == old(self).contents().to_multiset().insert(
                (index, pos),
            ),
            !r ==> final(self).contents() == old(self).contents(),
            !r ==> *final(self) == *old(self),
            final(self).boundary_spec() == old(self).boundary_spec(),
            final(self).capacity_spec() == old(self).capacity_spec(),
            // a node with room (or too small to split) keeps the entry itself
            r && (old(self).own_points().len() < old(self).capacity_spec()
                || !old(self).boundary_spec().splittable()) ==> final(self).own_points()
                == old(self).own_points().push((index, pos)) && final(self).node_boundaries()
                == old(self).node_boundaries() && final(self).divided() == old(self).divided(),
            old(self).contents().len() < old(self).capacity_spec() ==> final(self).node_boundaries()
                == old(self).node_boundaries(),
            // a full node keeps its own entries and passes the entry to a child,
            // dividing first if it has none; the other children stay as they were
            r && old(self).own_points().len() >= old(self).capacity_spec()
                && old(self).boundary_spec().splittable() ==> {
                &&& final(self).own_points() == old(self).own_points()
                &&& final(self).divided()
                &&& forall|k: int|
                    0 <= k < 4 ==> (#[trigger] final(self).child(k)).boundary_spec()
                        == old(self).boundary_spec().quadrant(k)
                &&& forall|k: int|
                    0 <= k < 4 && !old(self).boundary_spec().quadrant(k).holds(pos) ==> if old(
                        self,
                    ).divided() {
                        #[trigger] final(self).child(k) == old(self).child(k)
                    } else {
                        final(self).child(k).contents().len() == 0 && final(self).child(
                            k,
                        ).node_boundaries() == seq![old(self).boundary_spec().quadrant(k)]
                    }
            },
        decreases old(self).boundary_spec().w + old(self).boundary_spec().h,
    {
        if !self.boundary.contains(pos) {
            return false;
        }
        let splittable = self.boundary.w >= 1 && self.boundary.h >= 1 && (self.boundary.w >= 2
            || self.boundary.h >= 2);
        if self.points.len() < self.capacity || !splittable {
            self.points.push((index, pos));
            proof {
                vstd::seq_lib::to_multiset_build(old(self).points@, (index, pos));
                if self.children is Some {
                    let q = self.children->Some_0;
                    lemma_node_multiset(self.points@, q.nw.contents(), q.ne.contents(), q.sw.contents(), q.se.contents());
                    lemma_node_multiset(old(self).points@, q.nw.contents(), q.ne.contents(), q.sw.contents(), q.se.contents());
                    assert(self.points@.to_multiset() =~= old(self).points@.to_multiset().insert((index, pos)));
                }
            }
            assert(self.contents().to_multiset() =~= old(self).contents().to_multiset().insert((index, pos)));
            return true;
        }
        if self.children.is_none() {
            self.divide();
        }
        let ghost mid = *self;
        proof {
            lemma_quadrants(self.boundary, pos);
            if !old(self).divided() {
                assert forall|k: int| 0 <= k < 4 implies (#[trigger] mid.child(k)).node_boundaries()
                    == seq![old(self).boundary_spec().quadrant(k)] by {}
            }
        }
        let item = (index, pos);
        match &mut self.children {
            Some(q) => {
                let ghost q0 = **q;
                if q.nw.insert(index, pos) {
                    proof {
                        lemma_node_multiset(mid.points@, q.nw.contents(), q0.ne.contents(), q0.sw.contents(), q0.se.contents());
                        lemma_node_multiset(mid.points@, q0.nw.contents(), q0.ne.contents(), q0.sw.contents(), q0.se.contents());
                    }
                    assert(self.contents().to_multiset() =~= old(self).contents().to_multiset().insert(item));
                    assert(self.child(1) == mid.child(1));
                    assert(self.child(2) == mid.child(2));
                    assert(self.child(3) == mid.child(3));
                    return true;
                }
                if q.ne.insert(index, pos) {
                    proof {
                        lemma_node_multiset(mid.points@, q0.nw.contents(), q.ne.contents(), q0.sw.contents(), q0.se.contents());
                        lemma_node_multiset(mid.points@, q0.nw.contents(), q0.ne.contents(), q0.sw.contents(), q0.se.contents());
                    }
                    assert(self.contents().to_multiset() =~= old(self).contents().to_multiset().insert(item));
                    assert(self.child(0) == mid.child(0));
                    assert(self.child(2) == mid.child(2));
                    assert(self.child(3) == mid.child(3));
                    return true;
                }
                if q.sw.insert(index, pos) {
                    proof {
                        lemma_node_multiset(mid.points@, q0.nw.contents(), q0.ne.contents(), q.sw.contents(), q0.se.contents());
                        lemma_node_multiset(mid.points@, q0.nw.contents(), q0.ne.contents(), q0.sw.contents(), q0.se.contents());
                    }
                    assert(self.contents().to_multiset() =~= old(self).contents().to_multiset().insert(item));
                    assert(self.child(0) == mid.child(0));
                    assert(self.child(1) == mid.child(1));
                    assert(self.child(3) == mid.child(3));
                    return true;
                }
                if q.se.insert(index, pos) {
                    proof {
                        lemma_node_multiset(mid.points@, q0.nw.contents(), q0.ne.contents(), q0.sw.contents(), q.se.contents());
                        lemma_node_multiset(mid.points@, q0.nw.contents(), q0.ne.contents(), q0.sw.contents(), q0.se.contents());
                    }
                    assert(self.contents().to_multiset() =~= old(self).contents().to_multiset().insert(item));
                    assert(self.child(0) == mid.child(0));
                    assert(self.child(1) == mid.child(1));
                    assert(self.child(2) == mid.child(2));
                    return true;
                }
                false
            },
            None => false,
        }
    }
}

/// The entries of a divided node, as a multiset, are the union of its own
/// points and its children's entries.
proof fn lemma_node_multiset(
    own: Seq<(usize, Vec2)>,
    a: Seq<(usize, Vec2)>,
    b: Seq<(usize, Vec2)>,
    c: Seq<(usize, Vec2)>,
    d: Seq<(usize, Vec2)>,
)
    ensures
        (own + a + b + c + d).to_multiset() == own.to_multiset().add(a.to_multiset()).add(
            b.to_multiset(),
        ).add(c.to_multiset()).add(d.to_multiset()),
{
    vstd::seq_lib::lemma_multiset_commutative(own, a);
    vstd::seq_lib::lemma_multiset_commutative(own + a, b);
    vstd::seq_lib::lemma_multiset_commutative(own + a + b, c);
    vstd::seq_lib::lemma_multiset_commutative(own + a + b + c, d);
}


impl Circle {
    /// Whether the disc holds `p`, for `p` inside the coordinate range.
    pub fn contains(&self, p: Vec2) -> (r: bool)
        requires
            self.valid(),
            -EXTENT_LIMIT <= p.x <= EXTENT_LIMIT,
            -EXTENT_LIMIT <= p.y <= EXTENT_LIMIT,
        ensures
            r == self.holds(p),
    {
        let dx = p.x as i128 - self.x as i128;
        let dy = p.y as i128 - self.y as i128;
        proof {
            lemma_square_bound(dx as int, 0x40_0000_0000);
            lemma_square_bound(dy as int, 0x40_0000_0000);
            lemma_square_bound(self.r as int, 0x40_0000_0000);
        }
        dx * dx + dy * dy < self.r as i128 * self.r as i128
    }

    /// Whether the disc can hold a point of `b` (see `reaches`).
    pub fn overlaps_rect(&self, b: &Rect) -> (r: bool)
        requires
            self.valid(),
            b.valid(),
        ensures
            r == reaches(*self, *b),
    {
        if b.w <= 0 || b.h <= 0 {
            return false;
        }
        let dx = axis_gap(self.x, b.x, b.w);
        let dy = axis_gap(self.y, b.y, b.h);
        proof {
            lemma_square_bound(dx as int, 0x40_0000_0000);
            lemma_square_bound(dy as int, 0x40_0000_0000);
            lemma_square_bound(self.r as int, 0x40_0000_0000);
        }
        dx * dx + dy * dy < self.r as i128 * self.r as i128
    }
}

fn axis_gap(c: i64, lo: i64, len: i64) -> (r: i128)
    requires
        -EXTENT_LIMIT <= c <= EXTENT_LIMIT,
        -EXTENT_LIMIT <= lo,
        1 <= len,
        lo + len <= EXTENT_LIMIT,
    ensures
        r == gap(c as int, lo as int, len as int),
        0 <= r <= 0x40_0000_0000,
{
    let hi = lo as i128 + len as i128 - 1;
    if (c as i128) < lo as i128 {
        lo as i128 - c as i128
    } else if c as i128 > hi {
        c as i128 - hi
    } else {
        0
    }
}

proof fn lemma_square_bound(a: int, bound: int)
    requires
        -bound <= a <= bound,
    ensures
        0 <= a * a <= bound * bound,
{
    assert(0 <= a * a <= bound * bound) by (nonlinear_arith)
        requires -bound <= a <= bound;
}

/// A disc that does not reach a rectangle holds none of its points.
proof fn lemma_unreached(c: Circle, b: Rect, p: Vec2)
    requires
        b.holds(p),
        !reaches(c, b),
    ensures
        !c.holds(p),
{
    let dx = gap(c.x as int, b.x as int, b.w as int);
    let dy = gap(c.y as int, b.y as int, b.h as int);
    let ex = p.x - c.x;
    let ey = p.y - c.y;
    assert(dx * dx <= ex * ex) by (nonlinear_arith)
        requires 0 <= dx, dx <= ex || dx <= -ex;
    assert(dy * dy <= ey * ey) by (nonlinear_arith)
        requires 0 <= dy, dy <= ey || dy <= -ey;
}

proof fn lemma_within_concat(a: Seq<(usize, Vec2)>, b: Seq<(usize, Vec2)>, c: Circle)
    ensures
        indices_within(a + b, c) == indices_within(a, c) + indices_within(b, c),
    decreases b.len(),
{
    if b.len() == 0 {
        assert(a + b =~= a);
        assert(indices_within(a, c) + indices_within(b, c) =~= indices_within(a, c));
    } else {
        lemma_within_concat(a, b.drop_last(), c);
        assert((a + b).drop_last() =~= a + b.drop_last());
        assert((a + b).last() == b.last());
        let x = indices_within(a, c);
        let y = indices_within(b.drop_last(), c);
        assert((x + y).push(b.last().0) =~= x + y.push(b.last().0));
    }
}

/// Entries none of which lies in the disc give no index.
proof fn lemma_within_none(es: Seq<(usize, Vec2)>, c: Circle)
    requires
        forall|k: int| 0 <= k < es.len() ==> !c.holds(#[trigger] es[k].1),
    ensures
        indices_within(es, c) == Seq::<usize>::empty(),
    decreases es.len(),
{
    if es.len() > 0 {
        assert forall|k: int| 0 <= k < es.drop_last().len() implies !c.holds(#[trigger] es.drop_last()[k].1) by {
            assert(es.drop_last()[k] == es[k]);
        }
        lemma_within_none(es.drop_last(), c);
        assert(!c.holds(es[es.len() - 1].1));
    }
}

impl Quadtree {
    /// Every stored entry lies inside the node's boundary.
    pub proof fn lemma_contents_inside(&self)
        requires
            self.wf(),
        ensures
            forall|k: int| 0 <= k < self.contents().len() ==> self.boundary_spec().holds(#[trigger] self.contents()[k].1),
        decreases self,
    {
        if self.children is Some {
            let q = self.children->Some_0;
            q.nw.lemma_contents_inside();
            q.ne.lemma_contents_inside();
            q.sw.lemma_contents_inside();
            q.se.lemma_contents_inside();
            let own = self.points@;
            let a = q.nw.contents();
            let b = q.ne.contents();
            let c = q.sw.contents();
            let d = q.se.contents();
            assert forall|k: int| 0 <= k < self.contents().len() implies self.boundary.holds(#[trigger] self.contents()[k].1) by {
                let e = self.contents()[k];
                lemma_quadrants(self.boundary, e.1);
                if k < own.len() {
                    assert(e == own[k]);
                } else if k < own.len() + a.len() {
                    assert(e == a[k - own.len()]);
                    assert(self.boundary.quadrant(0).holds(e.1));
                } else if k < own.len() + a.len() + b.len() {
                    assert(e == b[k - own.len() - a.len()]);
                    assert(self.boundary.quadrant(1).holds(e.1));
                } else if k < own.len() + a.len() + b.len() + c.len() {
                    assert(e == c[k - own.len() - a.len() - b.len()]);
                    assert(self.boundary.quadrant(2).holds(e.1));
                } else {
                    assert(e == d[k - own.len() - a.len() - b.len() - c.len()]);
                    assert(self.boundary.quadrant(3).holds(e.1));
                }
            }
        }
    }

    /// Appends to `indices` the indices of the entries within `range`, in
    /// traversal order, skipping every node the disc cannot reach.
    fn query_rec(&self, range: &Circle, indices: &mut Vec<usize>)
        requires
            self.wf(),
            range.valid(),
        ensures
            final(indices)@ == old(indices)@ + indices_within(self.contents(), *range),
        decreases self.boundary.w + self.boundary.h,
    {
        if !range.overlaps_rect(&self.boundary) {
            proof {
                self.lemma_contents_inside();
                assert forall|k: int| 0 <= k < self.contents().len() implies !range.holds(#[trigger] self.contents()[k].1) by {
                    lemma_unreached(*range, self.boundary, self.contents()[k].1);
                }
                lemma_within_none(self.contents(), *range);
            }
            assert(indices@ =~= indices@ + indices_within(self.contents(), *range));
            return;
        }
        let ghost start = indices@;
        let mut k: usize = 0;
        while k < self.points.len()
            invariant
                self.wf(),
                range.valid(),
                k <= self.points@.len(),
                indices@ == start + indices_within(self.points@.take(k as int), *range),
            decreases self.points@.len() - k,
        {
            let (index, pos) = self.points[k];
            assert(self.boundary.holds(self.points@[k as int].1));
            let inside = range.contains(pos);
            assert(self.points@.take(k + 1).drop_last() =~= self.points@.take(k as int));
            if inside {
                indices.push(index);
            }
            assert(indices@ =~= start + indices_within(self.points@.take(k + 1), *range));
            k = k + 1;
        }
        assert(self.points@.take(k as int) =~= self.points@);
        match &self.children {
            None => {},
            Some(q) => {
                proof {
                    lemma_quadrants(self.boundary, Vec2 { x: 0, y: 0 });
                }
                q.nw.query_rec(range, indices);
                q.ne.query_rec(range, indices);
                q.sw.query_rec(range, indices);
                q.se.query_rec(range, indices);
                proof {
                    let own = self.points@;
                    let a = q.nw.contents();
                    let b = q.ne.contents();
                    let c = q.sw.contents();
                    let d = q.se.contents();
                    lemma_within_concat(own, a, *range);
                    lemma_within_concat(own + a, b, *range);
                    lemma_within_concat(own + a + b, c, *range);
                    lemma_within_concat(own + a + b + c, d, *range);
                }
                assert(indices@ =~= start + indices_within(self.contents(), *range));
            },
        }
    }

    /// The indices of the stored entries within `range`, in traversal order.
    pub fn query(&self, range: Circle) -> (r: Vec<usize>)
        requires
            self.wf(),
            range.valid(),
        ensures
            r@ == indices_within(self.contents(), range),
    {
        let mut indices = Vec::new();
        self.query_rec(&range, &mut indices);
        assert(indices@ =~= Seq::<usize>::empty() + indices_within(self.contents(), range));
        indices
    }
}


impl Quadtree {
    /// The boundaries of all nodes, parents before children, children in the
    /// order north-west, north-east, south-west, south-east.
    pub closed spec fn node_boundaries(&self) -> Seq<Rect>
        decreases self,
    {
        match self.children {
            None => seq![self.boundary],
            Some(q) => seq![self.boundary] + q.nw.node_boundaries() + q.ne.node_boundaries()
                + q.sw.node_boundaries() + q.se.node_boundaries(),
        }
    }

    /// The tree's boundary.
    pub fn boundary(&self) -> (r: Rect)
        ensures
            r == self.boundary_spec(),
    {
        self.boundary
    }

    /// The boundaries of all nodes (see `node_boundaries`), for drawing.
    pub fn boundaries(&self) -> (r: Vec<Rect>)
        requires
            self.wf(),
        ensures
            r@ == self.node_boundaries(),
        decreases self.boundary_spec().w + self.boundary_spec().h,
    {
        let mut out = vec![self.boundary];
        match &self.children {
            None => {},
            Some(q) => {
                proof {
                    lemma_quadrants(self.boundary, Vec2 { x: 0, y: 0 });
                }
                let mut a = q.nw.boundaries();
                let mut b = q.ne.boundaries();
                let mut c = q.sw.boundaries();
                let mut d = q.se.boundaries();
                out.append(&mut a);
                out.append(&mut b);
                out.append(&mut c);
                out.append(&mut d);
            },
        }
        out
    }
}

} // verus!
