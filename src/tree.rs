//! The quadtree: a node holds up to `capacity` points of its region and,
//! once full, hands further points to four quadrant children.
use vstd::multiset::Multiset;
use vstd::prelude::*;

use crate::geometry::{Point, Rectangle, Region, Shape};

verus! {

broadcast use {vstd::seq_lib::group_seq_properties, vstd::seq_lib::lemma_multiset_commutative};

pub struct QuadTree {
    region: Region,
    capacity: u8,
    points: Vec<Point>,
    northwest: Option<Box<QuadTree>>,
    northeast: Option<Box<QuadTree>>,
    southwest: Option<Box<QuadTree>>,
    southeast: Option<Box<QuadTree>>,
}

/// The points a subtree holds, or none where there is no subtree.
spec fn stored_in(c: Option<Box<QuadTree>>) -> Seq<Point> {
    match c {
        Some(t) => t.stored(),
        None => Seq::empty(),
    }
}

/// A fresh node: the given region and capacity, no points, no children.
pub open spec fn is_empty_leaf(t: QuadTree, g: Region, cap: u8) -> bool {
    &&& t.spec_region() == g
    &&& t.spec_capacity() == cap
    &&& t.spec_points().len() == 0
    &&& !t.spec_is_subdivided()
    &&& t.stored().len() == 0
}

/// Every node of `before` is still in `after`, in the same place, and still
/// holds its points first, in the same order: nothing is moved between nodes.
pub open spec fn keeps_points(before: QuadTree, after: QuadTree) -> bool
    decreases before,
{
    &&& after.spec_points().len() >= before.spec_points().len()
    &&& after.spec_points().subrange(0, before.spec_points().len() as int) == before.spec_points()
    &&& (before.spec_is_subdivided() ==> after.spec_is_subdivided())
    &&& keeps_child(before, after, false, false)
    &&& keeps_child(before, after, true, false)
    &&& keeps_child(before, after, false, true)
    &&& keeps_child(before, after, true, true)
}

pub open spec fn keeps_child(before: QuadTree, after: QuadTree, east: bool, south: bool) -> bool
    decreases before, 0nat,
{
    match before.spec_child(east, south) {
        Some(b) => match after.spec_child(east, south) {
            Some(a) => keeps_points(*b, *a),
            None => false,
        },
        None => true,
    }
}

impl QuadTree {
    /// The part of the plane this node is responsible for.
    pub closed spec fn spec_region(self) -> Region {
        self.region
    }

    /// The node's boundary as a rectangle: the one it was built with for a
    /// root, the bounding rectangle of its quadrant for a child.
    pub open spec fn spec_boundary(self) -> Rectangle {
        self.spec_region().bounds()
    }

    pub closed spec fn spec_capacity(self) -> u8 {
        self.capacity
    }

    /// The points held by this node itself, in insertion order.
    pub closed spec fn spec_points(self) -> Seq<Point> {
        self.points@
    }

    pub closed spec fn spec_is_subdivided(self) -> bool {
        self.northwest.is_some()
    }

    /// The child for one quadrant.
    pub closed spec fn spec_child(self, east: bool, south: bool) -> Option<Box<QuadTree>> {
        if east {
            if south { self.southeast } else { self.northeast }
        } else {
            if south { self.southwest } else { self.northwest }
        }
    }

    /// Every point of the tree: this node's own, then those of the
    /// northwest, northeast, southwest and southeast subtrees.
    pub closed spec fn stored(self) -> Seq<Point>
        decreases self,
    {
        self.points@ + match self.northwest {
            Some(c) => c.stored(),
            None => Seq::empty(),
        } + match self.northeast {
            Some(c) => c.stored(),
            None => Seq::empty(),
        } + match self.southwest {
            Some(c) => c.stored(),
            None => Seq::empty(),
        } + match self.southeast {
            Some(c) => c.stored(),
            None => Seq::empty(),
        }
    }

    /// A child in its place: the given quadrant of the parent, the parent's
    /// capacity.
    spec fn placed(c: QuadTree, g: Region, cap: u8) -> bool {
        c.region == g && c.capacity == cap
    }

    /// The tree's invariant: the region is ordered; a node holds at most
    /// `capacity` points, all in its region; its children are all present or
    /// all absent, and each sits on its quadrant with the parent's capacity.
    pub closed spec fn wf(self) -> bool
        decreases self,
    {
        &&& self.region.ordered()
        &&& self.points.len() <= self.capacity
        &&& forall|i: int| 0 <= i < self.points.len() ==> self.region.covers(#[trigger] self.points@[i])
        &&& self.northwest.is_some() == self.northeast.is_some()
        &&& self.northwest.is_some() == self.southwest.is_some()
        &&& self.northwest.is_some() == self.southeast.is_some()
        &&& match self.northwest {
            Some(c) => Self::placed(*c, self.region.quadrant(false, false), self.capacity) && c.wf(),
            None => true,
        }
        &&& match self.northeast {
            Some(c) => Self::placed(*c, self.region.quadrant(true, false), self.capacity) && c.wf(),
            None => true,
        }
        &&& match self.southwest {
            Some(c) => Self::placed(*c, self.region.quadrant(false, true), self.capacity) && c.wf(),
            None => true,
        }
        &&& match self.southeast {
            Some(c) => Self::placed(*c, self.region.quadrant(true, true), self.capacity) && c.wf(),
            None => true,
        }
    }

    /// How deep an insertion may have to go: zero for a node with room and
    /// no children, one for a full node without children, one more than its
    /// deepest child for a split node.
    pub closed spec fn rank(self) -> nat
        decreases self,
    {
        if self.northwest is Some {
            let a = match self.northwest {
                Some(c) => c.rank(),
                None => 0,
            };
            let b = match self.northeast {
                Some(c) => c.rank(),
                None => 0,
            };
            let c = match self.southwest {
                Some(c) => c.rank(),
                None => 0,
            };
            let d = match self.southeast {
                Some(c) => c.rank(),
                None => 0,
            };
            1 + vstd::math::max(vstd::math::max(a as int, b as int), vstd::math::max(c as int, d as int)) as nat
        } else if self.points.len() < self.capacity {
            0
        } else {
            1
        }
    }

    /// The stored points that `range` contains, in the order of `stored`.
    pub open spec fn selected<T: Shape>(self, range: &T) -> Seq<Point> {
        self.stored().filter(|q: Point| range.contains_spec(q))
    }

    pub fn new(boundary: Rectangle, capacity: u8) -> (t: QuadTree)
        requires
            boundary.fits(),
        ensures
            t.wf(),
            t.spec_region() == Region::of(boundary),
            t.spec_boundary() == boundary,
            t.spec_capacity() == capacity,
            t.spec_points().len() == 0,
            !t.spec_is_subdivided(),
            t.stored() == Seq::<Point>::empty(),
            t.stored().to_multiset() == Multiset::<Point>::empty(),
    {
        Self::leaf(Region::from_rectangle(&boundary), capacity)
    }

    fn leaf(region: Region, capacity: u8) -> (t: QuadTree)
        requires
            region.ordered(),
        ensures
            t.wf(),
            is_empty_leaf(t, region, capacity),
            t.stored() == Seq::<Point>::empty(),
            t.stored().to_multiset() == Multiset::<Point>::empty(),
            t.rank() == 0 || capacity == 0,
    {
        let t = QuadTree {
            region,
            capacity,
            points: Vec::new(),
            northwest: None,
            northeast: None,
            southwest: None,
            southeast: None,
        };
        assert(t.stored() =~= Seq::<Point>::empty());
        assert(t.stored().to_multiset() =~= Multiset::<Point>::empty());
        t
    }

    pub fn boundary(&self) -> (r: Rectangle)
        requires
            self.wf(),
        ensures
            r == self.spec_boundary(),
    {
        self.region.bounding_rectangle()
    }

    pub fn region(&self) -> (r: Region)
        ensures
            r == self.spec_region(),
    {
        self.region
    }

    pub fn capacity(&self) -> (r: u8)
        ensures
            r == self.spec_capacity(),
    {
        self.capacity
    }

    /// The points held by this node itself, not by its children.
    pub fn points(&self) -> (r: &Vec<Point>)
        ensures
            r@ == self.spec_points(),
    {
        &self.points
    }

    pub fn is_subdivided(&self) -> (r: bool)
        ensures
            r == self.spec_is_subdivided(),
    {
        self.northwest.is_some()
    }

    /// The child for the eastern or western, southern or northern quadrant,
    /// if the node has been split.
    pub fn child(&self, east: bool, south: bool) -> (r: Option<&QuadTree>)
        ensures
            r is Some == self.spec_child(east, south) is Some,
            r is Some ==> *r.unwrap() == *self.spec_child(east, south).unwrap(),
    {
        let c = if east {
            if south { &self.southeast } else { &self.northeast }
        } else {
            if south { &self.southwest } else { &self.northwest }
        };
        match c {
            Some(b) => Some(&**b),
            None => None,
        }
    }

    /// A well-formed tree's children are present together and each sits on
    /// its quadrant with the parent's capacity.
    pub proof fn lemma_children(self)
        requires
            self.wf(),
        ensures
            forall|east: bool, south: bool|
                (#[trigger] self.spec_child(east, south)) is Some == self.spec_is_subdivided(),
            forall|east: bool, south: bool|
                (#[trigger] self.spec_child(east, south)) is Some ==> {
                    let c = *self.spec_child(east, south).unwrap();
                    &&& c.wf()
                    &&& c.spec_region() == self.spec_region().quadrant(east, south)
                    &&& c.spec_capacity() == self.spec_capacity()
                },
    {
    }

    /// Splits the node into four quadrant children, unless it has them
    /// already. The node's own points stay where they are.
    pub fn subdivide(&mut self)
        requires
            old(self).wf(),
        ensures
            final(self).wf(),
            final(self).spec_is_subdivided(),
            final(self).spec_region() == old(self).spec_region(),
            final(self).spec_capacity() == old(self).spec_capacity(),
            final(self).spec_points() == old(self).spec_points(),
            final(self).stored() == old(self).stored(),
            old(self).spec_is_subdivided() ==> *final(self) == *old(self),
            !old(self).spec_is_subdivided() ==> forall|east: bool, south: bool|
                (#[trigger] final(self).spec_child(east, south)) is Some && is_empty_leaf(
                    *final(self).spec_child(east, south).unwrap(),
                    old(self).spec_region().quadrant(east, south),
                    old(self).spec_capacity(),
                ),
    {
        if self.northwest.is_some() {
            return;
        }
        let ghost before = *self;
        let nw = QuadTree::leaf(self.region.split(false, false), self.capacity);
        let ne = QuadTree::leaf(self.region.split(true, false), self.capacity);
        let sw = QuadTree::leaf(self.region.split(false, true), self.capacity);
        let se = QuadTree::leaf(self.region.split(true, true), self.capacity);
        self.northwest = Some(Box::new(nw));
        self.northeast = Some(Box::new(ne));
        self.southwest = Some(Box::new(sw));
        self.southeast = Some(Box::new(se));
        assert(self.stored() =~= before.stored());
    }

    proof fn lemma_stored_parts(self)
        ensures
            self.stored() == self.points@ + stored_in(self.northwest) + stored_in(self.northeast)
                + stored_in(self.southwest) + stored_in(self.southeast),
            self.stored().to_multiset() == self.points@.to_multiset().add(
                stored_in(self.northwest).to_multiset(),
            ).add(stored_in(self.northeast).to_multiset()).add(
                stored_in(self.southwest).to_multiset(),
            ).add(stored_in(self.southeast).to_multiset()),
    {
    }

    /// Every tree keeps its own points.
    pub proof fn lemma_keeps_points_refl(self)
        ensures
            keeps_points(self, self),
        decreases self,
    {
        assert(self.points@.subrange(0, self.points@.len() as int) =~= self.points@);
        if let Some(c) = self.northwest {
            c.lemma_keeps_points_refl();
        }
        if let Some(c) = self.northeast {
            c.lemma_keeps_points_refl();
        }
        if let Some(c) = self.southwest {
            c.lemma_keeps_points_refl();
        }
        if let Some(c) = self.southeast {
            c.lemma_keeps_points_refl();
        }
    }

    /// After a split that kept the node's points, and children that each
    /// kept theirs, the whole tree kept its points.
    proof fn lemma_keeps_through_split(before: QuadTree, mid: QuadTree, after: QuadTree)
        requires
            before.northwest is Some ==> mid == before,
            before.northwest is None ==> (before.northeast is None && before.southwest is None
                && before.southeast is None),
            mid.points@ == before.points@,
            after.points@ == mid.points@,
            after.northwest is Some,
            keeps_child(mid, after, false, false),
            keeps_child(mid, after, true, false),
            keeps_child(mid, after, false, true),
            keeps_child(mid, after, true, true),
        ensures
            keeps_points(before, after),
    {
        assert(before.points@.subrange(0, before.points@.len() as int) =~= before.points@);
    }

    /// Inserts `point`. With a capacity above zero this succeeds exactly when
    /// the point lies in the node's region; with capacity zero no node can
    /// hold a point, and it always fails. A node with room keeps the point
    /// itself; a full node is split if need be, keeps its own points, and
    /// hands the point to the quadrant that holds it.
    #[verifier::rlimit(100)]
    pub fn insert(&mut self, point: &Point) -> (r: bool)
        requires
            old(self).wf(),
        ensures
            final(self).wf(),
            final(self).spec_region() == old(self).spec_region(),
            final(self).spec_capacity() == old(self).spec_capacity(),
            keeps_points(*old(self), *final(self)),
            old(self).spec_capacity() > 0 ==> (r <==> old(self).spec_region().covers(*point)),
            old(self).spec_capacity() == 0 ==> !r,
            r ==> final(self).stored().to_multiset() == old(self).stored().to_multiset().insert(
                *point,
            ),
            !r ==> final(self).stored() == old(self).stored(),
            !old(self).spec_region().covers(*point) ==> *final(self) == *old(self),
            old(self).spec_region().covers(*point) && old(self).spec_points().len()
                < old(self).spec_capacity() ==> {
                &&& r
                &&& final(self).spec_points() == old(self).spec_points().push(*point)
                &&& forall|east: bool, south: bool|
                    #[trigger] final(self).spec_child(east, south) == old(self).spec_child(east, south)
            },
            old(self).spec_region().covers(*point) && old(self).spec_points().len()
                >= old(self).spec_capacity() ==> {
                &&& final(self).spec_is_subdivided()
                &&& final(self).spec_points() == old(self).spec_points()
                &&& forall|east: bool, south: bool|
                    (east, south) != old(self).spec_region().quadrant_of(*point) ==> if old(
                        self,
                    ).spec_is_subdivided() {
                        #[trigger] final(self).spec_child(east, south) == old(self).spec_child(east, south)
                    } else {
                        is_empty_leaf(
                            *final(self).spec_child(east, south).unwrap(),
                            old(self).spec_region().quadrant(east, south),
                            old(self).spec_capacity(),
                        )
                    }
            },
        decreases old(self).rank(),
    {
        proof {
            self.lemma_keeps_points_refl();
        }
        if !self.region.contains(point) {
            return false;
        }
        if self.points.len() < self.capacity as usize {
            let ghost before = *self;
            self.points.push(*point);
            proof {
                assert(self.points@.subrange(0, before.points@.len() as int) =~= before.points@);
                before.lemma_stored_parts();
                self.lemma_stored_parts();
                assert(self.points@ == before.points@.push(*point));
                assert(self.points@.to_multiset() =~= before.points@.to_multiset().insert(*point));
                assert(self.stored().to_multiset() =~= before.stored().to_multiset().insert(*point));
            }
            return true;
        }
        let ghost before = *self;
        self.subdivide();
        proof {
            self.lemma_keeps_points_refl();
            Self::lemma_keeps_through_split(before, *self, *self);
        }
        if self.capacity == 0 {
            return false;
        }
        let ghost mid = *self;
        proof {
            mid.lemma_stored_parts();
            crate::geometry::lemma_quadrants_tile(self.region, *point);
            assert(mid.spec_child(false, false) == mid.northwest);
            assert(mid.spec_child(true, false) == mid.northeast);
            assert(mid.spec_child(false, true) == mid.southwest);
            assert(mid.spec_child(true, true) == mid.southeast);
            if !before.spec_is_subdivided() {
                assert(before.rank() == 1);
                assert(mid.northwest.unwrap().rank() == 0);
                assert(mid.northeast.unwrap().rank() == 0);
                assert(mid.southwest.unwrap().rank() == 0);
                assert(mid.southeast.unwrap().rank() == 0);
            }
        }
        match &mut self.northwest {
            Some(c) => {
                if c.insert(point) {
                    proof {
                        self.lemma_stored_parts();
                        Self::lemma_keeps_through_split(before, mid, *self);
                    }
                    return true;
                }
            },
            None => {},
        }
        match &mut self.northeast {
            Some(c) => {
                if c.insert(point) {
                    proof {
                        self.lemma_stored_parts();
                        Self::lemma_keeps_through_split(before, mid, *self);
                    }
                    return true;
                }
            },
            None => {},
        }
        match &mut self.southwest {
            Some(c) => {
                if c.insert(point) {
                    proof {
                        self.lemma_stored_parts();
                        Self::lemma_keeps_through_split(before, mid, *self);
                    }
                    return true;
                }
            },
            None => {},
        }
        match &mut self.southeast {
            Some(c) => {
                if c.insert(point) {
                    proof {
                        self.lemma_stored_parts();
                        Self::lemma_keeps_through_split(before, mid, *self);
                    }
                    return true;
                }
            },
            None => {},
        }
        false
    }

    /// Every point of a well-formed tree lies in its region.
    pub proof fn lemma_stored_within(self)
        requires
            self.wf(),
        ensures
            forall|i: int| 0 <= i < self.stored().len() ==> self.spec_region().covers(#[trigger] self.stored()[i]),
        decreases self,
    {
        self.lemma_stored_parts();
        let g = self.region;
        let parts = seq![
            (self.northwest, false, false),
            (self.northeast, true, false),
            (self.southwest, false, true),
            (self.southeast, true, true),
        ];
        assert forall|k: int| 0 <= k < 4 implies forall|i: int| 0 <= i < stored_in(#[trigger] parts[k].0).len()
            ==> g.covers(#[trigger] stored_in(parts[k].0)[i]) by {
            let (c, east, south) = parts[k];
            if let Some(t) = c {
                t.lemma_stored_within();
                assert forall|i: int| 0 <= i < t.stored().len() implies g.covers(#[trigger] t.stored()[i]) by {
                    crate::geometry::lemma_quadrants_tile(g, t.stored()[i]);
                }
            }
        }
        assert(parts[0].0 == self.northwest);
        assert(parts[1].0 == self.northeast);
        assert(parts[2].0 == self.southwest);
        assert(parts[3].0 == self.southeast);
    }

    /// The points of the tree that `range` contains, in the order: this
    /// node's own, then the northwest, northeast, southwest and southeast
    /// subtrees. Subtrees whose bounding rectangle `range` does not overlap are not
    /// visited.
    pub fn query<T: Shape>(&self, range: &T) -> (res: Vec<Point>)
        requires
            self.wf(),
            range.valid(),
        ensures
            res@ == self.selected(range),
        decreases self,
    {
        let ghost pred = |p: Point| range.contains_spec(p);
        let mut res: Vec<Point> = Vec::new();
        proof {
            self.lemma_stored_parts();
        }
        let bounds = self.region.bounding_rectangle();
        if !range.intersects(&bounds) {
            proof {
                self.lemma_stored_within();
                let f = self.stored().filter(pred);
                if f.len() > 0 {
                    let q = f[0];
                    assert(f.contains(q));
                    self.stored().lemma_filter_contains_rev(pred, q);
                    crate::geometry::lemma_bounds_cover(self.region, q);
                    range.lemma_intersects_if_shared(bounds, q);
                }
                assert(f =~= Seq::<Point>::empty());
            }
            return res;
        }
        let mut i: usize = 0;
        while i < self.points.len()
            invariant
                i <= self.points.len(),
                res@ == self.points@.subrange(0, i as int).filter(pred),
                pred == (|p: Point| range.contains_spec(p)),
            decreases self.points.len() - i,
        {
            let p = self.points[i];
            if range.contains(&p) {
                res.push(p);
            }
            proof {
                reveal(Seq::filter);
                assert(self.points@.subrange(0, i + 1).drop_last() =~= self.points@.subrange(0, i as int));
            }
            i = i + 1;
        }
        assert(self.points@.subrange(0, i as int) =~= self.points@);
        if let Some(c) = &self.northwest {
            let mut sub = c.query(range);
            res.append(&mut sub);
        }
        if let Some(c) = &self.northeast {
            let mut sub = c.query(range);
            res.append(&mut sub);
        }
        if let Some(c) = &self.southwest {
            let mut sub = c.query(range);
            res.append(&mut sub);
        }
        if let Some(c) = &self.southeast {
            let mut sub = c.query(range);
            res.append(&mut sub);
        }
        res
    }

    /// A query over the tree's own boundary finds every stored point, as
    /// often as it is stored: so an insertion that succeeded adds the point
    /// to that query's result exactly once more, and a point inserted once
    /// is found exactly once.
    pub proof fn lemma_inserted_point_found(before: QuadTree, after: QuadTree, p: Point)
        requires
            before.wf(),
            after.wf(),
            after.spec_boundary() == before.spec_boundary(),
            after.stored().to_multiset() == before.stored().to_multiset().insert(p),
        ensures
            after.selected(&after.spec_boundary()) == after.stored(),
            before.selected(&before.spec_boundary()) == before.stored(),
            after.stored().to_multiset().count(p) == before.stored().to_multiset().count(p) + 1,
            !before.stored().contains(p) ==> after.stored().to_multiset().count(p) == 1,
    {
        after.lemma_whole_boundary_selects_all();
        before.lemma_whole_boundary_selects_all();
        if !before.stored().contains(p) {
            assert(before.stored().to_multiset().count(p) == 0);
        }
    }

    proof fn lemma_whole_boundary_selects_all(self)
        requires
            self.wf(),
        ensures
            self.selected(&self.spec_boundary()) == self.stored(),
    {
        self.lemma_full_query(self.stored().len() as int);
        assert(self.stored().subrange(0, self.stored().len() as int) =~= self.stored());
    }

    proof fn lemma_full_query(self, n: int)
        requires
            self.wf(),
            0 <= n <= self.stored().len(),
        ensures
            self.stored().subrange(0, n).filter(|q: Point| self.spec_boundary().contains_spec(q))
                == self.stored().subrange(0, n),
        decreases n,
    {
        reveal(Seq::filter);
        self.lemma_stored_within();
        assert forall|i: int| 0 <= i < self.stored().len() implies self.spec_boundary().covers(#[trigger] self.stored()[i]) by {
            crate::geometry::lemma_bounds_cover(self.region, self.stored()[i]);
        }
        if n > 0 {
            self.lemma_full_query(n - 1);
            assert(self.stored().subrange(0, n).drop_last() =~= self.stored().subrange(0, n - 1));
            assert(self.stored().subrange(0, n) =~= self.stored().subrange(0, n - 1).push(self.stored()[n - 1]));
        }
    }

    /// A point outside the region is not stored, so no query returns it.
    pub proof fn lemma_outside_point_absent<T: Shape>(self, p: Point, range: T)
        requires
            self.wf(),
            !self.spec_region().covers(p),
        ensures
            !self.stored().contains(p),
            !self.selected(&range).contains(p),
    {
        self.lemma_stored_within();
        let pred = |q: Point| range.contains_spec(q);
        if self.stored().filter(pred).contains(p) {
            self.stored().lemma_filter_contains_rev(pred, p);
        }
    }

    /// What a query returns is drawn from the stored points, each one
    /// contained in the query's shape.
    pub proof fn lemma_query_within<T: Shape>(self, range: T)
        ensures
            forall|i: int|
                0 <= i < self.selected(&range).len() ==> self.stored().contains(
                    #[trigger] self.selected(&range)[i],
                ) && range.contains_spec(self.selected(&range)[i]),
    {
        let pred = |q: Point| range.contains_spec(q);
        let f = self.stored().filter(pred);
        assert forall|i: int| 0 <= i < f.len() implies self.stored().contains(#[trigger] f[i]) && range.contains_spec(f[i]) by {
            assert(f.contains(f[i]));
            self.stored().lemma_filter_contains_rev(pred, f[i]);
        }
    }

    /// With capacity zero the tree holds no point.
    pub proof fn lemma_zero_capacity_empty(self)
        requires
            self.wf(),
            self.spec_capacity() == 0,
        ensures
            self.stored().len() == 0,
        decreases self,
    {
        self.lemma_stored_parts();
        if self.northwest is Some {
            self.northwest.unwrap().lemma_zero_capacity_empty();
            self.northeast.unwrap().lemma_zero_capacity_empty();
            self.southwest.unwrap().lemma_zero_capacity_empty();
            self.southeast.unwrap().lemma_zero_capacity_empty();
        }
    }

    /// A query returns each stored point that the shape contains as many
    /// times as it is stored, and no other point.
    pub proof fn lemma_selected_counts<T: Shape>(self, range: &T, q: Point)
        ensures
            self.selected(range).to_multiset().count(q) == if range.contains_spec(q) {
                self.stored().to_multiset().count(q)
            } else {
                0
            },
    {
        lemma_filter_count(self.stored(), |x: Point| range.contains_spec(x), q);
    }
}

proof fn lemma_filter_count(s: Seq<Point>, pred: spec_fn(Point) -> bool, q: Point)
    ensures
        s.filter(pred).to_multiset().count(q) == if pred(q) {
            s.to_multiset().count(q)
        } else {
            0
        },
    decreases s.len(),
{
    reveal(Seq::filter);
    if s.len() > 0 {
        let t = s.drop_last();
        lemma_filter_count(t, pred, s.last());
        lemma_filter_count(t, pred, q);
        assert(s =~= t.push(s.last()));
    } else {
        assert(s.filter(pred).len() == 0);
    }
}

} // verus!
