//! The bounding-volume hierarchy: a binary tree built once over the
//! primitives, replacing the linear scan without changing any answer.
//!
//! Every node's box contains the boxes of everything below it, and a
//! reported hit always lies inside its primitive's box; so when the slab
//! test rules the node's box out, nothing below it can hit, and pruning is
//! sound. Both the tree traversal and the linear scan promise `best_opt`
//! over the same membership of primitives, which is the acceleration
//! invariant: the tree changes the cost of a query, never its result.

use vstd::prelude::*;
use vstd::multiset::Multiset;
use crate::fixed::FX_INF;
use crate::interval::Interval;
use crate::aabb::{AABB, contains_box, point_in_box, wf_box};
use crate::ray::{Ray, wf_ray, at_x, at_y, at_z};
use crate::hittable::{
    HitRecord, wf_rec, Primitive, wf_prim, prim_bbox, prim_hits, prim_hit_t, prim_rec,
    lemma_prim_widen, lemma_prim_tighten, best_opt,
};
use crate::hittable_list::{HittableList, wf_list};
use crate::sphere::lemma_interp_between;

verus! {

/// A subtree: either one primitive or an inner node.
pub enum BvhTree {
    Leaf(Primitive),
    Node(BVHNode),
}

/// An inner node: two children and a box enclosing both.
pub struct BVHNode {
    pub left: Box<BvhTree>,
    pub right: Box<BvhTree>,
    pub bbox: AABB,
}

/// The primitives below a subtree, in tree order.
pub open spec fn tree_prims(t: BvhTree) -> Seq<Primitive>
    decreases t,
{
    match t {
        BvhTree::Leaf(p) => seq![p],
        BvhTree::Node(n) => tree_prims(*n.left) + tree_prims(*n.right),
    }
}

/// The box a subtree answers for.
pub open spec fn tree_bbox(t: BvhTree) -> AABB {
    match t {
        BvhTree::Leaf(p) => prim_bbox(p),
        BvhTree::Node(n) => n.bbox,
    }
}

/// Validity of a subtree: valid primitives and, at every inner node, a
/// box containing both children's boxes.
pub open spec fn wf_tree(t: BvhTree) -> bool
    decreases t,
{
    match t {
        BvhTree::Leaf(p) => wf_prim(p),
        BvhTree::Node(n) => {
            &&& wf_tree(*n.left)
            &&& wf_tree(*n.right)
            &&& wf_box(n.bbox)
            &&& contains_box(n.bbox, tree_bbox(*n.left))
            &&& contains_box(n.bbox, tree_bbox(*n.right))
        },
    }
}

/// Validity of a node, as `wf_tree` of the corresponding subtree.
pub open spec fn wf_node(n: BVHNode) -> bool {
    wf_tree(BvhTree::Node(n))
}

/// A primitive's reported hit point lies inside that primitive's box.
proof fn lemma_prim_hit_in_own_box(p: Primitive, r: Ray, tmin: int, tmax: int)
    requires
        wf_prim(p),
        wf_ray(r),
        prim_hits(p, r, tmin, tmax),
    ensures
        point_in_box(
            at_x(r, prim_hit_t(p, r, tmin, tmax)),
            at_y(r, prim_hit_t(p, r, tmin, tmax)),
            at_z(r, prim_hit_t(p, r, tmin, tmax)),
            prim_bbox(p),
        ),
{
    match p {
        Primitive::Sphere(s) => {
            lemma_interp_between(r.time as int, s.centre.direction.x as int);
            lemma_interp_between(r.time as int, s.centre.direction.y as int);
            lemma_interp_between(r.time as int, s.centre.direction.z as int);
        },
        Primitive::Quad(q) => {},
    }
}

/// Below a valid subtree, every primitive's box is contained in the
/// subtree's box.
proof fn lemma_tree_boxes(t: BvhTree)
    requires
        wf_tree(t),
    ensures
        forall|i: int|
            0 <= i < tree_prims(t).len() ==> wf_prim(#[trigger] tree_prims(t)[i]) && contains_box(
                tree_bbox(t),
                prim_bbox(tree_prims(t)[i]),
            ),
    decreases t,
{
    match t {
        BvhTree::Leaf(p) => {},
        BvhTree::Node(n) => {
            lemma_tree_boxes(*n.left);
            lemma_tree_boxes(*n.right);
            let sl = tree_prims(*n.left);
            let sr = tree_prims(*n.right);
            assert(tree_prims(t) == sl + sr);
            assert forall|i: int| 0 <= i < tree_prims(t).len() implies wf_prim(
                #[trigger] tree_prims(t)[i],
            ) && contains_box(tree_bbox(t), prim_bbox(tree_prims(t)[i])) by {
                if i < sl.len() {
                    assert(tree_prims(t)[i] == sl[i]);
                } else {
                    assert(tree_prims(t)[i] == sr[i - sl.len()]);
                }
            }
        },
    }
}

impl BvhTree {
    /// Closest hit below this subtree.
    pub fn hit(&self, ray: &Ray, ray_t: Interval) -> (res: Option<HitRecord>)
        requires
            wf_tree(*self),
            wf_ray(*ray),
            -FX_INF <= ray_t.min <= FX_INF,
            -FX_INF <= ray_t.max <= FX_INF,
        ensures
            best_opt(tree_prims(*self), *ray, ray_t.min as int, ray_t.max as int, res),
            res matches Some(rec) ==> wf_rec(rec) && ray_t.min <= rec.t <= ray_t.max,
        decreases *self,
    {
        match self {
            BvhTree::Leaf(p) => {
                let res = p.hit(ray, ray_t);
                proof {
                    let s = tree_prims(*self);
                    assert(s.len() == 1 && s[0] == *p);
                }
                res
            },
            BvhTree::Node(n) => n.hit(ray, ray_t),
        }
    }
}

impl BVHNode {
    /// Closest hit below this node: prune through the box, then query the
    /// left child, then the right child on the interval tightened to the
    /// left hit.
    pub fn hit(&self, ray: &Ray, ray_t: Interval) -> (res: Option<HitRecord>)
        requires
            wf_node(*self),
            wf_ray(*ray),
            -FX_INF <= ray_t.min <= FX_INF,
            -FX_INF <= ray_t.max <= FX_INF,
        ensures
            best_opt(
                tree_prims(BvhTree::Node(*self)),
                *ray,
                ray_t.min as int,
                ray_t.max as int,
                res,
            ),
            res matches Some(rec) ==> wf_rec(rec) && ray_t.min <= rec.t <= ray_t.max,
        decreases *self,
    {
        let ghost s = tree_prims(BvhTree::Node(*self));
        let ghost sl = tree_prims(*self.left);
        let ghost sr = tree_prims(*self.right);
        let ghost a = ray_t.min as int;
        let ghost b = ray_t.max as int;

        if !self.bbox.hit(ray, ray_t) {
            proof {
                lemma_tree_boxes(BvhTree::Node(*self));
                assert forall|i: int| 0 <= i < s.len() implies !prim_hits(
                    #[trigger] s[i],
                    *ray,
                    a,
                    b,
                ) by {
                    if prim_hits(s[i], *ray, a, b) {
                        let t = prim_hit_t(s[i], *ray, a, b);
                        lemma_prim_hit_in_own_box(s[i], *ray, a, b);
                        assert(a <= t <= b);
                        assert(point_in_box(at_x(*ray, t), at_y(*ray, t), at_z(*ray, t), self.bbox));
                    }
                }
            }
            return None;
        }

        let left_res = self.left.hit(ray, ray_t);
        let tight = match &left_res {
            Some(l) => l.t,
            None => ray_t.max,
        };
        let right_res = self.right.hit(ray, Interval::new(ray_t.min, tight));
        proof {
            assert(s == sl + sr);
            assert forall|i: int| 0 <= i < sl.len() implies s[i] == sl[i] by {}
            assert forall|i: int| 0 <= i < sr.len() implies s[sl.len() + i] == sr[i] by {}
            let tb = tight as int;
            match right_res {
                Some(rr) => {
                    let j = choose|j: int|
                        0 <= j < sr.len() && prim_hits(#[trigger] sr[j], *ray, a, tb) && prim_rec(
                            sr[j],
                            *ray,
                            a,
                            tb,
                            rr,
                        );
                    lemma_prim_widen(sr[j], *ray, a, tb, b);
                    assert(prim_hits(s[sl.len() + j], *ray, a, b) && prim_rec(
                        s[sl.len() + j],
                        *ray,
                        a,
                        b,
                        rr,
                    ));
                    assert forall|i: int|
                        0 <= i < s.len() && prim_hits(#[trigger] s[i], *ray, a, b) implies rr.t
                        <= prim_hit_t(s[i], *ray, a, b) by {
                        if i < sl.len() {
                            assert(prim_hits(sl[i], *ray, a, b));
                        } else {
                            let k = i - sl.len();
                            assert(prim_hits(sr[k], *ray, a, b));
                            if prim_hit_t(sr[k], *ray, a, b) < rr.t {
                                lemma_prim_tighten(sr[k], *ray, a, b, tb);
                            }
                        }
                    }
                },
                None => {
                    match left_res {
                        Some(lrec) => {
                            assert forall|i: int|
                                0 <= i < s.len() && prim_hits(#[trigger] s[i], *ray, a, b) implies
                                lrec.t <= prim_hit_t(s[i], *ray, a, b) by {
                                if i < sl.len() {
                                    assert(prim_hits(sl[i], *ray, a, b));
                                } else {
                                    let k = i - sl.len();
                                    assert(prim_hits(sr[k], *ray, a, b));
                                    if prim_hit_t(sr[k], *ray, a, b) < tb {
                                        lemma_prim_tighten(sr[k], *ray, a, b, tb);
                                    }
                                }
                            }
                            let j = choose|j: int|
                                0 <= j < sl.len() && prim_hits(#[trigger] sl[j], *ray, a, b)
                                    && prim_rec(sl[j], *ray, a, b, lrec);
                            assert(prim_hits(s[j], *ray, a, b) && prim_rec(s[j], *ray, a, b, lrec));
                        },
                        None => {
                            assert forall|i: int| 0 <= i < s.len() implies !prim_hits(
                                #[trigger] s[i],
                                *ray,
                                a,
                                b,
                            ) by {
                                if i < sl.len() {
                                    assert(!prim_hits(sl[i], *ray, a, b));
                                } else {
                                    let k = i - sl.len();
                                    if prim_hits(sr[k], *ray, a, b) {
                                        let t = prim_hit_t(sr[k], *ray, a, b);
                                        assert(t <= b);
                                        if t < b {
                                            lemma_prim_tighten(sr[k], *ray, a, b, b);
                                        }
                                        assert(prim_hits(sr[k], *ray, a, tb));
                                    }
                                }
                            }
                        },
                    }
                },
            }
        }
        match right_res {
            Some(rr) => Some(rr),
            None => left_res,
        }
    }

    pub fn bounding_box(&self) -> (r: AABB)
        ensures
            r == self.bbox,
    {
        self.bbox
    }
}

/// The two sequences hold exactly the same primitives, duplicates aside.
pub open spec fn same_prims(s1: Seq<Primitive>, s2: Seq<Primitive>) -> bool {
    forall|x: Primitive| s1.contains(x) <==> s2.contains(x)
}

/// A valid primitive's box is a valid box.
proof fn lemma_prim_box_wf(p: Primitive)
    requires
        wf_prim(p),
    ensures
        wf_box(prim_bbox(p)),
{
    match p {
        Primitive::Sphere(s) => {},
        Primitive::Quad(q) => {},
    }
}

/// The sort key of the build: the low end of the primitive's box on the
/// chosen axis.
pub open spec fn sort_key(p: Primitive, axis: int) -> int {
    crate::aabb::axis_of(prim_bbox(p), axis).min as int
}

/// The low end of the primitive's box on the chosen axis, the sort key of
/// the build.
fn axis_key(p: &Primitive, axis: usize) -> (r: i64)
    ensures
        r == sort_key(*p, axis as int),
{
    p.bounding_box().axis_interval(axis).min
}

/// Selection sort by the axis key: the same primitives come out, length
/// included, in ascending key order along the chosen axis.
fn sort_by_axis(v: Vec<Primitive>, axis: usize) -> (r: Vec<Primitive>)
    ensures
        r@.to_multiset() == v@.to_multiset(),
        r@.len() == v@.len(),
        same_prims(r@, v@),
        forall|i: int, j: int|
            0 <= i <= j < r@.len() ==> sort_key(#[trigger] r@[i], axis as int) <= sort_key(
                #[trigger] r@[j],
                axis as int,
            ),
    decreases v@.len(),
{
    let mut rest = v;
    let mut out: Vec<Primitive> = Vec::new();
    proof {
        out@.to_multiset_ensures();
        rest@.to_multiset_ensures();
        assert(out@.to_multiset().add(rest@.to_multiset()) =~= v@.to_multiset());
    }
    let ghost vm = v@.to_multiset();
    let ghost ax = axis as int;
    while rest.len() > 0
        invariant
            out@.to_multiset().add(rest@.to_multiset()) == vm,
            vm == v@.to_multiset(),
            out@.len() + rest@.len() == v@.len(),
            ax == axis as int,
            forall|i: int, j: int|
                0 <= i <= j < out@.len() ==> sort_key(#[trigger] out@[i], ax) <= sort_key(
                    #[trigger] out@[j],
                    ax,
                ),
            forall|i: int, j: int|
                0 <= i < out@.len() && 0 <= j < rest@.len() ==> sort_key(#[trigger] out@[i], ax)
                    <= sort_key(#[trigger] rest@[j], ax),
        decreases rest@.len(),
    {
        let mut best: usize = 0;
        let mut bi: usize = 1;
        while bi < rest.len()
            invariant
                ax == axis as int,
                0 < bi <= rest@.len() || rest@.len() <= 1,
                best < rest@.len(),
                rest@.len() > 0,
                forall|k: int|
                    0 <= k < bi && k < rest@.len() ==> sort_key(rest@[best as int], ax)
                        <= sort_key(#[trigger] rest@[k], ax),
            decreases rest@.len() - bi,
        {
            if axis_key(&rest[bi], axis) < axis_key(&rest[best], axis) {
                best = bi;
            }
            bi = bi + 1;
        }
        let ghost old_rest = rest@;
        let ghost old_out = out@;
        let x = rest.remove(best);
        out.push(x);
        proof {
            old_rest.to_multiset_ensures();
            old_out.to_multiset_ensures();
            assert(rest@.to_multiset() =~= old_rest.to_multiset().remove(x));
            assert(out@.to_multiset() =~= old_out.to_multiset().insert(x));
            assert(old_rest.contains(x));
            assert(old_rest.to_multiset().count(x) > 0);
            assert(out@.to_multiset().add(rest@.to_multiset()) =~= vm);
            assert forall|i: int, j: int|
                0 <= i < out@.len() && 0 <= j < rest@.len() implies sort_key(
                #[trigger] out@[i],
                ax,
            ) <= sort_key(#[trigger] rest@[j], ax) by {
                if j < best {
                    assert(rest@[j] == old_rest[j]);
                } else {
                    assert(rest@[j] == old_rest[j + 1]);
                }
                if i < old_out.len() {
                    assert(out@[i] == old_out[i]);
                } else {
                    assert(out@[i] == x);
                }
            }
            assert forall|i: int, j: int|
                0 <= i <= j < out@.len() implies sort_key(#[trigger] out@[i], ax) <= sort_key(
                #[trigger] out@[j],
                ax,
            ) by {
                if j < old_out.len() {
                    assert(out@[i] == old_out[i] && out@[j] == old_out[j]);
                } else {
                    assert(out@[j] == x);
                    if i < old_out.len() {
                        assert(out@[i] == old_out[i]);
                        assert(sort_key(old_out[i], ax) <= sort_key(old_rest[best as int], ax));
                    }
                }
            }
        }
    }
    proof {
        rest@.to_multiset_ensures();
        assert(rest@.to_multiset().len() == 0);
        assert(out@.to_multiset() =~= vm) by {
            assert(rest@.to_multiset() =~= Multiset::empty());
        }
        assert forall|x: Primitive| out@.contains(x) <==> v@.contains(x) by {
            out@.to_multiset_ensures();
            v@.to_multiset_ensures();
            if out@.contains(x) {
                assert(out@.to_multiset().count(x) > 0);
                assert(v@.to_multiset().count(x) > 0);
            }
            if v@.contains(x) {
                assert(v@.to_multiset().count(x) > 0);
                assert(out@.to_multiset().count(x) > 0);
            }
        }
    }
    out
}

impl BVHNode {
    /// Build a tree over at least one primitive: the union box chooses the
    /// split axis, the primitives are ordered along it, and each half is
    /// built recursively; one or two primitives become direct leaves.
    pub fn new(objects: Vec<Primitive>) -> (r: BVHNode)
        requires
            objects@.len() >= 1,
            forall|i: int| 0 <= i < objects@.len() ==> wf_prim(#[trigger] objects@[i]),
        ensures
            wf_node(r),
            same_prims(tree_prims(BvhTree::Node(r)), objects@),
        decreases objects@.len(),
    {
        let ghost os = objects@;
        let mut bbox = AABB::empty();
        let mut i: usize = 0;
        while i < objects.len()
            invariant
                os == objects@,
                forall|k: int| 0 <= k < os.len() ==> wf_prim(#[trigger] os[k]),
                wf_box(bbox),
            decreases objects.len() - i,
        {
            proof {
                lemma_prim_box_wf(os[i as int]);
            }
            bbox = AABB::from_boxes(&bbox, &objects[i].bounding_box());
            i = i + 1;
        }
        let axis = bbox.longest_axis();

        if objects.len() == 1 {
            let p = objects[0];
            proof {
                assert(wf_prim(os[0]));
                lemma_prim_box_wf(p);
            }
            let pb = p.bounding_box();
            let nb = AABB::from_boxes(&pb, &pb);
            let node = BVHNode {
                left: Box::new(BvhTree::Leaf(p)),
                right: Box::new(BvhTree::Leaf(p)),
                bbox: nb,
            };
            proof {
                let s = tree_prims(BvhTree::Node(node));
                assert(tree_prims(*node.left) =~= seq![p]);
                assert(tree_prims(*node.right) =~= seq![p]);
                assert(s =~= seq![p] + seq![p]);
                assert(s.contains(p)) by {
                    assert(s[0] == p);
                }
                assert(os.contains(p)) by {
                    assert(os[0] == p);
                }
                assert forall|x: Primitive| s.contains(x) <==> os.contains(x) by {
                    if s.contains(x) {
                        let k = choose|k: int| 0 <= k < s.len() && s[k] == x;
                        assert(x == p);
                    }
                    if os.contains(x) {
                        let k = choose|k: int| 0 <= k < os.len() && os[k] == x;
                        assert(x == p);
                    }
                }
                assert(*node.left == BvhTree::Leaf(p));
                assert(wf_tree(*node.left));
                assert(wf_box(node.bbox));
                assert(contains_box(node.bbox, tree_bbox(*node.left)));
                assert(wf_node(node));
            }
            node
        } else if objects.len() == 2 {
            let p0 = objects[0];
            let p1 = objects[1];
            proof {
                assert(wf_prim(os[0]));
                assert(wf_prim(os[1]));
                lemma_prim_box_wf(p0);
                lemma_prim_box_wf(p1);
            }
            let nb = AABB::from_boxes(&p0.bounding_box(), &p1.bounding_box());
            let node = BVHNode {
                left: Box::new(BvhTree::Leaf(p0)),
                right: Box::new(BvhTree::Leaf(p1)),
                bbox: nb,
            };
            proof {
                let s = tree_prims(BvhTree::Node(node));
                assert(tree_prims(*node.left) =~= seq![p0]);
                assert(tree_prims(*node.right) =~= seq![p1]);
                assert(s =~= seq![p0] + seq![p1]);
                assert forall|x: Primitive| s.contains(x) <==> os.contains(x) by {
                    if s.contains(x) {
                        let k = choose|k: int| 0 <= k < s.len() && s[k] == x;
                        if k == 0 {
                            assert(os[0] == x);
                        } else {
                            assert(os[1] == x);
                        }
                    }
                    if os.contains(x) {
                        let k = choose|k: int| 0 <= k < os.len() && os[k] == x;
                        if k == 0 {
                            assert(s[0] == x);
                        } else {
                            assert(s[1] == x);
                        }
                    }
                }
                assert(*node.left == BvhTree::Leaf(p0));
                assert(*node.right == BvhTree::Leaf(p1));
                assert(wf_tree(*node.left));
                assert(wf_tree(*node.right));
                assert(wf_box(node.bbox));
                assert(wf_node(node));
            }
            node
        } else {
            let sorted = sort_by_axis(objects, axis);
            let ghost ss = sorted@;
            proof {
                assert forall|k: int| 0 <= k < ss.len() implies wf_prim(#[trigger] ss[k]) by {
                    assert(ss.contains(ss[k]));
                    assert(os.contains(ss[k]));
                    let j = choose|j: int| 0 <= j < os.len() && os[j] == ss[k];
                }
            }
            let mut left_v = sorted;
            let mid = left_v.len() / 2;
            let right_v = left_v.split_off(mid);
            proof {
                assert(left_v@ == ss.subrange(0, mid as int));
                assert(right_v@ == ss.subrange(mid as int, ss.len() as int));
                assert forall|k: int| 0 <= k < left_v@.len() implies wf_prim(
                    #[trigger] left_v@[k],
                ) by {
                    assert(left_v@[k] == ss[k]);
                }
                assert forall|k: int| 0 <= k < right_v@.len() implies wf_prim(
                    #[trigger] right_v@[k],
                ) by {
                    assert(right_v@[k] == ss[mid + k]);
                }
            }
            let ghost lv = left_v@;
            let ghost rv = right_v@;
            let left_n = BVHNode::new(left_v);
            let right_n = BVHNode::new(right_v);
            let nb = AABB::from_boxes(&left_n.bbox, &right_n.bbox);
            let node = BVHNode {
                left: Box::new(BvhTree::Node(left_n)),
                right: Box::new(BvhTree::Node(right_n)),
                bbox: nb,
            };
            proof {
                let s = tree_prims(BvhTree::Node(node));
                let stl = tree_prims(BvhTree::Node(left_n));
                let str_ = tree_prims(BvhTree::Node(right_n));
                assert(s == stl + str_);
                assert forall|x: Primitive| s.contains(x) <==> os.contains(x) by {
                    if s.contains(x) {
                        let k = choose|k: int| 0 <= k < s.len() && s[k] == x;
                        if k < stl.len() {
                            assert(stl[k] == x);
                            assert(stl.contains(x));
                            assert(lv.contains(x));
                            let j = choose|j: int| 0 <= j < lv.len() && lv[j] == x;
                            assert(ss[j] == x);
                            assert(ss.contains(x));
                        } else {
                            assert(str_[k - stl.len()] == x);
                            assert(str_.contains(x));
                            assert(rv.contains(x));
                            let j = choose|j: int| 0 <= j < rv.len() && rv[j] == x;
                            assert(ss[mid + j] == x);
                            assert(ss.contains(x));
                        }
                    }
                    if os.contains(x) {
                        assert(ss.contains(x));
                        let j = choose|j: int| 0 <= j < ss.len() && ss[j] == x;
                        if j < mid {
                            assert(lv[j] == x);
                            assert(lv.contains(x));
                            assert(stl.contains(x));
                            let k = choose|k: int| 0 <= k < stl.len() && stl[k] == x;
                            assert(s[k] == x);
                        } else {
                            assert(rv[j - mid] == x);
                            assert(rv.contains(x));
                            assert(str_.contains(x));
                            let k = choose|k: int| 0 <= k < str_.len() && str_[k] == x;
                            assert(s[stl.len() + k] == x);
                        }
                    }
                }
                assert(wf_node(node));
            }
            node
        }
    }

    /// Build the tree over a list's members.
    pub fn from_list(list: HittableList) -> (r: BVHNode)
        requires
            wf_list(list),
            list.objects@.len() >= 1,
        ensures
            wf_node(r),
            same_prims(tree_prims(BvhTree::Node(r)), list.objects@),
    {
        BVHNode::new(list.objects)
    }
}

/// Two closest-hit answers over the same primitives agree: both miss, or
/// both hit at the same parameter. This is the acceleration invariant
/// relating the tree traversal to the linear scan.
pub proof fn lemma_best_agrees(
    s1: Seq<Primitive>,
    s2: Seq<Primitive>,
    r: Ray,
    tmin: int,
    tmax: int,
    r1: Option<HitRecord>,
    r2: Option<HitRecord>,
)
    requires
        same_prims(s1, s2),
        best_opt(s1, r, tmin, tmax, r1),
        best_opt(s2, r, tmin, tmax, r2),
    ensures
        r1 is Some <==> r2 is Some,
        r1 matches Some(x) ==> r2 matches Some(y) && x.t == y.t,
{
    match (r1, r2) {
        (Option::None, Option::None) => {},
        (Option::None, Option::Some(y)) => {
            let i = choose|i: int|
                0 <= i < s2.len() && prim_hits(#[trigger] s2[i], r, tmin, tmax) && prim_rec(
                    s2[i],
                    r,
                    tmin,
                    tmax,
                    y,
                );
            assert(s2.contains(s2[i]));
            assert(s1.contains(s2[i]));
            let j = choose|j: int| 0 <= j < s1.len() && s1[j] == s2[i];
            assert(prim_hits(s1[j], r, tmin, tmax));
        },
        (Option::Some(x), Option::None) => {
            let i = choose|i: int|
                0 <= i < s1.len() && prim_hits(#[trigger] s1[i], r, tmin, tmax) && prim_rec(
                    s1[i],
                    r,
                    tmin,
                    tmax,
                    x,
                );
            assert(s1.contains(s1[i]));
            assert(s2.contains(s1[i]));
            let j = choose|j: int| 0 <= j < s2.len() && s2[j] == s1[i];
            assert(prim_hits(s2[j], r, tmin, tmax));
        },
        (Option::Some(x), Option::Some(y)) => {
            let i = choose|i: int|
                0 <= i < s1.len() && prim_hits(#[trigger] s1[i], r, tmin, tmax) && prim_rec(
                    s1[i],
                    r,
                    tmin,
                    tmax,
                    x,
                );
            assert(s1.contains(s1[i]));
            assert(s2.contains(s1[i]));
            let i2 = choose|j: int| 0 <= j < s2.len() && s2[j] == s1[i];
            assert(y.t <= prim_hit_t(s2[i2], r, tmin, tmax));
            assert(x.t == prim_hit_t(s1[i], r, tmin, tmax)) by {
                lemma_rec_t(s1[i], r, tmin, tmax, x);
            }
            let j = choose|j: int|
                0 <= j < s2.len() && prim_hits(#[trigger] s2[j], r, tmin, tmax) && prim_rec(
                    s2[j],
                    r,
                    tmin,
                    tmax,
                    y,
                );
            assert(s2.contains(s2[j]));
            assert(s1.contains(s2[j]));
            let j2 = choose|k: int| 0 <= k < s1.len() && s1[k] == s2[j];
            assert(x.t <= prim_hit_t(s1[j2], r, tmin, tmax));
            assert(y.t == prim_hit_t(s2[j], r, tmin, tmax)) by {
                lemma_rec_t(s2[j], r, tmin, tmax, y);
            }
        },
    }
}

/// A pinned record is unique: two records satisfying the same pinning
/// predicate are equal in every field.
proof fn lemma_rec_unique(p: Primitive, r: Ray, tmin: int, tmax: int, x: HitRecord, y: HitRecord)
    requires
        prim_rec(p, r, tmin, tmax, x),
        prim_rec(p, r, tmin, tmax, y),
    ensures
        x == y,
{
    match p {
        Primitive::Sphere(s) => {
            assert(x.p == y.p);
            assert(x.normal == y.normal);
        },
        Primitive::Quad(q) => {
            assert(x.p == y.p);
            assert(x.normal == y.normal);
        },
    }
}

/// Under a tie-free scene — no two distinct primitives hit the ray at the
/// same parameter — the two closest-hit answers agree on the whole
/// record: parameter, point, normal, texture coordinates and material.
pub proof fn lemma_best_agrees_exactly(
    s1: Seq<Primitive>,
    s2: Seq<Primitive>,
    r: Ray,
    tmin: int,
    tmax: int,
    r1: Option<HitRecord>,
    r2: Option<HitRecord>,
)
    requires
        same_prims(s1, s2),
        best_opt(s1, r, tmin, tmax, r1),
        best_opt(s2, r, tmin, tmax, r2),
        forall|p: Primitive, q: Primitive|
            s1.contains(p) && s1.contains(q) && #[trigger] prim_hits(p, r, tmin, tmax)
                && #[trigger] prim_hits(q, r, tmin, tmax) && prim_hit_t(p, r, tmin, tmax)
                == prim_hit_t(q, r, tmin, tmax) ==> p == q,
    ensures
        r1 == r2,
{
    lemma_best_agrees(s1, s2, r, tmin, tmax, r1, r2);
    match (r1, r2) {
        (Option::Some(x), Option::Some(y)) => {
            let i = choose|i: int|
                0 <= i < s1.len() && prim_hits(#[trigger] s1[i], r, tmin, tmax) && prim_rec(
                    s1[i],
                    r,
                    tmin,
                    tmax,
                    x,
                );
            let j = choose|j: int|
                0 <= j < s2.len() && prim_hits(#[trigger] s2[j], r, tmin, tmax) && prim_rec(
                    s2[j],
                    r,
                    tmin,
                    tmax,
                    y,
                );
            assert(s1.contains(s1[i]));
            assert(s2.contains(s2[j]));
            assert(s1.contains(s2[j]));
            lemma_rec_t(s1[i], r, tmin, tmax, x);
            lemma_rec_t(s2[j], r, tmin, tmax, y);
            assert(x.t == y.t);
            assert(s1[i] == s2[j]);
            lemma_rec_unique(s1[i], r, tmin, tmax, x, y);
        },
        _ => {},
    }
}

/// A pinned record's parameter is the reported hit parameter.
proof fn lemma_rec_t(p: Primitive, r: Ray, tmin: int, tmax: int, rec: HitRecord)
    requires
        prim_rec(p, r, tmin, tmax, rec),
    ensures
        rec.t == prim_hit_t(p, r, tmin, tmax),
{
    match p {
        Primitive::Sphere(s) => {},
        Primitive::Quad(q) => {},
    }
}

} // verus!
