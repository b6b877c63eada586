use vstd::prelude::*;

use std::cmp::Ordering;

use crate::aabb::AABB;
use crate::sort::{SortKey, sort_by_key, sort_range, lemma_sort_len, lemma_sort_contains};

verus! {

/// An object of the scene (a sphere, a mesh, a plane...), known to the
/// hierarchy by its index in the scene and its bounding box.
#[derive(Clone, Copy, Debug, PartialEq, Eq, Structural)]
pub struct Primitive {
    pub id: usize,
    pub bbox: AABB,
}

/// What a hierarchy node holds on each side.
#[derive(Debug)]
pub enum Hittable {
    /// An empty list of objects.
    Empty,
    /// One object of the scene.
    Object(Primitive),
    /// A nested hierarchy.
    Node(Box<BVHNode>),
}

/// A node of a bounding-volume hierarchy: two children and a box that holds both.
#[derive(Debug)]
pub struct BVHNode {
    pub left: Box<Hittable>,
    pub right: Box<Hittable>,
    pub bbox: AABB,
}

impl Hittable {
    /// The bounding box; an empty list has the zero box, which stands for "no box".
    pub open spec fn spec_bbox(self) -> AABB {
        match self {
            Hittable::Empty => AABB::spec_zero(),
            Hittable::Object(p) => p.bbox,
            Hittable::Node(n) => n.bbox,
        }
    }

    pub fn bounding_box(&self) -> (r: AABB)
        ensures
            r == self.spec_bbox(),
    {
        match self {
            Hittable::Empty => AABB::zero(),
            Hittable::Object(p) => p.bbox,
            Hittable::Node(n) => n.bbox,
        }
    }
}

/// The node with children `left` and `right` and the box that joins theirs.
pub open spec fn spec_join(left: Hittable, right: Hittable) -> BVHNode {
    BVHNode {
        left: Box::new(left),
        right: Box::new(right),
        bbox: left.spec_bbox().union(right.spec_bbox()),
    }
}

/// The box of all the objects of `s`, joined one by one to the zero box.
pub open spec fn span_box(s: Seq<Primitive>) -> AABB
    decreases s.len(),
{
    if s.len() == 0 {
        AABB::spec_zero()
    } else {
        span_box(s.drop_last()).union(s.last().bbox)
    }
}

/// No object of `s` has the zero box, which stands for "no bounding box".
pub open spec fn all_bounded(s: Seq<Primitive>) -> bool {
    forall|k: int| 0 <= k < s.len() ==> #[trigger] s[k].bbox != AABB::spec_zero()
}

/// The hierarchy built over the objects `s`: one or two objects become the
/// children of a single node (one object on both sides); more objects are sorted
/// stably by the low corner of their boxes along the widest axis of `span_box(s)`
/// (which starts from the zero box, so it always holds the origin), and the two
/// halves (the first half the smaller) become child hierarchies.
pub open spec fn spec_build(s: Seq<Primitive>) -> BVHNode
    decreases s.len(),
{
    if s.len() <= 1 {
        spec_join(Hittable::Object(s[0]), Hittable::Object(s[0]))
    } else if s.len() == 2 {
        spec_join(Hittable::Object(s[0]), Hittable::Object(s[1]))
    } else {
        let axis = span_box(s).spec_widest_axis();
        let t = sort_by_key(s, axis);
        let mid = s.len() / 2;
        proof {
            lemma_sort_len(s, axis);
        }
        spec_join(
            Hittable::Node(Box::new(spec_build(t.subrange(0, mid as int)))),
            Hittable::Node(Box::new(spec_build(t.subrange(mid as int, s.len() as int)))),
        )
    }
}

/// The order in which building the hierarchy over `s` leaves the objects: as
/// they were for one or two objects; else the halves of the sorted objects, each
/// left as building its own hierarchy leaves it.
pub open spec fn spec_arranged(s: Seq<Primitive>) -> Seq<Primitive>
    decreases s.len(),
{
    if s.len() <= 2 {
        s
    } else {
        let axis = span_box(s).spec_widest_axis();
        let t = sort_by_key(s, axis);
        let mid = s.len() / 2;
        proof {
            lemma_sort_len(s, axis);
        }
        spec_arranged(t.subrange(0, mid as int)) + spec_arranged(
            t.subrange(mid as int, s.len() as int),
        )
    }
}

pub proof fn lemma_arranged_len(s: Seq<Primitive>)
    ensures
        spec_arranged(s).len() == s.len(),
    decreases s.len(),
{
    if s.len() > 2 {
        let axis = span_box(s).spec_widest_axis();
        let t = sort_by_key(s, axis);
        let mid = s.len() / 2;
        lemma_sort_len(s, axis);
        lemma_arranged_len(t.subrange(0, mid as int));
        lemma_arranged_len(t.subrange(mid as int, s.len() as int));
    }
}

/// The low corner of the box of `p` along `axis`.
pub open spec fn low_corner(p: Primitive, axis: usize) -> int {
    p.bbox.min.axis(axis as int)
}

/// Orders the boxes of two objects by their low corner along `axis`.
fn box_compare(a: &Primitive, b: &Primitive, axis: usize) -> (r: Ordering)
    requires
        axis < 3,
    ensures
        r == Ordering::Less <==> low_corner(*a, axis) < low_corner(*b, axis),
        r == Ordering::Equal <==> low_corner(*a, axis) == low_corner(*b, axis),
        r == Ordering::Greater <==> low_corner(*a, axis) > low_corner(*b, axis),
{
    let ka = a.bbox.min.get(axis);
    let kb = b.bbox.min.get(axis);
    if ka < kb {
        Ordering::Less
    } else if ka == kb {
        Ordering::Equal
    } else {
        Ordering::Greater
    }
}

impl SortKey for Primitive {
    /// The low corner of the box along `axis`.
    open spec fn key(&self, axis: int) -> int {
        self.bbox.min.axis(axis)
    }

    fn key_greater(&self, other: &Self, axis: usize) -> (r: bool) {
        match box_compare(self, other, axis) {
            Ordering::Greater => true,
            _ => false,
        }
    }
}

} // verus!

verus! {

/// The box of the objects `objects[lo..hi]` joined one by one to the zero box.
fn span_of(objects: &Vec<Primitive>, lo: usize, hi: usize) -> (r: AABB)
    requires
        lo <= hi <= objects@.len(),
    ensures
        r == span_box(objects@.subrange(lo as int, hi as int)),
{
    let mut bx = AABB::zero();
    let mut i = lo;
    while i < hi
        invariant
            lo <= i <= hi <= objects@.len(),
            bx == span_box(objects@.subrange(lo as int, i as int)),
        decreases hi - i,
    {
        let obox = objects[i].bbox;
        assert(objects@.subrange(lo as int, i + 1).drop_last() =~= objects@.subrange(
            lo as int,
            i as int,
        ));
        bx = AABB::of_boxes(&bx, &obox);
        i = i + 1;
    }
    bx
}

/// The hierarchy over `objects[lo..hi]`, which it leaves arranged as
/// `spec_arranged` says.
fn build_range(objects: &mut Vec<Primitive>, lo: usize, hi: usize) -> (r: BVHNode)
    requires
        lo < hi <= old(objects)@.len(),
        all_bounded(old(objects)@.subrange(lo as int, hi as int)),
    ensures
        r == spec_build(old(objects)@.subrange(lo as int, hi as int)),
        final(objects)@ == old(objects)@.subrange(0, lo as int) + spec_arranged(
            old(objects)@.subrange(lo as int, hi as int),
        ) + old(objects)@.subrange(hi as int, old(objects)@.len() as int),
    decreases hi - lo,
{
    let ghost s = objects@.subrange(lo as int, hi as int);
    let ghost orig = objects@;
    let bx = span_of(objects, lo, hi);
    let axis = bx.widest_axis();
    let span = hi - lo;
    if span == 1 {
        let o = objects[lo];
        assert(s[0] == o);
        assert(s =~= orig.subrange(lo as int, hi as int));
        assert(objects@ =~= orig.subrange(0, lo as int) + s + orig.subrange(
            hi as int,
            orig.len() as int,
        ));
        BVHNode {
            left: Box::new(Hittable::Object(o)),
            right: Box::new(Hittable::Object(o)),
            bbox: AABB::of_boxes(&o.bbox, &o.bbox),
        }
    } else if span == 2 {
        let o0 = objects[lo];
        let o1 = objects[lo + 1];
        assert(s[0] == o0 && s[1] == o1);
        assert(objects@ =~= orig.subrange(0, lo as int) + s + orig.subrange(
            hi as int,
            orig.len() as int,
        ));
        BVHNode {
            left: Box::new(Hittable::Object(o0)),
            right: Box::new(Hittable::Object(o1)),
            bbox: AABB::of_boxes(&o0.bbox, &o1.bbox),
        }
    } else {
        sort_range(objects, lo, hi, axis);
        let ghost t = sort_by_key(s, axis as int);
        proof {
            lemma_sort_len(s, axis as int);
            lemma_sort_contains(s, axis as int);
        }
        let mid = lo + span / 2;
        let ghost m = (span / 2) as int;
        let ghost sorted = objects@;
        assert(sorted.subrange(lo as int, mid as int) =~= t.subrange(0, m));
        assert(sorted.subrange(mid as int, hi as int) =~= t.subrange(m, s.len() as int));
        assert forall|k: int| 0 <= k < t.len() implies #[trigger] t[k].bbox != AABB::spec_zero() by {
            let j = choose|j: int| 0 <= j < s.len() && s[j] == t[k];
            assert(s[j].bbox != AABB::spec_zero());
        }
        assert(all_bounded(sorted.subrange(lo as int, mid as int)));
        let l = build_range(objects, lo, mid);
        let ghost after_left = objects@;
        proof {
            lemma_arranged_len(t.subrange(0, m));
        }
        assert(after_left.subrange(mid as int, hi as int) =~= t.subrange(m, s.len() as int));
        assert(all_bounded(after_left.subrange(mid as int, hi as int)));
        let r = build_range(objects, mid, hi);
        proof {
            lemma_arranged_len(t.subrange(m, s.len() as int));
            assert(spec_arranged(s) == spec_arranged(t.subrange(0, m)) + spec_arranged(
                t.subrange(m, s.len() as int),
            ));
            assert(objects@ =~= orig.subrange(0, lo as int) + spec_arranged(s) + orig.subrange(
                hi as int,
                orig.len() as int,
            ));
        }
        let lb = l.bbox;
        let rb = r.bbox;
        BVHNode {
            left: Box::new(Hittable::Node(Box::new(l))),
            right: Box::new(Hittable::Node(Box::new(r))),
            bbox: AABB::of_boxes(&lb, &rb),
        }
    }
}

impl BVHNode {
    /// A node whose two children are empty lists, with the zero box.
    pub open spec fn spec_new() -> BVHNode {
        BVHNode {
            left: Box::new(Hittable::Empty),
            right: Box::new(Hittable::Empty),
            bbox: AABB::spec_zero(),
        }
    }

    pub fn new() -> (r: BVHNode)
        ensures
            r == BVHNode::spec_new(),
    {
        BVHNode {
            left: Box::new(Hittable::Empty),
            right: Box::new(Hittable::Empty),
            bbox: AABB::zero(),
        }
    }

    /// A node whose two children are the same empty list, with the zero box.
    pub fn empty() -> (r: BVHNode)
        ensures
            r == BVHNode::spec_new(),
    {
        BVHNode {
            left: Box::new(Hittable::Empty),
            right: Box::new(Hittable::Empty),
            bbox: AABB::zero(),
        }
    }

    /// The node over two given children, with the box that joins theirs.
    pub fn _new(left: Hittable, right: Hittable) -> (r: BVHNode)
        ensures
            r == spec_join(left, right),
    {
        Self::from_children(left, right)
    }

    /// The node over two given children, with the box that joins theirs.
    pub fn from_children(left: Hittable, right: Hittable) -> (r: BVHNode)
        ensures
            r == spec_join(left, right),
    {
        let bbox = AABB::of_boxes(&left.bounding_box(), &right.bounding_box());
        BVHNode { left: Box::new(left), right: Box::new(right), bbox }
    }

    /// The hierarchy over `objects` (see `spec_build`), which are left
    /// rearranged as `spec_arranged` says. Each object must have a box other than
    /// the zero box, and there must be at least one object.
    pub fn of_objects_and_endpoints(objects: &mut Vec<Primitive>) -> (r: BVHNode)
        requires
            old(objects)@.len() >= 1,
            all_bounded(old(objects)@),
        ensures
            r == spec_build(old(objects)@),
            final(objects)@ == spec_arranged(old(objects)@),
    {
        let n = objects.len();
        assert(old(objects)@.subrange(0, n as int) =~= old(objects)@);
        let r = build_range(objects, 0, n);
        proof {
            lemma_arranged_len(old(objects)@);
            assert(objects@ =~= spec_arranged(old(objects)@));
        }
        r
    }

    /// The box that holds both children.
    pub fn bounding_box(&self) -> (r: AABB)
        ensures
            r == self.bbox,
    {
        self.bbox
    }
}

impl Default for BVHNode {
    fn default() -> (r: BVHNode)
        ensures
            r == BVHNode::spec_new(),
    {
        BVHNode::new()
    }
}

} // verus!

verus! {

/// The objects at the bottom of `h`, from left to right.
pub open spec fn hittable_leaves(h: Hittable) -> Seq<Primitive>
    decreases h,
{
    match h {
        Hittable::Empty => Seq::empty(),
        Hittable::Object(p) => seq![p],
        Hittable::Node(n) => node_leaves(*n),
    }
}

/// The objects at the bottom of the hierarchy `n`, from left to right.
pub open spec fn node_leaves(n: BVHNode) -> Seq<Primitive>
    decreases n,
{
    hittable_leaves(*n.left) + hittable_leaves(*n.right)
}

/// Every node's box is the join of its children's boxes, all the way down.
pub open spec fn hittable_well_boxed(h: Hittable) -> bool
    decreases h,
{
    match h {
        Hittable::Node(n) => node_well_boxed(*n),
        _ => true,
    }
}

/// Every node's box is the join of its children's boxes, all the way down.
pub open spec fn node_well_boxed(n: BVHNode) -> bool
    decreases n,
{
    &&& n.bbox == n.left.spec_bbox().union(n.right.spec_bbox())
    &&& hittable_well_boxed(*n.left)
    &&& hittable_well_boxed(*n.right)
}

proof fn lemma_hittable_leaves_boxed(h: Hittable)
    requires
        hittable_well_boxed(h),
    ensures
        forall|k: int|
            0 <= k < hittable_leaves(h).len() ==> h.spec_bbox().contains_box(
                #[trigger] hittable_leaves(h)[k].bbox,
            ),
    decreases h,
{
    match h {
        Hittable::Node(n) => {
            lemma_node_leaves_boxed(*n);
            assert(hittable_leaves(h) == node_leaves(*n));
            assert(h.spec_bbox() == n.bbox);
        },
        Hittable::Object(p) => {
            assert(hittable_leaves(h) =~= seq![p]);
            assert(h.spec_bbox() == p.bbox);
        },
        Hittable::Empty => {
            assert(hittable_leaves(h).len() == 0);
        },
    }
}

/// In a hierarchy whose boxes join their children's, the box of every node holds
/// the box of every object below it: a ray that misses the box misses them all.
pub proof fn lemma_node_leaves_boxed(n: BVHNode)
    requires
        node_well_boxed(n),
    ensures
        forall|k: int|
            0 <= k < node_leaves(n).len() ==> n.bbox.contains_box(
                #[trigger] node_leaves(n)[k].bbox,
            ),
    decreases n,
{
    lemma_hittable_leaves_boxed(*n.left);
    lemma_hittable_leaves_boxed(*n.right);
    let ll = hittable_leaves(*n.left);
    let rl = hittable_leaves(*n.right);
    assert forall|k: int| 0 <= k < node_leaves(n).len() implies n.bbox.contains_box(
        #[trigger] node_leaves(n)[k].bbox,
    ) by {
        crate::aabb::lemma_union_contains(n.left.spec_bbox(), n.right.spec_bbox());
        if k < ll.len() {
            assert(node_leaves(n)[k] == ll[k]);
            assert(n.left.spec_bbox().contains_box(ll[k].bbox));
        } else {
            assert(node_leaves(n)[k] == rl[k - ll.len()]);
            assert(n.right.spec_bbox().contains_box(rl[k - ll.len()].bbox));
        }
    }
}

/// A built hierarchy has every node's box the join of its children's boxes.
pub proof fn lemma_build_well_boxed(s: Seq<Primitive>)
    requires
        s.len() >= 1,
    ensures
        node_well_boxed(spec_build(s)),
    decreases s.len(),
{
    if s.len() > 2 {
        let axis = span_box(s).spec_widest_axis();
        let t = sort_by_key(s, axis);
        let mid = s.len() / 2;
        lemma_sort_len(s, axis);
        lemma_build_well_boxed(t.subrange(0, mid as int));
        lemma_build_well_boxed(t.subrange(mid as int, s.len() as int));
    }
}

/// The objects at the bottom of a built hierarchy are exactly the objects it was
/// built over: each leaf is one of them, and each of them is a leaf.
pub proof fn lemma_build_leaves(s: Seq<Primitive>)
    requires
        s.len() >= 1,
    ensures
        forall|k: int|
            0 <= k < node_leaves(spec_build(s)).len() ==> s.contains(
                #[trigger] node_leaves(spec_build(s))[k],
            ),
        forall|k: int| 0 <= k < s.len() ==> node_leaves(spec_build(s)).contains(#[trigger] s[k]),
    decreases s.len(),
{
    let leaves = node_leaves(spec_build(s));
    if s.len() == 1 {
        assert(leaves =~= seq![s[0], s[0]]);
        assert forall|k: int| 0 <= k < s.len() implies leaves.contains(#[trigger] s[k]) by {
            assert(leaves[0] == s[0]);
        }
        assert forall|k: int| 0 <= k < leaves.len() implies s.contains(#[trigger] leaves[k]) by {
            assert(s[0] == leaves[k]);
        }
    } else if s.len() == 2 {
        assert(leaves =~= s);
        assert forall|k: int| 0 <= k < s.len() implies leaves.contains(#[trigger] s[k]) by {
            assert(leaves[k] == s[k]);
        }
        assert forall|k: int| 0 <= k < leaves.len() implies s.contains(#[trigger] leaves[k]) by {
            assert(s[k] == leaves[k]);
        }
    } else {
        let axis = span_box(s).spec_widest_axis();
        let t = sort_by_key(s, axis);
        let m = (s.len() / 2) as int;
        lemma_sort_len(s, axis);
        lemma_sort_contains(s, axis);
        crate::sort::lemma_sort_keeps(s, axis);
        let t1 = t.subrange(0, m);
        let t2 = t.subrange(m, s.len() as int);
        lemma_build_leaves(t1);
        lemma_build_leaves(t2);
        let l1 = node_leaves(spec_build(t1));
        let l2 = node_leaves(spec_build(t2));
        assert(leaves == l1 + l2);
        assert forall|k: int| 0 <= k < leaves.len() implies s.contains(#[trigger] leaves[k]) by {
            if k < l1.len() {
                assert(leaves[k] == l1[k]);
                let j = choose|j: int| 0 <= j < t1.len() && t1[j] == l1[k];
                assert(t.contains(t[j]));
                assert(s.contains(t[j]));
            } else {
                assert(leaves[k] == l2[k - l1.len()]);
                let j = choose|j: int| 0 <= j < t2.len() && t2[j] == l2[k - l1.len()];
                assert(s.contains(t[j + m]));
            }
        }
        assert forall|k: int| 0 <= k < s.len() implies leaves.contains(#[trigger] s[k]) by {
            assert(t.contains(s[k]));
            let j = choose|j: int| 0 <= j < t.len() && t[j] == s[k];
            if j < m {
                assert(t1[j] == s[k]);
                assert(l1.contains(t1[j]));
                let q = choose|q: int| 0 <= q < l1.len() && l1[q] == t1[j];
                assert(leaves[q] == l1[q]);
            } else {
                assert(t2[j - m] == s[k]);
                assert(l2.contains(t2[j - m]));
                let q = choose|q: int| 0 <= q < l2.len() && l2[q] == t2[j - m];
                assert(leaves[q + l1.len()] == l2[q]);
            }
        }
    }
}

/// Building the hierarchy only rearranges the objects: the arrangement holds each
/// object as often as the objects given.
pub proof fn lemma_arranged_permutation(s: Seq<Primitive>)
    ensures
        spec_arranged(s).to_multiset() == s.to_multiset(),
    decreases s.len(),
{
    if s.len() > 2 {
        let axis = span_box(s).spec_widest_axis();
        let t = sort_by_key(s, axis);
        let m = (s.len() / 2) as int;
        lemma_sort_len(s, axis);
        crate::sort::lemma_sort_permutation(s, axis);
        let t1 = t.subrange(0, m);
        let t2 = t.subrange(m, s.len() as int);
        lemma_arranged_permutation(t1);
        lemma_arranged_permutation(t2);
        vstd::seq_lib::lemma_multiset_commutative(spec_arranged(t1), spec_arranged(t2));
        vstd::seq_lib::lemma_multiset_commutative(t1, t2);
        assert(t1 + t2 =~= t);
    }
}

/// Every object's box lies within the box of the hierarchy built over them.
pub proof fn lemma_build_bbox_holds_all(s: Seq<Primitive>)
    requires
        s.len() >= 1,
    ensures
        forall|k: int| 0 <= k < s.len() ==> spec_build(s).bbox.contains_box(#[trigger] s[k].bbox),
{
    lemma_build_well_boxed(s);
    lemma_build_leaves(s);
    lemma_node_leaves_boxed(spec_build(s));
    let leaves = node_leaves(spec_build(s));
    assert forall|k: int| 0 <= k < s.len() implies spec_build(s).bbox.contains_box(
        #[trigger] s[k].bbox,
    ) by {
        assert(leaves.contains(s[k]));
        let q = choose|q: int| 0 <= q < leaves.len() && leaves[q] == s[k];
        assert(spec_build(s).bbox.contains_box(leaves[q].bbox));
    }
}

} // verus!

verus! {

/// The box of a built hierarchy is the least box that holds every object: it
/// holds each object's box, and any box that holds them all holds it.
pub proof fn lemma_build_bbox_least(s: Seq<Primitive>, c: AABB)
    requires
        s.len() >= 1,
        forall|k: int| 0 <= k < s.len() ==> c.contains_box(#[trigger] s[k].bbox),
    ensures
        c.contains_box(spec_build(s).bbox),
        forall|k: int| 0 <= k < s.len() ==> spec_build(s).bbox.contains_box(#[trigger] s[k].bbox),
    decreases s.len(),
{
    lemma_build_bbox_holds_all(s);
    if s.len() == 1 {
        assert(c.contains_box(s[0].bbox));
    } else if s.len() == 2 {
        assert(c.contains_box(s[0].bbox));
        assert(c.contains_box(s[1].bbox));
    } else {
        let axis = span_box(s).spec_widest_axis();
        let t = sort_by_key(s, axis);
        let m = (s.len() / 2) as int;
        lemma_sort_len(s, axis);
        lemma_sort_contains(s, axis);
        let t1 = t.subrange(0, m);
        let t2 = t.subrange(m, s.len() as int);
        assert forall|k: int| 0 <= k < t1.len() implies c.contains_box(#[trigger] t1[k].bbox) by {
            assert(t1[k] == t[k]);
            assert(s.contains(t[k]));
        }
        assert forall|k: int| 0 <= k < t2.len() implies c.contains_box(#[trigger] t2[k].bbox) by {
            assert(t2[k] == t[k + m]);
            assert(s.contains(t[k + m]));
        }
        lemma_build_bbox_least(t1, c);
        lemma_build_bbox_least(t2, c);
    }
}

/// A built hierarchy over three or more objects splits them along the widest
/// axis of their span: the low corner of every object below the left child is
/// at most that of every object below the right child along that axis.
pub proof fn lemma_build_split_ordered(s: Seq<Primitive>)
    requires
        s.len() >= 3,
    ensures
        ({
            let axis = span_box(s).spec_widest_axis();
            let left = hittable_leaves(*spec_build(s).left);
            let right = hittable_leaves(*spec_build(s).right);
            forall|i: int, j: int|
                0 <= i < left.len() && 0 <= j < right.len() ==> #[trigger] left[i].key(axis)
                    <= #[trigger] right[j].key(axis)
        }),
{
    let axis = span_box(s).spec_widest_axis();
    let t = sort_by_key(s, axis);
    let m = (s.len() / 2) as int;
    lemma_sort_len(s, axis);
    crate::sort::lemma_sort_sorted(s, axis);
    let t1 = t.subrange(0, m);
    let t2 = t.subrange(m, s.len() as int);
    lemma_build_leaves(t1);
    lemma_build_leaves(t2);
    let left = hittable_leaves(*spec_build(s).left);
    let right = hittable_leaves(*spec_build(s).right);
    assert(left == node_leaves(spec_build(t1)));
    assert(right == node_leaves(spec_build(t2)));
    assert forall|i: int, j: int|
        0 <= i < left.len() && 0 <= j < right.len() implies #[trigger] left[i].key(axis)
        <= #[trigger] right[j].key(axis) by {
        assert(t1.contains(left[i]));
        assert(t2.contains(right[j]));
        let a = choose|a: int| 0 <= a < t1.len() && t1[a] == left[i];
        let b = choose|b: int| 0 <= b < t2.len() && t2[b] == right[j];
        assert(t[a] == left[i]);
        assert(t[b + m] == right[j]);
        assert(t[a].key(axis) <= t[b + m].key(axis));
    }
}

} // verus!

verus! {

/// An object is ordered along an axis by the low corner of its box on that same
/// axis.
pub proof fn lemma_primitive_key(p: Primitive)
    ensures
        p.key(0) == p.bbox.min.x,
        p.key(1) == p.bbox.min.y,
        p.key(2) == p.bbox.min.z,
        low_corner(p, 0) == p.bbox.min.x,
        low_corner(p, 1) == p.bbox.min.y,
        low_corner(p, 2) == p.bbox.min.z,
{
}

/// A built hierarchy over three or more objects sorts them by the low corner of
/// their boxes on the axis along which the span of the boxes and the origin is
/// longest: every object below the left child has its low corner on that axis
/// at most that of every object below the right child.
pub proof fn lemma_build_split_by_low_corner(s: Seq<Primitive>)
    requires
        s.len() >= 3,
    ensures
        ({
            let span = span_box(s);
            let (ex, ey, ez) = (
                span.max.x - span.min.x,
                span.max.y - span.min.y,
                span.max.z - span.min.z,
            );
            let left = hittable_leaves(*spec_build(s).left);
            let right = hittable_leaves(*spec_build(s).right);
            forall|i: int, j: int|
                0 <= i < left.len() && 0 <= j < right.len() ==> {
                    let (a, b) = (#[trigger] left[i].bbox.min, #[trigger] right[j].bbox.min);
                    &&& (ex > ey && ex > ez) ==> a.x <= b.x
                    &&& !(ex > ey && ex > ez) && ey > ez ==> a.y <= b.y
                    &&& !(ex > ey && ex > ez) && !(ey > ez) ==> a.z <= b.z
                }
        }),
{
    lemma_build_split_ordered(s);
    let span = span_box(s);
    let (ex, ey, ez) = (span.max.x - span.min.x, span.max.y - span.min.y, span.max.z - span.min.z);
    let axis = span.spec_widest_axis();
    let left = hittable_leaves(*spec_build(s).left);
    let right = hittable_leaves(*spec_build(s).right);
    assert forall|i: int, j: int| 0 <= i < left.len() && 0 <= j < right.len() implies {
        let (a, b) = (#[trigger] left[i].bbox.min, #[trigger] right[j].bbox.min);
        &&& (ex > ey && ex > ez) ==> a.x <= b.x
        &&& !(ex > ey && ex > ez) && ey > ez ==> a.y <= b.y
        &&& !(ex > ey && ex > ez) && !(ey > ez) ==> a.z <= b.z
    } by {
        assert(left[i].key(axis) <= right[j].key(axis));
        assert(span.extent(0) == ex && span.extent(1) == ey && span.extent(2) == ez);
    }
}

} // verus!
