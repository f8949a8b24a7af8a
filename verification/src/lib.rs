//! A 2-dimensional k-d tree: an in-memory spatial index over integer points,
//! supporting point insertion, balanced bulk construction, nearest-neighbor
//! queries, circular (radius) range queries, and axis-aligned orthogonal
//! range queries.
//!
//! Every node splits the remaining space along one coordinate axis, cycling
//! axes with depth: points whose coordinate at the node's split axis is
//! strictly smaller go to the left subtree, points with a greater-or-equal
//! coordinate go to the right subtree (ties deliberately route right).
use vstd::multiset::Multiset;
use vstd::prelude::*;

pub mod circle;
pub mod geometry;
pub mod laws;

use crate::circle::Circle;
use crate::geometry::{
    all_ge, all_len2, all_lt, buildable, dist_sq, in_box, in_circle, is_lex_sorted_perm,
    is_sorted_perm, lemma_concat_contains, lemma_dist_axis_bound, lemma_filter_all_false,
    lemma_filter_singleton, lemma_lex_sorted_unique, lemma_mul_bounds, lemma_ratio_lt,
    lemma_sq_distributes, lemma_sq_ge_self, lemma_sq_monotone, lemma_sq_nonneg, lemma_sq_of_neg,
    lex_le, sq, valid_build_input,
};

verus! {

/// Dimensionality of the index: every stored point has exactly two coordinates.
pub const K: usize = 2;

/// One stored point together with the subtrees it partitions.
///
/// `discriminant` is the split axis of this node; it always equals the node's
/// depth modulo 2, an emergent property of how nodes are created.
pub struct Node {
    point: Vec<i32>,
    left: Option<Box<Node>>,
    right: Option<Box<Node>>,
    discriminant: usize,
}

/// Typed failures reported to the caller; no operation panics.
#[derive(Debug, PartialEq, Eq, Structural, Clone, Copy)]
pub enum TreeError {
    /// An operation that needs at least one stored point was invoked on an
    /// empty tree.
    Empty,
    /// The caller handed in input the operation cannot work on, such as a
    /// bulk construction from zero points.
    InvalidInput,
}

/// The tree handle: sole owner of the optional root node.
pub struct KdTree {
    root: Option<Node>,
    dimension: usize,
}

impl Node {
    /// All points stored in this subtree, in pre-order: the node's own point,
    /// then the left subtree, then the right subtree.
    pub closed spec fn points(self) -> Seq<Seq<i32>>
        decreases self,
    {
        seq![self.point@] + opt_points(self.left) + opt_points(self.right)
    }

    /// The stored point, as a sequence of coordinates.
    pub closed spec fn point_view(self) -> Seq<i32> {
        self.point@
    }

    /// The split axis of this node.
    pub closed spec fn axis(self) -> int {
        self.discriminant as int
    }

    /// The left subtree, if present.
    pub closed spec fn left_spec(self) -> Option<Node> {
        match self.left {
            Some(n) => Some(*n),
            None => None,
        }
    }

    /// The right subtree, if present.
    pub closed spec fn right_spec(self) -> Option<Node> {
        match self.right {
            Some(n) => Some(*n),
            None => None,
        }
    }

    /// Well-formedness: 2-dimensional points everywhere, split axes cycling
    /// with depth, and the partition property, transitively: everything in
    /// the left subtree lies strictly below this node's coordinate at the
    /// split axis, everything in the right subtree lies at or above it.
    pub closed spec fn wf(self) -> bool
        decreases self,
    {
        &&& self.point@.len() == 2
        &&& self.discriminant < 2
        &&& match self.left {
            Some(l) => {
                &&& l.wf()
                &&& l.discriminant == (self.discriminant + 1) % 2
                &&& all_lt(l.points(), self.discriminant as int, self.point@[self.discriminant as int] as int)
            },
            None => true,
        }
        &&& match self.right {
            Some(r) => {
                &&& r.wf()
                &&& r.discriminant == (self.discriminant + 1) % 2
                &&& all_ge(r.points(), self.discriminant as int, self.point@[self.discriminant as int] as int)
            },
            None => true,
        }
    }

    /// Creates a leaf holding `point` with the given split axis.
    fn new(point: Vec<i32>, discriminant: usize) -> (n: Node)
        ensures
            n.point_view() == point@,
            n.axis() == discriminant as int,
            n.left_spec() is None,
            n.right_spec() is None,
            n.points() =~= seq![point@],
            point@.len() == 2 && discriminant < 2 ==> n.wf(),
    {
        let n = Node { point, left: None, right: None, discriminant };
        proof {
            assert(n.points() =~= seq![n.point@]);
        }
        n
    }

    /// The stored point.
    pub fn point(&self) -> (r: &Vec<i32>)
        ensures
            r@ == self.point_view(),
    {
        &self.point
    }

    /// The split axis.
    pub fn discriminant(&self) -> (r: usize)
        ensures
            r as int == self.axis(),
    {
        self.discriminant
    }

    /// The left child, for read-only traversal.
    pub fn left(&self) -> (r: Option<&Node>)
        ensures
            r is Some <==> self.left_spec() is Some,
            r is Some ==> *r->0 == self.left_spec()->0,
    {
        match &self.left {
            Some(n) => Some(&**n),
            None => None,
        }
    }

    /// The right child, for read-only traversal.
    pub fn right(&self) -> (r: Option<&Node>)
        ensures
            r is Some <==> self.right_spec() is Some,
            r is Some ==> *r->0 == self.right_spec()->0,
    {
        match &self.right {
            Some(n) => Some(&**n),
            None => None,
        }
    }
}

/// The absolute difference of two i64 values that are small enough for the
/// difference of two i32 coordinates.
fn abs_diff_i64(x: i64) -> (r: u64)
    requires
        -0xFFFF_FFFFi64 <= x <= 0xFFFF_FFFFi64,
    ensures
        r as int == if x < 0 {
            -(x as int)
        } else {
            x as int
        },
        r <= 0xFFFF_FFFFu64,
{
    if x < 0 {
        (-x) as u64
    } else {
        x as u64
    }
}

/// Squared Euclidean distance between two 2-dimensional points, exact: the
/// result type is wide enough for any pair of i32 coordinates.
pub fn eucladian_distance_squared(p1: &Vec<i32>, p2: &Vec<i32>) -> (r: u128)
    requires
        p1@.len() == 2,
        p2@.len() == 2,
    ensures
        r as int == dist_sq(p1@, p2@),
        r <= 0x2_0000_0000_0000_0000u128,
{
    let dx = p1[0] as i64 - p2[0] as i64;
    let dy = p1[1] as i64 - p2[1] as i64;
    let ax = abs_diff_i64(dx);
    let ay = abs_diff_i64(dy);
    proof {
        lemma_sq_of_neg(dx as int);
        lemma_sq_of_neg(dy as int);
        lemma_mul_bounds(ax as int, ax as int, 0xFFFF_FFFF, 0xFFFF_FFFF);
        lemma_mul_bounds(ay as int, ay as int, 0xFFFF_FFFF, 0xFFFF_FFFF);
        assert(sq(ax as int) == sq(p1@[0] - p2@[0]));
        assert(sq(ay as int) == sq(p1@[1] - p2@[1]));
    }
    let x2 = (ax as u128) * (ax as u128);
    let y2 = (ay as u128) * (ay as u128);
    x2 + y2
}

/// Euclidean distance between two 2-dimensional points, rounded down to an
/// integer. Kept for display and reporting; every comparison inside the tree
/// uses squared distances instead.
pub fn eucladian_distance(p1: &Vec<i32>, p2: &Vec<i32>) -> (r: u64)
    requires
        p1@.len() == 2,
        p2@.len() == 2,
    ensures
        sq(r as int) <= dist_sq(p1@, p2@) < sq(r as int + 1),
{
    let n = eucladian_distance_squared(p1, p2);
    let mut lo: u128 = 0;
    let mut hi: u128 = 0x8_0000_0000u128;
    while lo + 1 < hi
        invariant
            lo < hi <= 0x8_0000_0000u128,
            sq(lo as int) <= n as int,
            (n as int) < sq(hi as int),
            n as int == dist_sq(p1@, p2@),
        decreases hi - lo,
    {
        let mid = lo + (hi - lo) / 2;
        proof {
            lemma_mul_bounds(mid as int, mid as int, 0x8_0000_0000int, 0x8_0000_0000int);
        }
        if mid * mid <= n {
            lo = mid;
        } else {
            hi = mid;
        }
    }
    lo as u64
}

/// A fresh leaf: holds `p`, splits on axis `a`, has no children.
pub open spec fn is_leaf(n: Node, p: Seq<i32>, a: int) -> bool {
    &&& n.point_view() == p
    &&& n.axis() == a
    &&& n.left_spec() is None
    &&& n.right_spec() is None
}

/// The exact shape of insertion: `n` is `o` with one fresh leaf holding `p`
/// attached at the unique slot reached by comparing `p` against each node
/// at that node's split axis — strictly smaller goes left, greater or equal
/// goes right (ties deliberately route right) — the leaf's split axis
/// continuing the cycle. Everything off the descent path, and every visited
/// node's own point and axis, is unchanged: no existing node is relocated.
pub open spec fn is_inserted(o: Node, n: Node, p: Seq<i32>) -> bool
    decreases o,
{
    &&& n.point_view() == o.point_view()
    &&& n.axis() == o.axis()
    &&& if p[o.axis()] < o.point_view()[o.axis()] {
        &&& n.right_spec() == o.right_spec()
        &&& n.left_spec() is Some
        &&& match o.left_spec() {
            None => is_leaf(n.left_spec()->0, p, (o.axis() + 1) % 2),
            Some(l) => is_inserted(l, n.left_spec()->0, p),
        }
    } else {
        &&& n.left_spec() == o.left_spec()
        &&& n.right_spec() is Some
        &&& match o.right_spec() {
            None => is_leaf(n.right_spec()->0, p, (o.axis() + 1) % 2),
            Some(r) => is_inserted(r, n.right_spec()->0, p),
        }
    }
}

/// Public bridge from the point sequence to the node structure: a node's
/// points are its own point, then the left subtree's, then the right's,
/// in that order.
pub proof fn lemma_points_decompose(n: Node)
    ensures
        n.points() == seq![n.point_view()] + root_points(n.left_spec()) + root_points(
            n.right_spec(),
        ),
{
    assert(root_points(n.left_spec()) == opt_points(n.left));
    assert(root_points(n.right_spec()) == opt_points(n.right));
}

/// Public bridge from the tree's point sequence to its root.
pub proof fn lemma_tree_points(t: KdTree)
    ensures
        t.points() == root_points(t.root_spec()),
{
}

/// All points stored in an optional owned subtree.
pub closed spec fn opt_points(node_opt: Option<Box<Node>>) -> Seq<Seq<i32>>
    decreases node_opt,
{
    match node_opt {
        None => Seq::empty(),
        Some(n) => n.points(),
    }
}

/// All points stored in an optional root node.
pub open spec fn root_points(root: Option<Node>) -> Seq<Seq<i32>> {
    match root {
        None => Seq::empty(),
        Some(n) => n.points(),
    }
}

/// Well-formedness of an optional root node: well-formed with split axis 0.
pub open spec fn root_wf(root: Option<Node>) -> bool {
    match root {
        None => true,
        Some(n) => n.wf() && n.axis() == 0,
    }
}

impl KdTree {
    /// All points stored in the tree, in pre-order.
    pub closed spec fn points(self) -> Seq<Seq<i32>> {
        root_points(self.root)
    }

    /// Well-formedness of the whole tree.
    pub closed spec fn wf(self) -> bool {
        &&& self.dimension == 2
        &&& root_wf(self.root)
    }

    /// The root node, if any.
    pub closed spec fn root_spec(self) -> Option<Node> {
        self.root
    }

    /// Creates an empty 2-dimensional tree.
    pub fn new() -> (t: KdTree)
        ensures
            t.wf(),
            t.root_spec() is None,
            t.points() == Seq::<Seq<i32>>::empty(),
    {
        KdTree { root: None, dimension: K }
    }

    /// Reports whether the tree stores no points.
    pub fn is_empty(&self) -> (r: bool)
        ensures
            r <==> self.points().len() == 0,
    {
        proof {
            if self.root is Some {
                let n = self.root->0;
                assert(n.points() == seq![n.point@] + opt_points(n.left) + opt_points(n.right));
                assert(n.points().len() >= 1);
            }
        }
        self.root.is_none()
    }

    /// The root node, for read-only traversal by the query algorithms.
    pub fn root(&self) -> (r: &Option<Node>)
        ensures
            *r == self.root_spec(),
            root_points(*r) == self.points(),
            self.wf() ==> root_wf(*r),
    {
        &self.root
    }

    /// Inserts `point` into the tree: exactly one new leaf is attached at
    /// the slot the descent of `is_inserted` reaches, every already-stored
    /// node keeps its point, axis and position. A point whose length is not
    /// the tree's dimensionality is rejected with `InvalidInput` and the
    /// tree is left unchanged. The `i` parameter is the caller's starting
    /// axis and is ignored: descent always starts at the root, whose split
    /// axis is 0.
    pub fn insert(&mut self, point: Vec<i32>, i: i32) -> (r: Result<(), TreeError>)
        requires
            old(self).wf(),
        ensures
            final(self).wf(),
            match r {
                Ok(_) => {
                    &&& point@.len() == 2
                    &&& final(self).points().to_multiset() == old(
                        self,
                    ).points().to_multiset().insert(point@)
                    &&& final(self).points().len() == old(self).points().len() + 1
                    &&& final(self).root_spec() is Some
                    &&& match old(self).root_spec() {
                        None => is_leaf(final(self).root_spec()->0, point@, 0),
                        Some(o) => is_inserted(o, final(self).root_spec()->0, point@),
                    }
                },
                Err(e) => {
                    &&& point@.len() != 2
                    &&& e == TreeError::InvalidInput
                    &&& *final(self) == *old(self)
                },
            },
    {
        let _ = i;
        if point.len() != K {
            return Err(TreeError::InvalidInput);
        }
        proof {
            broadcast use vstd::seq_lib::group_to_multiset_ensures;
            broadcast use vstd::seq_lib::lemma_multiset_commutative;

        }
        match self.root.take() {
            Some(mut root) => {
                KdTree::insert_recursive(&mut root, point, 0);
                self.root = Some(root);
            },
            None => {
                self.root = Some(Node::new(point, 0));
                proof {
                    assert(Seq::<Seq<i32>>::empty().push(point@) =~= seq![point@]);
                    assert(self.points().to_multiset() =~= Multiset::<Seq<i32>>::empty().insert(
                        point@,
                    ));
                    assert(old(self).points().to_multiset() =~= Multiset::<Seq<i32>>::empty());
                }
            },
        }
        Ok(())
    }

    /// Recursive descent for insertion: at each node, compare the incoming
    /// point's coordinate at the node's split axis; strictly smaller goes
    /// left, greater or equal goes right (ties deliberately route right), and
    /// a new leaf is created where the chosen child is absent. `i` is the
    /// current axis and must match the node's own split axis.
    #[verifier::spinoff_prover]
    pub fn insert_recursive(node: &mut Node, point: Vec<i32>, i: i32)
        requires
            old(node).wf(),
            point@.len() == 2,
            i as int == old(node).axis(),
        ensures
            final(node).wf(),
            final(node).axis() == old(node).axis(),
            final(node).point_view() == old(node).point_view(),
            final(node).points().to_multiset() == old(node).points().to_multiset().insert(
                point@,
            ),
            final(node).points().len() == old(node).points().len() + 1,
            is_inserted(*old(node), *final(node), point@),
        decreases *old(node),
    {
        proof {
            broadcast use vstd::seq_lib::group_to_multiset_ensures;
            broadcast use vstd::seq_lib::lemma_multiset_commutative;

        }
        let axis = node.discriminant;
        let ghost p = point@;
        let ghost oldn = *node;
        if point[axis] < node.point[axis] {
            match node.left.take() {
                None => {
                    node.left = Some(Box::new(Node::new(point, (axis + 1) % 2)));
                    proof {
                        assert(((axis + 1) % 2) as int == (oldn.axis() + 1) % 2);
                        assert(is_leaf(node.left_spec()->0, p, (oldn.axis() + 1) % 2));
                        assert(is_inserted(oldn, *node, p));
                        lemma_insert_reassemble(oldn, *node, seq![p], p);
                        assert(Seq::<Seq<i32>>::empty().push(p) =~= seq![p]);
                        assert(opt_points(node.left).to_multiset() =~= opt_points(
                            oldn.left,
                        ).to_multiset().insert(p));
                        assert forall|q: Seq<i32>| #[trigger]
                            opt_points(node.left).contains(q) implies q[axis as int] < oldn.point@[axis as int] by {}
                    }
                },
                Some(mut l) => {
                    let ghost oldl = *l;
                    KdTree::insert_recursive(&mut *l, point, (i + 1) % 2);
                    node.left = Some(l);
                    proof {
                        assert(oldn.left_spec() == Some(oldl));
                        assert(is_inserted(oldl, node.left_spec()->0, p));
                        assert(is_inserted(oldn, *node, p));
                        lemma_insert_reassemble(oldn, *node, opt_points(node.left), p);
                        assert forall|q: Seq<i32>| #[trigger]
                            opt_points(node.left).contains(q) implies q[axis as int] < oldn.point@[axis as int] by {
                            if q != p {
                                assert(opt_points(node.left).to_multiset().count(q) > 0);
                                assert(opt_points(oldn.left).to_multiset().count(q) > 0);
                                assert(opt_points(oldn.left).contains(q));
                            }
                        }
                    }
                },
            }
        } else {
            match node.right.take() {
                None => {
                    node.right = Some(Box::new(Node::new(point, (axis + 1) % 2)));
                    proof {
                        assert(((axis + 1) % 2) as int == (oldn.axis() + 1) % 2);
                        assert(is_leaf(node.right_spec()->0, p, (oldn.axis() + 1) % 2));
                        assert(is_inserted(oldn, *node, p));
                        lemma_insert_reassemble_right(oldn, *node, seq![p], p);
                        assert(Seq::<Seq<i32>>::empty().push(p) =~= seq![p]);
                        assert(opt_points(node.right).to_multiset() =~= opt_points(
                            oldn.right,
                        ).to_multiset().insert(p));
                        assert forall|q: Seq<i32>| #[trigger]
                            opt_points(node.right).contains(q) implies q[axis as int] >= oldn.point@[axis as int] by {}
                    }
                },
                Some(mut r) => {
                    let ghost oldr = *r;
                    KdTree::insert_recursive(&mut *r, point, (i + 1) % 2);
                    node.right = Some(r);
                    proof {
                        assert(oldn.right_spec() == Some(oldr));
                        assert(is_inserted(oldr, node.right_spec()->0, p));
                        assert(is_inserted(oldn, *node, p));
                        lemma_insert_reassemble_right(oldn, *node, opt_points(node.right), p);
                        assert forall|q: Seq<i32>| #[trigger]
                            opt_points(node.right).contains(q) implies q[axis as int] >= oldn.point@[axis as int] by {
                            if q != p {
                                assert(opt_points(node.right).to_multiset().count(q) > 0);
                                assert(opt_points(oldn.right).to_multiset().count(q) > 0);
                                assert(opt_points(oldn.right).contains(q));
                            }
                        }
                    }
                },
            }
        }
    }

    /// Reports whether the node's stored point has exactly the given
    /// coordinates.
    pub fn equal_points(node: &Node, point: &Vec<i32>) -> (r: bool)
        requires
            node.point_view().len() == 2,
            point@.len() == 2,
        ensures
            r <==> node.point_view() == point@,
    {
        if node.point[0] != point[0] {
            return false;
        }
        if node.point[1] != point[1] {
            return false;
        }
        proof {
            assert(node.point@ =~= point@);
        }
        true
    }
}

/// All points stored in a subtree handed out by reference.
pub open spec fn ref_points(root: Option<&Node>) -> Seq<Seq<i32>> {
    match root {
        None => Seq::empty(),
        Some(n) => n.points(),
    }
}

/// Well-formedness of a subtree handed out by reference.
pub open spec fn ref_wf(root: Option<&Node>) -> bool {
    match root {
        None => true,
        Some(n) => n.wf(),
    }
}

/// Copies a point.
fn clone_point(p: &Vec<i32>) -> (r: Vec<i32>)
    ensures
        r@ == p@,
{
    let r = p.clone();
    proof {
        assert(r@ =~= p@);
    }
    r
}

impl KdTree {
    /// Reports whether the node's point lies inside the axis-aligned box
    /// `[lbound[0], ubound[0]] x [lbound[1], ubound[1]]`, both ends inclusive.
    pub fn ortogonal_helper(lbound: &Vec<i32>, ubound: &Vec<i32>, root: &Node) -> (r: bool)
        requires
            lbound@.len() == 2,
            ubound@.len() == 2,
            root.point_view().len() == 2,
        ensures
            r == in_box(root.point_view(), lbound@, ubound@),
    {
        !(root.point[0] < lbound[0] || root.point[0] > ubound[0] || root.point[1] < lbound[1]
            || root.point[1] > ubound[1])
    }

    /// Orthogonal (axis-aligned box) range search: returns exactly the stored
    /// points `p` with `lbound[a] <= p[a] <= ubound[a]` on every axis, in
    /// pre-order. An empty tree or a box that matches nothing yields an empty
    /// collection, not an error. The `i` parameter is the caller's starting
    /// axis and is ignored: each node carries its own split axis.
    pub fn ortogonal_rsearch(
        lbound: &Vec<i32>,
        root: Option<&Node>,
        ubound: &Vec<i32>,
        i: i32,
    ) -> (r: Vec<Vec<i32>>)
        requires
            lbound@.len() == 2,
            ubound@.len() == 2,
            ref_wf(root),
        ensures
            r.deep_view() == ref_points(root).filter(
                |p: Seq<i32>| in_box(p, lbound@, ubound@),
            ),
    {
        let _ = i;
        let mut collected: Vec<Vec<i32>> = Vec::new();
        proof {
            assert(collected.deep_view() =~~= Seq::<Seq<i32>>::empty());
        }
        match root {
            Some(n) => {
                KdTree::ortogonal_collect(lbound, ubound, n, &mut collected);
                proof {
                    assert(collected.deep_view() =~~= ref_points(root).filter(
                        |p: Seq<i32>| in_box(p, lbound@, ubound@),
                    ));
                }
            },
            None => {
                proof {
                    lemma_filter_all_false(
                        Seq::<Seq<i32>>::empty(),
                        |p: Seq<i32>| in_box(p, lbound@, ubound@),
                    );
                }
            },
        }
        collected
    }

    /// Recursive walk for orthogonal search: emit the node's point when it is
    /// in the box, descend left only when the box reaches below the node's
    /// coordinate at its split axis, descend right only when the box reaches
    /// up to it; both descents happen when the box straddles the splitting
    /// plane.
    #[verifier::spinoff_prover]
    #[verifier::rlimit(50)]
    fn ortogonal_collect(
        lbound: &Vec<i32>,
        ubound: &Vec<i32>,
        node: &Node,
        collected: &mut Vec<Vec<i32>>,
    )
        requires
            lbound@.len() == 2,
            ubound@.len() == 2,
            node.wf(),
        ensures
            final(collected).deep_view() == old(collected).deep_view() + node.points().filter(
                |p: Seq<i32>| in_box(p, lbound@, ubound@),
            ),
        decreases *node,
    {
        let ghost pred = |p: Seq<i32>| in_box(p, lbound@, ubound@);
        let ghost base = old(collected).deep_view();
        let ghost selfpart = seq![node.point_view()].filter(pred);
        let ghost leftpts = opt_points(node.left);
        let ghost rightpts = opt_points(node.right);
        if KdTree::ortogonal_helper(lbound, ubound, node) {
            collected.push(clone_point(&node.point));
        }
        proof {
            lemma_filter_singleton(node.point_view(), pred);
            assert(collected.deep_view() =~~= base + selfpart);
        }
        let axis = node.discriminant;
        if lbound[axis] < node.point[axis] {
            match &node.left {
                Some(l) => KdTree::ortogonal_collect(lbound, ubound, &**l, collected),
                None => {
                    proof {
                        lemma_filter_all_false(leftpts, pred);
                    }
                },
            }
        } else {
            proof {
                assert forall|q: Seq<i32>| #[trigger] leftpts.contains(q) implies !pred(q) by {
                    assert(q[axis as int] < node.point_view()[axis as int]);
                }
                lemma_filter_all_false(leftpts, pred);
            }
        }
        proof {
            assert(collected.deep_view() =~~= base + selfpart + leftpts.filter(pred));
        }
        if ubound[axis] >= node.point[axis] {
            match &node.right {
                Some(r) => KdTree::ortogonal_collect(lbound, ubound, &**r, collected),
                None => {
                    proof {
                        lemma_filter_all_false(rightpts, pred);
                    }
                },
            }
        } else {
            proof {
                assert forall|q: Seq<i32>| #[trigger] rightpts.contains(q) implies !pred(q) by {
                    assert(q[axis as int] >= node.point_view()[axis as int]);
                }
                lemma_filter_all_false(rightpts, pred);
            }
        }
        proof {
            assert(node.points() == seq![node.point_view()] + leftpts + rightpts);
            Seq::filter_distributes_over_add(seq![node.point_view()] + leftpts, rightpts, pred);
            Seq::filter_distributes_over_add(seq![node.point_view()], leftpts, pred);
            assert(collected.deep_view() =~~= base + node.points().filter(pred));
        }
    }
}

impl KdTree {
    /// Reports whether the node's point lies strictly inside the circle:
    /// squared distance to the center strictly below the squared radius.
    /// The comparison is exact, with denominators cleared.
    pub fn distance_helper(circle: &Circle, root: &Node) -> (r: bool)
        requires
            circle.wf(),
            root.point_view().len() == 2,
        ensures
            r == in_circle(
                root.point_view(),
                circle.point@,
                circle.radius_num as int,
                circle.radius_den as int,
            ),
    {
        let d = eucladian_distance_squared(&root.point, &circle.point);
        let ghost dist = dist_sq(root.point_view(), circle.point@);
        let ghost num = circle.radius_num as int;
        let ghost den = circle.radius_den as int;
        if circle.radius_num == 0 {
            proof {
                lemma_sq_nonneg(den);
                vstd::arithmetic::mul::lemma_mul_nonnegative(dist, sq(den));
            }
            false
        } else {
            proof {
                lemma_mul_bounds(num, num, 0xFFFF_FFFF_FFFF_FFFF, 0xFFFF_FFFF_FFFF_FFFF);
                lemma_mul_bounds(den, den, 0xFFFF_FFFF, 0xFFFF_FFFF);
                vstd::arithmetic::mul::lemma_mul_strictly_positive(den, den);
                vstd::arithmetic::mul::lemma_mul_strictly_positive(num, num);
                lemma_ratio_lt(dist, sq(den), sq(num));
            }
            let num2 = (circle.radius_num as u128) * (circle.radius_num as u128);
            let den2 = (circle.radius_den as u64) * (circle.radius_den as u64);
            d <= (num2 - 1) / (den2 as u128)
        }
    }

    /// Circular range search: returns exactly the stored points strictly
    /// inside the circle, in pre-order. An empty tree yields an empty
    /// collection, not an error.
    pub fn range_search(circle: &Circle, root: &Option<Node>) -> (r: Vec<Vec<i32>>)
        requires
            circle.wf(),
            *root is Some ==> (*root)->0.wf(),
        ensures
            r.deep_view() == root_points(*root).filter(
                |p: Seq<i32>|
                    in_circle(p, circle.point@, circle.radius_num as int, circle.radius_den as int),
            ),
    {
        let ghost pred = |p: Seq<i32>|
            in_circle(p, circle.point@, circle.radius_num as int, circle.radius_den as int);
        let mut collected: Vec<Vec<i32>> = Vec::new();
        proof {
            assert(collected.deep_view() =~~= Seq::<Seq<i32>>::empty());
        }
        match root {
            Some(n) => {
                KdTree::range_search_recursive(circle, n, &mut collected);
                proof {
                    assert(collected.deep_view() =~~= root_points(*root).filter(pred));
                }
            },
            None => {
                proof {
                    lemma_filter_all_false(Seq::<Seq<i32>>::empty(), pred);
                }
            },
        }
        collected
    }

    /// Recursive walk for circular range search: emit the node's point when
    /// it is inside the circle; when the splitting plane lies at least the
    /// radius away from the center, only the center's side of the plane can
    /// hold matches and the other side is pruned, otherwise both children
    /// are visited.
    #[verifier::spinoff_prover]
    #[verifier::rlimit(50)]
    fn range_search_recursive(circle: &Circle, root: &Node, collected: &mut Vec<Vec<i32>>)
        requires
            circle.wf(),
            root.wf(),
        ensures
            final(collected).deep_view() == old(collected).deep_view() + root.points().filter(
                |p: Seq<i32>|
                    in_circle(p, circle.point@, circle.radius_num as int, circle.radius_den as int),
            ),
        decreases *root,
    {
        let ghost pred = |p: Seq<i32>|
            in_circle(p, circle.point@, circle.radius_num as int, circle.radius_den as int);
        let ghost base = old(collected).deep_view();
        let ghost selfpart = seq![root.point_view()].filter(pred);
        let ghost leftpts = opt_points(root.left);
        let ghost rightpts = opt_points(root.right);
        let ghost num = circle.radius_num as int;
        let ghost den = circle.radius_den as int;
        if KdTree::distance_helper(circle, root) {
            collected.push(clone_point(&root.point));
        }
        proof {
            lemma_filter_singleton(root.point_view(), pred);
            assert(collected.deep_view() =~~= base + selfpart);
        }
        let axis = root.discriminant;
        let x = root.point[axis];
        let y = circle.point[axis];
        let di = abs_diff_i64(x as i64 - y as i64);
        proof {
            lemma_mul_bounds(di as int, den, 0xFFFF_FFFF, 0xFFFF_FFFF);
        }
        if circle.radius_num <= di * (circle.radius_den as u64) {
            // The splitting plane is at least the radius away: only the
            // center's side can intersect the circle.
            if y < x {
                match &root.left {
                    Some(l) => KdTree::range_search_recursive(circle, &**l, collected),
                    None => {
                        proof {
                            lemma_filter_all_false(leftpts, pred);
                        }
                    },
                }
                proof {
                    assert forall|q: Seq<i32>| #[trigger] rightpts.contains(q) implies !pred(q) by {
                        lemma_circle_prune(
                            q,
                            root.point_view(),
                            circle.point@,
                            num,
                            den,
                            axis as int,
                            di as int,
                            false,
                        );
                    }
                    lemma_filter_all_false(rightpts, pred);
                }
            } else {
                match &root.right {
                    Some(r) => KdTree::range_search_recursive(circle, &**r, collected),
                    None => {
                        proof {
                            lemma_filter_all_false(rightpts, pred);
                        }
                    },
                }
                proof {
                    assert forall|q: Seq<i32>| #[trigger] leftpts.contains(q) implies !pred(q) by {
                        lemma_circle_prune(
                            q,
                            root.point_view(),
                            circle.point@,
                            num,
                            den,
                            axis as int,
                            di as int,
                            true,
                        );
                    }
                    lemma_filter_all_false(leftpts, pred);
                }
            }
        } else {
            match &root.left {
                Some(l) => KdTree::range_search_recursive(circle, &**l, collected),
                None => {
                    proof {
                        lemma_filter_all_false(leftpts, pred);
                    }
                },
            }
            proof {
                assert(collected.deep_view() =~~= base + selfpart + leftpts.filter(pred));
            }
            match &root.right {
                Some(r) => KdTree::range_search_recursive(circle, &**r, collected),
                None => {
                    proof {
                        lemma_filter_all_false(rightpts, pred);
                    }
                },
            }
        }
        proof {
            assert(root.points() == seq![root.point_view()] + leftpts + rightpts);
            Seq::filter_distributes_over_add(seq![root.point_view()] + leftpts, rightpts, pred);
            Seq::filter_distributes_over_add(seq![root.point_view()], leftpts, pred);
            assert(collected.deep_view() =~~= base + root.points().filter(pred));
        }
    }
}

/// A point on the far side of a splitting plane that lies at least the
/// radius away from the circle's center cannot be inside the circle.
/// With `far_is_left`, `q` lies strictly below the node's coordinate at the
/// axis and the center at or above it; otherwise `q` lies at or above and
/// the center strictly below.
proof fn lemma_circle_prune(
    q: Seq<i32>,
    node_pt: Seq<i32>,
    center: Seq<i32>,
    num: int,
    den: int,
    axis: int,
    di: int,
    far_is_left: bool,
)
    requires
        0 <= axis < 2,
        den > 0,
        num >= 0,
        num <= di * den,
        di == if center[axis] < node_pt[axis] {
            node_pt[axis] - center[axis]
        } else {
            center[axis] - node_pt[axis]
        },
        far_is_left ==> q[axis] < node_pt[axis] && center[axis] >= node_pt[axis],
        !far_is_left ==> q[axis] >= node_pt[axis] && center[axis] < node_pt[axis],
    ensures
        !in_circle(q, center, num, den),
{
    let gap = if q[axis] < center[axis] {
        center[axis] - q[axis]
    } else {
        q[axis] - center[axis]
    };
    lemma_dist_axis_bound(q, center, axis);
    lemma_sq_of_neg(q[axis] - center[axis]);
    assert(sq(q[axis] - center[axis]) == sq(gap));
    assert(gap >= di);
    lemma_sq_monotone(di, gap);
    lemma_sq_nonneg(den);
    vstd::arithmetic::mul::lemma_mul_inequality(sq(di), dist_sq(q, center), sq(den));
    lemma_sq_distributes(di, den);
    vstd::arithmetic::mul::lemma_mul_nonnegative(di, den);
    lemma_sq_monotone(num, di * den);
}

/// Partition invariant, stated for any well-formed node — and every tree
/// this library builds, by insertion or bulk construction, is well-formed:
/// every point in the left subtree lies strictly below the node's point at
/// the node's split axis, every point in the right subtree lies at or above
/// it, the children's split axes cycle, and the children are well-formed in
/// turn, so the property holds recursively for all descendants.
pub proof fn lemma_partition_invariant(n: Node)
    requires
        n.wf(),
    ensures
        n.point_view().len() == 2,
        0 <= n.axis() < 2,
        match n.left_spec() {
            Some(l) => {
                &&& l.wf()
                &&& l.axis() == (n.axis() + 1) % 2
                &&& all_lt(l.points(), n.axis(), n.point_view()[n.axis()] as int)
            },
            None => true,
        },
        match n.right_spec() {
            Some(r) => {
                &&& r.wf()
                &&& r.axis() == (n.axis() + 1) % 2
                &&& all_ge(r.points(), n.axis(), n.point_view()[n.axis()] as int)
            },
            None => true,
        },
{
}

/// The exact shape of balanced bulk construction: an empty collection
/// builds nothing; otherwise a sorted arrangement of the points by the
/// coordinate at the current axis has its lower median (index `len / 2`)
/// at this node, and the points before and after the median build the left
/// and right subtrees with the next axis. When no two points share a
/// coordinate on the sort axis the sorted arrangement — and with it the
/// tree — is unique.
pub open spec fn is_median_build(r: Option<Node>, s: Seq<Seq<i32>>, axis: int) -> bool
    decreases s.len(),
{
    if s.len() == 0 {
        r is None
    } else {
        exists|t: Seq<Seq<i32>>|
            {
                &&& #[trigger] is_sorted_perm(t, s, axis)
                &&& r is Some
                &&& r->0.point_view() == t[s.len() as int / 2]
                &&& r->0.axis() == axis
                &&& is_median_build(
                    r->0.left_spec(),
                    t.subrange(0, s.len() as int / 2),
                    (axis + 1) % 2,
                )
                &&& is_median_build(
                    r->0.right_spec(),
                    t.subrange(s.len() as int / 2 + 1, s.len() as int),
                    (axis + 1) % 2,
                )
            }
    }
}

/// Clones the points `v[from..to]` into a fresh collection.
fn subrange_points(v: &Vec<Vec<i32>>, from: usize, to: usize) -> (r: Vec<Vec<i32>>)
    requires
        from <= to <= v@.len(),
    ensures
        r.deep_view() == v.deep_view().subrange(from as int, to as int),
        r@.len() == to - from,
{
    let mut r: Vec<Vec<i32>> = Vec::new();
    let mut i = from;
    proof {
        assert(r.deep_view() =~~= v.deep_view().subrange(from as int, from as int));
    }
    while i < to
        invariant
            from <= i <= to <= v@.len(),
            r@.len() == i - from,
            r.deep_view() == v.deep_view().subrange(from as int, i as int),
        decreases to - i,
    {
        let p = clone_point(&v[i]);
        r.push(p);
        proof {
            assert(r.deep_view() =~~= v.deep_view().subrange(from as int, i + 1));
        }
        i += 1;
    }
    r
}

/// Sorts the points lexicographically for `axis` (selection sort): by the
/// coordinate at `axis`, ties by the other coordinate. The result is the
/// same multiset of points; the tie-break makes it the unique such
/// arrangement, and with it the balanced build deterministic.
#[verifier::spinoff_prover]
#[verifier::rlimit(50)]
fn sort_by_axis(points: Vec<Vec<i32>>, axis: usize) -> (r: Vec<Vec<i32>>)
    requires
        axis < 2,
        all_len2(points.deep_view()),
    ensures
        r.deep_view().to_multiset() == points.deep_view().to_multiset(),
        r@.len() == points@.len(),
        all_len2(r.deep_view()),
        forall|i: int, j: int|
            #![trigger r.deep_view()[i], r.deep_view()[j]]
            0 <= i <= j < r@.len() ==> lex_le(r.deep_view()[i], r.deep_view()[j], axis as int),
{
    broadcast use vstd::seq_lib::group_to_multiset_ensures;
    broadcast use vstd::multiset::group_multiset_axioms;

    let ghost orig = points.deep_view().to_multiset();
    let ghost orig_len = points@.len() as int;
    let mut src = points;
    let mut out: Vec<Vec<i32>> = Vec::new();
    proof {
        assert(out.deep_view() =~~= Seq::<Seq<i32>>::empty());
        assert(out.deep_view().to_multiset().add(src.deep_view().to_multiset()) =~= orig);
    }
    while src.len() > 0
        invariant
            axis < 2,
            out.deep_view().to_multiset().add(src.deep_view().to_multiset()) == orig,
            out@.len() + src@.len() == orig_len,
            all_len2(out.deep_view()),
            all_len2(src.deep_view()),
            forall|i: int, j: int|
                #![trigger out.deep_view()[i], out.deep_view()[j]]
                0 <= i <= j < out@.len() ==> lex_le(
                    out.deep_view()[i],
                    out.deep_view()[j],
                    axis as int,
                ),
            forall|i: int, q: Seq<i32>|
                0 <= i < out@.len() && #[trigger] src.deep_view().contains(q) ==> lex_le(
                    #[trigger] out.deep_view()[i],
                    q,
                    axis as int,
                ),
        decreases src@.len(),
    {
        let ghost sd = src.deep_view();
        let ghost od = out.deep_view();
        let mut m: usize = 0;
        let mut j: usize = 1;
        while j < src.len()
            invariant
                axis < 2,
                src@.len() > 0,
                m < src@.len(),
                j <= src@.len(),
                src.deep_view() == sd,
                forall|t: int|
                    0 <= t < j ==> lex_le(
                        src.deep_view()[m as int],
                        #[trigger] src.deep_view()[t],
                        axis as int,
                    ),
                all_len2(src.deep_view()),
            decreases src@.len() - j,
        {
            proof {
                assert(src.deep_view().contains(src.deep_view()[j as int])) by {
                    assert(src.deep_view()[j as int] == src.deep_view()[j as int]);
                }
                assert(src.deep_view().contains(src.deep_view()[m as int]));
            }
            let oaxis = 1 - axis;
            if src[j][axis] < src[m][axis] || (src[j][axis] == src[m][axis] && src[j][oaxis]
                < src[m][oaxis]) {
                m = j;
            }
            j += 1;
        }
        proof {
            assert(sd.contains(sd[m as int]));
        }
        let p = src.remove(m);
        out.push(p);
        proof {
            assert(src.deep_view() =~~= sd.remove(m as int));
            assert(out.deep_view() =~~= od.push(sd[m as int]));
            vstd::seq_lib::to_multiset_remove(sd, m as int);
            vstd::seq_lib::to_multiset_build(od, sd[m as int]);
            sd.to_multiset_ensures();
            assert(src.deep_view().to_multiset() == sd.to_multiset().remove(sd[m as int]));
            assert(out.deep_view().to_multiset() =~= od.to_multiset().insert(sd[m as int]));
            assert(sd.to_multiset().count(sd[m as int]) > 0);
            assert(out.deep_view().to_multiset().add(src.deep_view().to_multiset()) =~= orig);
            assert forall|q: Seq<i32>| #[trigger] src.deep_view().contains(q) implies sd.contains(
                q,
            ) && lex_le(sd[m as int], q, axis as int) by {
                let i = choose|i: int|
                    0 <= i < src.deep_view().len() && src.deep_view()[i] == q;
                if i < m {
                    assert(sd[i] == q);
                } else {
                    assert(sd[i + 1] == q);
                }
            }
            assert forall|i: int| 0 <= i < out@.len() implies #[trigger] out.deep_view()[i].len()
                == 2 by {
                if i < od.len() {
                    assert(od.contains(od[i]));
                    assert(out.deep_view()[i] == od[i]);
                } else {
                    assert(sd.contains(sd[m as int]));
                    assert(out.deep_view()[i] == sd[m as int]);
                }
            }
            assert forall|i: int, j2: int|
                #![trigger out.deep_view()[i], out.deep_view()[j2]]
                0 <= i <= j2 < out@.len() implies lex_le(
                out.deep_view()[i],
                out.deep_view()[j2],
                axis as int,
            ) by {
                if j2 < od.len() {
                } else {
                    if i < od.len() {
                        assert(sd.contains(sd[m as int]));
                        assert(lex_le(od[i], sd[m as int], axis as int));
                    }
                }
            }
        }
    }
    proof {
        assert(src.deep_view() =~~= Seq::<Seq<i32>>::empty());
        assert(out.deep_view().to_multiset() =~= orig);
    }
    out
}

/// Recursive balanced build: sort the candidates lexicographically for the
/// current axis, take the lower median as this level's node, and build the
/// children from the points before and after it with the next axis. Fails
/// exactly where the point just before the median shares the median's
/// coordinate at this level's sort axis: there the strict left-partition
/// rule could not hold.
#[verifier::spinoff_prover]
#[verifier::rlimit(50)]
fn build_from(points: Vec<Vec<i32>>, axis: usize) -> (r: Result<Option<Node>, TreeError>)
    requires
        axis < 2,
        all_len2(points.deep_view()),
    ensures
        r is Ok <==> buildable(points.deep_view(), axis as int),
        r is Err ==> r->Err_0 == TreeError::InvalidInput,
        r is Ok ==> {
            &&& (r->Ok_0 is Some <==> points@.len() > 0)
            &&& root_points(r->Ok_0).to_multiset() == points.deep_view().to_multiset()
            &&& (r->Ok_0 is Some ==> r->Ok_0->0.wf() && r->Ok_0->0.axis() == axis as int)
            &&& is_median_build(r->Ok_0, points.deep_view(), axis as int)
        },
    decreases points@.len(),
{
    broadcast use vstd::seq_lib::group_to_multiset_ensures;
    broadcast use vstd::seq_lib::lemma_multiset_commutative;

    if points.len() == 0 {
        proof {
            assert(root_points(None::<Node>).to_multiset() =~= points.deep_view().to_multiset());
        }
        return Ok(None);
    }
    let ghost pd = points.deep_view();
    let sorted = sort_by_axis(points, axis);
    let ghost sd = sorted.deep_view();
    let m = sorted.len() / 2;
    proof {
        assert(sd.contains(sd[m as int]));
        assert(is_lex_sorted_perm(sd, pd, axis as int));
        assert(sd[m as int] =~= sorted@[m as int]@);
        if m > 0 {
            assert(sd.contains(sd[m as int - 1]));
            assert(sd[m as int - 1] =~= sorted@[m as int - 1]@);
        }
    }
    if m > 0 && sorted[m - 1][axis] == sorted[m][axis] {
        proof {
            assert(sd[m as int - 1] =~= sorted@[m as int - 1]@);
            assert(sd[m as int] =~= sorted@[m as int]@);
            lemma_not_buildable(pd, sd, axis as int);
        }
        return Err(TreeError::InvalidInput);
    }
    proof {
        if m > 0 {
            assert(sd[m as int - 1] =~= sorted@[m as int - 1]@);
            assert(sd[m as int] =~= sorted@[m as int]@);
            assert(lex_le(sd[m as int - 1], sd[m as int], axis as int));
            assert(sd[m as int - 1][axis as int] < sd[m as int][axis as int]);
        }
    }
    let left_vec = subrange_points(&sorted, 0, m);
    let right_vec = subrange_points(&sorted, m + 1, sorted.len());
    let med = clone_point(&sorted[m]);
    proof {
        lemma_len2_sub(sd, 0, m as int);
        lemma_len2_sub(sd, m as int + 1, sd.len() as int);
    }
    let next_axis = (axis + 1) % 2;
    let left = match build_from(left_vec, next_axis) {
        Ok(n) => n,
        Err(e) => {
            proof {
                lemma_not_buildable(pd, sd, axis as int);
            }
            return Err(e);
        },
    };
    let right = match build_from(right_vec, next_axis) {
        Ok(n) => n,
        Err(e) => {
            proof {
                lemma_not_buildable(pd, sd, axis as int);
            }
            return Err(e);
        },
    };
    let ghost lp = root_points(left);
    let ghost rp = root_points(right);
    let ghost gleft = left;
    let ghost gright = right;
    let node = Node {
        point: med,
        left: match left {
            Some(n) => Some(Box::new(n)),
            None => None,
        },
        right: match right {
            Some(n) => Some(Box::new(n)),
            None => None,
        },
        discriminant: axis,
    };
    proof {
        assert(opt_points(node.left) == lp);
        assert(opt_points(node.right) == rp);
        assert(node.point@ =~= sd[m as int]);
        assert(node.points() == seq![sd[m as int]] + lp + rp);
        let subl = sd.subrange(0, m as int);
        let subr = sd.subrange(m as int + 1, sd.len() as int);
        assert(sd =~= subl + seq![sd[m as int]] + subr);
        assert(Seq::<Seq<i32>>::empty().push(sd[m as int]) =~= seq![sd[m as int]]);
        assert(node.points().to_multiset() =~= pd.to_multiset());
        // Partition property at this node: everything before the median is
        // at most its predecessor, which the passed check put strictly
        // below the median at this axis; everything after it is at or
        // above.
        assert forall|q: Seq<i32>| #[trigger] lp.contains(q) implies q[axis as int]
            < sd[m as int][axis as int] by {
            assert(lp.to_multiset().count(q) > 0);
            assert(subl.contains(q));
            let t = choose|t: int| 0 <= t < subl.len() && subl[t] == q;
            assert(sd[t] == q);
            assert(lex_le(sd[t], sd[m as int - 1], axis as int));
            assert(sd[t][axis as int] <= sd[m as int - 1][axis as int]);
        }
        assert forall|q: Seq<i32>| #[trigger] rp.contains(q) implies q[axis as int]
            >= sd[m as int][axis as int] by {
            assert(rp.to_multiset().count(q) > 0);
            assert(subr.contains(q));
            let t = choose|t: int| 0 <= t < subr.len() && subr[t] == q;
            assert(sd[m as int + 1 + t] == q);
            assert(lex_le(sd[m as int], sd[m as int + 1 + t], axis as int));
        }
        assert(node.wf());
        assert(node.left_spec() == gleft);
        assert(node.right_spec() == gright);
        assert(sd.len() == pd.len());
        assert forall|i: int, j: int|
            #![trigger sd[i], sd[j]]
            0 <= i <= j < sd.len() implies sd[i][axis as int] <= sd[j][axis as int] by {
            assert(lex_le(sd[i], sd[j], axis as int));
        }
        assert(is_sorted_perm(sd, pd, axis as int));
        assert(next_axis as int == (axis as int + 1) % 2);
        assert(m as int == pd.len() as int / 2);
        assert(is_median_build(gleft, sd.subrange(0, pd.len() as int / 2), (axis as int + 1) % 2));
        assert(is_median_build(
            gright,
            sd.subrange(pd.len() as int / 2 + 1, pd.len() as int),
            (axis as int + 1) % 2,
        ));
        assert(node.point_view() == sd[pd.len() as int / 2]);
        assert(is_median_build(Some(node), pd, axis as int));
        assert(buildable(pd, axis as int));
    }
    Ok(Some(node))
}

/// The sorted arrangement is unique, so a median-condition failure on it,
/// or an unbuildable half of it, refutes every witness: the collection is
/// not buildable.
proof fn lemma_not_buildable(pd: Seq<Seq<i32>>, sd: Seq<Seq<i32>>, a: int)
    requires
        0 <= a < 2,
        pd.len() > 0,
        all_len2(pd),
        all_len2(sd),
        is_lex_sorted_perm(sd, pd, a),
        !((pd.len() as int / 2 == 0 || sd[pd.len() as int / 2 - 1][a] < sd[pd.len() as int / 2][a])
            && buildable(sd.subrange(0, pd.len() as int / 2), (a + 1) % 2) && buildable(
            sd.subrange(pd.len() as int / 2 + 1, pd.len() as int),
            (a + 1) % 2,
        )),
    ensures
        !buildable(pd, a),
{
    broadcast use vstd::seq_lib::group_to_multiset_ensures;

    if buildable(pd, a) {
        let t = choose|t: Seq<Seq<i32>>|
            {
                &&& #[trigger] is_lex_sorted_perm(t, pd, a)
                &&& (pd.len() as int / 2 == 0 || t[pd.len() as int / 2 - 1][a] < t[pd.len() as int
                    / 2][a])
                &&& buildable(t.subrange(0, pd.len() as int / 2), (a + 1) % 2)
                &&& buildable(t.subrange(pd.len() as int / 2 + 1, pd.len() as int), (a + 1) % 2)
            };
        assert forall|p: Seq<i32>| #[trigger] t.contains(p) implies p.len() == 2 by {
            assert(t.to_multiset().count(p) > 0);
            assert(pd.contains(p));
        }
        lemma_lex_sorted_unique(t, sd, a);
        assert(false);
    }
}

/// A contiguous part keeps every element 2-dimensional.
proof fn lemma_len2_sub(s: Seq<Seq<i32>>, from: int, to: int)
    requires
        0 <= from <= to <= s.len(),
        all_len2(s),
    ensures
        all_len2(s.subrange(from, to)),
{
    let sub = s.subrange(from, to);
    assert forall|q: Seq<i32>| #[trigger] sub.contains(q) implies q.len() == 2 by {
        let i = choose|i: int| 0 <= i < sub.len() && sub[i] == q;
        assert(s[from + i] == q);
        assert(s.contains(q));
    }
}

/// Checks that every point is 2-dimensional.
fn all_points_len2(points: &Vec<Vec<i32>>) -> (r: bool)
    ensures
        r <==> all_len2(points.deep_view()),
{
    let ghost d = points.deep_view();
    let mut i: usize = 0;
    while i < points.len()
        invariant
            i <= points@.len(),
            d == points.deep_view(),
            forall|t: int| 0 <= t < i ==> #[trigger] d[t].len() == 2,
        decreases points@.len() - i,
    {
        if points[i].len() != 2 {
            proof {
                assert(d.contains(d[i as int]));
            }
            return false;
        }
        i += 1;
    }
    proof {
        assert forall|p: Seq<i32>| #[trigger] d.contains(p) implies p.len() == 2 by {
            let t = choose|t: int| 0 <= t < d.len() && d[t] == p;
        }
    }
    true
}

/// Builds a balanced tree from the given point collection by recursive
/// median partition, starting at axis `i`. Inputs the construction is not
/// defined on are rejected with `InvalidInput`: an empty collection, a
/// point that is not 2-dimensional, or a collection where at some recursion
/// level the point just before the median shares the median's coordinate on
/// that level's sort axis — there the strict left-partition rule could not
/// hold. Every other collection builds.
pub fn create_from_vector(points: &Vec<Vec<i32>>, i: i32) -> (r: Result<Option<Node>, TreeError>)
    requires
        0 <= i < 2,
    ensures
        r is Err <==> !valid_build_input(points.deep_view(), i as int),
        r is Err ==> r->Err_0 == TreeError::InvalidInput,
        r is Ok ==> r->Ok_0 is Some,
        r is Ok ==> root_points(r->Ok_0).to_multiset() == points.deep_view().to_multiset(),
        r is Ok ==> r->Ok_0->0.wf() && r->Ok_0->0.axis() == i as int,
        r is Ok ==> is_median_build(r->Ok_0, points.deep_view(), i as int),
{
    if points.len() == 0 {
        return Err(TreeError::InvalidInput);
    }
    if !all_points_len2(points) {
        return Err(TreeError::InvalidInput);
    }
    let pts = subrange_points(points, 0, points.len());
    proof {
        assert(points.deep_view().subrange(0, points@.len() as int) =~= points.deep_view());
    }
    match build_from(pts, i as usize) {
        Ok(n) => Ok(n),
        Err(e) => Err(e),
    }
}

impl KdTree {
    /// The point with the smallest coordinate at axis `dm` in the subtree.
    /// Ties go to the candidate found last under a self, left, right visit
    /// order. At a node splitting on `dm` itself the right subtree is
    /// skipped: everything there lies at or above the node's coordinate.
    pub fn find_min_helper(root: &Node, dm: usize) -> (r: Vec<i32>)
        requires
            root.wf(),
            dm < 2,
        ensures
            r@.len() == 2,
            root.points().contains(r@),
            forall|q: Seq<i32>| #[trigger] root.points().contains(q) ==> r@[dm as int] <= q[dm as int],
        decreases *root,
    {
        let ghost leftpts = opt_points(root.left);
        let ghost rightpts = opt_points(root.right);
        let mut best = clone_point(&root.point);
        match &root.left {
            Some(l) => {
                let lm = KdTree::find_min_helper(&**l, dm);
                if lm[dm] < best[dm] {
                    best = lm;
                }
            },
            None => {},
        }
        let ghost best2 = best@;
        if root.discriminant() != dm {
            match &root.right {
                Some(rn) => {
                    let rm = KdTree::find_min_helper(&**rn, dm);
                    if rm[dm] <= best[dm] {
                        best = rm;
                    }
                },
                None => {},
            }
        }
        proof {
            let selfpt = seq![root.point_view()];
            assert(root.points() == selfpt + leftpts + rightpts);
            if best@ != root.point_view() {
                let inner = if leftpts.contains(best@) && best@ == best2 {
                    leftpts
                } else {
                    rightpts
                };
                assert(inner.contains(best@));
                lemma_concat_contains(selfpt, leftpts, best@);
                lemma_concat_contains(selfpt + leftpts, rightpts, best@);
            } else {
                assert(root.points()[0] == root.point_view());
            }
            assert forall|q: Seq<i32>| #[trigger] root.points().contains(q) implies best@[dm as int]
                <= q[dm as int] by {
                lemma_concat_contains(selfpt + leftpts, rightpts, q);
                lemma_concat_contains(selfpt, leftpts, q);
                if selfpt.contains(q) {
                    assert(q == root.point_view());
                }
            }
        }
        best
    }

    /// The point with the smallest coordinate at axis `dm` in the tree.
    /// The tree must hold at least one point. The `i` parameter is the
    /// caller's starting axis and is ignored: each node carries its own
    /// split axis.
    pub fn find_min(root: &Option<Node>, i: i32, dm: i32) -> (r: Vec<i32>)
        requires
            *root is Some,
            (*root)->0.wf(),
            0 <= dm < 2,
        ensures
            r@.len() == 2,
            root_points(*root).contains(r@),
            forall|q: Seq<i32>| #[trigger]
                root_points(*root).contains(q) ==> r@[dm as int] <= q[dm as int],
    {
        let _ = i;
        match root {
            Some(n) => KdTree::find_min_helper(n, dm as usize),
            None => vstd::pervasive::unreached(),
        }
    }
}

/// Nearest-neighbor search: returns the stored point with minimum squared
/// Euclidean distance to `query_point`. Fails with `Empty` when the tree
/// has no root, and with `InvalidInput` when the query point is not
/// 2-dimensional. Ties go to whichever point the near-first traversal
/// reaches first.
pub fn nearest_neighbour_search(root: Option<&Node>, query_point: &Vec<i32>) -> (r: Result<
    Vec<i32>,
    TreeError,
>)
    requires
        ref_wf(root),
    ensures
        match r {
            Ok(p) => {
                &&& root is Some
                &&& query_point@.len() == 2
                &&& p@.len() == 2
                &&& ref_points(root).contains(p@)
                &&& forall|q: Seq<i32>| #[trigger]
                    ref_points(root).contains(q) ==> dist_sq(p@, query_point@) <= dist_sq(
                        q,
                        query_point@,
                    )
            },
            Err(e) => if root is None {
                e == TreeError::Empty
            } else {
                e == TreeError::InvalidInput && query_point@.len() != 2
            },
        },
{
    match root {
        None => Err(TreeError::Empty),
        Some(n) => {
            if query_point.len() != K {
                return Err(TreeError::InvalidInput);
            }
            let best = clone_point(n.point());
            let min_dist = eucladian_distance_squared(&best, query_point);
            let (bp, bd) = nearest_helper(n, query_point, best, min_dist);
            proof {
                assert(n.points()[0] == n.point_view());
                assert(n.points().contains(n.point_view()));
            }
            Ok(bp)
        },
    }
}

/// Branch-and-bound descent carrying the best point and best squared
/// distance found so far: visit the node, recurse into the near child first,
/// and visit the far child only when the splitting plane is close enough
/// that it could still hide a better point.
fn nearest_helper(node: &Node, query: &Vec<i32>, best: Vec<i32>, min_dist: u128) -> (res: (
    Vec<i32>,
    u128,
))
    requires
        node.wf(),
        query@.len() == 2,
        best@.len() == 2,
        min_dist as int == dist_sq(best@, query@),
    ensures
        res.0@.len() == 2,
        res.1 as int == dist_sq(res.0@, query@),
        res.1 <= min_dist,
        res.0@ == best@ || node.points().contains(res.0@),
        forall|q: Seq<i32>| #[trigger]
            node.points().contains(q) ==> res.1 as int <= dist_sq(q, query@),
    decreases *node,
{
    let ghost leftpts = opt_points(node.left);
    let ghost rightpts = opt_points(node.right);
    let mut cur = best;
    let mut cur_d = min_dist;
    let d = eucladian_distance_squared(node.point(), query);
    if d < cur_d {
        cur = clone_point(&node.point);
        cur_d = d;
    }
    let ghost cur1 = cur@;
    let ghost d1 = cur_d as int;
    let axis = node.discriminant;
    let qa = query[axis];
    let na = node.point[axis];
    if qa < na {
        // Near child is the left one.
        match &node.left {
            Some(l) => {
                let r = nearest_helper(&**l, query, cur, cur_d);
                cur = r.0;
                cur_d = r.1;
            },
            None => {},
        }
        let ghost cur2 = cur@;
        let ghost d2 = cur_d as int;
        let gap = abs_diff_i64(na as i64 - qa as i64);
        if (gap as u128) <= cur_d {
            match &node.right {
                Some(rn) => {
                    let r = nearest_helper(&**rn, query, cur, cur_d);
                    cur = r.0;
                    cur_d = r.1;
                },
                None => {},
            }
        } else {
            proof {
                assert forall|q: Seq<i32>| #[trigger]
                    rightpts.contains(q) implies cur_d as int <= dist_sq(q, query@) by {
                    lemma_nn_far_bound(q, query@, axis as int, gap as int, cur_d as int);
                }
            }
        }
        proof {
            lemma_nearest_assemble(
                *node,
                query@,
                leftpts,
                rightpts,
                cur1,
                d1,
                cur2,
                d2,
                cur@,
                cur_d as int,
            );
        }
    } else {
        // Near child is the right one; ties route right as insertion does.
        match &node.right {
            Some(rn) => {
                let r = nearest_helper(&**rn, query, cur, cur_d);
                cur = r.0;
                cur_d = r.1;
            },
            None => {},
        }
        let ghost cur2 = cur@;
        let ghost d2 = cur_d as int;
        let gap = abs_diff_i64(qa as i64 - na as i64);
        if (gap as u128) < cur_d {
            match &node.left {
                Some(l) => {
                    let r = nearest_helper(&**l, query, cur, cur_d);
                    cur = r.0;
                    cur_d = r.1;
                },
                None => {},
            }
        } else {
            proof {
                assert forall|q: Seq<i32>| #[trigger]
                    leftpts.contains(q) implies cur_d as int <= dist_sq(q, query@) by {
                    lemma_nn_far_bound(q, query@, axis as int, gap as int + 1, cur_d as int);
                }
            }
        }
        proof {
            lemma_nearest_assemble(
                *node,
                query@,
                rightpts,
                leftpts,
                cur1,
                d1,
                cur2,
                d2,
                cur@,
                cur_d as int,
            );
        }
    }
    proof {
        if cur1 != best@ {
            assert(node.points()[0] == node.point_view());
            assert(node.points().contains(node.point_view()));
        }
    }
    (cur, cur_d)
}

/// A point whose coordinate at `axis` lies at least `g` away from the
/// query's cannot be closer to the query, squared, than `bound < g`.
proof fn lemma_nn_far_bound(q: Seq<i32>, query: Seq<i32>, axis: int, g: int, bound: int)
    requires
        0 <= axis < 2,
        g >= 0,
        q[axis] - query[axis] >= g || query[axis] - q[axis] >= g,
        g > bound,
    ensures
        dist_sq(q, query) > bound,
{
    let diff = q[axis] - query[axis];
    let adiff = if diff >= 0 {
        diff
    } else {
        -diff
    };
    lemma_dist_axis_bound(q, query, axis);
    lemma_sq_of_neg(diff);
    assert(sq(diff) == sq(adiff));
    lemma_sq_monotone(g, adiff);
    lemma_sq_ge_self(g);
}

/// Stitches the per-phase facts of the branch-and-bound descent into the
/// bound over all points of the node: the node's own point was checked
/// first, then the near subtree, then the far subtree.
proof fn lemma_nearest_assemble(
    node: Node,
    query: Seq<i32>,
    nearpts: Seq<Seq<i32>>,
    farpts: Seq<Seq<i32>>,
    cur1: Seq<i32>,
    d1: int,
    cur2: Seq<i32>,
    d2: int,
    cur3: Seq<i32>,
    d3: int,
)
    requires
        nearpts == opt_points(node.left) && farpts == opt_points(node.right) || nearpts
            == opt_points(node.right) && farpts == opt_points(node.left),
        d1 <= dist_sq(node.point_view(), query),
        d2 <= d1,
        d3 <= d2,
        cur2 == cur1 || nearpts.contains(cur2),
        cur3 == cur2 || farpts.contains(cur3),
        forall|q: Seq<i32>| #[trigger] nearpts.contains(q) ==> d2 <= dist_sq(q, query),
        forall|q: Seq<i32>| #[trigger] farpts.contains(q) ==> d3 <= dist_sq(q, query),
    ensures
        cur3 == cur1 || node.points().contains(cur3),
        forall|q: Seq<i32>| #[trigger] node.points().contains(q) ==> d3 <= dist_sq(q, query),
{
    let selfpt = seq![node.point_view()];
    let l = opt_points(node.left);
    let r = opt_points(node.right);
    assert(node.points() == selfpt + l + r);
    if cur3 != cur1 {
        let inner = if nearpts.contains(cur3) && cur3 == cur2 {
            nearpts
        } else {
            farpts
        };
        assert(inner.contains(cur3));
        lemma_concat_contains(selfpt, l, cur3);
        lemma_concat_contains(selfpt + l, r, cur3);
    }
    assert forall|q: Seq<i32>| #[trigger] node.points().contains(q) implies d3 <= dist_sq(q, query) by {
        lemma_concat_contains(selfpt + l, r, q);
        lemma_concat_contains(selfpt, l, q);
        if selfpt.contains(q) {
            assert(q == node.point_view());
        }
    }
}

/// After insertion into the left subtree, the node's point sequence is the
/// old one with the new point slotted into the left part; its multiset view
/// gains exactly that point.
proof fn lemma_insert_reassemble(oldn: Node, newn: Node, new_left: Seq<Seq<i32>>, p: Seq<i32>)
    requires
        newn.point == oldn.point,
        newn.right == oldn.right,
        newn.discriminant == oldn.discriminant,
        opt_points(newn.left) == new_left,
        new_left.to_multiset() == opt_points(oldn.left).to_multiset().insert(p),
    ensures
        newn.points().to_multiset() == oldn.points().to_multiset().insert(p),
        newn.points().len() == oldn.points().len() + 1,
{
    broadcast use vstd::seq_lib::group_to_multiset_ensures;
    broadcast use vstd::seq_lib::lemma_multiset_commutative;

    let a = seq![oldn.point@];
    let ol = opt_points(oldn.left);
    let r = opt_points(oldn.right);
    assert(oldn.points() == a + ol + r);
    assert(newn.points() == a + new_left + r);
    assert((a + new_left + r).to_multiset() == (a + new_left).to_multiset().add(r.to_multiset()));
    assert((a + new_left).to_multiset() == a.to_multiset().add(new_left.to_multiset()));
    assert((a + ol + r).to_multiset() == (a + ol).to_multiset().add(r.to_multiset()));
    assert((a + ol).to_multiset() == a.to_multiset().add(ol.to_multiset()));
    assert(newn.points().to_multiset() =~= oldn.points().to_multiset().insert(p));
    assert(new_left.len() == new_left.to_multiset().len());
    assert(ol.len() == ol.to_multiset().len());
}

/// Mirror image of `lemma_insert_reassemble` for the right subtree.
proof fn lemma_insert_reassemble_right(oldn: Node, newn: Node, new_right: Seq<Seq<i32>>, p: Seq<i32>)
    requires
        newn.point == oldn.point,
        newn.left == oldn.left,
        newn.discriminant == oldn.discriminant,
        opt_points(newn.right) == new_right,
        new_right.to_multiset() == opt_points(oldn.right).to_multiset().insert(p),
    ensures
        newn.points().to_multiset() == oldn.points().to_multiset().insert(p),
        newn.points().len() == oldn.points().len() + 1,
{
    broadcast use vstd::seq_lib::group_to_multiset_ensures;
    broadcast use vstd::seq_lib::lemma_multiset_commutative;

    let a = seq![oldn.point@];
    let l = opt_points(oldn.left);
    let or = opt_points(oldn.right);
    assert(oldn.points() == a + l + or);
    assert(newn.points() == a + l + new_right);
    assert((a + l + new_right).to_multiset() == (a + l).to_multiset().add(new_right.to_multiset()));
    assert((a + l + or).to_multiset() == (a + l).to_multiset().add(or.to_multiset()));
    assert(newn.points().to_multiset() =~= oldn.points().to_multiset().insert(p));
    assert(new_right.len() == new_right.to_multiset().len());
    assert(or.len() == or.to_multiset().len());
}

} // verus!
