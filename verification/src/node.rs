//! One tree node of the KD index: an inserted point, the coordinate axis
//! used to route later insertions, the node's bounding box (tracked only
//! under spread-maximizing insertion), and the owned child subtrees.
use vstd::prelude::*;
use crate::point::Point;
use crate::point::in_domain;
use vstd::multiset::Multiset;

verus! {

pub struct Node {
    /// The coordinate axis that routes insertions at this node.
    pub split: usize,
    /// Points with `coordinate[split]` strictly below this node's.
    pub left: Option<Box<Node>>,
    /// Points with `coordinate[split]` greater or equal.
    pub right: Option<Box<Node>>,
    /// Absent only on an as-yet-empty root placeholder.
    pub point: Option<Point>,
    /// `n` (low, high) interval pairs; kept only by spread-maximizing
    /// insertion.
    pub boundary: Option<Vec<Vec<i32>>>,
    /// 1-based depth from the root.
    pub deep: usize,
}

/// The pure mathematical shape of a subtree: point, split axis, depth and
/// bounding box of every node, as sequences and integers. Insertion
/// contracts pin the whole new tree as a function of the old one through
/// this shape, so placement, split-axis choice and the absence of any
/// restructuring are part of the contract.
pub struct NodeV {
    pub split: int,
    pub deep: int,
    pub pt: Seq<i32>,
    pub bnd: Option<Seq<Seq<i32>>>,
    pub left: Option<Box<NodeV>>,
    pub right: Option<Box<NodeV>>,
}

/// The boundary box a node carries, as a sequence of pairs.
pub open spec fn bnd_view(node: Node) -> Option<Seq<Seq<i32>>> {
    match node.boundary {
        Option::Some(b) => Option::Some(b.deep_view()),
        Option::None => Option::None,
    }
}

/// The shape of an optional subtree.
pub open spec fn opt_node_v(o: Option<Box<Node>>) -> Option<Box<NodeV>>
    decreases o,
{
    match o {
        Option::None => Option::None,
        Option::Some(n) => Option::Some(Box::new(node_v(*n))),
    }
}

/// The shape of a subtree. (On a placeholder node without a point the
/// `pt` component is unspecified; insertion contracts treat the empty
/// tree separately.)
pub open spec fn node_v(node: Node) -> NodeV
    decreases node,
{
    NodeV {
        split: node.split as int,
        deep: node.deep as int,
        pt: node.pt(),
        bnd: bnd_view(node),
        left: opt_node_v(node.left),
        right: opt_node_v(node.right),
    }
}

/// The leaf turn-based insertion attaches under a parent with the given
/// split axis and depth: the parent's axis plus one, modulo `dims`, and
/// no boundary box.
pub open spec fn turn_leaf(p: Seq<i32>, parent_split: int, parent_deep: int, dims: int) -> NodeV {
    NodeV {
        split: if parent_split == dims - 1 {
            0
        } else {
            parent_split + 1
        },
        deep: parent_deep + 1,
        pt: p,
        bnd: Option::None,
        left: Option::None,
        right: Option::None,
    }
}

/// Spec mirror of turn-based insertion: descend by the strict-less-left /
/// greater-or-equal-right rule on each node's split axis and attach
/// `turn_leaf` in the one empty child slot the descent reaches; every
/// existing node keeps its point, split axis, depth, boundary and other
/// child unchanged — the tree is never restructured.
pub open spec fn spec_insert_turn(n: NodeV, p: Seq<i32>, dims: int) -> NodeV
    decreases n,
{
    if p[n.split] < n.pt[n.split] {
        NodeV {
            left: match n.left {
                Option::None => Option::Some(Box::new(turn_leaf(p, n.split, n.deep, dims))),
                Option::Some(l) => Option::Some(Box::new(spec_insert_turn(*l, p, dims))),
            },
            ..n
        }
    } else {
        NodeV {
            right: match n.right {
                Option::None => Option::Some(Box::new(turn_leaf(p, n.split, n.deep, dims))),
                Option::Some(r) => Option::Some(Box::new(spec_insert_turn(*r, p, dims))),
            },
            ..n
        }
    }
}

/// The in-order sequence of coordinate vectors held in an optional subtree.
pub open spec fn opt_pts(o: Option<Box<Node>>) -> Seq<Seq<i32>>
    decreases o,
{
    match o {
        Option::None => seq![],
        Option::Some(n) => n.pts(),
    }
}

/// Every point of `pts` sits strictly below `v` on `axis`.
pub open spec fn all_on_axis_lt(pts: Seq<Seq<i32>>, axis: int, v: i32) -> bool {
    forall|i: int| 0 <= i < pts.len() ==> (#[trigger] pts[i])[axis] < v
}

/// Every point of `pts` sits at or above `v` on `axis`.
pub open spec fn all_on_axis_ge(pts: Seq<Seq<i32>>, axis: int, v: i32) -> bool {
    forall|i: int| 0 <= i < pts.len() ==> (#[trigger] pts[i])[axis] >= v
}

/// Every point of `pts` has `dims` coordinates.
pub open spec fn all_dims(pts: Seq<Seq<i32>>, dims: nat) -> bool {
    forall|i: int| 0 <= i < pts.len() ==> (#[trigger] pts[i]).len() == dims
}

/// Every point of `pts` lies in the half-open box list `dom`.
pub open spec fn all_in_domain(pts: Seq<Seq<i32>>, dom: Seq<Seq<i32>>) -> bool {
    forall|i: int| 0 <= i < pts.len() ==> in_domain(#[trigger] pts[i], dom)
}

/// Adding one in-domain point to a collection of in-domain points keeps
/// every point in the domain.
pub proof fn lemma_all_in_domain_insert(
    curr: Seq<Seq<i32>>,
    prev: Seq<Seq<i32>>,
    x: Seq<i32>,
    dom: Seq<Seq<i32>>,
)
    requires
        curr.to_multiset() =~= prev.to_multiset().insert(x),
        all_in_domain(prev, dom),
        in_domain(x, dom),
    ensures
        all_in_domain(curr, dom),
{
    broadcast use vstd::seq_lib::group_to_multiset_ensures;
    broadcast use vstd::multiset::group_multiset_axioms;

    assert forall|i: int| 0 <= i < curr.len() implies in_domain(#[trigger] curr[i], dom) by {
        let e = curr[i];
        assert(curr.contains(e));
        assert(curr.to_multiset().count(e) > 0);
        if e != x {
            assert(prev.to_multiset().count(e) > 0);
            assert(prev.contains(e));
            let j = choose|j: int| 0 <= j < prev.len() && prev[j] == e;
            assert(in_domain(prev[j], dom));
        }
    }
}

/// Adding one point that is strictly below `v` on `axis` to a collection
/// of points all strictly below `v` keeps every point strictly below `v`.
pub proof fn lemma_all_lt_insert(
    curr: Seq<Seq<i32>>,
    prev: Seq<Seq<i32>>,
    x: Seq<i32>,
    axis: int,
    v: i32,
)
    requires
        curr.to_multiset() =~= prev.to_multiset().insert(x),
        all_on_axis_lt(prev, axis, v),
        x[axis] < v,
    ensures
        all_on_axis_lt(curr, axis, v),
{
    broadcast use vstd::seq_lib::group_to_multiset_ensures;
    broadcast use vstd::multiset::group_multiset_axioms;

    assert forall|i: int| 0 <= i < curr.len() implies (#[trigger] curr[i])[axis] < v by {
        let e = curr[i];
        assert(curr.contains(e));
        assert(curr.to_multiset().count(e) > 0);
        if e != x {
            assert(prev.to_multiset().count(e) > 0);
            assert(prev.contains(e));
            let j = choose|j: int| 0 <= j < prev.len() && prev[j] == e;
            assert(prev[j][axis] < v);
        }
    }
}

/// The counterpart of `lemma_all_lt_insert` for points at or above `v`.
pub proof fn lemma_all_ge_insert(
    curr: Seq<Seq<i32>>,
    prev: Seq<Seq<i32>>,
    x: Seq<i32>,
    axis: int,
    v: i32,
)
    requires
        curr.to_multiset() =~= prev.to_multiset().insert(x),
        all_on_axis_ge(prev, axis, v),
        x[axis] >= v,
    ensures
        all_on_axis_ge(curr, axis, v),
{
    broadcast use vstd::seq_lib::group_to_multiset_ensures;
    broadcast use vstd::multiset::group_multiset_axioms;

    assert forall|i: int| 0 <= i < curr.len() implies (#[trigger] curr[i])[axis] >= v by {
        let e = curr[i];
        assert(curr.contains(e));
        assert(curr.to_multiset().count(e) > 0);
        if e != x {
            assert(prev.to_multiset().count(e) > 0);
            assert(prev.contains(e));
            let j = choose|j: int| 0 <= j < prev.len() && prev[j] == e;
            assert(prev[j][axis] >= v);
        }
    }
}

impl Default for Node {
    /// The same placeholder `new` builds.
    fn default() -> (n: Self)
        ensures
            n.point is None,
            n.left is None,
            n.right is None,
            n.boundary is None,
            n.split == 0,
            n.deep == 0,
    {
        Self::new()
    }
}

impl Node {
    /// An empty placeholder node.
    pub fn new() -> (n: Node)
        ensures
            n.split == 0,
            n.left is None,
            n.right is None,
            n.point is None,
            n.boundary is None,
            n.deep == 0,
    {
        Node {
            split: 0,
            left: Option::None,
            right: Option::None,
            point: Option::None,
            boundary: Option::None,
            deep: 0,
        }
    }

    /// The in-order sequence of coordinate vectors in this subtree.
    pub open spec fn pts(self) -> Seq<Seq<i32>>
        decreases self,
    {
        opt_pts(self.left) + (match self.point {
            Option::Some(p) => seq![p@],
            Option::None => seq![],
        }) + opt_pts(self.right)
    }

    /// This node's point, as a coordinate sequence.
    pub open spec fn pt(self) -> Seq<i32> {
        self.point.unwrap()@
    }

    /// Structural well-formedness of a non-placeholder subtree: every node
    /// holds a point of `dims` coordinates and a split axis below `dims`,
    /// all left-descendant points are strictly smaller on that axis, and
    /// all right-descendant points are greater or equal.
    pub open spec fn wf_node(self, dims: nat) -> bool
        decreases self,
    {
        &&& self.point is Some
        &&& self.pt().len() == dims
        &&& self.point.unwrap().n == dims
        &&& self.split < dims
        &&& (match self.left {
            Option::Some(l) => {
                &&& l.wf_node(dims)
                &&& all_on_axis_lt(l.pts(), self.split as int, self.pt()[self.split as int])
            },
            Option::None => true,
        })
        &&& (match self.right {
            Option::Some(r) => {
                &&& r.wf_node(dims)
                &&& all_on_axis_ge(r.pts(), self.split as int, self.pt()[self.split as int])
            },
            Option::None => true,
        })
    }

    /// The `deep` field of every node of this subtree records its 1-based
    /// depth from the root.
    pub open spec fn depths_ok(self, depth: nat) -> bool
        decreases self,
    {
        &&& self.deep == depth
        &&& (match self.left {
            Option::Some(l) => l.depths_ok(depth + 1),
            Option::None => true,
        })
        &&& (match self.right {
            Option::Some(r) => r.depths_ok(depth + 1),
            Option::None => true,
        })
    }

    /// Boundary bookkeeping of spread-maximizing insertion: this node
    /// carries exactly the box `b`, its point lies in `b` half-open, and
    /// each child carries `b` narrowed on this node's split axis to the
    /// side the child lies on.
    pub open spec fn bnd_ok(self, b: Seq<Seq<i32>>) -> bool
        decreases self,
    {
        &&& self.point is Some
        &&& self.boundary is Some
        &&& self.boundary.unwrap().deep_view() =~= b
        &&& b.len() == self.pt().len()
        &&& (forall|i: int| 0 <= i < b.len() ==> (#[trigger] b[i]).len() == 2)
        &&& (forall|i: int|
            0 <= i < b.len() ==> (#[trigger] b[i])[0] <= self.pt()[i] < b[i][1])
        &&& (match self.left {
            Option::Some(l) => l.bnd_ok(
                b.update(self.split as int, seq![b[self.split as int][0], self.pt()[self.split as int]]),
            ),
            Option::None => true,
        })
        &&& (match self.right {
            Option::Some(r) => r.bnd_ok(
                b.update(self.split as int, seq![self.pt()[self.split as int], b[self.split as int][1]]),
            ),
            Option::None => true,
        })
    }

    /// The boundary invariant spelled out: every point contained in a
    /// subtree lies within that subtree root's box (half-open on each
    /// axis), because each child's box is a narrowing of its parent's on
    /// the side the child's points lie.
    pub proof fn lemma_bnd_all_in_box(self, b: Seq<Seq<i32>>, dims: nat)
        requires
            self.wf_node(dims),
            self.bnd_ok(b),
        ensures
            forall|j: int|
                0 <= j < self.pts().len() ==> crate::point::in_domain(#[trigger] self.pts()[j], b),
        decreases self,
    {
        let split = self.split as int;
        let v = self.pt()[split];
        self.lemma_wf_children_dims(dims);
        if let Option::Some(l) = self.left {
            let bl = b.update(split, seq![b[split][0], v]);
            l.lemma_bnd_all_in_box(bl, dims);
            assert forall|j: int| 0 <= j < l.pts().len() implies crate::point::in_domain(
                #[trigger] l.pts()[j],
                b,
            ) by {
                let p = l.pts()[j];
                assert(crate::point::in_domain(p, bl));
                assert forall|i: int| 0 <= i < b.len() implies (#[trigger] b[i])[0] <= p[i]
                    < b[i][1] by {
                    assert(bl[i][0] <= p[i] < bl[i][1]);
                    if i == split {
                        assert(v < b[split][1]);
                    } else {
                        assert(bl[i] == b[i]);
                    }
                }
            }
        }
        if let Option::Some(r) = self.right {
            let br = b.update(split, seq![v, b[split][1]]);
            r.lemma_bnd_all_in_box(br, dims);
            assert forall|j: int| 0 <= j < r.pts().len() implies crate::point::in_domain(
                #[trigger] r.pts()[j],
                b,
            ) by {
                let p = r.pts()[j];
                assert(crate::point::in_domain(p, br));
                assert forall|i: int| 0 <= i < b.len() implies (#[trigger] b[i])[0] <= p[i]
                    < b[i][1] by {
                    assert(br[i][0] <= p[i] < br[i][1]);
                    if i == split {
                        assert(b[split][0] <= v);
                    } else {
                        assert(br[i] == b[i]);
                    }
                }
            }
        }
        assert forall|j: int| 0 <= j < self.pts().len() implies crate::point::in_domain(
            #[trigger] self.pts()[j],
            b,
        ) by {
            let lp = opt_pts(self.left);
            let rp = opt_pts(self.right);
            if j < lp.len() {
                assert(self.pts()[j] == lp[j]);
            } else if j == lp.len() {
                assert(self.pts()[j] == self.pt());
            } else {
                assert(self.pts()[j] == rp[j - lp.len() - 1]);
            }
        }
    }

    /// A subtree's point sequence splits into left points, the node's own
    /// point, and right points, as multisets.
    pub proof fn lemma_pts_decompose(self)
        requires
            self.point is Some,
        ensures
            self.pts().to_multiset() =~= opt_pts(self.left).to_multiset().insert(self.pt()).add(
                opt_pts(self.right).to_multiset(),
            ),
            self.pts().len() == opt_pts(self.left).len() + 1 + opt_pts(self.right).len(),
    {
        broadcast use vstd::seq_lib::group_to_multiset_ensures;

        let l = opt_pts(self.left);
        let m = seq![self.pt()];
        let r = opt_pts(self.right);
        vstd::seq_lib::lemma_multiset_commutative(l + m, r);
        vstd::seq_lib::lemma_multiset_commutative(l, m);
        assert(m =~= Seq::<Seq<i32>>::empty().push(self.pt()));
        assert(m.to_multiset() =~= Multiset::<Seq<i32>>::empty().insert(self.pt()));
        assert(l.to_multiset().add(m.to_multiset()) =~= l.to_multiset().insert(self.pt()));
    }

    /// All points of a well-formed subtree, and of each child subtree,
    /// share the dimension `dims`.
    pub proof fn lemma_wf_children_dims(self, dims: nat)
        requires
            self.wf_node(dims),
        ensures
            all_dims(self.pts(), dims),
            all_dims(opt_pts(self.left), dims),
            all_dims(opt_pts(self.right), dims),
    {
        self.lemma_wf_all_dims(dims);
        match self.left {
            Option::Some(l) => l.lemma_wf_all_dims(dims),
            Option::None => {},
        }
        match self.right {
            Option::Some(r) => r.lemma_wf_all_dims(dims),
            Option::None => {},
        }
    }

    /// All points of a well-formed subtree share the dimension `dims`.
    pub proof fn lemma_wf_all_dims(self, dims: nat)
        requires
            self.wf_node(dims),
        ensures
            all_dims(self.pts(), dims),
        decreases self,
    {
        if let Option::Some(l) = self.left {
            l.lemma_wf_all_dims(dims);
        }
        if let Option::Some(r) = self.right {
            r.lemma_wf_all_dims(dims);
        }
    }
}

} // verus!
