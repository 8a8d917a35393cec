//! The exact minimum-distance query: the squared distance from a query
//! point to the closest point in the tree, computed by descending the
//! insertion path, walking it in reverse, and searching a sibling subtree
//! only when the 1-D split-axis gap still allows a closer point.
//!
//! The pruning check compares coordinates only, never boundary boxes, so
//! the query is exact for every tree that keeps the routing invariant —
//! under both insertion policies.
use vstd::prelude::*;
use crate::kdfc::KdfcArt;
use crate::node::Node;
use crate::node::all_dims;
use crate::node::all_on_axis_ge;
use crate::node::all_on_axis_lt;
use crate::node::opt_pts;
use crate::point::Point;
use crate::point::lemma_axis_gap_le_sq_dist;
use crate::point::lemma_sq_dist_bound;
use crate::point::lemma_sq_monotone;
use crate::point::sq;
use crate::point::sq_dist;

verus! {

/// The smaller of two integers.
pub open spec fn imin(a: int, b: int) -> int {
    if a <= b {
        a
    } else {
        b
    }
}

/// The least squared distance from `q` to any point of `pts`, or the
/// `u128::MAX` sentinel when `pts` is empty. This is the brute-force
/// minimum: the fold of `sq_dist(q, -)` over every point.
pub open spec fn min_sqd(q: Seq<i32>, pts: Seq<Seq<i32>>) -> int
    decreases pts.len(),
{
    if pts.len() == 0 {
        u128::MAX as int
    } else {
        imin(sq_dist(q, pts[0]), min_sqd(q, pts.subrange(1, pts.len() as int)))
    }
}

/// The brute-force minimum never exceeds the sentinel.
pub proof fn lemma_min_sqd_le_sentinel(q: Seq<i32>, pts: Seq<Seq<i32>>)
    ensures
        min_sqd(q, pts) <= u128::MAX,
    decreases pts.len(),
{
    if pts.len() > 0 {
        lemma_min_sqd_le_sentinel(q, pts.subrange(1, pts.len() as int));
    }
}

/// The minimum over a concatenation is the smaller of the two minima.
pub proof fn lemma_min_sqd_concat(q: Seq<i32>, a: Seq<Seq<i32>>, b: Seq<Seq<i32>>)
    ensures
        min_sqd(q, a + b) == imin(min_sqd(q, a), min_sqd(q, b)),
    decreases a.len(),
{
    if a.len() == 0 {
        assert(a + b =~= b);
        lemma_min_sqd_le_sentinel(q, b);
    } else {
        lemma_min_sqd_concat(q, a.subrange(1, a.len() as int), b);
        assert((a + b).subrange(1, (a + b).len() as int) =~= a.subrange(1, a.len() as int) + b);
        assert((a + b)[0] == a[0]);
    }
}

/// Appending one point takes the minimum down to that point's distance
/// when it is closer, and leaves it otherwise.
pub proof fn lemma_min_sqd_push(q: Seq<i32>, s: Seq<Seq<i32>>, x: Seq<i32>)
    requires
        sq_dist(q, x) < u128::MAX,
    ensures
        min_sqd(q, s.push(x)) == imin(min_sqd(q, s), sq_dist(q, x)),
{
    let single = seq![x];
    assert(s.push(x) =~= s + single);
    lemma_min_sqd_concat(q, s, single);
    assert(single.subrange(1, 1) =~= Seq::<Seq<i32>>::empty());
    assert(min_sqd(q, single.subrange(1, 1)) == u128::MAX as int);
    assert(min_sqd(q, single) == imin(sq_dist(q, x), u128::MAX as int));
}

/// The minimum is a lower bound on each point's distance.
pub proof fn lemma_min_sqd_le(q: Seq<i32>, pts: Seq<Seq<i32>>, i: int)
    requires
        0 <= i < pts.len(),
    ensures
        min_sqd(q, pts) <= sq_dist(q, pts[i]),
    decreases pts.len(),
{
    if i > 0 {
        lemma_min_sqd_le(q, pts.subrange(1, pts.len() as int), i - 1);
    }
}

/// The minimum over a non-empty collection is attained by some point.
pub proof fn lemma_min_sqd_exists(q: Seq<i32>, pts: Seq<Seq<i32>>)
    requires
        pts.len() > 0,
        all_dims(pts, q.len()),
        q.len() <= usize::MAX,
    ensures
        exists|i: int| 0 <= i < pts.len() && min_sqd(q, pts) == sq_dist(q, #[trigger] pts[i]),
    decreases pts.len(),
{
    let rest = pts.subrange(1, pts.len() as int);
    lemma_sq_dist_bound(q, pts[0]);
    if rest.len() == 0 {
        assert(min_sqd(q, rest) == u128::MAX as int);
    } else {
        if min_sqd(q, pts) == sq_dist(q, pts[0]) {
        } else {
            lemma_min_sqd_exists(q, rest);
            let j = choose|j: int|
                0 <= j < rest.len() && min_sqd(q, rest) == sq_dist(q, #[trigger] rest[j]);
            assert(pts[j + 1] == rest[j]);
        }
    }
}

/// `min_sqd(q, pts)` equals the brute-force minimum of `sq_dist(q, p)`
/// over every point `p` of a non-empty `pts`: it is attained by one of the
/// points and is a lower bound on all of them.
pub proof fn lemma_min_sqd_is_brute_force_min(q: Seq<i32>, pts: Seq<Seq<i32>>)
    requires
        pts.len() > 0,
        all_dims(pts, q.len()),
        q.len() <= usize::MAX,
    ensures
        exists|i: int| 0 <= i < pts.len() && min_sqd(q, pts) == sq_dist(q, #[trigger] pts[i]),
        forall|i: int| 0 <= i < pts.len() ==> min_sqd(q, pts) <= sq_dist(q, #[trigger] pts[i]),
{
    lemma_min_sqd_exists(q, pts);
    assert forall|i: int| 0 <= i < pts.len() implies min_sqd(q, pts) <= sq_dist(
        q,
        #[trigger] pts[i],
    ) by {
        lemma_min_sqd_le(q, pts, i);
    }
}

/// Every point's distance at least `m` puts the minimum at least `m`.
pub proof fn lemma_min_sqd_ge(q: Seq<i32>, pts: Seq<Seq<i32>>, m: int)
    requires
        m <= u128::MAX,
        forall|i: int| 0 <= i < pts.len() ==> sq_dist(q, #[trigger] pts[i]) >= m,
    ensures
        min_sqd(q, pts) >= m,
    decreases pts.len(),
{
    if pts.len() > 0 {
        let rest = pts.subrange(1, pts.len() as int);
        lemma_min_sqd_ge(q, rest, m);
    }
}

/// Points all at or above `v` on `axis`, with the query at or below `v`,
/// sit no closer than the squared axis gap: a subtree on the far side of
/// the split line may be skipped once the gap alone reaches the running
/// minimum.
pub proof fn lemma_far_side_ge(q: Seq<i32>, pts: Seq<Seq<i32>>, axis: int, v: i32, m: int)
    requires
        all_dims(pts, q.len()),
        0 <= axis < q.len(),
        all_on_axis_ge(pts, axis, v),
        q[axis] <= v,
        m <= sq(v - q[axis]),
        m <= u128::MAX,
    ensures
        min_sqd(q, pts) >= m,
{
    assert forall|i: int| 0 <= i < pts.len() implies sq_dist(q, #[trigger] pts[i]) >= m by {
        lemma_axis_gap_le_sq_dist(q, pts[i], axis);
        lemma_sq_monotone(v - q[axis], pts[i][axis] - q[axis]);
        assert(sq(q[axis] - pts[i][axis]) == sq(pts[i][axis] - q[axis])) by (nonlinear_arith);
    }
    lemma_min_sqd_ge(q, pts, m);
}

/// The counterpart of `lemma_far_side_ge` for points strictly below `v`
/// with the query at or above `v`.
pub proof fn lemma_far_side_lt(q: Seq<i32>, pts: Seq<Seq<i32>>, axis: int, v: i32, m: int)
    requires
        all_dims(pts, q.len()),
        0 <= axis < q.len(),
        all_on_axis_lt(pts, axis, v),
        q[axis] >= v,
        m <= sq(v - q[axis]),
        m <= u128::MAX,
    ensures
        min_sqd(q, pts) >= m,
{
    assert forall|i: int| 0 <= i < pts.len() implies sq_dist(q, #[trigger] pts[i]) >= m by {
        lemma_axis_gap_le_sq_dist(q, pts[i], axis);
        lemma_sq_monotone(q[axis] - v, q[axis] - pts[i][axis]);
        assert(sq(v - q[axis]) == sq(q[axis] - v)) by (nonlinear_arith);
    }
    lemma_min_sqd_ge(q, pts, m);
}

/// The minimum over a node's subtree, split into the left subtree, the
/// node's own point, and the right subtree.
pub proof fn lemma_min_sqd_node(q: Seq<i32>, node: Node)
    requires
        node.point is Some,
    ensures
        min_sqd(q, node.pts()) == imin(
            min_sqd(q, opt_pts(node.left)),
            imin(sq_dist(q, node.pt()), min_sqd(q, opt_pts(node.right))),
        ),
{
    let l = opt_pts(node.left);
    let m = seq![node.pt()];
    let r = opt_pts(node.right);
    lemma_min_sqd_concat(q, l + m, r);
    lemma_min_sqd_concat(q, l, m);
    assert(m.subrange(1, 1) =~= Seq::<Seq<i32>>::empty());
    assert(min_sqd(q, m.subrange(1, 1)) == u128::MAX as int);
    assert(min_sqd(q, m) == imin(sq_dist(q, node.pt()), u128::MAX as int));
    lemma_min_sqd_le_sentinel(q, r);
    lemma_min_sqd_le_sentinel(q, l);
}

/// The search path of `q`: the nodes an insertion of `q` would visit,
/// root first, ending at the deepest node whose child on the descent side
/// is absent.
pub open spec fn descent_path(node: Node, q: Seq<i32>) -> Seq<Node>
    decreases node,
{
    seq![node] + (if q[node.split as int] < node.pt()[node.split as int] {
        match node.left {
            Option::Some(l) => descent_path(*l, q),
            Option::None => seq![],
        }
    } else {
        match node.right {
            Option::Some(r) => descent_path(*r, q),
            Option::None => seq![],
        }
    })
}

impl KdfcArt {
    /// The search path of `point` through the tree, root first: the
    /// sequence of nodes an insertion of `point` would visit. On an
    /// as-yet-empty tree it holds the placeholder root alone.
    pub fn get_tree_path(&self, point: &Point) -> (path: Vec<&Node>)
        requires
            self.inv(),
            point.wf(),
            point@.len() == self.dims(),
        ensures
            path@.map_values(|n: &Node| *n) =~= (if self.size == 0 {
                seq![self.root]
            } else {
                descent_path(self.root, point@)
            }),
    {
        if self.root.point.is_none() {
            proof {
                assert(self.size == 0);
            }
            let mut path: Vec<&Node> = Vec::new();
            path.push(&self.root);
            proof {
                assert(path@.map_values(|n: &Node| *n) =~= seq![self.root]);
            }
            path
        } else {
            Self::tree_path_rec(&self.root, point)
        }
    }

    /// Recursive descent building the search path.
    fn tree_path_rec<'a>(node: &'a Node, p: &Point) -> (path: Vec<&'a Node>)
        requires
            node.wf_node(p@.len() as nat),
            p.wf(),
        ensures
            path@.map_values(|n: &Node| *n) =~= descent_path(*node, p@),
        decreases *node,
    {
        let mut path: Vec<&'a Node> = Vec::new();
        path.push(node);
        let split = node.split;
        if p.coordinates[split] < node.point.as_ref().unwrap().coordinates[split] {
            if let Some(l) = &node.left {
                let mut rest = Self::tree_path_rec(l, p);
                proof {
                    assert((path@ + rest@).map_values(|n: &Node| *n) =~= path@.map_values(
                        |n: &Node| *n,
                    ) + rest@.map_values(|n: &Node| *n));
                }
                path.append(&mut rest);
            }
        } else {
            if let Some(r) = &node.right {
                let mut rest = Self::tree_path_rec(r, p);
                proof {
                    assert((path@ + rest@).map_values(|n: &Node| *n) =~= path@.map_values(
                        |n: &Node| *n,
                    ) + rest@.map_values(|n: &Node| *n));
                }
                path.append(&mut rest);
            }
        }
        path
    }

    /// Which side of `node` the point `p` falls on: 0 for the left
    /// (strictly smaller on the node's split axis), 1 for the right.
    pub fn judge_direction(&self, p: &Point, node: &Node) -> (r: i32)
        requires
            node.point is Some,
            node.split < p@.len(),
            node.pt().len() == p@.len(),
        ensures
            r == (if p@[node.split as int] < node.pt()[node.split as int] {
                0i32
            } else {
                1i32
            }),
    {
        if p.coordinates[node.split] < node.point.as_ref().unwrap().coordinates[node.split] {
            0
        } else {
            1
        }
    }

    /// Whether a point within squared distance `distance` of `p` could
    /// still lie on the other side of `node`'s split line: true exactly
    /// when the squared 1-D gap on the split axis is below `distance`.
    pub fn is_cross_split_line(&self, p: &Point, distance: u128, node: &Node) -> (r: bool)
        requires
            node.point is Some,
            node.split < p@.len(),
            node.pt().len() == p@.len(),
        ensures
            r == (sq(node.pt()[node.split as int] - p@[node.split as int]) < distance),
    {
        let split = node.split;
        let d: i64 = node.point.as_ref().unwrap().coordinates[split] as i64
            - p.coordinates[split] as i64;
        let d_wide: i128 = d as i128;
        proof {
            crate::point::lemma_sq_nonneg(d as int);
            assert((d as int) * (d as int) <= (u32::MAX as int) * (u32::MAX as int))
                by (nonlinear_arith)
                requires
                    -(u32::MAX as int) <= d as int <= u32::MAX as int,
            ;
        }
        let gap_sq: i128 = d_wide * d_wide;
        if (gap_sq as u128) >= distance {
            false
        } else {
            true
        }
    }

    /// The exact query: the squared distance from `p` to the closest
    /// point in the tree — exactly the brute-force minimum over every
    /// inserted point (see `lemma_min_sqd_is_brute_force_min`).
    pub fn get_min_dis_by_all(&self, p: &Point) -> (r: u128)
        requires
            self.inv(),
            self.size >= 1,
            p.wf(),
            p@.len() == self.dims(),
        ensures
            r == min_sqd(p@, self.pts()),
            r < u128::MAX,
    {
        let r = self.walk_full(&self.root, p, u128::MAX);
        proof {
            self.root.lemma_wf_all_dims(self.dims());
            assert(self.pts().len() > 0);
            lemma_min_sqd_le(p@, self.pts(), 0);
            lemma_sq_dist_bound(p@, self.pts()[0]);
        }
        r
    }

    /// Reverse walk of the descent path: search the deeper path first,
    /// then test this node's point and — only when the split-axis gap
    /// still allows it — search the far subtree.
    fn walk_full(&self, node: &Node, p: &Point, best: u128) -> (r: u128)
        requires
            node.wf_node(p@.len() as nat),
            p.wf(),
        ensures
            r as int == imin(best as int, min_sqd(p@, node.pts())),
            r <= best,
        decreases *node,
    {
        proof {
            lemma_min_sqd_node(p@, *node);
            lemma_min_sqd_le_sentinel(p@, opt_pts(node.left));
            lemma_min_sqd_le_sentinel(p@, opt_pts(node.right));
            node.lemma_wf_children_dims(p@.len() as nat);
        }
        let split = node.split;
        let dir = self.judge_direction(p, node);
        let mut best = best;
        if dir == 0 {
            if let Some(l) = &node.left {
                best = self.walk_full(l, p, best);
            }
        } else {
            if let Some(r) = &node.right {
                best = self.walk_full(r, p, best);
            }
        }
        let ghost after_near = best as int;
        if self.is_cross_split_line(p, best, node) {
            let d = Point::sq_distance(p, node.point.as_ref().unwrap());
            if d < best {
                best = d;
            }
            if dir == 0 {
                if let Some(r) = &node.right {
                    best = self.dfs_full(r, p, best);
                }
            } else {
                if let Some(l) = &node.left {
                    best = self.dfs_full(l, p, best);
                }
            }
        } else {
            proof {
                let x = node.pt()[split as int] as int;
                let y = p@[split as int] as int;
                lemma_axis_gap_le_sq_dist(p@, node.pt(), split as int);
                assert((y - x) * (y - x) == (x - y) * (x - y)) by (nonlinear_arith);
                assert(sq(p@[split as int] - node.pt()[split as int]) == sq(
                    node.pt()[split as int] - p@[split as int],
                ));
                if dir == 0 {
                    if node.right is Some {
                        lemma_far_side_ge(
                            p@,
                            opt_pts(node.right),
                            split as int,
                            node.pt()[split as int],
                            after_near,
                        );
                    }
                } else {
                    if node.left is Some {
                        lemma_far_side_lt(
                            p@,
                            opt_pts(node.left),
                            split as int,
                            node.pt()[split as int],
                            after_near,
                        );
                    }
                }
            }
        }
        best
    }

    /// Depth-first search of one sibling subtree: test this node's point
    /// when the split-axis gap allows, always continue into the near-side
    /// child, and continue into the far-side child only when the gap
    /// allowed this node.
    fn dfs_full(&self, node: &Node, p: &Point, best: u128) -> (r: u128)
        requires
            node.wf_node(p@.len() as nat),
            p.wf(),
        ensures
            r as int == imin(best as int, min_sqd(p@, node.pts())),
            r <= best,
        decreases *node,
    {
        proof {
            lemma_min_sqd_node(p@, *node);
            lemma_min_sqd_le_sentinel(p@, opt_pts(node.left));
            lemma_min_sqd_le_sentinel(p@, opt_pts(node.right));
            node.lemma_wf_children_dims(p@.len() as nat);
        }
        let split = node.split;
        let dir = self.judge_direction(p, node);
        let crossed = self.is_cross_split_line(p, best, node);
        let ghost entry = best as int;
        let mut best = best;
        if crossed {
            let d = Point::sq_distance(p, node.point.as_ref().unwrap());
            if d < best {
                best = d;
            }
        } else {
            proof {
                let x = node.pt()[split as int] as int;
                let y = p@[split as int] as int;
                lemma_axis_gap_le_sq_dist(p@, node.pt(), split as int);
                assert((y - x) * (y - x) == (x - y) * (x - y)) by (nonlinear_arith);
                assert(sq(p@[split as int] - node.pt()[split as int]) == sq(
                    node.pt()[split as int] - p@[split as int],
                ));
            }
        }
        if dir == 0 {
            if let Some(l) = &node.left {
                best = self.dfs_full(l, p, best);
            }
        } else {
            if let Some(r) = &node.right {
                best = self.dfs_full(r, p, best);
            }
        }
        if crossed {
            if dir == 0 {
                if let Some(r) = &node.right {
                    best = self.dfs_full(r, p, best);
                }
            } else {
                if let Some(l) = &node.left {
                    best = self.dfs_full(l, p, best);
                }
            }
        } else {
            proof {
                if dir == 0 {
                    if node.right is Some {
                        lemma_far_side_ge(
                            p@,
                            opt_pts(node.right),
                            split as int,
                            node.pt()[split as int],
                            entry,
                        );
                    }
                } else {
                    if node.left is Some {
                        lemma_far_side_lt(
                            p@,
                            opt_pts(node.left),
                            split as int,
                            node.pt()[split as int],
                            entry,
                        );
                    }
                }
            }
        }
        best
    }
}

} // verus!
