//! The budget-bounded minimum-distance query: the same traversal as the
//! exact query, except that a visit counter advances at every path node and
//! at every evaluated subtree node, and the search returns the current
//! running minimum the instant the counter reaches the budget.
//!
//! The whole traversal is mirrored by spec functions (`walk_b`, `dfs_b`),
//! and the executable query is proved to return exactly their result; the
//! query laws — the result never underestimates the exact minimum, and it
//! is non-increasing as the budget grows — are proved of the mirror by
//! induction over the tree.
use vstd::prelude::*;
use crate::kdfc::KdfcArt;
use crate::node::Node;
use crate::node::opt_pts;
use crate::point::Point;
use crate::point::sq;
use crate::point::sq_dist;
use crate::point::lemma_axis_gap_le_sq_dist;
use crate::query::imin;
use crate::query::lemma_far_side_ge;
use crate::query::lemma_far_side_lt;
use crate::query::lemma_min_sqd_le_sentinel;
use crate::query::lemma_min_sqd_node;
use crate::query::min_sqd;

verus! {

/// The running state of a bounded search: the running minimum, the visit
/// counter, and whether the budget cut the search off.
pub struct BState {
    pub best: int,
    pub num: int,
    pub stopped: bool,
}

/// One subtree of the depth-first sibling search, bounded. The node's own
/// point is evaluated first when the split-axis gap allows; the near-side
/// child is always searched; the far-side child is searched only when the
/// gap allowed this node.
pub open spec fn dfs_b(node: Node, q: Seq<i32>, best: int, num: int, back: int) -> BState
    decreases node,
{
    let v = node.pt()[node.split as int];
    let gap = sq(v - q[node.split as int]);
    let dir_left = q[node.split as int] < v;
    let crossed = gap < best;
    let best1 = if crossed {
        imin(best, sq_dist(q, node.pt()))
    } else {
        best
    };
    let num1 = if crossed {
        num + 1
    } else {
        num
    };
    if crossed && num1 == back {
        BState { best: best1, num: num1, stopped: true }
    } else {
        let near = if dir_left {
            node.left
        } else {
            node.right
        };
        let s2 = opt_dfs_b(near, q, best1, num1, back);
        if s2.stopped {
            s2
        } else if crossed {
            let far = if dir_left {
                node.right
            } else {
                node.left
            };
            opt_dfs_b(far, q, s2.best, s2.num, back)
        } else {
            s2
        }
    }
}

pub open spec fn opt_dfs_b(o: Option<Box<Node>>, q: Seq<i32>, best: int, num: int, back: int) -> BState
    decreases o,
{
    match o {
        Option::None => BState { best, num, stopped: false },
        Option::Some(n) => dfs_b(*n, q, best, num, back),
    }
}

/// The reverse walk of the descent path, bounded. The deeper path is
/// searched first; then this node's point is evaluated when the gap
/// allows (advancing the counter either way) and its far subtree searched.
pub open spec fn walk_b(node: Node, q: Seq<i32>, best: int, num: int, back: int) -> BState
    decreases node,
{
    let v = node.pt()[node.split as int];
    let gap = sq(v - q[node.split as int]);
    let dir_left = q[node.split as int] < v;
    let near = if dir_left {
        node.left
    } else {
        node.right
    };
    let s1 = opt_walk_b(near, q, best, num, back);
    if s1.stopped {
        s1
    } else {
        let crossed = gap < s1.best;
        if crossed {
            let best2 = imin(s1.best, sq_dist(q, node.pt()));
            let num2 = s1.num + 1;
            if num2 == back {
                BState { best: best2, num: num2, stopped: true }
            } else {
                let far = if dir_left {
                    node.right
                } else {
                    node.left
                };
                opt_dfs_b(far, q, best2, num2, back)
            }
        } else {
            let num2 = s1.num + 1;
            BState { best: s1.best, num: num2, stopped: num2 == back }
        }
    }
}

pub open spec fn opt_walk_b(o: Option<Box<Node>>, q: Seq<i32>, best: int, num: int, back: int) -> BState
    decreases o,
{
    match o {
        Option::None => BState { best, num, stopped: false },
        Option::Some(n) => walk_b(*n, q, best, num, back),
    }
}

/// What the bounded query returns: the running minimum of the bounded
/// walk started at the root with the sentinel and a zero counter.
pub open spec fn bounded_result(t: KdfcArt, q: Seq<i32>, back: int) -> int {
    walk_b(t.root, q, u128::MAX as int, 0, back).best
}

/// Frame facts of the bounded sibling search: the running minimum never
/// grows, and the counter advances by at most one step per subtree point.
pub proof fn lemma_dfs_b_frame(node: Node, q: Seq<i32>, best: int, num: int, back: int, dims: nat)
    requires
        node.wf_node(dims),
    ensures
        dfs_b(node, q, best, num, back).best <= best,
        num <= dfs_b(node, q, best, num, back).num,
        dfs_b(node, q, best, num, back).num <= num + node.pts().len(),
    decreases node,
{
    node.lemma_pts_decompose();
    let v = node.pt()[node.split as int];
    let dir_left = q[node.split as int] < v;
    let crossed = sq(v - q[node.split as int]) < best;
    let best1 = if crossed {
        imin(best, sq_dist(q, node.pt()))
    } else {
        best
    };
    let num1 = if crossed {
        num + 1
    } else {
        num
    };
    if !(crossed && num1 == back) {
        let near = if dir_left {
            node.left
        } else {
            node.right
        };
        let far = if dir_left {
            node.right
        } else {
            node.left
        };
        lemma_opt_dfs_b_frame(near, q, best1, num1, back, dims);
        let s2 = opt_dfs_b(near, q, best1, num1, back);
        if !s2.stopped && crossed {
            lemma_opt_dfs_b_frame(far, q, s2.best, s2.num, back, dims);
        }
    }
}

pub proof fn lemma_opt_dfs_b_frame(
    o: Option<Box<Node>>,
    q: Seq<i32>,
    best: int,
    num: int,
    back: int,
    dims: nat,
)
    requires
        o is Some ==> o.unwrap().wf_node(dims),
    ensures
        opt_dfs_b(o, q, best, num, back).best <= best,
        num <= opt_dfs_b(o, q, best, num, back).num,
        opt_dfs_b(o, q, best, num, back).num <= num + opt_pts(o).len(),
    decreases o,
{
    match o {
        Option::None => {},
        Option::Some(n) => {
            lemma_dfs_b_frame(*n, q, best, num, back, dims);
        },
    }
}

/// Frame facts of the bounded path walk.
pub proof fn lemma_walk_b_frame(node: Node, q: Seq<i32>, best: int, num: int, back: int, dims: nat)
    requires
        node.wf_node(dims),
    ensures
        walk_b(node, q, best, num, back).best <= best,
        num <= walk_b(node, q, best, num, back).num,
        walk_b(node, q, best, num, back).num <= num + node.pts().len(),
    decreases node,
{
    node.lemma_pts_decompose();
    let v = node.pt()[node.split as int];
    let dir_left = q[node.split as int] < v;
    let near = if dir_left {
        node.left
    } else {
        node.right
    };
    let far = if dir_left {
        node.right
    } else {
        node.left
    };
    lemma_opt_walk_b_frame(near, q, best, num, back, dims);
    let s1 = opt_walk_b(near, q, best, num, back);
    if !s1.stopped {
        let crossed = sq(v - q[node.split as int]) < s1.best;
        if crossed {
            let best2 = imin(s1.best, sq_dist(q, node.pt()));
            let num2 = s1.num + 1;
            if num2 != back {
                lemma_opt_dfs_b_frame(far, q, best2, num2, back, dims);
            }
        }
    }
}

pub proof fn lemma_opt_walk_b_frame(
    o: Option<Box<Node>>,
    q: Seq<i32>,
    best: int,
    num: int,
    back: int,
    dims: nat,
)
    requires
        o is Some ==> o.unwrap().wf_node(dims),
    ensures
        opt_walk_b(o, q, best, num, back).best <= best,
        num <= opt_walk_b(o, q, best, num, back).num,
        opt_walk_b(o, q, best, num, back).num <= num + opt_pts(o).len(),
    decreases o,
{
    match o {
        Option::None => {},
        Option::Some(n) => {
            lemma_walk_b_frame(*n, q, best, num, back, dims);
        },
    }
}

/// Soundness of the bounded sibling search: whatever the budget, the
/// result never drops below the smaller of the entry minimum and the
/// exact minimum over the subtree — every update is a distance to a real
/// point of the subtree.
pub proof fn lemma_dfs_b_sound(node: Node, q: Seq<i32>, best: int, num: int, back: int, dims: nat)
    requires
        node.wf_node(dims),
        q.len() == dims,
    ensures
        dfs_b(node, q, best, num, back).best >= imin(best, min_sqd(q, node.pts())),
    decreases node,
{
    lemma_min_sqd_node(q, node);
    lemma_min_sqd_le_sentinel(q, opt_pts(node.left));
    lemma_min_sqd_le_sentinel(q, opt_pts(node.right));
    let v = node.pt()[node.split as int];
    let dir_left = q[node.split as int] < v;
    let crossed = sq(v - q[node.split as int]) < best;
    let best1 = if crossed {
        imin(best, sq_dist(q, node.pt()))
    } else {
        best
    };
    let num1 = if crossed {
        num + 1
    } else {
        num
    };
    let target = imin(best, min_sqd(q, node.pts()));
    if !(crossed && num1 == back) {
        let near = if dir_left {
            node.left
        } else {
            node.right
        };
        let far = if dir_left {
            node.right
        } else {
            node.left
        };
        lemma_opt_dfs_b_sound(near, q, best1, num1, back, dims);
        let s2 = opt_dfs_b(near, q, best1, num1, back);
        if !s2.stopped && crossed {
            lemma_opt_dfs_b_sound(far, q, s2.best, s2.num, back, dims);
        }
    }
}

pub proof fn lemma_opt_dfs_b_sound(
    o: Option<Box<Node>>,
    q: Seq<i32>,
    best: int,
    num: int,
    back: int,
    dims: nat,
)
    requires
        o is Some ==> o.unwrap().wf_node(dims),
        q.len() == dims,
    ensures
        opt_dfs_b(o, q, best, num, back).best >= imin(best, min_sqd(q, opt_pts(o))),
    decreases o,
{
    match o {
        Option::None => {},
        Option::Some(n) => {
            lemma_dfs_b_sound(*n, q, best, num, back, dims);
        },
    }
}

/// Soundness of the bounded path walk, in the same sense.
pub proof fn lemma_walk_b_sound(node: Node, q: Seq<i32>, best: int, num: int, back: int, dims: nat)
    requires
        node.wf_node(dims),
        q.len() == dims,
    ensures
        walk_b(node, q, best, num, back).best >= imin(best, min_sqd(q, node.pts())),
    decreases node,
{
    lemma_min_sqd_node(q, node);
    lemma_min_sqd_le_sentinel(q, opt_pts(node.left));
    lemma_min_sqd_le_sentinel(q, opt_pts(node.right));
    let v = node.pt()[node.split as int];
    let dir_left = q[node.split as int] < v;
    let near = if dir_left {
        node.left
    } else {
        node.right
    };
    let far = if dir_left {
        node.right
    } else {
        node.left
    };
    lemma_opt_walk_b_sound(near, q, best, num, back, dims);
    let s1 = opt_walk_b(near, q, best, num, back);
    if !s1.stopped {
        let crossed = sq(v - q[node.split as int]) < s1.best;
        if crossed {
            let best2 = imin(s1.best, sq_dist(q, node.pt()));
            let num2 = s1.num + 1;
            if num2 != back {
                lemma_opt_dfs_b_sound(far, q, best2, num2, back, dims);
            }
        }
    }
}

pub proof fn lemma_opt_walk_b_sound(
    o: Option<Box<Node>>,
    q: Seq<i32>,
    best: int,
    num: int,
    back: int,
    dims: nat,
)
    requires
        o is Some ==> o.unwrap().wf_node(dims),
        q.len() == dims,
    ensures
        opt_walk_b(o, q, best, num, back).best >= imin(best, min_sqd(q, opt_pts(o))),
    decreases o,
{
    match o {
        Option::None => {},
        Option::Some(n) => {
            lemma_walk_b_sound(*n, q, best, num, back, dims);
        },
    }
}

impl KdfcArt {
    /// The bounded query: the same traversal as `get_min_dis_by_all`,
    /// except that a visit counter advances at every path node and every
    /// evaluated extra node, and the current running minimum is returned
    /// the instant the counter reaches `back` (a `back` of zero is never
    /// reached, so it means an unlimited budget). The result is exactly
    /// the bounded walk of the spec mirror; see `lemma_bounded_ge_exact`
    /// and `lemma_bounded_monotonic` for what holds of it.
    pub fn get_min_dis_by_backtracking(&self, p: &Point, back: usize) -> (r: u128)
        requires
            self.inv(),
            self.size >= 1,
            p.wf(),
            p@.len() == self.dims(),
        ensures
            r as int == bounded_result(*self, p@, back as int),
            r as int >= min_sqd(p@, self.pts()),
    {
        let result = self.walk_b_exec(&self.root, p, u128::MAX, 0, back);
        proof {
            lemma_walk_b_sound(self.root, p@, u128::MAX as int, 0, back as int, self.dims());
            lemma_min_sqd_le_sentinel(p@, self.pts());
        }
        result.0
    }

    /// Executable mirror of `walk_b`.
    fn walk_b_exec(&self, node: &Node, p: &Point, best: u128, num: usize, back: usize) -> (r: (
        u128,
        usize,
        bool,
    ))
        requires
            node.wf_node(p@.len() as nat),
            p.wf(),
            num + node.pts().len() <= usize::MAX,
        ensures
            ({
                let s = walk_b(*node, p@, best as int, num as int, back as int);
                r.0 as int == s.best && r.1 as int == s.num && r.2 == s.stopped
            }),
        decreases *node,
    {
        proof {
            node.lemma_pts_decompose();
        }
        let ghost dims = p@.len() as nat;
        let split = node.split;
        let dir = self.judge_direction(p, node);
        let ghost best0 = best as int;
        let ghost num0 = num as int;
        let mut best = best;
        let mut num = num;
        if dir == 0 {
            if let Some(l) = &node.left {
                let (b2, n2, s2) = self.walk_b_exec(l, p, best, num, back);
                if s2 {
                    return (b2, n2, true);
                }
                best = b2;
                num = n2;
            }
        } else {
            if let Some(rc) = &node.right {
                let (b2, n2, s2) = self.walk_b_exec(rc, p, best, num, back);
                if s2 {
                    return (b2, n2, true);
                }
                best = b2;
                num = n2;
            }
        }
        proof {
            let near = if dir == 0 {
                node.left
            } else {
                node.right
            };
            lemma_opt_walk_b_frame(near, p@, best0, num0, back as int, dims);
        }
        if self.is_cross_split_line(p, best, node) {
            let d = Point::sq_distance(p, node.point.as_ref().unwrap());
            if d < best {
                best = d;
            }
            num = num + 1;
            if num == back {
                return (best, num, true);
            }
            if dir == 0 {
                if let Some(rc) = &node.right {
                    let (b3, n3, s3) = self.dfs_b_exec(rc, p, best, num, back);
                    return (b3, n3, s3);
                }
            } else {
                if let Some(l) = &node.left {
                    let (b3, n3, s3) = self.dfs_b_exec(l, p, best, num, back);
                    return (b3, n3, s3);
                }
            }
            (best, num, false)
        } else {
            num = num + 1;
            if num == back {
                return (best, num, true);
            }
            (best, num, false)
        }
    }

    /// Executable mirror of `dfs_b`.
    fn dfs_b_exec(&self, node: &Node, p: &Point, best: u128, num: usize, back: usize) -> (r: (
        u128,
        usize,
        bool,
    ))
        requires
            node.wf_node(p@.len() as nat),
            p.wf(),
            num + node.pts().len() <= usize::MAX,
        ensures
            ({
                let s = dfs_b(*node, p@, best as int, num as int, back as int);
                r.0 as int == s.best && r.1 as int == s.num && r.2 == s.stopped
            }),
        decreases *node,
    {
        proof {
            node.lemma_pts_decompose();
        }
        let ghost dims = p@.len() as nat;
        let split = node.split;
        let dir = self.judge_direction(p, node);
        let crossed = self.is_cross_split_line(p, best, node);
        let mut best = best;
        let mut num = num;
        if crossed {
            let d = Point::sq_distance(p, node.point.as_ref().unwrap());
            if d < best {
                best = d;
            }
            num = num + 1;
            if num == back {
                return (best, num, true);
            }
        }
        let ghost best1 = best as int;
        let ghost num1 = num as int;
        if dir == 0 {
            if let Some(l) = &node.left {
                let (b2, n2, s2) = self.dfs_b_exec(l, p, best, num, back);
                if s2 {
                    return (b2, n2, true);
                }
                best = b2;
                num = n2;
            }
        } else {
            if let Some(rc) = &node.right {
                let (b2, n2, s2) = self.dfs_b_exec(rc, p, best, num, back);
                if s2 {
                    return (b2, n2, true);
                }
                best = b2;
                num = n2;
            }
        }
        proof {
            let near = if dir == 0 {
                node.left
            } else {
                node.right
            };
            lemma_opt_dfs_b_frame(near, p@, best1, num1, back as int, dims);
        }
        if crossed {
            if dir == 0 {
                if let Some(rc) = &node.right {
                    let (b3, n3, s3) = self.dfs_b_exec(rc, p, best, num, back);
                    return (b3, n3, s3);
                }
            } else {
                if let Some(l) = &node.left {
                    let (b3, n3, s3) = self.dfs_b_exec(l, p, best, num, back);
                    return (b3, n3, s3);
                }
            }
        }
        (best, num, false)
    }
}

/// Monotonicity of the bounded sibling search in its budget: a larger
/// budget reaches at least as far, so its running minimum is no larger;
/// and a search the smaller budget never cut off behaves identically
/// under the larger one.
pub proof fn lemma_dfs_b_mono(
    node: Node,
    q: Seq<i32>,
    best: int,
    num: int,
    b1: int,
    b2: int,
    dims: nat,
)
    requires
        node.wf_node(dims),
        0 <= num,
        1 <= b1 <= b2,
        num < b1,
    ensures
        ({
            let r1 = dfs_b(node, q, best, num, b1);
            let r2 = dfs_b(node, q, best, num, b2);
            &&& r2.best <= r1.best
            &&& (!r1.stopped ==> r1 == r2 && !r2.stopped && r1.num < b1)
        }),
    decreases node,
{
    let v = node.pt()[node.split as int];
    let dir_left = q[node.split as int] < v;
    let crossed = sq(v - q[node.split as int]) < best;
    let best1 = if crossed {
        imin(best, sq_dist(q, node.pt()))
    } else {
        best
    };
    let num1 = if crossed {
        num + 1
    } else {
        num
    };
    let near = if dir_left {
        node.left
    } else {
        node.right
    };
    let far = if dir_left {
        node.right
    } else {
        node.left
    };
    if crossed && num1 == b1 {
        if b1 < b2 {
            lemma_opt_dfs_b_frame(near, q, best1, num1, b2, dims);
            let s2 = opt_dfs_b(near, q, best1, num1, b2);
            if !s2.stopped {
                lemma_opt_dfs_b_frame(far, q, s2.best, s2.num, b2, dims);
            }
        }
    } else {
        lemma_opt_dfs_b_mono(near, q, best1, num1, b1, b2, dims);
        lemma_opt_dfs_b_frame(near, q, best1, num1, b1, dims);
        let s2_1 = opt_dfs_b(near, q, best1, num1, b1);
        let s2_2 = opt_dfs_b(near, q, best1, num1, b2);
        if !s2_1.stopped {
            if crossed {
                lemma_opt_dfs_b_mono(far, q, s2_1.best, s2_1.num, b1, b2, dims);
            }
        } else {
            if !s2_2.stopped && crossed {
                lemma_opt_dfs_b_frame(far, q, s2_2.best, s2_2.num, b2, dims);
            }
        }
    }
}

pub proof fn lemma_opt_dfs_b_mono(
    o: Option<Box<Node>>,
    q: Seq<i32>,
    best: int,
    num: int,
    b1: int,
    b2: int,
    dims: nat,
)
    requires
        o is Some ==> o.unwrap().wf_node(dims),
        0 <= num,
        1 <= b1 <= b2,
        num < b1,
    ensures
        ({
            let r1 = opt_dfs_b(o, q, best, num, b1);
            let r2 = opt_dfs_b(o, q, best, num, b2);
            &&& r2.best <= r1.best
            &&& (!r1.stopped ==> r1 == r2 && !r2.stopped && r1.num < b1)
        }),
    decreases o,
{
    match o {
        Option::None => {},
        Option::Some(n) => {
            lemma_dfs_b_mono(*n, q, best, num, b1, b2, dims);
        },
    }
}

/// Monotonicity of the bounded path walk in its budget.
pub proof fn lemma_walk_b_mono(
    node: Node,
    q: Seq<i32>,
    best: int,
    num: int,
    b1: int,
    b2: int,
    dims: nat,
)
    requires
        node.wf_node(dims),
        0 <= num,
        1 <= b1 <= b2,
        num < b1,
    ensures
        ({
            let r1 = walk_b(node, q, best, num, b1);
            let r2 = walk_b(node, q, best, num, b2);
            &&& r2.best <= r1.best
            &&& (!r1.stopped ==> r1 == r2 && !r2.stopped && r1.num < b1)
        }),
    decreases node,
{
    let v = node.pt()[node.split as int];
    let dir_left = q[node.split as int] < v;
    let near = if dir_left {
        node.left
    } else {
        node.right
    };
    let far = if dir_left {
        node.right
    } else {
        node.left
    };
    lemma_opt_walk_b_mono(near, q, best, num, b1, b2, dims);
    lemma_opt_walk_b_frame(near, q, best, num, b1, dims);
    lemma_opt_walk_b_frame(near, q, best, num, b2, dims);
    let s1_1 = opt_walk_b(near, q, best, num, b1);
    let s1_2 = opt_walk_b(near, q, best, num, b2);
    if !s1_1.stopped {
        let crossed = sq(v - q[node.split as int]) < s1_1.best;
        if crossed {
            let best2 = imin(s1_1.best, sq_dist(q, node.pt()));
            let num2 = s1_1.num + 1;
            if num2 == b1 {
                if b1 < b2 {
                    lemma_opt_dfs_b_frame(far, q, best2, num2, b2, dims);
                }
            } else {
                lemma_opt_dfs_b_mono(far, q, best2, num2, b1, b2, dims);
            }
        }
    } else {
        if !s1_2.stopped {
            let crossed2 = sq(v - q[node.split as int]) < s1_2.best;
            if crossed2 {
                let best2 = imin(s1_2.best, sq_dist(q, node.pt()));
                let num2 = s1_2.num + 1;
                if num2 != b2 {
                    lemma_opt_dfs_b_frame(far, q, best2, num2, b2, dims);
                }
            }
        }
    }
}

pub proof fn lemma_opt_walk_b_mono(
    o: Option<Box<Node>>,
    q: Seq<i32>,
    best: int,
    num: int,
    b1: int,
    b2: int,
    dims: nat,
)
    requires
        o is Some ==> o.unwrap().wf_node(dims),
        0 <= num,
        1 <= b1 <= b2,
        num < b1,
    ensures
        ({
            let r1 = opt_walk_b(o, q, best, num, b1);
            let r2 = opt_walk_b(o, q, best, num, b2);
            &&& r2.best <= r1.best
            &&& (!r1.stopped ==> r1 == r2 && !r2.stopped && r1.num < b1)
        }),
    decreases o,
{
    match o {
        Option::None => {},
        Option::Some(n) => {
            lemma_walk_b_mono(*n, q, best, num, b1, b2, dims);
        },
    }
}

/// With a budget of zero the counter never reaches the budget, so the
/// bounded sibling search completes and is exact.
proof fn lemma_dfs_b_exact0(node: Node, q: Seq<i32>, best: int, num: int, dims: nat)
    requires
        node.wf_node(dims),
        q.len() == dims,
        dims <= usize::MAX,
        num >= 0,
        best <= u128::MAX,
    ensures
        !dfs_b(node, q, best, num, 0).stopped,
        dfs_b(node, q, best, num, 0).best == imin(best, min_sqd(q, node.pts())),
    decreases node,
{
    lemma_min_sqd_node(q, node);
    lemma_min_sqd_le_sentinel(q, opt_pts(node.left));
    lemma_min_sqd_le_sentinel(q, opt_pts(node.right));
    node.lemma_wf_children_dims(dims);
    let split = node.split as int;
    let v = node.pt()[split];
    let dir_left = q[split] < v;
    let crossed = sq(v - q[split]) < best;
    let best1 = if crossed {
        imin(best, sq_dist(q, node.pt()))
    } else {
        best
    };
    let num1 = if crossed {
        num + 1
    } else {
        num
    };
    let near = if dir_left {
        node.left
    } else {
        node.right
    };
    let far = if dir_left {
        node.right
    } else {
        node.left
    };
    lemma_opt_dfs_b_exact0(near, q, best1, num1, dims);
    let s2 = opt_dfs_b(near, q, best1, num1, 0);
    lemma_opt_dfs_b_frame(near, q, best1, num1, 0, dims);
    if crossed {
        lemma_opt_dfs_b_exact0(far, q, s2.best, s2.num, dims);
    } else {
        lemma_axis_gap_le_sq_dist(q, node.pt(), split);
        assert((q[split] - v) * (q[split] - v) == (v - q[split]) * (v - q[split]))
            by (nonlinear_arith);
        assert(sq(q[split] - node.pt()[split]) == sq(v - q[split]));
        if dir_left {
            lemma_far_side_ge(q, opt_pts(node.right), split, v, best);
        } else {
            lemma_far_side_lt(q, opt_pts(node.left), split, v, best);
        }
    }
}

proof fn lemma_opt_dfs_b_exact0(o: Option<Box<Node>>, q: Seq<i32>, best: int, num: int, dims: nat)
    requires
        o is Some ==> o.unwrap().wf_node(dims),
        q.len() == dims,
        dims <= usize::MAX,
        num >= 0,
        best <= u128::MAX,
    ensures
        !opt_dfs_b(o, q, best, num, 0).stopped,
        opt_dfs_b(o, q, best, num, 0).best == imin(best, min_sqd(q, opt_pts(o))),
    decreases o,
{
    match o {
        Option::None => {
            lemma_min_sqd_le_sentinel(q, opt_pts(o));
        },
        Option::Some(n) => {
            lemma_dfs_b_exact0(*n, q, best, num, dims);
        },
    }
}

proof fn lemma_walk_b_exact0(node: Node, q: Seq<i32>, best: int, num: int, dims: nat)
    requires
        node.wf_node(dims),
        q.len() == dims,
        dims <= usize::MAX,
        num >= 0,
        best <= u128::MAX,
    ensures
        !walk_b(node, q, best, num, 0).stopped,
        walk_b(node, q, best, num, 0).best == imin(best, min_sqd(q, node.pts())),
    decreases node,
{
    lemma_min_sqd_node(q, node);
    lemma_min_sqd_le_sentinel(q, opt_pts(node.left));
    lemma_min_sqd_le_sentinel(q, opt_pts(node.right));
    node.lemma_wf_children_dims(dims);
    let split = node.split as int;
    let v = node.pt()[split];
    let dir_left = q[split] < v;
    let near = if dir_left {
        node.left
    } else {
        node.right
    };
    let far = if dir_left {
        node.right
    } else {
        node.left
    };
    lemma_opt_walk_b_exact0(near, q, best, num, dims);
    let s1 = opt_walk_b(near, q, best, num, 0);
    lemma_opt_walk_b_frame(near, q, best, num, 0, dims);
    let crossed = sq(v - q[split]) < s1.best;
    if crossed {
        let best2 = imin(s1.best, sq_dist(q, node.pt()));
        lemma_opt_dfs_b_exact0(far, q, best2, s1.num + 1, dims);
    } else {
        lemma_axis_gap_le_sq_dist(q, node.pt(), split);
        assert((q[split] - v) * (q[split] - v) == (v - q[split]) * (v - q[split]))
            by (nonlinear_arith);
        assert(sq(q[split] - node.pt()[split]) == sq(v - q[split]));
        if dir_left {
            lemma_far_side_ge(q, opt_pts(node.right), split, v, s1.best);
        } else {
            lemma_far_side_lt(q, opt_pts(node.left), split, v, s1.best);
        }
    }
}

proof fn lemma_opt_walk_b_exact0(o: Option<Box<Node>>, q: Seq<i32>, best: int, num: int, dims: nat)
    requires
        o is Some ==> o.unwrap().wf_node(dims),
        q.len() == dims,
        dims <= usize::MAX,
        num >= 0,
        best <= u128::MAX,
    ensures
        !opt_walk_b(o, q, best, num, 0).stopped,
        opt_walk_b(o, q, best, num, 0).best == imin(best, min_sqd(q, opt_pts(o))),
    decreases o,
{
    match o {
        Option::None => {
            lemma_min_sqd_le_sentinel(q, opt_pts(o));
        },
        Option::Some(n) => {
            lemma_walk_b_exact0(*n, q, best, num, dims);
        },
    }
}

/// A zero budget is never reached by the counter, so the bounded query
/// with budget zero is unlimited: it returns exactly the minimum squared
/// distance over the whole tree.
pub proof fn lemma_bounded_unlimited(t: KdfcArt, q: Seq<i32>)
    requires
        t.inv(),
        t.size >= 1,
        q.len() == t.dims(),
    ensures
        bounded_result(t, q, 0) == min_sqd(q, t.pts()),
{
    lemma_walk_b_exact0(t.root, q, u128::MAX as int, 0, t.dims());
    lemma_min_sqd_le_sentinel(q, t.pts());
}

/// Bounded-query monotonicity: with a fixed tree and query point, the
/// bounded query's answer is non-increasing as the visit budget grows —
/// more visits can only find an equal-or-closer point.
pub proof fn lemma_bounded_monotonic(t: KdfcArt, q: Seq<i32>, k1: int, k2: int)
    requires
        t.inv(),
        t.size >= 1,
        q.len() == t.dims(),
        1 <= k1 <= k2,
    ensures
        bounded_result(t, q, k2) <= bounded_result(t, q, k1),
{
    lemma_walk_b_mono(t.root, q, u128::MAX as int, 0, k1, k2, t.dims());
}

/// The bounded query never underestimates: whatever the budget, its
/// answer is at least the exact minimum squared distance over the tree.
pub proof fn lemma_bounded_ge_exact(t: KdfcArt, q: Seq<i32>, k: int)
    requires
        t.inv(),
        t.size >= 1,
        q.len() == t.dims(),
    ensures
        bounded_result(t, q, k) >= min_sqd(q, t.pts()),
{
    lemma_walk_b_sound(t.root, q, u128::MAX as int, 0, k, t.dims());
    lemma_min_sqd_le_sentinel(q, t.pts());
}

} // verus!
