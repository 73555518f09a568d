//! Nearest-hit traversal of the scene arena. The geometric tests are the caller's:
//! `leaf(p, h)` intersects primitive `p` and reports the distance of its hit if it
//! lies below the bound `h`; `enter(i, h)` tests the bounding box of node `i`. Both
//! work on distances held as order keys, and the traversal only compares them.
use vstd::prelude::*;

use crate::aabb::AABB;
use crate::scene::{leaves_of, Node, Scene};

verus! {

/// Every hierarchy node refers only to children stored before it.
pub open spec fn links_ok(nodes: Seq<Node>) -> bool {
    forall|j: int|
        0 <= j < nodes.len() ==> match #[trigger] nodes[j] {
            Node::Branch { left, right, axis: _ } => (left as int) < j && match right {
                Some(r) => (r as int) < j,
                None => true,
            },
            _ => true,
        }
}

/// No primitive of `ps` has a hit nearer than `h`, given which primitives have a hit
/// (`has`) and at what distance (`dist`).
pub open spec fn no_hit_below(
    ps: Seq<usize>,
    has: spec_fn(usize) -> bool,
    dist: spec_fn(usize) -> u32,
    h: u32,
) -> bool {
    forall|k: int| 0 <= k < ps.len() ==> !(has(#[trigger] ps[k]) && dist(ps[k]) < h)
}

/// `r` is the nearest hit among the primitives `ps` below the bound `h`: none when no
/// primitive has a hit below it, else a primitive of `ps` and its distance, which no
/// other primitive of `ps` undercuts.
pub open spec fn nearest_among(
    r: Option<(usize, u32)>,
    ps: Seq<usize>,
    has: spec_fn(usize) -> bool,
    dist: spec_fn(usize) -> u32,
    h: u32,
) -> bool {
    match r {
        None => no_hit_below(ps, has, dist, h),
        Some((p, t)) => {
            &&& ps.contains(p)
            &&& has(p)
            &&& dist(p) == t
            &&& t < h
            &&& no_hit_below(ps, has, dist, t)
        },
    }
}

/// The leaf test behaves as one fixed distance per primitive: primitive `p` has a hit
/// (`has(p)`) at distance `dist(p)`, reported exactly when that lies below the bound.
pub open spec fn leaf_fits<L>(leaf: L, has: spec_fn(usize) -> bool, dist: spec_fn(usize) -> u32) -> bool where
    L: Fn(usize, u32) -> Option<u32>,
 {
    forall|p: usize, h: u32, r: Option<u32>|
        #[trigger] leaf.ensures((p, h), r) ==> r == (if has(p) && dist(p) < h {
            Some(dist(p))
        } else {
            None
        })
}

/// The box test never turns a node away while one of its primitives has a hit below
/// the bound.
pub open spec fn box_fits<B>(
    enter: B,
    nodes: Seq<Node>,
    has: spec_fn(usize) -> bool,
    dist: spec_fn(usize) -> u32,
) -> bool where B: Fn(usize, u32) -> bool {
    forall|i: usize, h: u32|
        #[trigger] enter.ensures((i, h), false) ==> no_hit_below(
            leaves_of(nodes, i as int),
            has,
            dist,
            h,
        )
}

/// Both tests behave as above for the hits `has` and `dist`.
pub open spec fn fits<L, B>(
    leaf: L,
    enter: B,
    nodes: Seq<Node>,
    has: spec_fn(usize) -> bool,
    dist: spec_fn(usize) -> u32,
) -> bool where L: Fn(usize, u32) -> Option<u32>, B: Fn(usize, u32) -> bool {
    leaf_fits(leaf, has, dist) && box_fits(enter, nodes, has, dist)
}

fn intersect_list<L>(ps: &Vec<usize>, leaf: &L, h: u32) -> (r: Option<(usize, u32)>) where
    L: Fn(usize, u32) -> Option<u32>,

    requires
        forall|p: usize, b: u32| #[trigger] leaf.requires((p, b)),
    ensures
        forall|has: spec_fn(usize) -> bool, dist: spec_fn(usize) -> u32|
            #[trigger] leaf_fits(*leaf, has, dist) ==> nearest_among(r, ps@, has, dist, h),
{
    let mut best: Option<(usize, u32)> = None;
    let mut bound: u32 = h;
    let mut k: usize = 0;
    while k < ps.len()
        invariant
            k <= ps@.len(),
            forall|p: usize, b: u32| #[trigger] leaf.requires((p, b)),
            match best {
                Some((_, t)) => bound == t,
                None => bound == h,
            },
            forall|has: spec_fn(usize) -> bool, dist: spec_fn(usize) -> u32|
                #[trigger] leaf_fits(*leaf, has, dist) ==> nearest_among(
                    best,
                    ps@.take(k as int),
                    has,
                    dist,
                    h,
                ),
        decreases ps@.len() - k,
    {
        let q = ps[k];
        let res = leaf(q, bound);
        let ghost old_best = best;
        let ghost old_bound = bound;
        match res {
            Some(t) => {
                best = Some((q, t));
                bound = t;
            },
            None => {},
        }
        proof {
            let pre = ps@.take(k as int);
            let post = ps@.take(k + 1);
            assert(post =~= pre.push(q));
            assert forall|has: spec_fn(usize) -> bool, dist: spec_fn(usize) -> u32|
                #[trigger] leaf_fits(*leaf, has, dist) implies nearest_among(
                    best,
                    post,
                    has,
                    dist,
                    h,
                ) by {
                assert(nearest_among(old_best, pre, has, dist, h));
                assert(leaf.ensures((q, old_bound), res));
                assert(no_hit_below(pre, has, dist, old_bound));
                assert(old_bound <= h);
                match res {
                    Some(t) => {
                        assert(post[k as int] == q);
                        assert(post.contains(q));
                        assert forall|j: int| 0 <= j < post.len() implies !(has(#[trigger] post[j]) && dist(post[j]) < t) by {
                            if j < k {
                                assert(post[j] == pre[j]);
                            }
                        }
                    },
                    None => {
                        match old_best {
                            Some((prev_p, prev_t)) => {
                                assert(pre.contains(prev_p));
                                let i0 = choose|i0: int| 0 <= i0 < pre.len() && pre[i0] == prev_p;
                                assert(post[i0] == prev_p);
                            },
                            None => {},
                        }
                        assert forall|j: int| 0 <= j < post.len() implies !(has(#[trigger] post[j]) && dist(post[j]) < old_bound) by {
                            if j < k {
                                assert(post[j] == pre[j]);
                            }
                        }
                    },
                }
            }
        }
        k = k + 1;
    }
    assert(ps@.take(ps@.len() as int) =~= ps@);
    best
}

fn intersect_node<L, B>(
    nodes: &Vec<Node>,
    bounds: &Vec<Option<AABB>>,
    i: usize,
    leaf: &L,
    enter: &B,
    h: u32,
) -> (r: Option<(usize, u32)>) where L: Fn(usize, u32) -> Option<u32>, B: Fn(usize, u32) -> bool
    requires
        (i as int) < nodes@.len(),
        bounds@.len() == nodes@.len(),
        links_ok(nodes@),
        forall|p: usize, b: u32| #[trigger] leaf.requires((p, b)),
        forall|j: usize, b: u32| #[trigger] enter.requires((j, b)),
    ensures
        forall|has: spec_fn(usize) -> bool, dist: spec_fn(usize) -> u32|
            #[trigger] fits(*leaf, *enter, nodes@, has, dist) ==> nearest_among(
                r,
                leaves_of(nodes@, i as int),
                has,
                dist,
                h,
            ),
    decreases i,
{
    let ghost ns = nodes@;
    match &nodes[i] {
        Node::Leaf(p) => {
            let res = leaf(*p, h);
            let r = match res {
                Some(t) => Some((*p, t)),
                None => None,
            };
            proof {
                assert(leaves_of(ns, i as int) == seq![*p]);
                assert forall|has: spec_fn(usize) -> bool, dist: spec_fn(usize) -> u32|
                    #[trigger] fits(*leaf, *enter, ns, has, dist) implies nearest_among(
                    r,
                    leaves_of(ns, i as int),
                    has,
                    dist,
                    h,
                ) by {
                    assert(leaf.ensures((*p, h), res));
                    assert(seq![*p][0] == *p);
                }
            }
            r
        },
        Node::List(ps) => {
            let r = intersect_list(ps, leaf, h);
            proof {
                assert forall|has: spec_fn(usize) -> bool, dist: spec_fn(usize) -> u32|
                    #[trigger] fits(*leaf, *enter, ns, has, dist) implies nearest_among(
                    r,
                    leaves_of(ns, i as int),
                    has,
                    dist,
                    h,
                ) by {
                    assert(leaf_fits(*leaf, has, dist));
                }
            }
            r
        },
        Node::Branch { left, right, axis: _ } => {
            proof {
                assert(links_ok(ns));
                let nd = ns[i as int];
                assert(nd == ns[i as int]);
            }
            // A node without a box is always entered.
            let go = match bounds[i] {
                Some(_) => enter(i, h),
                None => true,
            };
            if !go {
                proof {
                    assert forall|has: spec_fn(usize) -> bool, dist: spec_fn(usize) -> u32|
                        #[trigger] fits(*leaf, *enter, ns, has, dist) implies nearest_among(
                        None,
                        leaves_of(ns, i as int),
                        has,
                        dist,
                        h,
                    ) by {
                        assert(enter.ensures((i, h), false));
                    }
                }
                return None;
            }
            let lr = intersect_node(nodes, bounds, *left, leaf, enter, h);
            let t_max = match lr {
                Some((_, t)) => t,
                None => h,
            };
            let rr = match right {
                Some(r) => intersect_node(nodes, bounds, *r, leaf, enter, t_max),
                None => None,
            };
            let r = if rr.is_some() {
                rr
            } else {
                lr
            };
            proof {
                let lv = leaves_of(ns, *left as int);
                let rv = match right {
                    Some(ri) => leaves_of(ns, *ri as int),
                    None => Seq::<usize>::empty(),
                };
                assert(leaves_of(ns, i as int) == lv + rv);
                assert forall|has: spec_fn(usize) -> bool, dist: spec_fn(usize) -> u32|
                    #[trigger] fits(*leaf, *enter, ns, has, dist) implies nearest_among(
                    r,
                    lv + rv,
                    has,
                    dist,
                    h,
                ) by {
                    let all = lv + rv;
                    assert(nearest_among(lr, lv, has, dist, h));
                    assert(nearest_among(rr, rv, has, dist, t_max));
                    assert(t_max <= h);
                    match r {
                        Some((q, t)) => {
                            assert(t <= t_max);
                            if rr.is_some() {
                                let j = choose|j: int| 0 <= j < rv.len() && rv[j] == q;
                                assert(all[lv.len() + j] == q);
                            } else {
                                let j = choose|j: int| 0 <= j < lv.len() && lv[j] == q;
                                assert(all[j] == q);
                            }
                            assert forall|k: int| 0 <= k < all.len() implies !(has(#[trigger] all[k]) && dist(all[k]) < t) by {
                                if k < lv.len() {
                                    assert(all[k] == lv[k]);
                                } else {
                                    assert(all[k] == rv[k - lv.len()]);
                                }
                            }
                        },
                        None => {
                            assert forall|k: int| 0 <= k < all.len() implies !(has(#[trigger] all[k]) && dist(all[k]) < h) by {
                                if k < lv.len() {
                                    assert(all[k] == lv[k]);
                                } else {
                                    assert(all[k] == rv[k - lv.len()]);
                                }
                            }
                        },
                    }
                }
            }
            r
        },
    }
}

impl Scene {
    /// The nearest hit below the bound `hi` among the primitives the scene reaches,
    /// as the primitive and its distance. Hierarchy nodes with a box are entered only
    /// where `enter` accepts them, those without are always entered; the second child of a node is searched only below the
    /// first child's hit, so the nearer of the two is kept. Whatever primitives hit,
    /// and wherever, if the two tests behave as `fits` says the result is the
    /// nearest hit.
    pub fn intersect<L, B>(&self, leaf: &L, enter: &B, hi: u32) -> (r: Option<(usize, u32)>) where
        L: Fn(usize, u32) -> Option<u32>,
        B: Fn(usize, u32) -> bool,

        requires
            (self.root as int) < self.nodes@.len(),
            self.bounds@.len() == self.nodes@.len(),
            links_ok(self.nodes@),
            forall|p: usize, b: u32| #[trigger] leaf.requires((p, b)),
            forall|j: usize, b: u32| #[trigger] enter.requires((j, b)),
        ensures
            forall|has: spec_fn(usize) -> bool, dist: spec_fn(usize) -> u32|
                #[trigger] fits(*leaf, *enter, self.nodes@, has, dist) ==> nearest_among(
                    r,
                    self.leaves(),
                    has,
                    dist,
                    hi,
                ),
    {
        intersect_node(&self.nodes, &self.bounds, self.root, leaf, enter, hi)
    }
}

/// Two searches over the same primitives agree on the nearest hit: whether there is
/// one below the bound, and at what distance. So a hierarchy finds the hit that a
/// linear scan of the same primitives finds.
pub proof fn lemma_same_nearest(
    r1: Option<(usize, u32)>,
    ps1: Seq<usize>,
    r2: Option<(usize, u32)>,
    ps2: Seq<usize>,
    has: spec_fn(usize) -> bool,
    dist: spec_fn(usize) -> u32,
    h: u32,
)
    requires
        nearest_among(r1, ps1, has, dist, h),
        nearest_among(r2, ps2, has, dist, h),
        forall|p: usize| ps1.contains(p) <==> ps2.contains(p),
    ensures
        r1 is None <==> r2 is None,
        r1 matches Some((_, t1)) ==> r2 matches Some((_, t2)) && t1 == t2,
{
    match (r1, r2) {
        (Some((q1, t1)), Some((q2, t2))) => {
            assert(ps2.contains(q1));
            assert(ps1.contains(q2));
            let j1 = choose|j: int| 0 <= j < ps2.len() && ps2[j] == q1;
            let j2 = choose|j: int| 0 <= j < ps1.len() && ps1[j] == q2;
            assert(!(has(ps2[j1]) && dist(ps2[j1]) < t2));
            assert(!(has(ps1[j2]) && dist(ps1[j2]) < t1));
        },
        (Some((q1, t1)), None) => {
            assert(ps2.contains(q1));
            let j1 = choose|j: int| 0 <= j < ps2.len() && ps2[j] == q1;
            assert(!(has(ps2[j1]) && dist(ps2[j1]) < h));
        },
        (None, Some((q2, t2))) => {
            assert(ps1.contains(q2));
            let j2 = choose|j: int| 0 <= j < ps1.len() && ps1[j] == q2;
            assert(!(has(ps1[j2]) && dist(ps1[j2]) < h));
        },
        (None, None) => {},
    }
}

/// A well-formed arena has no forward links.
pub proof fn lemma_wf_links(nodes: Seq<Node>, n: nat)
    requires
        crate::scene::arena_wf(nodes, n),
    ensures
        links_ok(nodes),
{
    assert forall|j: int| 0 <= j < nodes.len() implies match #[trigger] nodes[j] {
        Node::Branch { left, right, axis: _ } => (left as int) < j && match right {
            Some(r) => (r as int) < j,
            None => true,
        },
        _ => true,
    } by {
        assert(crate::scene::node_wf(nodes, j, n));
    }
}

} // verus!
