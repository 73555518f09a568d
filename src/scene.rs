//! The scene arena: leaves, flat lists and bounding-volume-hierarchy nodes, children
//! referenced by index, and the construction of the hierarchy over primitives.
use vstd::prelude::*;
use rand::Rng;

use crate::aabb::AABB;
use crate::bounds::{bounds_of, is_bounds, lemma_bounds_concat, lemma_bounds_single, merge_opt};
use crate::traverse::{lemma_wf_links, links_ok};

verus! {

broadcast use vstd::seq_lib::group_to_multiset_ensures;

/// Sort key of primitive `p` on `axis`: the lower corner of its box.
pub open spec fn key_of(boxes: Seq<AABB>, p: usize, axis: usize) -> u32 {
    boxes[p as int].min.at(axis as int)
}

/// Every entry of `items` is below `n`: it names one of `n` primitives.
pub open spec fn all_below(items: Seq<usize>, n: nat) -> bool {
    forall|k: int| 0 <= k < items.len() ==> (#[trigger] items[k] as nat) < n
}

/// `items` is in ascending order of key on `axis`.
pub open spec fn sorted_on(items: Seq<usize>, boxes: Seq<AABB>, axis: usize) -> bool {
    forall|a: int, b: int|
        0 <= a < b < items.len() ==> key_of(boxes, #[trigger] items[a], axis) <= key_of(
            boxes,
            #[trigger] items[b],
            axis,
        )
}

proof fn lemma_swap_multiset(s: Seq<usize>, i: int, j: int)
    requires
        0 <= i < j < s.len(),
    ensures
        s.update(i, s[j]).update(j, s[i]).to_multiset() == s.to_multiset(),
{
    let t = s.update(i, s[j]);
    assert(t[j] == s[j]);
    assert(t.to_multiset() == s.to_multiset().insert(s[j]).remove(s[i]));
    assert(t.update(j, s[i]).to_multiset() == t.to_multiset().insert(s[i]).remove(s[j]));
    assert(t.update(j, s[i]).to_multiset() =~= s.to_multiset());
}

/// Orders `items` by ascending key on `axis` (insertion sort, stable).
fn sort_on_axis(items: &mut Vec<usize>, boxes: &Vec<AABB>, axis: usize)
    requires
        axis < 3,
        all_below(old(items)@, boxes@.len()),
    ensures
        final(items)@.to_multiset() == old(items)@.to_multiset(),
        final(items)@.len() == old(items)@.len(),
        all_below(final(items)@, boxes@.len()),
        sorted_on(final(items)@, boxes@, axis),
{
    let n = items.len();
    if n == 0 {
        return;
    }
    let mut i: usize = 1;
    while i < n
        invariant
            axis < 3,
            items@.len() == n,
            n == old(items)@.len(),
            1 <= i <= n,
            items@.to_multiset() == old(items)@.to_multiset(),
            all_below(items@, boxes@.len()),
            sorted_on(items@.subrange(0, i as int), boxes@, axis),
        decreases n - i,
    {
        let mut j: usize = i;
        proof {
            assert forall|a: int, b: int| 0 <= a < b <= i && a != j && b != j implies key_of(
                boxes@,
                #[trigger] items@[a],
                axis,
            ) <= key_of(boxes@, #[trigger] items@[b], axis) by {
                assert(items@.subrange(0, i as int)[a] == items@[a]);
                assert(items@.subrange(0, i as int)[b] == items@[b]);
            }
        }
        while j > 0 && boxes[items[j - 1]].min.get(axis) > boxes[items[j]].min.get(axis)
            invariant
                axis < 3,
                0 <= j <= i < n,
                items@.len() == n,
                items@.to_multiset() == old(items)@.to_multiset(),
                all_below(items@, boxes@.len()),
                forall|a: int, b: int|
                    0 <= a < b <= i && a != j && b != j ==> key_of(boxes@, #[trigger] items@[a], axis)
                        <= key_of(boxes@, #[trigger] items@[b], axis),
                forall|a: int, b: int|
                    0 <= a < j < b <= i ==> key_of(boxes@, #[trigger] items@[a], axis) <= key_of(
                        boxes@,
                        #[trigger] items@[b],
                        axis,
                    ),
                forall|b: int|
                    j < b <= i ==> key_of(boxes@, items@[j as int], axis) < key_of(
                        boxes@,
                        #[trigger] items@[b],
                        axis,
                    ),
            decreases j,
        {
            let prev = items[j - 1];
            let cur = items[j];
            proof {
                lemma_swap_multiset(items@, j - 1, j as int);
            }
            items[j - 1] = cur;
            items[j] = prev;
            j = j - 1;
        }
        proof {
            assert forall|a: int, b: int| 0 <= a < b < i + 1 implies key_of(
                boxes@,
                #[trigger] items@.subrange(0, i + 1)[a],
                axis,
            ) <= key_of(boxes@, #[trigger] items@.subrange(0, i + 1)[b], axis) by {
                assert(items@.subrange(0, i + 1)[a] == items@[a]);
                assert(items@.subrange(0, i + 1)[b] == items@[b]);
                if b == j && a < j - 1 {
                    assert(key_of(boxes@, items@[a], axis) <= key_of(boxes@, items@[j - 1], axis));
                }
            }
        }
        i = i + 1;
    }
    assert(items@.subrange(0, n as int) =~= items@);
}

/// Primitive counts above this get a bounding-volume hierarchy; smaller scenes are a
/// flat list.
pub const BVH_THRESHOLD: usize = 10;

/// One node of the scene arena. Primitives are named by their index in the scene's
/// primitive list, nodes by their index in the arena.
pub enum Node {
    /// A single primitive.
    Leaf(usize),
    /// A flat list of primitives, intersected one after the other.
    List(Vec<usize>),
    /// A hierarchy node with one or two children, split on `axis`.
    Branch { left: usize, right: Option<usize>, axis: usize },
}

/// A scene: the arena of nodes, the bounding box of each node (none for a node that
/// reaches no primitive), and the node at which traversal starts.
pub struct Scene {
    pub nodes: Vec<Node>,
    pub bounds: Vec<Option<AABB>>,
    pub root: usize,
}

/// The primitives reachable from node `i`, left subtree first.
pub open spec fn leaves_of(nodes: Seq<Node>, i: int) -> Seq<usize>
    decreases i,
{
    if 0 <= i < nodes.len() {
        match nodes[i] {
            Node::Leaf(p) => seq![p],
            Node::List(ps) => ps@,
            Node::Branch { left, right, axis: _ } => {
                let lv = if (left as int) < i {
                    leaves_of(nodes, left as int)
                } else {
                    Seq::empty()
                };
                let rv = match right {
                    Some(r) => if (r as int) < i {
                        leaves_of(nodes, r as int)
                    } else {
                        Seq::empty()
                    },
                    None => Seq::empty(),
                };
                lv + rv
            },
        }
    } else {
        Seq::empty()
    }
}

/// Node `i` names only primitives below `n`, and only children stored before it, so
/// that the arena holds no cycle.
pub open spec fn node_wf(nodes: Seq<Node>, i: int, n: nat) -> bool {
    match nodes[i] {
        Node::Leaf(p) => p < n,
        Node::List(ps) => all_below(ps@, n),
        Node::Branch { left, right, axis } => {
            &&& (left as int) < i
            &&& axis < 3
            &&& match right {
                Some(r) => (r as int) < i,
                None => true,
            }
        },
    }
}

pub open spec fn arena_wf(nodes: Seq<Node>, n: nat) -> bool {
    forall|i: int| 0 <= i < nodes.len() ==> #[trigger] node_wf(nodes, i, n)
}

/// Every primitive of `left` has a key on `axis` no greater than every one of `right`.
pub open spec fn split_ordered(
    left: Seq<usize>,
    right: Seq<usize>,
    boxes: Seq<AABB>,
    axis: usize,
) -> bool {
    forall|a: int, b: int|
        0 <= a < left.len() && 0 <= b < right.len() ==> key_of(boxes, #[trigger] left[a], axis)
            <= key_of(boxes, #[trigger] right[b], axis)
}

/// Node `i` roots a hierarchy built by median split: a single primitive is the sole
/// child; two primitives are two leaves in ascending key order; more are split into
/// two sub-hierarchies, the first holding the lower half (rounded down) by key on the
/// node's axis.
pub open spec fn is_bvh(nodes: Seq<Node>, i: int, boxes: Seq<AABB>) -> bool
    decreases i,
{
    if 0 <= i < nodes.len() {
        match nodes[i] {
            Node::Branch { left, right, axis } => {
                let l = left as int;
                if l < i {
                    match right {
                        None => nodes[l] is Leaf,
                        Some(r) => {
                            let r = r as int;
                            if r < i {
                                let lv = leaves_of(nodes, l);
                                let rv = leaves_of(nodes, r);
                                &&& lv.len() == (lv.len() + rv.len()) / 2
                                &&& split_ordered(lv, rv, boxes, axis)
                                &&& if lv.len() + rv.len() == 2 {
                                    nodes[l] is Leaf && nodes[r] is Leaf
                                } else {
                                    lv.len() + rv.len() >= 3 && is_bvh(nodes, l, boxes) && is_bvh(
                                        nodes,
                                        r,
                                        boxes,
                                    )
                                }
                            } else {
                                false
                            }
                        },
                    }
                } else {
                    false
                }
            },
            _ => false,
        }
    } else {
        false
    }
}

/// What node `i` reaches depends only on the nodes up to `i`: appending to the arena
/// changes neither its primitives nor its shape.
proof fn lemma_prefix_stable(a: Seq<Node>, b: Seq<Node>, i: int, boxes: Seq<AABB>)
    requires
        0 <= i < a.len() <= b.len(),
        forall|j: int| 0 <= j < a.len() ==> b[j] == a[j],
    ensures
        leaves_of(b, i) == leaves_of(a, i),
        is_bvh(b, i, boxes) == is_bvh(a, i, boxes),
    decreases i,
{
    match a[i] {
        Node::Branch { left, right, axis: _ } => {
            if (left as int) < i {
                lemma_prefix_stable(a, b, left as int, boxes);
            }
            match right {
                Some(r) => if (r as int) < i {
                    lemma_prefix_stable(a, b, r as int, boxes);
                },
                None => {},
            }
        },
        _ => {},
    }
}

proof fn lemma_wf_extend(a: Seq<Node>, b: Seq<Node>, n: nat)
    requires
        arena_wf(a, n),
        a.len() <= b.len(),
        forall|j: int| 0 <= j < a.len() ==> b[j] == a[j],
        forall|j: int| a.len() <= j < b.len() ==> #[trigger] node_wf(b, j, n),
    ensures
        arena_wf(b, n),
{
    assert forall|i: int| 0 <= i < b.len() implies #[trigger] node_wf(b, i, n) by {
        if i < a.len() {
            assert(node_wf(a, i, n));
        }
    }
}

/// Two halves of a sorted sequence, in any order within each half, are split-ordered.
proof fn lemma_halves_ordered(
    s: Seq<usize>,
    mid: int,
    lv: Seq<usize>,
    rv: Seq<usize>,
    boxes: Seq<AABB>,
    axis: usize,
)
    requires
        0 <= mid <= s.len(),
        sorted_on(s, boxes, axis),
        lv.to_multiset() == s.subrange(0, mid).to_multiset(),
        rv.to_multiset() == s.subrange(mid, s.len() as int).to_multiset(),
    ensures
        split_ordered(lv, rv, boxes, axis),
{
    let sl = s.subrange(0, mid);
    let sr = s.subrange(mid, s.len() as int);
    assert forall|a: int, b: int| 0 <= a < lv.len() && 0 <= b < rv.len() implies key_of(
        boxes,
        #[trigger] lv[a],
        axis,
    ) <= key_of(boxes, #[trigger] rv[b], axis) by {
        assert(lv.contains(lv[a]));
        assert(rv.contains(rv[b]));
        assert(lv.to_multiset().count(lv[a]) > 0);
        assert(rv.to_multiset().count(rv[b]) > 0);
        assert(sl.contains(lv[a]));
        assert(sr.contains(rv[b]));
        let ia = choose|k: int| 0 <= k < sl.len() && sl[k] == lv[a];
        let ib = choose|k: int| 0 <= k < sr.len() && sr[k] == rv[b];
        assert(s[ia] == lv[a]);
        assert(s[mid + ib] == rv[b]);
        if ia < mid + ib {
            assert(key_of(boxes, s[ia], axis) <= key_of(boxes, s[mid + ib], axis));
        }
    }
}

/// Relies on rand::Rng::gen_range on the thread-local generator (rand::thread_rng):
/// the value drawn lies in the half-open range 0..3.
#[verifier::external_body]
fn random_axis() -> (r: usize)
    ensures
        r < 3,
{
    rand::thread_rng().gen_range(0..3)
}

/// Appends to `nodes` a hierarchy over the primitives `items` and returns its root,
/// which is the last node appended. Nodes already in the arena are left as they were.
fn build_node(items: Vec<usize>, boxes: &Vec<AABB>, nodes: &mut Vec<Node>) -> (r: usize)
    requires
        items@.len() >= 1,
        all_below(items@, boxes@.len()),
        arena_wf(old(nodes)@, boxes@.len()),
    ensures
        final(nodes)@.len() > old(nodes)@.len(),
        r == final(nodes)@.len() - 1,
        forall|i: int| 0 <= i < old(nodes)@.len() ==> final(nodes)@[i] == old(nodes)@[i],
        arena_wf(final(nodes)@, boxes@.len()),
        leaves_of(final(nodes)@, r as int).to_multiset() == items@.to_multiset(),
        is_bvh(final(nodes)@, r as int, boxes@),
    decreases items@.len(),
{
    let axis = random_axis();
    let n = items.len();
    if n == 1 {
        let p = items[0];
        nodes.push(Node::Leaf(p));
        let leaf = nodes.len() - 1;
        nodes.push(Node::Branch { left: leaf, right: None, axis });
        let root = nodes.len() - 1;
        proof {
            let ns = nodes@;
            assert(node_wf(ns, leaf as int, boxes@.len()));
            assert(node_wf(ns, root as int, boxes@.len()));
            lemma_wf_extend(old(nodes)@, ns, boxes@.len());
            assert(leaves_of(ns, leaf as int) == seq![p]);
            assert(leaves_of(ns, root as int) =~= seq![p]);
            assert(items@ =~= seq![p]);
        }
        root
    } else if n == 2 {
        let (a, b) = if boxes[items[0]].min.get(axis) < boxes[items[1]].min.get(axis) {
            (items[0], items[1])
        } else {
            (items[1], items[0])
        };
        nodes.push(Node::Leaf(a));
        let la = nodes.len() - 1;
        nodes.push(Node::Leaf(b));
        let lb = nodes.len() - 1;
        nodes.push(Node::Branch { left: la, right: Some(lb), axis });
        let root = nodes.len() - 1;
        proof {
            let ns = nodes@;
            assert(node_wf(ns, la as int, boxes@.len()));
            assert(node_wf(ns, lb as int, boxes@.len()));
            assert(node_wf(ns, root as int, boxes@.len()));
            lemma_wf_extend(old(nodes)@, ns, boxes@.len());
            assert(leaves_of(ns, la as int) == seq![a]);
            assert(leaves_of(ns, lb as int) == seq![b]);
            assert(leaves_of(ns, root as int) =~= seq![a, b]);
            assert(items@ =~= seq![items@[0], items@[1]]);
            assert(seq![a, b].to_multiset() =~= items@.to_multiset()) by {
                assert(seq![a, b] =~= seq![a].push(b));
                assert(seq![a] =~= Seq::<usize>::empty().push(a));
                assert(seq![items@[0], items@[1]] =~= seq![items@[0]].push(items@[1]));
                assert(seq![items@[0]] =~= Seq::<usize>::empty().push(items@[0]));
            }
            assert(split_ordered(seq![a], seq![b], boxes@, axis));
        }
        root
    } else {
        let mut sorted = items;
        sort_on_axis(&mut sorted, boxes, axis);
        let mid = n / 2;
        let ghost whole = sorted@;
        let upper = sorted.split_off(mid);
        let ghost lower_items = sorted@;
        proof {
            assert(whole =~= lower_items + upper@);
            vstd::seq_lib::lemma_multiset_commutative(lower_items, upper@);
        }
        let ghost before = nodes@;
        let left = build_node(sorted, boxes, nodes);
        let ghost mid_nodes = nodes@;
        let right = build_node(upper, boxes, nodes);
        let ghost after = nodes@;
        proof {
            lemma_prefix_stable(mid_nodes, after, left as int, boxes@);
        }
        nodes.push(Node::Branch { left, right: Some(right), axis });
        let root = nodes.len() - 1;
        proof {
            let ns = nodes@;
            lemma_prefix_stable(after, ns, left as int, boxes@);
            lemma_prefix_stable(after, ns, right as int, boxes@);
            assert(node_wf(ns, root as int, boxes@.len()));
            lemma_wf_extend(after, ns, boxes@.len());
            let lv = leaves_of(ns, left as int);
            let rv = leaves_of(ns, right as int);
            assert(leaves_of(ns, root as int) == lv + rv);
            vstd::seq_lib::lemma_multiset_commutative(lv, rv);
            assert(lv.len() == lower_items.len()) by {
                vstd::seq_lib::to_multiset_len(lv);
                vstd::seq_lib::to_multiset_len(lower_items);
            }
            assert(rv.len() == upper@.len()) by {
                vstd::seq_lib::to_multiset_len(rv);
                vstd::seq_lib::to_multiset_len(upper@);
            }
            assert(lower_items =~= whole.subrange(0, mid as int));
            assert(upper@ =~= whole.subrange(mid as int, whole.len() as int));
            lemma_halves_ordered(whole, mid as int, lv, rv, boxes@, axis);
            assert(whole.len() == n);
        }
        root
    }
}

fn build_bvh_over(ids: Vec<usize>, boxes: &Vec<AABB>) -> (s: Scene)
    requires
        ids@.len() >= 1,
        all_below(ids@, boxes@.len()),
    ensures
        s.wf(boxes@),
        links_ok(s.nodes@),
        s.leaves().to_multiset() == ids@.to_multiset(),
        is_bvh(s.nodes@, s.root as int, boxes@),
{
    let mut nodes: Vec<Node> = Vec::new();
    let root = build_node(ids, boxes, &mut nodes);
    let bounds = node_bounds(&nodes, boxes);
    proof {
        lemma_wf_links(nodes@, boxes@.len());
    }
    Scene { nodes, bounds, root }
}

/// Builds a bounding-volume hierarchy over primitives `0 .. boxes.len()` whatever
/// their number, `boxes` as for `build_scene`.
pub fn build_bvh(boxes: &Vec<AABB>) -> (s: Scene)
    requires
        boxes@.len() >= 1,
    ensures
        s.wf(boxes@),
        links_ok(s.nodes@),
        s.leaves().to_multiset() == index_seq(boxes@.len()).to_multiset(),
        is_bvh(s.nodes@, s.root as int, boxes@),
{
    let ids = primitive_ids(boxes.len());
    build_bvh_over(ids, boxes)
}

fn primitive_ids(n: usize) -> (ids: Vec<usize>)
    ensures
        ids@ == index_seq(n as nat),
{
    let mut ids: Vec<usize> = Vec::new();
    let mut i: usize = 0;
    while i < n
        invariant
            i <= n,
            ids@ =~= index_seq(i as nat),
        decreases n - i,
    {
        ids.push(i);
        i = i + 1;
    }
    assert(ids@ =~= index_seq(n as nat));
    ids
}

/// The bounding box of every node of a well-formed arena: the least box holding the
/// boxes of the primitives the node reaches.
fn node_bounds(nodes: &Vec<Node>, boxes: &Vec<AABB>) -> (r: Vec<Option<AABB>>)
    requires
        arena_wf(nodes@, boxes@.len()),
    ensures
        r@.len() == nodes@.len(),
        forall|i: int|
            0 <= i < nodes@.len() ==> is_bounds(#[trigger] r@[i], leaves_of(nodes@, i), boxes@),
{
    let mut out: Vec<Option<AABB>> = Vec::new();
    let mut i: usize = 0;
    while i < nodes.len()
        invariant
            i <= nodes@.len(),
            out@.len() == i,
            arena_wf(nodes@, boxes@.len()),
            forall|j: int| 0 <= j < i ==> is_bounds(#[trigger] out@[j], leaves_of(nodes@, j), boxes@),
        decreases nodes@.len() - i,
    {
        proof {
            assert(node_wf(nodes@, i as int, boxes@.len()));
        }
        let b = match &nodes[i] {
            Node::Leaf(p) => {
                proof {
                    lemma_bounds_single(*p, boxes@);
                }
                Some(boxes[*p])
            },
            Node::List(ps) => bounds_of(ps, boxes),
            Node::Branch { left, right, axis: _ } => {
                let lb = out[*left];
                let rb = match right {
                    Some(r) => out[*r],
                    None => None,
                };
                proof {
                    let rv = match right {
                        Some(r) => leaves_of(nodes@, *r as int),
                        None => Seq::<usize>::empty(),
                    };
                    assert(is_bounds(lb, leaves_of(nodes@, *left as int), boxes@));
                    assert(is_bounds(rb, rv, boxes@));
                    lemma_bounds_concat(lb, leaves_of(nodes@, *left as int), rb, rv, boxes@);
                }
                merge_opt(lb, rb)
            },
        };
        out.push(b);
        i = i + 1;
    }
    out
}

/// The primitive indices `0 .. n` in order.
pub open spec fn index_seq(n: nat) -> Seq<usize> {
    Seq::new(n, |i: int| i as usize)
}

impl Scene {
    /// The root exists, the arena is well formed over the primitives of `boxes`, and
    /// each node's bounding box is the least box holding the primitives it reaches.
    pub open spec fn wf(&self, boxes: Seq<AABB>) -> bool {
        &&& (self.root as int) < self.nodes@.len()
        &&& arena_wf(self.nodes@, boxes.len())
        &&& self.bounds@.len() == self.nodes@.len()
        &&& forall|i: int|
            0 <= i < self.nodes@.len() ==> is_bounds(
                #[trigger] self.bounds@[i],
                leaves_of(self.nodes@, i),
                boxes,
            )
    }

    /// The bounding box of the whole scene.
    pub fn bounding_box(&self) -> (r: Option<AABB>)
        requires
            (self.root as int) < self.bounds@.len(),
        ensures
            r == self.bounds@[self.root as int],
    {
        self.bounds[self.root]
    }

    /// The primitives reachable from the root.
    pub open spec fn leaves(&self) -> Seq<usize> {
        leaves_of(self.nodes@, self.root as int)
    }

    /// The scene is one flat list holding `items`, in that order.
    pub open spec fn is_flat_list(&self, items: Seq<usize>) -> bool {
        &&& self.nodes@.len() == 1
        &&& self.root == 0
        &&& match self.nodes@[0] {
            Node::List(ps) => ps@ == items,
            _ => false,
        }
    }
}

/// Builds the scene over primitives `0 .. boxes.len()`, `boxes[p]` being the bounding
/// box of primitive `p`. Up to `BVH_THRESHOLD` primitives make one flat list in their
/// given order; more make a bounding-volume hierarchy, split on a random axis at each
/// node and ordered there by the lower corners of the boxes. Either way every
/// primitive is reached from the root exactly once, and every node carries its
/// bounding box.
pub fn build_scene(boxes: &Vec<AABB>) -> (s: Scene)
    ensures
        s.wf(boxes@),
        links_ok(s.nodes@),
        s.leaves().to_multiset() == index_seq(boxes@.len()).to_multiset(),
        boxes@.len() <= BVH_THRESHOLD ==> s.is_flat_list(index_seq(boxes@.len())),
        boxes@.len() > BVH_THRESHOLD ==> is_bvh(s.nodes@, s.root as int, boxes@),
{
    let n = boxes.len();
    let ids = primitive_ids(n);
    if n > BVH_THRESHOLD {
        build_bvh_over(ids, boxes)
    } else {
        let mut nodes: Vec<Node> = Vec::new();
        nodes.push(Node::List(ids));
        proof {
            assert(node_wf(nodes@, 0, n as nat));
        }
        let bounds = node_bounds(&nodes, boxes);
        proof {
            lemma_wf_links(nodes@, boxes@.len());
        }
        Scene { nodes, bounds, root: 0 }
    }
}

} // verus!
