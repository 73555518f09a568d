//! Bounding boxes of groups of primitives: a group's box is the least box that holds
//! the box of every member, or none for an empty group.
use vstd::prelude::*;

use crate::aabb::{contains, lemma_merge_least, spec_merge, AABB};
use crate::scene::all_below;

verus! {

/// `b` holds the box of every primitive in `ps`.
pub open spec fn encloses(b: AABB, ps: Seq<usize>, boxes: Seq<AABB>) -> bool {
    forall|k: int| 0 <= k < ps.len() ==> contains(b, #[trigger] boxes[ps[k] as int])
}

/// `ob` is the bounding box of the primitives `ps`: none when there are none, else the
/// least box that holds all their boxes.
pub open spec fn is_bounds(ob: Option<AABB>, ps: Seq<usize>, boxes: Seq<AABB>) -> bool {
    match ob {
        None => ps.len() == 0,
        Some(b) => {
            &&& ps.len() > 0
            &&& encloses(b, ps, boxes)
            &&& forall|c: AABB| #[trigger] encloses(c, ps, boxes) ==> contains(c, b)
        },
    }
}

/// The union of two optional boxes: a missing box adds nothing.
pub open spec fn union_opt(a: Option<AABB>, b: Option<AABB>) -> Option<AABB> {
    match (a, b) {
        (Some(x), Some(y)) => Some(spec_merge(x, y)),
        (Some(x), None) => Some(x),
        (None, Some(y)) => Some(y),
        (None, None) => None,
    }
}

/// Union of two optional boxes.
pub fn merge_opt(a: Option<AABB>, b: Option<AABB>) -> (r: Option<AABB>)
    ensures
        r == union_opt(a, b),
{
    match (a, b) {
        (Some(x), Some(y)) => Some(AABB::merge(&x, &y)),
        (Some(x), None) => Some(x),
        (None, Some(y)) => Some(y),
        (None, None) => None,
    }
}

/// A single primitive's bounding box is its own box.
pub proof fn lemma_bounds_single(p: usize, boxes: Seq<AABB>)
    requires
        (p as int) < boxes.len(),
    ensures
        is_bounds(Some(boxes[p as int]), seq![p], boxes),
{
    let ps = seq![p];
    assert(ps[0] == p);
    assert forall|c: AABB| #[trigger] encloses(c, ps, boxes) implies contains(c, boxes[p as int]) by {
        assert(contains(c, boxes[ps[0] as int]));
    }
}

/// The bounding box of two groups together is the union of their boxes.
pub proof fn lemma_bounds_concat(
    o1: Option<AABB>,
    ps1: Seq<usize>,
    o2: Option<AABB>,
    ps2: Seq<usize>,
    boxes: Seq<AABB>,
)
    requires
        is_bounds(o1, ps1, boxes),
        is_bounds(o2, ps2, boxes),
    ensures
        is_bounds(union_opt(o1, o2), ps1 + ps2, boxes),
{
    let ps = ps1 + ps2;
    match (o1, o2) {
        (Some(b1), Some(b2)) => {
            let m = spec_merge(b1, b2);
            lemma_merge_least(b1, b2, m);
            assert forall|k: int| 0 <= k < ps.len() implies contains(m, #[trigger] boxes[ps[k] as int]) by {
                if k < ps1.len() {
                    assert(ps[k] == ps1[k]);
                    assert(contains(b1, boxes[ps1[k] as int]));
                } else {
                    assert(ps[k] == ps2[k - ps1.len()]);
                    assert(contains(b2, boxes[ps2[k - ps1.len()] as int]));
                }
            }
            assert forall|c: AABB| #[trigger] encloses(c, ps, boxes) implies contains(c, m) by {
                assert(encloses(c, ps1, boxes)) by {
                    assert forall|k: int| 0 <= k < ps1.len() implies contains(
                        c,
                        #[trigger] boxes[ps1[k] as int],
                    ) by {
                        assert(ps[k] == ps1[k]);
                    }
                }
                assert(encloses(c, ps2, boxes)) by {
                    assert forall|k: int| 0 <= k < ps2.len() implies contains(
                        c,
                        #[trigger] boxes[ps2[k] as int],
                    ) by {
                        assert(ps[k + ps1.len()] == ps2[k]);
                    }
                }
                lemma_merge_least(b1, b2, c);
            }
        },
        (Some(b1), None) => {
            assert(ps =~= ps1);
        },
        (None, Some(b2)) => {
            assert(ps =~= ps2);
        },
        (None, None) => {},
    }
}

/// The bounding box of a group is determined by the group: two boxes that both bound
/// it are the same.
pub proof fn lemma_bounds_unique(o1: Option<AABB>, o2: Option<AABB>, ps: Seq<usize>, boxes: Seq<AABB>)
    requires
        is_bounds(o1, ps, boxes),
        is_bounds(o2, ps, boxes),
    ensures
        o1 == o2,
{
    match (o1, o2) {
        (Some(b1), Some(b2)) => {
            assert(contains(b1, b2));
            assert(contains(b2, b1));
            assert(b1.min == b2.min);
            assert(b1.max == b2.max);
        },
        _ => {},
    }
}

/// The union of the boxes of `ps`, merged in order; none for no primitives.
pub open spec fn union_of(ps: Seq<usize>, boxes: Seq<AABB>) -> Option<AABB>
    decreases ps.len(),
{
    if ps.len() == 0 {
        None
    } else {
        union_opt(union_of(ps.drop_last(), boxes), Some(boxes[ps.last() as int]))
    }
}

proof fn lemma_union_of_bounds(ps: Seq<usize>, boxes: Seq<AABB>)
    requires
        all_below(ps, boxes.len()),
    ensures
        is_bounds(union_of(ps, boxes), ps, boxes),
    decreases ps.len(),
{
    if ps.len() > 0 {
        let init = ps.drop_last();
        let p = ps.last();
        assert(all_below(init, boxes.len())) by {
            assert forall|k: int| 0 <= k < init.len() implies (#[trigger] init[k] as nat) < boxes.len() by {
                assert(init[k] == ps[k]);
            }
        }
        assert(p == ps[ps.len() - 1]);
        lemma_union_of_bounds(init, boxes);
        lemma_bounds_single(p, boxes);
        lemma_bounds_concat(union_of(init, boxes), init, Some(boxes[p as int]), seq![p], boxes);
        assert(init + seq![p] =~= ps);
    }
}

/// A list's box is the union of its members' boxes: none exactly when the list is
/// empty, and for a list of one member that member's own box.
pub proof fn lemma_list_box(l: HittableList, boxes: Seq<AABB>)
    requires
        l.wf(boxes),
    ensures
        l.aabb == union_of(l.list@, boxes),
        l.aabb is None <==> l.list@.len() == 0,
        l.list@.len() == 1 ==> l.aabb == Some(boxes[l.list@[0] as int]),
{
    lemma_union_of_bounds(l.list@, boxes);
    lemma_bounds_unique(l.aabb, union_of(l.list@, boxes), l.list@, boxes);
    if l.list@.len() == 1 {
        assert(l.list@.drop_last().len() == 0);
        assert(union_of(l.list@.drop_last(), boxes) is None);
        assert(l.list@.last() == l.list@[0]);
    }
}

/// The bounding box of the primitives `ps`, merged in order.
pub fn bounds_of(ps: &Vec<usize>, boxes: &Vec<AABB>) -> (r: Option<AABB>)
    requires
        all_below(ps@, boxes@.len()),
    ensures
        is_bounds(r, ps@, boxes@),
{
    let mut acc: Option<AABB> = None;
    let mut i: usize = 0;
    while i < ps.len()
        invariant
            i <= ps@.len(),
            all_below(ps@, boxes@.len()),
            is_bounds(acc, ps@.take(i as int), boxes@),
        decreases ps@.len() - i,
    {
        let p = ps[i];
        let b = boxes[p];
        proof {
            lemma_bounds_single(p, boxes@);
            lemma_bounds_concat(acc, ps@.take(i as int), Some(b), seq![p], boxes@);
            assert(ps@.take(i as int) + seq![p] =~= ps@.take(i + 1));
        }
        acc = merge_opt(acc, Some(b));
        i = i + 1;
    }
    assert(ps@.take(ps@.len() as int) =~= ps@);
    acc
}

/// A flat list of primitives with the bounding box of its members, kept up to date as
/// members are added.
pub struct HittableList {
    pub list: Vec<usize>,
    pub aabb: Option<AABB>,
}

impl HittableList {
    /// Every member names a primitive of `boxes`, and `aabb` is the members' box.
    pub open spec fn wf(&self, boxes: Seq<AABB>) -> bool {
        &&& all_below(self.list@, boxes.len())
        &&& is_bounds(self.aabb, self.list@, boxes)
    }

    /// An empty list, which has no box.
    pub fn new() -> (r: HittableList)
        ensures
            r.list@ == Seq::<usize>::empty(),
            r.aabb is None,
            forall|boxes: Seq<AABB>| r.wf(boxes),
    {
        HittableList { list: Vec::new(), aabb: None }
    }

    /// An empty list with room for `n` members.
    pub fn with_capacity(n: usize) -> (r: HittableList)
        ensures
            r.list@ == Seq::<usize>::empty(),
            r.aabb is None,
            forall|boxes: Seq<AABB>| r.wf(boxes),
    {
        HittableList { list: Vec::with_capacity(n), aabb: None }
    }

    /// Adds primitive `p`, whose box is `boxes[p]`, growing the list's box to hold it.
    pub fn push(&mut self, p: usize, boxes: &Vec<AABB>)
        requires
            old(self).wf(boxes@),
            p < boxes@.len(),
        ensures
            final(self).list@ == old(self).list@.push(p),
            final(self).aabb == union_opt(old(self).aabb, Some(boxes@[p as int])),
            final(self).wf(boxes@),
    {
        let b = boxes[p];
        proof {
            lemma_bounds_single(p, boxes@);
            lemma_bounds_concat(self.aabb, self.list@, Some(b), seq![p], boxes@);
            assert(self.list@ + seq![p] =~= self.list@.push(p));
        }
        match &mut self.aabb {
            Some(self_aabb) => self_aabb.expand(&b),
            None => self.aabb = Some(b),
        }
        self.list.push(p);
    }

    /// A list of the primitives `list`, in that order, with their box.
    pub fn from_vec(list: Vec<usize>, boxes: &Vec<AABB>) -> (r: HittableList)
        requires
            all_below(list@, boxes@.len()),
        ensures
            r.list@ == list@,
            r.wf(boxes@),
    {
        let aabb = bounds_of(&list, boxes);
        HittableList { list, aabb }
    }

    pub fn len(&self) -> (r: usize)
        ensures
            r == self.list@.len(),
    {
        self.list.len()
    }

    pub fn bounding_box(&self) -> (r: Option<AABB>)
        ensures
            r == self.aabb,
    {
        self.aabb
    }
}

} // verus!
