use std::cmp::Ordering;
use vstd::prelude::*;
use crate::rtweekend::random_int_min_max;

verus! {

broadcast use vstd::seq_lib::group_to_multiset_ensures;

/// The minimum of a primitive's bounding box on each axis, each written as an integer
/// that orders as the coordinate does.
#[derive(Clone, Copy, Debug, PartialEq, Eq, Structural)]
pub struct BoxKey {
    pub x: i64,
    pub y: i64,
    pub z: i64,
}

impl BoxKey {
    pub open spec fn axis_spec(self, n: i32) -> i64 {
        if n == 1 {
            self.y
        } else if n == 2 {
            self.z
        } else {
            self.x
        }
    }

    /// The key on axis `n`: 1 is y, 2 is z, any other value x.
    pub fn axis(self, n: i32) -> (r: i64)
        ensures
            r == self.axis_spec(n),
    {
        match n {
            1 => self.y,
            2 => self.z,
            _ => self.x,
        }
    }
}

/// Orders two primitives by their box minimum on one axis; equal minima compare as
/// `Greater`, so the order is a strict one and ties may fall either way.
pub fn box_compare(a: &BoxKey, b: &BoxKey, axis_index: i32) -> (r: Ordering)
    ensures
        r == (if a.axis_spec(axis_index) < b.axis_spec(axis_index) {
            Ordering::Less
        } else {
            Ordering::Greater
        }),
{
    if a.axis(axis_index) < b.axis(axis_index) {
        Ordering::Less
    } else {
        Ordering::Greater
    }
}

/// One child of a tree node: a primitive, by its index, or a subtree.
pub enum BvhChild {
    Leaf(usize),
    Node(Box<BvhNode>),
}

/// A node of a bounding volume hierarchy. It always has two children; a node built over
/// one primitive holds that primitive on both sides.
pub struct BvhNode {
    pub left: BvhChild,
    pub right: BvhChild,
}

/// The primitives under a child, left to right.
pub open spec fn child_leaves(c: BvhChild) -> Seq<usize>
    decreases c,
{
    match c {
        BvhChild::Leaf(i) => seq![i],
        BvhChild::Node(n) => child_leaves(n.left) + child_leaves(n.right),
    }
}

/// Every node under `c` splits its primitives on some axis, as `split_on` says.
pub open spec fn child_partitioned(keys: Seq<BoxKey>, c: BvhChild) -> bool
    decreases c,
{
    match c {
        BvhChild::Leaf(_) => true,
        BvhChild::Node(n) => {
            &&& exists|axis: i32|
                0 <= axis <= 2 && split_on(keys, child_leaves(n.left), child_leaves(n.right), axis)
            &&& child_partitioned(keys, n.left)
            &&& child_partitioned(keys, n.right)
        },
    }
}

impl BvhNode {
    /// The primitives under this node, left to right.
    pub open spec fn leaves(&self) -> Seq<usize> {
        child_leaves(self.left) + child_leaves(self.right)
    }

    /// This node and every node under it split their primitives on some axis.
    pub open spec fn partitioned(&self, keys: Seq<BoxKey>) -> bool {
        &&& exists|axis: i32|
            0 <= axis <= 2 && split_on(keys, child_leaves(self.left), child_leaves(self.right), axis)
        &&& child_partitioned(keys, self.left)
        &&& child_partitioned(keys, self.right)
    }

    /// Builds the hierarchy over the primitives `objects[start..end]`, whose box minima are
    /// `keys`. Each node picks an axis at random; two primitives are ordered on it, and
    /// more are sorted on it and halved at the middle index. The range may come back
    /// reordered, with the same primitives in it.
    pub fn new(objects: &mut Vec<usize>, keys: &Vec<BoxKey>, start: usize, end: usize) -> (r:
        BvhNode)
        requires
            start < end <= old(objects)@.len(),
            indices_in(old(objects)@, start as int, end as int, keys@.len() as int),
        ensures
            final(objects)@.len() == old(objects)@.len(),
            forall|i: int|
                0 <= i < old(objects)@.len() && !(start <= i < end) ==> final(objects)@[i]
                    == old(objects)@[i],
            indices_in(final(objects)@, start as int, end as int, keys@.len() as int),
            same_members(
                final(objects)@.subrange(start as int, end as int),
                old(objects)@.subrange(start as int, end as int),
            ),
            same_members(r.leaves(), old(objects)@.subrange(start as int, end as int)),
            r.partitioned(keys@),
            end - start <= 2 ==> final(objects)@ == old(objects)@,
            end - start == 1 ==> r.left == BvhChild::Leaf(old(objects)@[start as int]) && r.right
                == BvhChild::Leaf(old(objects)@[start as int]),
            end - start == 2 ==> exists|axis: i32|
                0 <= axis <= 2 && #[trigger] r.ordered_pair(
                    keys@,
                    old(objects)@[start as int],
                    old(objects)@[start + 1],
                    axis,
                ),
            end - start > 2 ==> r.halves(
                final(objects)@,
                start as int,
                start + (end - start) / 2,
                end as int,
            ),
        decreases end - start,
    {
        let axis = random_int_min_max(0, 2);
        let object_span = end - start;
        if object_span == 1 {
            let id = objects[start];
            let r = BvhNode { left: BvhChild::Leaf(id), right: BvhChild::Leaf(id) };
            proof {
                assert(r.leaves() =~= seq![id, id]);
                assert(split_on(keys@, seq![id], seq![id], axis));
                lemma_contains_range(objects@, start as int, end as int, id);
                assert forall|k: usize|
                    r.leaves().contains(k) <==> objects@.subrange(start as int, end as int).contains(
                        k,
                    ) by {
                    lemma_contains_range(objects@, start as int, end as int, k);
                    if r.leaves().contains(k) {
                        let j = choose|j: int| 0 <= j < 2 && r.leaves()[j] == k;
                        assert(r.leaves()[j] == id);
                    }
                }
            }
            r
        } else if object_span == 2 {
            let a = objects[start];
            let b = objects[start + 1];
            let r = match box_compare(&keys[a], &keys[b], axis) {
                Ordering::Less => BvhNode { left: BvhChild::Leaf(a), right: BvhChild::Leaf(b) },
                _ => BvhNode { left: BvhChild::Leaf(b), right: BvhChild::Leaf(a) },
            };
            proof {
                assert(r.ordered_pair(keys@, a, b, axis));
                assert(split_on(keys@, child_leaves(r.left), child_leaves(r.right), axis));
                assert(r.leaves() =~= seq![a, b] || r.leaves() =~= seq![b, a]);
                assert forall|k: usize|
                    r.leaves().contains(k) <==> objects@.subrange(start as int, end as int).contains(
                        k,
                    ) by {
                    lemma_contains_range(objects@, start as int, end as int, k);
                    if r.leaves().contains(k) {
                        let j = choose|j: int| 0 <= j < 2 && r.leaves()[j] == k;
                        assert(r.leaves()[j] == a || r.leaves()[j] == b);
                    }
                    if objects@.subrange(start as int, end as int).contains(k) {
                        assert(k == a || k == b);
                        assert(r.leaves()[0] == k || r.leaves()[1] == k);
                    }
                }
            }
            r
        } else {
            let ghost orig = objects@;
            sort_range(objects, keys, start, end, axis);
            let ghost sorted = objects@;
            let mid = start + object_span / 2;
            let left = Self::new(objects, keys, start, mid);
            let ghost after_left = objects@;
            let right = Self::new(objects, keys, mid, end);
            let r = BvhNode {
                left: BvhChild::Node(Box::new(left)),
                right: BvhChild::Node(Box::new(right)),
            };
            proof {
                let fin = objects@;
                assert(child_leaves(r.left) == left.leaves());
                assert(child_leaves(r.right) == right.leaves());
                lemma_members_split(sorted, start as int, mid as int, end as int);
                lemma_members_split(fin, start as int, mid as int, end as int);
                assert(fin.subrange(start as int, mid as int) =~= after_left.subrange(
                    start as int,
                    mid as int,
                ));
                assert(after_left.subrange(mid as int, end as int) =~= sorted.subrange(
                    mid as int,
                    end as int,
                ));
                assert forall|i: int, j: int|
                    0 <= i < left.leaves().len() && 0 <= j < right.leaves().len() implies
                    #[trigger] keys@[left.leaves()[i] as int].axis_spec(axis)
                    <= #[trigger] keys@[right.leaves()[j] as int].axis_spec(axis) by {
                    let x = left.leaves()[i];
                    let y = right.leaves()[j];
                    assert(left.leaves().contains(x));
                    assert(right.leaves().contains(y));
                    lemma_contains_range(sorted, start as int, mid as int, x);
                    lemma_contains_range(sorted, mid as int, end as int, y);
                    let p = choose|p: int| start <= p < mid && sorted[p] == x;
                    let q = choose|q: int| mid <= q < end && sorted[q] == y;
                }
                assert(split_on(keys@, child_leaves(r.left), child_leaves(r.right), axis));
                assert forall|k: usize|
                    r.leaves().contains(k) <==> orig.subrange(start as int, end as int).contains(k)
                    by {
                    assert(r.leaves() == left.leaves() + right.leaves());
                    if r.leaves().contains(k) {
                        let j = choose|j: int| 0 <= j < r.leaves().len() && r.leaves()[j] == k;
                        if j < left.leaves().len() {
                            assert(left.leaves()[j] == k);
                            assert(left.leaves().contains(k));
                        } else {
                            assert(right.leaves()[j - left.leaves().len()] == k);
                            assert(right.leaves().contains(k));
                        }
                    }
                    if orig.subrange(start as int, end as int).contains(k) {
                        assert(sorted.subrange(start as int, end as int).contains(k));
                        if left.leaves().contains(k) {
                            let j = choose|j: int| 0 <= j < left.leaves().len() && left.leaves()[j] == k;
                            assert(r.leaves()[j] == k);
                        } else {
                            assert(right.leaves().contains(k));
                            let j = choose|j: int| 0 <= j < right.leaves().len() && right.leaves()[j] == k;
                            assert(r.leaves()[left.leaves().len() + j] == k);
                        }
                    }
                }
                assert forall|i: int| start <= i < end implies #[trigger] fin[i] < keys@.len() by {
                    if i < mid {
                        assert(fin[i] == after_left[i]);
                    }
                }
            }
            r
        }
    }

    /// Builds the hierarchy over primitives `0..keys.len()`, primitive `i` having the box
    /// minima `keys[i]`. An empty list has no hierarchy: `None`.
    pub fn from_list(keys: &Vec<BoxKey>) -> (r: Option<BvhNode>)
        ensures
            r.is_some() <==> keys@.len() > 0,
            r matches Some(node) ==> node.partitioned(keys@) && forall|k: usize|
                node.leaves().contains(k) <==> k < keys@.len(),
            keys@.len() == 1 ==> (r matches Some(node) && node.left == BvhChild::Leaf(0)
                && node.right == BvhChild::Leaf(0)),
            keys@.len() == 2 ==> (r matches Some(node) && exists|axis: i32|
                0 <= axis <= 2 && #[trigger] node.ordered_pair(keys@, 0, 1, axis)),
    {
        let len = keys.len();
        if len == 0 {
            return None;
        }
        let mut objects: Vec<usize> = Vec::new();
        let mut i: usize = 0;
        while i < len
            invariant
                i <= len == keys@.len(),
                objects@.len() == i,
                forall|j: int| 0 <= j < i ==> objects@[j] == j,
            decreases len - i,
        {
            objects.push(i);
            i += 1;
        }
        let ghost all = objects@;
        let node = Self::new(&mut objects, keys, 0, len);
        proof {
            if len <= 2 {
                assert(all[0] == 0);
            }
            if len == 2 {
                assert(all[1] == 1);
            }
            assert forall|k: usize| node.leaves().contains(k) <==> k < keys@.len() by {
                lemma_contains_range(all, 0, len as int, k);
                if k < len {
                    assert(all[k as int] == k);
                }
            }
        }
        Some(node)
    }

    /// Both children are subtrees, the left one over the primitives of `s[start..mid]`
    /// and the right one over those of `s[mid..end]`.
    pub open spec fn halves(&self, s: Seq<usize>, start: int, mid: int, end: int) -> bool {
        match (self.left, self.right) {
            (BvhChild::Node(l), BvhChild::Node(r)) => {
                &&& same_members(l.leaves(), s.subrange(start, mid))
                &&& same_members(r.leaves(), s.subrange(mid, end))
            },
            _ => false,
        }
    }

    /// The node holds `a` and `b` as its two leaves, ordered by their box minima on `axis`.
    pub open spec fn ordered_pair(&self, keys: Seq<BoxKey>, a: usize, b: usize, axis: i32) -> bool {
        if keys[a as int].axis_spec(axis) < keys[b as int].axis_spec(axis) {
            self.left == BvhChild::Leaf(a) && self.right == BvhChild::Leaf(b)
        } else {
            self.left == BvhChild::Leaf(b) && self.right == BvhChild::Leaf(a)
        }
    }
}


/// `a` and `b` hold the same primitives, whatever the order and the repeats.
pub open spec fn same_members(a: Seq<usize>, b: Seq<usize>) -> bool {
    forall|k: usize| a.contains(k) <==> b.contains(k)
}

/// On `axis`, no primitive of `l` has a larger box minimum than any primitive of `r`.
pub open spec fn split_on(keys: Seq<BoxKey>, l: Seq<usize>, r: Seq<usize>, axis: i32) -> bool {
    forall|i: int, j: int|
        0 <= i < l.len() && 0 <= j < r.len() ==> #[trigger] keys[l[i] as int].axis_spec(axis)
            <= #[trigger] keys[r[j] as int].axis_spec(axis)
}

/// Every primitive index in `s[start..end]` names a key.
pub open spec fn indices_in(s: Seq<usize>, start: int, end: int, n: int) -> bool {
    forall|i: int| start <= i < end ==> #[trigger] s[i] < n
}

proof fn lemma_contains_range(s: Seq<usize>, start: int, end: int, k: usize)
    requires
        0 <= start <= end <= s.len(),
    ensures
        s.subrange(start, end).contains(k) <==> exists|i: int| start <= i < end && s[i] == k,
{
    if s.subrange(start, end).contains(k) {
        let j = choose|j: int| 0 <= j < end - start && s.subrange(start, end)[j] == k;
        assert(s[start + j] == k);
    }
    if exists|i: int| start <= i < end && s[i] == k {
        let i = choose|i: int| start <= i < end && s[i] == k;
        assert(s.subrange(start, end)[i - start] == k);
    }
}

proof fn lemma_members_split(s: Seq<usize>, start: int, mid: int, end: int)
    requires
        0 <= start <= mid <= end <= s.len(),
    ensures
        forall|k: usize|
            s.subrange(start, end).contains(k) <==> (s.subrange(start, mid).contains(k)
                || s.subrange(mid, end).contains(k)),
{
    assert forall|k: usize|
        s.subrange(start, end).contains(k) <==> (s.subrange(start, mid).contains(k)
            || s.subrange(mid, end).contains(k)) by {
        lemma_contains_range(s, start, end, k);
        lemma_contains_range(s, start, mid, k);
        lemma_contains_range(s, mid, end, k);
    }
}

/// Relies on `slice::sort_unstable`: the pairs come out in ascending order, so their
/// first components are ascending, and each pair as often as it went in.
#[verifier::external_body]
fn sort_pairs(v: &mut Vec<(i64, usize)>)
    ensures
        final(v)@.to_multiset() == old(v)@.to_multiset(),
        forall|i: int, j: int| 0 <= i < j < final(v)@.len() ==> final(v)@[i].0 <= final(v)@[j].0,
{
    v.sort_unstable()
}

/// Sorts `objects[start..end]` by the box minimum of each primitive on `axis`.
fn sort_range(objects: &mut Vec<usize>, keys: &Vec<BoxKey>, start: usize, end: usize, axis: i32)
    requires
        start <= end <= old(objects)@.len(),
        indices_in(old(objects)@, start as int, end as int, keys@.len() as int),
    ensures
        final(objects)@.len() == old(objects)@.len(),
        forall|i: int|
            0 <= i < old(objects)@.len() && !(start <= i < end) ==> final(objects)@[i]
                == old(objects)@[i],
        indices_in(final(objects)@, start as int, end as int, keys@.len() as int),
        same_members(
            final(objects)@.subrange(start as int, end as int),
            old(objects)@.subrange(start as int, end as int),
        ),
        forall|i: int, j: int|
            start <= i < j < end ==> keys@[final(objects)@[i] as int].axis_spec(axis)
                <= keys@[final(objects)@[j] as int].axis_spec(axis),
{
    let ghost orig = objects@;
    let mut pairs: Vec<(i64, usize)> = Vec::new();
    let mut k: usize = start;
    while k < end
        invariant
            start <= k <= end,
            objects@ == orig,
            end <= orig.len(),
            indices_in(orig, start as int, end as int, keys@.len() as int),
            pairs@.len() == k - start,
            forall|j: int|
                0 <= j < pairs@.len() ==> #[trigger] pairs@[j] == (
                    keys@[orig[start + j] as int].axis_spec(axis),
                    orig[start + j],
                ),
        decreases end - k,
    {
        let id = objects[k];
        pairs.push((keys[id].axis(axis), id));
        k += 1;
    }
    let ghost before = pairs@;
    sort_pairs(&mut pairs);
    let ghost after = pairs@;
    assert(after.len() == before.len()) by {
        assert(after.to_multiset().len() == before.to_multiset().len());
    }
    assert forall|p: (i64, usize)| after.contains(p) <==> before.contains(p) by {
        assert(after.to_multiset().count(p) == before.to_multiset().count(p));
    }
    let mut k: usize = 0;
    while k < pairs.len()
        invariant
            pairs@ == after,
            after.len() == end - start,
            k <= after.len(),
            end <= orig.len(),
            objects@.len() == orig.len(),
            forall|i: int| 0 <= i < orig.len() && !(start <= i < start + k) ==> objects@[i] == orig[i],
            forall|j: int| 0 <= j < k ==> objects@[start + j] == after[j].1,
        decreases pairs.len() - k,
    {
        objects.set(start + k, pairs[k].1);
        k += 1;
    }
    proof {
        assert forall|j: int| 0 <= j < after.len() implies
            after[j].0 == keys@[after[j].1 as int].axis_spec(axis) && after[j].1 < keys@.len()
            && orig.subrange(start as int, end as int).contains(after[j].1) by {
            assert(after.contains(after[j]));
            let m = choose|m: int| 0 <= m < before.len() && before[m] == after[j];
            assert(before[m] == after[j]);
            assert(orig.subrange(start as int, end as int)[m] == orig[start + m]);
        }
        assert forall|i: int| start <= i < end implies #[trigger] objects@[i] < keys@.len() by {
            assert(objects@[start + (i - start)] == after[i - start].1);
        }
        assert forall|i: int, j: int| start <= i < j < end implies keys@[objects@[i] as int].axis_spec(
            axis,
        ) <= keys@[objects@[j] as int].axis_spec(axis) by {
            assert(objects@[start + (i - start)] == after[i - start].1);
            assert(objects@[start + (j - start)] == after[j - start].1);
        }
        assert forall|x: usize|
            objects@.subrange(start as int, end as int).contains(x) <==> orig.subrange(
                start as int,
                end as int,
            ).contains(x) by {
            lemma_contains_range(objects@, start as int, end as int, x);
            lemma_contains_range(orig, start as int, end as int, x);
            if objects@.subrange(start as int, end as int).contains(x) {
                let i = choose|i: int| start <= i < end && objects@[i] == x;
                assert(objects@[start + (i - start)] == after[i - start].1);
            }
            if orig.subrange(start as int, end as int).contains(x) {
                let i = choose|i: int| start <= i < end && orig[i] == x;
                let p = before[i - start];
                assert(before.contains(p));
                assert(after.contains(p));
                let j = choose|j: int| 0 <= j < after.len() && after[j] == p;
                assert(objects@[start + j] == after[j].1);
            }
        }
    }
}

} // verus!
