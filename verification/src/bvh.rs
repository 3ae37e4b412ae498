use vstd::prelude::*;

use std::ops::Range;

use arrayvec::ArrayVec;

use crate::partition::{
    at_most_split, key_above, key_at_most, key_given, key_le, keys_ordered, partition_by_key, scan_split,
    selector_deterministic,
};

verus! {

#[verifier::external_type_specification]
#[verifier::external_body]
#[verifier::reject_recursive_types(T)]
pub struct ExArrayVec<T, const CAP: usize>(ArrayVec<T, CAP>);

/// The (node position, object offset) pairs that a search still has to visit,
/// bottom first.
pub uninterp spec fn stack_items(s: ArrayVec<(usize, usize), 30>) -> Seq<(usize, usize)>;

/// An empty stack (`ArrayVec::new`).
#[verifier::external_body]
fn stack_new() -> (s: ArrayVec<(usize, usize), 30>)
    ensures
        stack_items(s) == Seq::<(usize, usize)>::empty(),
{
    ArrayVec::new()
}

/// Pushes `item` on top of a stack that is not full (`ArrayVec::push`, which
/// panics on a full one).
#[verifier::external_body]
fn stack_push(s: &mut ArrayVec<(usize, usize), 30>, item: (usize, usize))
    requires
        stack_items(*old(s)).len() < 30,
    ensures
        stack_items(*final(s)) == stack_items(*old(s)).push(item),
{
    s.push(item)
}

/// Takes the top item off a stack, if it has one (`ArrayVec::pop`).
#[verifier::external_body]
fn stack_pop(s: &mut ArrayVec<(usize, usize), 30>) -> (r: Option<(usize, usize)>)
    ensures
        stack_items(*old(s)).len() == 0 ==> r is None && stack_items(*final(s)) == stack_items(*old(s)),
        stack_items(*old(s)).len() > 0 ==> r == Some(stack_items(*old(s)).last()) && stack_items(*final(s))
            == stack_items(*old(s)).drop_last(),
{
    s.pop()
}

/// A branch node: the positions of its two children in the node list.
#[derive(Clone, Copy, Debug, PartialEq, Eq, Structural)]
pub struct BvhBranch {
    pub left_offset: usize,
    pub right_offset: usize,
}

/// A leaf node: `length` objects from position `offset` of the object list.
#[derive(Clone, Copy, Debug, PartialEq, Eq, Structural)]
pub struct BvhLeaf {
    pub offset: usize,
    pub length: usize,
}

impl BvhLeaf {
    /// The positions of the leaf's objects.
    pub fn range(&self) -> (r: Range<usize>)
        requires
            self.offset + self.length <= usize::MAX,
        ensures
            r.start == self.offset,
            r.end == self.offset + self.length,
    {
        self.offset..(self.offset + self.length)
    }
}

/// What a node is: a branch or a leaf.
#[derive(Clone, Copy, Debug, PartialEq, Eq, Structural)]
pub enum BvhNodeData {
    Branch(BvhBranch),
    Leaf(BvhLeaf),
}

/// A node: the box that bounds everything below it, and what it is.
pub struct BvhNode<B> {
    pub aabb: B,
    pub data: BvhNodeData,
}

/// A bounding volume hierarchy: the objects (each with its position in the
/// list it was built from) in the order that the leaves refer to, and the
/// nodes, the root first.
pub struct Bvh<B, O> {
    object_bounds: Vec<(usize, O)>,
    nodes: Vec<BvhNode<B>>,
}

/// An object whose box a ray may hit: its position in the list the hierarchy was built from.
#[derive(Clone, Copy, Debug, PartialEq, Eq, Structural)]
pub struct BvhHitCandidate {
    pub object_index: usize,
}

/// Every node's children come after it in the list, and every leaf holds at
/// least one of the `n_objects` objects.
pub open spec fn nodes_wf<B>(nodes: Seq<BvhNode<B>>, n_objects: nat) -> bool {
    &&& nodes.len() >= 1
    &&& forall|i: int|
        0 <= i < nodes.len() ==> match #[trigger] nodes[i].data {
            BvhNodeData::Branch(b) => i < b.left_offset < nodes.len() && i < b.right_offset < nodes.len(),
            BvhNodeData::Leaf(l) => 1 <= l.length && l.offset + l.length <= n_objects,
        }
}

/// The number of branch levels below node `i`.
pub open spec fn height<B>(nodes: Seq<BvhNode<B>>, i: int) -> nat
    decreases nodes.len() - i,
{
    if 0 <= i < nodes.len() {
        match nodes[i].data {
            BvhNodeData::Leaf(_) => 0,
            BvhNodeData::Branch(b) => if i < b.left_offset < nodes.len() && i < b.right_offset < nodes.len() {
                let hl = height(nodes, b.left_offset as int);
                let hr = height(nodes, b.right_offset as int);
                1 + if hl >= hr {
                    hl
                } else {
                    hr
                }
            } else {
                0
            },
        }
    } else {
        0
    }
}

/// The number of nodes under node `i`, itself included.
pub open spec fn subtree_size<B>(nodes: Seq<BvhNode<B>>, i: int) -> nat
    decreases nodes.len() - i,
{
    if 0 <= i < nodes.len() {
        match nodes[i].data {
            BvhNodeData::Leaf(_) => 1,
            BvhNodeData::Branch(b) => if i < b.left_offset < nodes.len() && i < b.right_offset < nodes.len() {
                1 + subtree_size(nodes, b.left_offset as int) + subtree_size(nodes, b.right_offset as int)
            } else {
                1
            },
        }
    } else {
        1
    }
}

/// The object positions under node `i`: the first one and how many.
pub open spec fn span<B>(nodes: Seq<BvhNode<B>>, i: int) -> (int, int)
    decreases nodes.len() - i,
{
    if 0 <= i < nodes.len() {
        match nodes[i].data {
            BvhNodeData::Leaf(l) => (l.offset as int, l.length as int),
            BvhNodeData::Branch(b) => if i < b.left_offset < nodes.len() && i < b.right_offset < nodes.len() {
                let sl = span(nodes, b.left_offset as int);
                let sr = span(nodes, b.right_offset as int);
                (sl.0, sl.1 + sr.1)
            } else {
                (0, 0)
            },
        }
    } else {
        (0, 0)
    }
}

/// Below node `i`, the objects of every branch's second child follow those
/// of its first child without a gap.
pub open spec fn tiled<B>(nodes: Seq<BvhNode<B>>, i: int) -> bool
    decreases nodes.len() - i,
{
    &&& 0 <= i < nodes.len()
    &&& match nodes[i].data {
        BvhNodeData::Leaf(_) => true,
        BvhNodeData::Branch(b) => {
            &&& i < b.left_offset < nodes.len()
            &&& i < b.right_offset < nodes.len()
            &&& tiled(nodes, b.left_offset as int)
            &&& tiled(nodes, b.right_offset as int)
            &&& span(nodes, b.right_offset as int).0 == span(nodes, b.left_offset as int).0 + span(
                nodes,
                b.left_offset as int,
            ).1
        },
    }
}

/// Replacing the leaf at `offset` by nodes that are tiled and cover the same
/// positions keeps every tiled node tiled, over the same positions.
proof fn lemma_tiling_kept<B>(before: Seq<BvhNode<B>>, after: Seq<BvhNode<B>>, n_objects: nat, offset: int, i: int)
    requires
        nodes_wf(before, n_objects),
        after.len() >= before.len(),
        0 <= offset < before.len(),
        forall|j: int| 0 <= j < before.len() && j != offset ==> #[trigger] after[j] == before[j],
        before[offset].data matches BvhNodeData::Leaf(_),
        tiled(after, offset),
        span(after, offset) == span(before, offset),
        tiled(before, i),
    ensures
        tiled(after, i),
        span(after, i) == span(before, i),
    decreases before.len() - i,
{
    if i != offset {
        assert(after[i] == before[i]);
        match before[i].data {
            BvhNodeData::Leaf(_) => {},
            BvhNodeData::Branch(b) => {
                lemma_tiling_kept(before, after, n_objects, offset, b.left_offset as int);
                lemma_tiling_kept(before, after, n_objects, offset, b.right_offset as int);
            },
        }
    }
}

/// The box of node `i` is one that `enclose` gave for a list of exactly the
/// objects at the positions that the node covers, in some order.
pub open spec fn node_boxed<B, O, E: Fn(&[(usize, O)]) -> B>(
    nodes: Seq<BvhNode<B>>,
    objects: Seq<(usize, O)>,
    enclose: E,
    i: int,
) -> bool {
    let sp = span(nodes, i);
    exists|x: &[(usize, O)]|
        #[trigger] call_ensures(enclose, (x,), nodes[i].aabb) && x@.to_multiset() == objects.subrange(
            sp.0,
            sp.0 + sp.1,
        ).to_multiset()
}

/// Node `i` and every node below it are boxed by `enclose`.
pub open spec fn boxed_below<B, O, E: Fn(&[(usize, O)]) -> B>(
    nodes: Seq<BvhNode<B>>,
    objects: Seq<(usize, O)>,
    enclose: E,
    i: int,
) -> bool
    decreases nodes.len() - i,
{
    &&& 0 <= i < nodes.len()
    &&& node_boxed(nodes, objects, enclose, i)
    &&& match nodes[i].data {
        BvhNodeData::Leaf(_) => true,
        BvhNodeData::Branch(b) => {
            &&& i < b.left_offset < nodes.len()
            &&& i < b.right_offset < nodes.len()
            &&& boxed_below(nodes, objects, enclose, b.left_offset as int)
            &&& boxed_below(nodes, objects, enclose, b.right_offset as int)
        },
    }
}

/// Two lists that agree outside `c..d`, where their elements within `c..d`
/// are the same ones, have the same elements within any `lo..hi` around it.
proof fn lemma_range_elements_kept<T>(a: Seq<T>, b: Seq<T>, lo: int, c: int, d: int, hi: int)
    requires
        0 <= lo <= c <= d <= hi <= a.len(),
        a.len() == b.len(),
        forall|p: int| 0 <= p < a.len() && !(c <= p < d) ==> #[trigger] b[p] == a[p],
        b.subrange(c, d).to_multiset() == a.subrange(c, d).to_multiset(),
    ensures
        b.subrange(lo, hi).to_multiset() == a.subrange(lo, hi).to_multiset(),
{
    broadcast use vstd::seq_lib::lemma_multiset_commutative;

    assert(a.subrange(lo, hi) =~= a.subrange(lo, c) + (a.subrange(c, d) + a.subrange(d, hi)));
    assert(b.subrange(lo, hi) =~= b.subrange(lo, c) + (b.subrange(c, d) + b.subrange(d, hi)));
    assert(b.subrange(lo, c) =~= a.subrange(lo, c));
    assert(b.subrange(d, hi) =~= a.subrange(d, hi));
}

/// A tiled node covers at least one position, and its children cover parts of its own.
proof fn lemma_span_nonempty<B>(nodes: Seq<BvhNode<B>>, n_objects: nat, i: int)
    requires
        nodes_wf(nodes, n_objects),
        tiled(nodes, i),
    ensures
        1 <= span(nodes, i).1,
        0 <= span(nodes, i).0,
        span(nodes, i).0 + span(nodes, i).1 <= n_objects,
    decreases nodes.len() - i,
{
    match nodes[i].data {
        BvhNodeData::Leaf(_) => {},
        BvhNodeData::Branch(b) => {
            lemma_span_nonempty(nodes, n_objects, b.left_offset as int);
            lemma_span_nonempty(nodes, n_objects, b.right_offset as int);
        },
    }
}

/// Changing only the objects at `c..d` and the node `changed`, whose own
/// positions lie in `c..d`, keeps every tiled node boxed whose positions lie
/// outside `c..d`, with the same positions.
proof fn lemma_boxes_kept<B, O, E: Fn(&[(usize, O)]) -> B>(
    before: Seq<BvhNode<B>>,
    after: Seq<BvhNode<B>>,
    objs_before: Seq<(usize, O)>,
    objs_after: Seq<(usize, O)>,
    enclose: E,
    changed: int,
    c: int,
    d: int,
    i: int,
)
    requires
        nodes_wf(before, objs_before.len()),
        after.len() >= before.len(),
        objs_after.len() == objs_before.len(),
        forall|j: int| 0 <= j < before.len() && j != changed ==> #[trigger] after[j] == before[j],
        forall|p: int| 0 <= p < objs_before.len() && !(c <= p < d) ==> #[trigger] objs_after[p] == objs_before[p],
        0 <= changed < before.len(),
        tiled(before, changed),
        c <= span(before, changed).0,
        span(before, changed).0 + span(before, changed).1 <= d,
        tiled(before, i),
        boxed_below(before, objs_before, enclose, i),
        span(before, i).0 + span(before, i).1 <= c || d <= span(before, i).0,
        span(before, i).0 + span(before, i).1 <= objs_before.len(),
    ensures
        tiled(after, i),
        span(after, i) == span(before, i),
        boxed_below(after, objs_after, enclose, i),
    decreases before.len() - i,
{
    lemma_span_nonempty(before, objs_before.len(), changed);
    lemma_span_nonempty(before, objs_before.len(), i);
    assert(i != changed);
    assert(after[i] == before[i]);
    let sp = span(before, i);
    match before[i].data {
        BvhNodeData::Leaf(_) => {},
        BvhNodeData::Branch(b) => {
            lemma_span_nonempty(before, objs_before.len(), b.left_offset as int);
            lemma_span_nonempty(before, objs_before.len(), b.right_offset as int);
            lemma_boxes_kept(before, after, objs_before, objs_after, enclose, changed, c, d, b.left_offset as int);
            lemma_boxes_kept(before, after, objs_before, objs_after, enclose, changed, c, d, b.right_offset as int);
        },
    }
    assert(span(after, i) == sp);
    assert(objs_after.subrange(sp.0, sp.0 + sp.1) =~= objs_before.subrange(sp.0, sp.0 + sp.1));
    let x = choose|x: &[(usize, O)]|
        #[trigger] call_ensures(enclose, (x,), before[i].aabb) && x@.to_multiset() == objs_before.subrange(
            sp.0,
            sp.0 + sp.1,
        ).to_multiset();
    assert(call_ensures(enclose, (x,), after[i].aabb));
    assert(node_boxed(after, objs_after, enclose, i));
}

/// The nodes still to visit under the entries of a search stack.
pub open spec fn stack_weight<B>(nodes: Seq<BvhNode<B>>, s: Seq<(usize, usize)>) -> nat
    decreases s.len(),
{
    if s.len() == 0 {
        0
    } else {
        stack_weight(nodes, s.drop_last()) + subtree_size(nodes, s.last().0 as int)
    }
}

/// Every entry of a search stack is a node, a leaf entry one of the leaf's
/// objects, and the entries leave room on the stack for the branches below them.
pub open spec fn stack_ok<B>(nodes: Seq<BvhNode<B>>, s: Seq<(usize, usize)>) -> bool {
    forall|k: int|
        0 <= k < s.len() ==> {
            let e = #[trigger] s[k];
            &&& e.0 < nodes.len()
            &&& height(nodes, e.0 as int) + k <= 29
            &&& (nodes[e.0 as int].data matches BvhNodeData::Leaf(l) ==> e.1 < l.length)
        }
}

/// Node `n` is a leaf, and one of its objects has position `object_index` in
/// the list the hierarchy was built from.
pub open spec fn leaf_object<B, O>(nodes: Seq<BvhNode<B>>, objects: Seq<(usize, O)>, n: int, object_index: usize) -> bool {
    &&& 0 <= n < nodes.len()
    &&& match nodes[n].data {
        BvhNodeData::Leaf(l) => exists|p: int|
            l.offset <= p < l.offset + l.length && (#[trigger] objects[p]).0 == object_index,
        BvhNodeData::Branch(_) => false,
    }
}

/// A leaf of `bvh` whose box `hit` accepted holds the object at position
/// `object_index` of the list the hierarchy was built from.
pub open spec fn hit_object<B, O, F: Fn(&B) -> bool>(bvh: Bvh<B, O>, hit: F, object_index: usize) -> bool {
    exists|n: int|
        #[trigger] leaf_object(bvh.node_list(), bvh.object_list(), n, object_index) && call_ensures(
            hit,
            (&bvh.node_list()[n].aabb,),
            true,
        )
}

/// The positions (in the list the hierarchy was built from) of the objects of
/// leaf `l` from its `from`-th on, in order.
pub open spec fn leaf_ids<O>(objects: Seq<(usize, O)>, l: BvhLeaf, from: int) -> Seq<usize> {
    Seq::new((l.length - from) as nat, |k: int| objects[l.offset + from + k].0)
}

/// The objects found below node `i` by a depth-first search that enters only
/// the nodes whose boxes `accept` holds of, the second child of a branch first.
pub open spec fn found_below<B, O>(
    nodes: Seq<BvhNode<B>>,
    objects: Seq<(usize, O)>,
    accept: spec_fn(B) -> bool,
    i: int,
) -> Seq<usize>
    decreases nodes.len() - i,
{
    if 0 <= i < nodes.len() && accept(nodes[i].aabb) {
        match nodes[i].data {
            BvhNodeData::Leaf(l) => leaf_ids(objects, l, 0),
            BvhNodeData::Branch(b) => if i < b.left_offset < nodes.len() && i < b.right_offset < nodes.len() {
                found_below(nodes, objects, accept, b.right_offset as int) + found_below(
                    nodes,
                    objects,
                    accept,
                    b.left_offset as int,
                )
            } else {
                Seq::empty()
            },
        }
    } else {
        Seq::empty()
    }
}

/// The objects that one entry of a search stack still gives: from a leaf
/// entry, the leaf's objects from the entry's offset on.
pub open spec fn entry_found<B, O>(
    nodes: Seq<BvhNode<B>>,
    objects: Seq<(usize, O)>,
    accept: spec_fn(B) -> bool,
    e: (usize, usize),
) -> Seq<usize> {
    if e.0 < nodes.len() {
        match nodes[e.0 as int].data {
            BvhNodeData::Leaf(l) => if accept(nodes[e.0 as int].aabb) {
                leaf_ids(objects, l, e.1 as int)
            } else {
                Seq::empty()
            },
            BvhNodeData::Branch(_) => found_below(nodes, objects, accept, e.0 as int),
        }
    } else {
        Seq::empty()
    }
}

/// The objects that a search stack still gives, its top entry first.
pub open spec fn stack_found<B, O>(
    nodes: Seq<BvhNode<B>>,
    objects: Seq<(usize, O)>,
    accept: spec_fn(B) -> bool,
    s: Seq<(usize, usize)>,
) -> Seq<usize>
    decreases s.len(),
{
    if s.len() == 0 {
        Seq::empty()
    } else {
        entry_found(nodes, objects, accept, s.last()) + stack_found(nodes, objects, accept, s.drop_last())
    }
}

/// The boxes that the test `hit` accepts.
pub open spec fn accepted_by<B, F: Fn(&B) -> bool>(hit: F) -> spec_fn(B) -> bool {
    |b: B| call_ensures(hit, (&b,), true)
}

/// The test `hit` never gives both answers for one box.
pub open spec fn hit_is_deterministic<B, F: Fn(&B) -> bool>(hit: F) -> bool {
    forall|b: &B| #[trigger] call_ensures(hit, (b,), false) ==> !call_ensures(hit, (b,), true)
}

/// A stack entry for a node, at its first object, gives what a search from
/// that node finds.
proof fn lemma_entry_at_start<B, O>(
    nodes: Seq<BvhNode<B>>,
    objects: Seq<(usize, O)>,
    accept: spec_fn(B) -> bool,
    c: usize,
)
    requires
        c < nodes.len(),
    ensures
        entry_found(nodes, objects, accept, (c, 0usize)) == found_below(nodes, objects, accept, c as int),
{
}

/// A search that accepts every box finds, below a tiled node, exactly the
/// objects at the positions that the node covers.
proof fn lemma_found_covers<B, O>(
    nodes: Seq<BvhNode<B>>,
    objects: Seq<(usize, O)>,
    accept: spec_fn(B) -> bool,
    i: int,
)
    requires
        nodes_wf(nodes, objects.len()),
        tiled(nodes, i),
        forall|b: B| #[trigger] accept(b),
    ensures
        0 <= span(nodes, i).0,
        1 <= span(nodes, i).1,
        span(nodes, i).0 + span(nodes, i).1 <= objects.len(),
        found_below(nodes, objects, accept, i).to_multiset() == objects.subrange(
            span(nodes, i).0,
            span(nodes, i).0 + span(nodes, i).1,
        ).map_values(|p: (usize, O)| p.0).to_multiset(),
    decreases nodes.len() - i,
{
    broadcast use vstd::seq_lib::lemma_multiset_commutative;
    broadcast use vstd::seq_lib::lemma_seq_union_to_multiset_commutative;

    assert(accept(nodes[i].aabb));
    match nodes[i].data {
        BvhNodeData::Leaf(l) => {
            assert(leaf_ids(objects, l, 0) =~= objects.subrange(l.offset as int, l.offset + l.length).map_values(
                |p: (usize, O)| p.0,
            ));
        },
        BvhNodeData::Branch(b) => {
            let li = b.left_offset as int;
            let ri = b.right_offset as int;
            lemma_found_covers(nodes, objects, accept, li);
            lemma_found_covers(nodes, objects, accept, ri);
            let lo = span(nodes, li).0;
            let mid = span(nodes, ri).0;
            let hi = mid + span(nodes, ri).1;
            let ids = |p: (usize, O)| p.0;
            assert(objects.subrange(lo, hi).map_values(ids) =~= objects.subrange(lo, mid).map_values(ids)
                + objects.subrange(mid, hi).map_values(ids));
            let fr = found_below(nodes, objects, accept, ri);
            let fl = found_below(nodes, objects, accept, li);
            assert((fr + fl).to_multiset() == (fl + fr).to_multiset());
        },
    }
}

/// Seqs with the same elements keep the same elements when each is mapped by `f`.
proof fn lemma_map_keeps_multiset<A, C>(a: Seq<A>, b: Seq<A>, f: spec_fn(A) -> C)
    requires
        a.to_multiset() == b.to_multiset(),
    ensures
        a.map_values(f).to_multiset() == b.map_values(f).to_multiset(),
    decreases a.len(),
{
    broadcast use vstd::seq_lib::group_to_multiset_ensures;
    broadcast use vstd::multiset::group_multiset_axioms;

    if a.len() == 0 {
        assert(b.len() == b.to_multiset().len());
        assert(a.map_values(f) =~= Seq::<C>::empty());
        assert(b.map_values(f) =~= Seq::<C>::empty());
    } else {
        let x = a.last();
        let a1 = a.drop_last();
        assert(a =~= a1.push(x));
        assert(a.to_multiset().count(x) > 0);
        assert(b.contains(x));
        let j = choose|j: int| 0 <= j < b.len() && b[j] == x;
        let b1 = b.remove(j);
        assert(b1.to_multiset() =~= a1.to_multiset());
        lemma_map_keeps_multiset(a1, b1, f);
        assert(a.map_values(f) =~= a1.map_values(f).push(f(x)));
        let bm = b.map_values(f);
        assert(bm.remove(j) =~= b1.map_values(f));
        assert(bm.to_multiset().count(f(x)) > 0) by {
            assert(bm[j] == f(x));
            assert(bm.contains(f(x)));
        }
        assert(bm.to_multiset() =~= bm.remove(j).to_multiset().insert(f(x)));
    }
}

/// A search for the objects whose boxes a ray may hit: the hierarchy, the
/// nodes still to visit, and the test of whether the ray hits a box.
pub struct BvhHitCandidateIter<'a, B, O, F> {
    bvh: &'a Bvh<B, O>,
    stack: ArrayVec<(usize, usize), 30>,
    hit: F,
}

impl<B, O> Bvh<B, O> {
    /// The hierarchy is well formed: every node's children come after it,
    /// every leaf holds at least one object, and the leaves below the root
    /// cover the objects' positions side by side, each position once.
    pub closed spec fn wf(&self) -> bool {
        &&& nodes_wf(self.nodes@, self.object_bounds@.len())
        &&& tiled(self.nodes@, 0)
        &&& span(self.nodes@, 0) == (0int, self.object_bounds@.len() as int)
    }

    /// The number of branch levels below the root.
    pub closed spec fn depth(&self) -> nat {
        height(self.nodes@, 0)
    }

    /// The nodes.
    pub closed spec fn node_list(&self) -> Seq<BvhNode<B>> {
        self.nodes@
    }

    /// The objects, in leaf order.
    pub closed spec fn object_list(&self) -> Seq<(usize, O)> {
        self.object_bounds@
    }

    /// The box of every node below the root is one that `enclose` gave for a
    /// list of exactly the objects that the node covers.
    pub closed spec fn boxed_by<E: Fn(&[(usize, O)]) -> B>(&self, enclose: E) -> bool {
        boxed_below(self.nodes@, self.object_bounds@, enclose, 0)
    }

    /// The positions (in the list the hierarchy was built from) of the
    /// objects, in leaf order.
    pub closed spec fn object_ids(&self) -> Seq<usize> {
        self.object_bounds@.map_values(|p: (usize, O)| p.0)
    }

    /// The objects that a depth-first search from the root finds when it
    /// enters only the nodes whose boxes `accept` holds of, the second child
    /// of a branch first, each leaf's objects in order.
    pub closed spec fn candidates(&self, accept: spec_fn(B) -> bool) -> Seq<usize> {
        found_below(self.nodes@, self.object_bounds@, accept, 0)
    }

    /// The objects whose boxes `hit` accepts, found by a depth-first search
    /// from the root that enters only the nodes whose boxes `hit` accepts.
    pub fn hit_candidates<'a, F: Fn(&B) -> bool>(&'a self, hit: F) -> (it: BvhHitCandidateIter<'a, B, O, F>)
        requires
            self.wf(),
            self.depth() <= 29,
            forall|b: &B| #[trigger] call_requires(hit, (b,)),
        ensures
            it.inv(),
            it.searched() == *self,
            it.hit_test() == hit,
            it.pending() == self.candidates(accepted_by(hit)),
    {
        let mut stack = stack_new();
        stack_push(&mut stack, (0, 0));
        let it = BvhHitCandidateIter { bvh: self, stack, hit };
        proof {
            let s = stack_items(it.stack);
            assert(s[0] == (0usize, 0usize));
            assert(self.nodes@[0].data matches BvhNodeData::Leaf(l) ==> 0 < l.length);
            let accept = accepted_by(hit);
            assert(s.last() == (0usize, 0usize));
            assert(stack_found(self.nodes@, self.object_bounds@, accept, s.drop_last()) == Seq::<usize>::empty());
            lemma_entry_at_start(self.nodes@, self.object_bounds@, accept, 0);
            assert(it.pending() =~= entry_found(self.nodes@, self.object_bounds@, accept, s.last()) + Seq::<
                usize,
            >::empty());
            assert(it.pending() =~= self.candidates(accepted_by(hit)));
        }
        it
    }
}

impl<'a, B, O, F: Fn(&B) -> bool> BvhHitCandidateIter<'a, B, O, F> {
    /// The hierarchy searched.
    pub closed spec fn searched(&self) -> Bvh<B, O> {
        *self.bvh
    }

    /// The test of whether the ray hits a box.
    pub closed spec fn hit_test(&self) -> F {
        self.hit
    }

    /// The search has nothing left to visit: every further `next` gives `None`.
    pub closed spec fn exhausted(&self) -> bool {
        stack_items(self.stack).len() == 0
    }

    /// The objects that the search still has to give, in order.
    pub closed spec fn pending(&self) -> Seq<usize> {
        stack_found(self.bvh.nodes@, self.bvh.object_bounds@, accepted_by(self.hit), stack_items(self.stack))
    }

    /// The search can go on: the hierarchy is well formed, every entry of the
    /// stack is valid, and `hit` can be asked of every box.
    pub closed spec fn inv(&self) -> bool {
        let nodes = self.bvh.nodes@;
        let s = stack_items(self.stack);
        &&& nodes_wf(nodes, self.bvh.object_bounds@.len())
        &&& s.len() <= 30
        &&& stack_ok(nodes, s)
        &&& forall|b: &B| #[trigger] call_requires(self.hit, (b,))
    }

    /// The next object whose box the ray may hit, if any: an object of a leaf
    /// whose box `hit` accepted. The leaves come in depth-first order (the
    /// second child of a branch first), each leaf's objects in order: where
    /// `hit` gives one answer per box, the result is the first of the objects
    /// still pending and the others stay pending, and `None` comes only when
    /// none is pending.
    pub fn next(&mut self) -> (r: Option<BvhHitCandidate>)
        requires
            old(self).inv(),
        ensures
            final(self).inv(),
            final(self).searched() == old(self).searched(),
            final(self).hit_test() == old(self).hit_test(),
            r matches Some(c) ==> hit_object(old(self).searched(), old(self).hit_test(), c.object_index),
            hit_is_deterministic(old(self).hit_test()) ==> (r matches Some(c) ==> old(self).pending() == seq![
                c.object_index,
            ] + final(self).pending()),
            hit_is_deterministic(old(self).hit_test()) ==> (r is None ==> old(self).pending().len() == 0),
            r is None ==> final(self).exhausted(),
            old(self).exhausted() ==> r is None && final(self).exhausted(),
    {
        loop
            invariant
                self.inv(),
                self.bvh == old(self).bvh,
                self.hit == old(self).hit,
                hit_is_deterministic(self.hit) ==> self.pending() == old(self).pending(),
                old(self).exhausted() ==> self.exhausted(),
            decreases stack_weight(self.bvh.nodes@, stack_items(self.stack)),
        {
            let ghost nodes = self.bvh.nodes@;
            let ghost objects = self.bvh.object_bounds@;
            let ghost accept = accepted_by(self.hit);
            let ghost before = stack_items(self.stack);
            let ghost found_before = stack_found(nodes, objects, accept, before);
            let (node_index, offset) = match stack_pop(&mut self.stack) {
                None => {
                    return None;
                },
                Some(e) => e,
            };
            let ghost top = before.len() - 1;
            assert(before[top] == (node_index, offset));
            assert(stack_items(self.stack) =~= before.drop_last());
            let node = &self.bvh.nodes[node_index];
            let hit = (self.hit)(&node.aabb);
            assert(stack_weight(nodes, before) == stack_weight(nodes, before.drop_last()) + subtree_size(
                nodes,
                node_index as int,
            ));
            let ghost rest_found = stack_found(nodes, objects, accept, before.drop_last());
            let ghost e_found = entry_found(nodes, objects, accept, (node_index, offset));
            assert(found_before == e_found + rest_found);
            if !hit {
                assert(stack_ok(nodes, stack_items(self.stack)));
                proof {
                    if hit_is_deterministic(self.hit) {
                        assert(call_ensures(self.hit, (&nodes[node_index as int].aabb,), false));
                        assert(!accept(nodes[node_index as int].aabb));
                        assert(e_found =~= Seq::<usize>::empty());
                        assert(found_before =~= rest_found);
                    }
                }
                continue;
            }
            assert(accept(nodes[node_index as int].aabb));
            match node.data {
                BvhNodeData::Branch(branch) => {
                    stack_push(&mut self.stack, (branch.left_offset, 0));
                    stack_push(&mut self.stack, (branch.right_offset, 0));
                    proof {
                        let s = stack_items(self.stack);
                        assert(s.drop_last().drop_last() =~= before.drop_last());
                        assert(s.drop_last() =~= before.drop_last().push((branch.left_offset, 0usize)));
                        assert(nodes[node_index as int].data == BvhNodeData::Branch(branch));
                        assert(stack_ok(nodes, s));
                        assert(stack_weight(nodes, s) == stack_weight(nodes, s.drop_last()) + subtree_size(
                            nodes,
                            branch.right_offset as int,
                        ));
                        assert(stack_weight(nodes, s.drop_last()) == stack_weight(nodes, before.drop_last())
                            + subtree_size(nodes, branch.left_offset as int));
                        let fr = found_below(nodes, objects, accept, branch.right_offset as int);
                        let fl = found_below(nodes, objects, accept, branch.left_offset as int);
                        lemma_entry_at_start(nodes, objects, accept, branch.right_offset);
                        lemma_entry_at_start(nodes, objects, accept, branch.left_offset);
                        assert(e_found == fr + fl);
                        assert(stack_found(nodes, objects, accept, s.drop_last()) == fl + rest_found);
                        assert(stack_found(nodes, objects, accept, s) == fr + (fl + rest_found));
                        assert(stack_found(nodes, objects, accept, s) =~= found_before);
                    }
                },
                BvhNodeData::Leaf(leaf) => {
                    let ghost next_found = leaf_ids(objects, leaf, offset + 1);
                    if offset < leaf.length - 1 {
                        stack_push(&mut self.stack, (node_index, offset + 1));
                        assert(stack_items(self.stack) =~= before.drop_last().push((node_index, (offset + 1) as usize)));
                        proof {
                            let s = stack_items(self.stack);
                            assert(s.drop_last() =~= before.drop_last());
                            assert(s.last() == (node_index, (offset + 1) as usize));
                            assert(nodes[node_index as int].data == BvhNodeData::Leaf(leaf));
                            assert(entry_found(nodes, objects, accept, s.last()) == next_found);
                        }
                        assert(stack_found(nodes, objects, accept, stack_items(self.stack)) == next_found + rest_found);
                    } else {
                        assert(next_found =~= Seq::<usize>::empty());
                        assert(stack_found(nodes, objects, accept, stack_items(self.stack)) =~= next_found + rest_found);
                    }
                    let n_objects = self.bvh.object_bounds.len();
                    assert(leaf.offset + leaf.length <= n_objects);
                    let object_index = self.bvh.object_bounds[leaf.offset + offset].0;
                    let c = BvhHitCandidate { object_index };
                    proof {
                        let p = leaf.offset + offset;
                        assert(self.bvh.object_bounds@[p].0 == object_index);
                        let n0 = node_index as int;
                        assert(leaf_object(old(self).searched().node_list(), old(self).searched().object_list(), n0, object_index));
                        assert(call_ensures(self.hit, (&node.aabb,), hit));
                        assert(e_found =~= seq![object_index] + next_found);
                        assert(found_before =~= seq![object_index] + (next_found + rest_found));
                    }
                    return Some(c);
                },
            }
        }
    }
}

/// The objects of a list, each with its position in it.
pub open spec fn numbered<O>(bounds: Seq<O>) -> Seq<(usize, O)> {
    Seq::new(bounds.len(), |i: int| (i as usize, bounds[i]))
}

impl<B, O> Bvh<B, O> {
    /// The box of the root node, which bounds every object.
    pub fn aabb(&self) -> (b: B)
        where
            B: Clone,
        requires
            self.wf(),
        ensures
            cloned::<B>(self.node_list()[0].aabb, b),
    {
        self.nodes[0].aabb.clone()
    }
}

/// Partitions the `len` objects from position `start` by key (see
/// `partition_by_key`), and gives the length of the left side.
fn partition_range<T, K: PartialOrd, F: Fn(&T) -> K>(
    objects: &mut Vec<T>,
    start: usize,
    len: usize,
    split_on: K,
    selector: F,
) -> (left_len: usize)
    requires
        start + len <= old(objects)@.len(),
        len > 0,
        forall|x: &T| #[trigger] call_requires(selector, (x,)),
    ensures
        left_len <= len,
        final(objects)@.len() == old(objects)@.len(),
        final(objects)@.to_multiset() == old(objects)@.to_multiset(),
        final(objects)@.subrange(0, start as int) == old(objects)@.subrange(0, start as int),
        final(objects)@.subrange(start + len, old(objects)@.len() as int) == old(objects)@.subrange(
            start + len,
            old(objects)@.len() as int,
        ),
        final(objects)@.subrange(start as int, start + len).to_multiset() == old(objects)@.subrange(
            start as int,
            start + len,
        ).to_multiset(),
        forall|p: int| start <= p < start + len ==> key_given(selector, #[trigger] old(objects)@[p]),
        keys_ordered::<K>() ==> forall|p: int|
            start <= p < start + left_len ==> key_at_most(selector, #[trigger] final(objects)@[p], split_on),
        keys_ordered::<K>() ==> forall|p: int|
            start + left_len <= p < start + len ==> key_above(selector, #[trigger] final(objects)@[p], split_on),
        keys_ordered::<K>() && selector_deterministic(selector) ==> (
            final(objects)@.subrange(start as int, start + left_len),
            final(objects)@.subrange(start + left_len, start + len),
        ) == scan_split(
            old(objects)@.subrange(start as int, start + len),
            1,
            len - 1,
            old(objects)@[start as int],
            at_most_split(selector, split_on),
        ),
{
    broadcast use vstd::seq_lib::lemma_multiset_commutative;

    let ghost objs0 = objects@;
    let whole = objects.as_mut_slice();
    let (before, rest) = whole.split_at_mut(start);
    let (range, after) = rest.split_at_mut(len);
    let ghost b0 = before@;
    let ghost r0 = range@;
    let ghost a0 = after@;
    let (left, right) = partition_by_key(range, split_on, selector);
    let left_len = left.len();
    proof {
        assert(objs0 =~= b0 + (r0 + a0));
        assert((left@ + right@).to_multiset() == r0.to_multiset());
        assert((b0 + ((left@ + right@) + a0)).to_multiset() == b0.to_multiset().add(
            (left@ + right@).to_multiset().add(a0.to_multiset()),
        ));
        assert((b0 + (r0 + a0)).to_multiset() == b0.to_multiset().add(r0.to_multiset().add(a0.to_multiset())));
        let fin = b0 + ((left@ + right@) + a0);
        assert forall|p: int| start <= p < start + len implies key_given(selector, #[trigger] objs0[p]) by {
            assert(objs0[p] == r0[p - start]);
        }
        let n = objs0.len() as int;
        assert(r0 =~= objs0.subrange(start as int, start + len));
        assert(fin.subrange(0, start as int) =~= objs0.subrange(0, start as int));
        assert(fin.subrange(start + len, n) =~= objs0.subrange(start + len, n));
        assert(fin.subrange(start as int, start + len) =~= left@ + right@);
        assert(fin.subrange(start as int, start + left_len) =~= left@);
        assert(fin.subrange(start + left_len, start + len) =~= right@);
        if keys_ordered::<K>() {
            assert forall|p: int| start <= p < start + left_len implies key_at_most(
                selector,
                #[trigger] fin[p],
                split_on,
            ) by {
                assert(fin[p] == left@[p - start]);
            }
            assert forall|p: int| start + left_len <= p < start + len implies key_above(
                selector,
                #[trigger] fin[p],
                split_on,
            ) by {
                assert(fin[p] == right@[p - start - left_len]);
            }
        }
    }
    left_len
}

/// The key that `key` gives object `o` along `axis` may be at most `split`.
pub open spec fn object_key_at_most<O, K: PartialOrd, A, KF: Fn(&A, &(usize, O)) -> K>(
    key: KF,
    axis: A,
    o: (usize, O),
    split: K,
) -> bool {
    exists|k: K| call_ensures(key, (&axis, &o), k) && key_le(k, split)
}

/// The key that `key` gives object `o` along `axis` may be above `split`.
pub open spec fn object_key_above<O, K: PartialOrd, A, KF: Fn(&A, &(usize, O)) -> K>(
    key: KF,
    axis: A,
    o: (usize, O),
    split: K,
) -> bool {
    exists|k: K| call_ensures(key, (&axis, &o), k) && !key_le(k, split)
}

/// `plan` may give, for the objects `before`, a key to split on and what
/// keys are read along, such that the keys of the objects `after` are all at
/// most that one, or all above it.
pub open spec fn split_one_sided<O, K: PartialOrd, A, S, KF>(
    plan: S,
    key: KF,
    before: Seq<(usize, O)>,
    after: Seq<(usize, O)>,
) -> bool
    where
        S: Fn(&[(usize, O)]) -> (K, A),
        KF: Fn(&A, &(usize, O)) -> K,
{
    exists|x: &[(usize, O)], sa: (K, A)|
        #![trigger call_ensures(plan, (x,), sa)]
        x@ == before && call_ensures(plan, (x,), sa) && ((forall|p: int|
            0 <= p < after.len() ==> object_key_at_most(key, sa.1, #[trigger] after[p], sa.0)) || (forall|p: int|
            0 <= p < after.len() ==> object_key_above(key, sa.1, #[trigger] after[p], sa.0)))
}

/// Splits the leaf at position `offset` of `nodes` in two when it holds more
/// than two objects: `plan` gives the key to split on and what the keys are
/// read along, `key` the key of an object; the objects of the leaf are
/// partitioned by key, and unless one side is empty the leaf becomes a branch
/// whose children, leaves of the two sides (boxed by `enclose`), are split in turn.
/// Only the leaf's objects move; a leaf of at most two objects is left as it
/// is, and a larger one stays a leaf only where the plan's split puts all its
/// objects on one side.
fn subdivide<B, O, K: PartialOrd, A, E, S, KF>(
    offset: usize,
    leaf: BvhLeaf,
    nodes: &mut Vec<BvhNode<B>>,
    objects: &mut Vec<(usize, O)>,
    enclose: &E,
    plan: &S,
    key: &KF,
)
    where
        E: Fn(&[(usize, O)]) -> B,
        S: Fn(&[(usize, O)]) -> (K, A),
        KF: Fn(&A, &(usize, O)) -> K,
    requires
        offset < old(nodes)@.len(),
        old(nodes)@[offset as int].data == BvhNodeData::Leaf(leaf),
        nodes_wf(old(nodes)@, old(objects)@.len()),
        forall|x: &[(usize, O)]| #[trigger] call_requires(*enclose, (x,)),
        forall|x: &[(usize, O)]| #[trigger] call_requires(*plan, (x,)),
        forall|a: &A, x: &(usize, O)| #[trigger] call_requires(*key, (a, x)),
        node_boxed(old(nodes)@, old(objects)@, *enclose, offset as int),
    ensures
        nodes_wf(final(nodes)@, final(objects)@.len()),
        boxed_below(final(nodes)@, final(objects)@, *enclose, offset as int),
        final(objects)@.subrange(leaf.offset as int, leaf.offset + leaf.length).to_multiset() == old(
            objects,
        )@.subrange(leaf.offset as int, leaf.offset + leaf.length).to_multiset(),
        final(objects)@.len() == old(objects)@.len(),
        final(objects)@.to_multiset() == old(objects)@.to_multiset(),
        final(nodes)@.len() >= old(nodes)@.len(),
        forall|i: int|
            0 <= i < old(nodes)@.len() && i != offset ==> #[trigger] final(nodes)@[i] == old(nodes)@[i],
        final(nodes)@[offset as int].aabb == old(nodes)@[offset as int].aabb,
        tiled(final(nodes)@, offset as int),
        span(final(nodes)@, offset as int) == (leaf.offset as int, leaf.length as int),
        leaf.length <= 2 ==> final(nodes)@ == old(nodes)@ && final(objects)@ == old(objects)@,
        forall|p: int|
            0 <= p < old(objects)@.len() && !(leaf.offset <= p < leaf.offset + leaf.length)
                ==> #[trigger] final(objects)@[p] == old(objects)@[p],
        final(nodes)@[offset as int].data is Leaf ==> final(nodes)@ == old(nodes)@,
        leaf.length > 2 && final(nodes)@[offset as int].data is Leaf && keys_ordered::<K>() ==> split_one_sided(
            *plan,
            *key,
            old(objects)@.subrange(leaf.offset as int, leaf.offset + leaf.length),
            final(objects)@.subrange(leaf.offset as int, leaf.offset + leaf.length),
        ),
    decreases leaf.length,
{
    broadcast use vstd::seq_lib::lemma_multiset_commutative;

    if leaf.length <= 2 {
        return;
    }
    let n_objects = objects.len();
    assert(leaf.offset + leaf.length <= n_objects) by {
        assert(old(nodes)@[offset as int].data == BvhNodeData::Leaf(leaf));
    }
    let lo = leaf.offset;
    let hi = leaf.offset + leaf.length;
    let range = &objects.as_slice()[lo..hi];
    let planned = plan(range);
    let ghost gplanned = planned;
    let ghost grange = range;
    let (split_on, axis) = planned;
    let axis_ref = &axis;
    let selector = |o: &(usize, O)| -> (k: K)
        requires
            call_requires(key, (axis_ref, o)),
        ensures
            call_ensures(*key, (axis_ref, o), k),
        {
            key(axis_ref, o)
        };
    let ghost objs0 = objects@;
    let left_len = partition_range(objects, leaf.offset, leaf.length, split_on, selector);
    let right_len = leaf.length - left_len;
    proof {
        let objs1 = objects@;
        assert forall|p: int|
            0 <= p < objs0.len() && !(lo <= p < hi) implies #[trigger] objs1[p] == objs0[p] by {
            if p < lo {
                assert(objs1[p] == objs1.subrange(0, lo as int)[p]);
                assert(objs0[p] == objs0.subrange(0, lo as int)[p]);
            } else {
                assert(objs1[p] == objs1.subrange(hi as int, objs0.len() as int)[p - hi]);
                assert(objs0[p] == objs0.subrange(hi as int, objs0.len() as int)[p - hi]);
            }
        }
    }
    if left_len == 0 || right_len == 0 {
        proof {
            if keys_ordered::<K>() {
                let before = objs0.subrange(lo as int, hi as int);
                let after = objects@.subrange(lo as int, hi as int);
                assert(grange@ == before);
                assert(call_ensures(*plan, (grange,), gplanned));
                if right_len == 0 {
                    assert forall|p: int| 0 <= p < after.len() implies object_key_at_most(
                        *key,
                        gplanned.1,
                        #[trigger] after[p],
                        gplanned.0,
                    ) by {
                        let o = objects@[lo + p];
                        assert(after[p] == o);
                        assert(key_at_most(selector, o, split_on));
                        let k = choose|k: K| call_ensures(selector, (&o,), k) && key_le(k, split_on);
                        assert(call_ensures(*key, (axis_ref, &o), k));
                    }
                } else {
                    assert forall|p: int| 0 <= p < after.len() implies object_key_above(
                        *key,
                        gplanned.1,
                        #[trigger] after[p],
                        gplanned.0,
                    ) by {
                        let o = objects@[lo + p];
                        assert(after[p] == o);
                        assert(key_above(selector, o, split_on));
                        let k = choose|k: K| call_ensures(selector, (&o,), k) && !key_le(k, split_on);
                        assert(call_ensures(*key, (axis_ref, &o), k));
                    }
                }
                assert(split_one_sided(*plan, *key, before, after));
            }
        }
        return;
    }
    let mid = leaf.offset + left_len;
    let ghost objs1 = objects@;
    let left_objects = &objects.as_slice()[lo..mid];
    let left_box = enclose(left_objects);
    let ghost gleft = left_objects;
    let right_objects = &objects.as_slice()[mid..hi];
    let right_box = enclose(right_objects);
    let ghost gright = right_objects;
    let l1 = BvhNode { aabb: left_box, data: BvhNodeData::Leaf(BvhLeaf { offset: leaf.offset, length: left_len }) };
    let l2 = BvhNode { aabb: right_box, data: BvhNodeData::Leaf(BvhLeaf { offset: mid, length: right_len }) };
    let left_offset = nodes.len();
    nodes.push(l1);
    let right_offset = nodes.len();
    nodes.push(l2);
    nodes[offset].data = BvhNodeData::Branch(BvhBranch { left_offset, right_offset });
    let ghost nodes1 = nodes@;
    assert(call_ensures(*enclose, (gleft,), nodes1[left_offset as int].aabb));
    assert(gleft@.to_multiset() == objs1.subrange(lo as int, mid as int).to_multiset());
    assert(node_boxed(nodes1, objs1, *enclose, left_offset as int));
    subdivide(left_offset, BvhLeaf { offset: leaf.offset, length: left_len }, nodes, objects, enclose, plan, key);
    let ghost nodes2 = nodes@;
    let ghost objs2 = objects@;
    proof {
        assert(nodes2[right_offset as int] == nodes1[right_offset as int]);
        assert(objs2.subrange(mid as int, hi as int) =~= objs1.subrange(mid as int, hi as int));
        assert(call_ensures(*enclose, (gright,), nodes2[right_offset as int].aabb));
        assert(node_boxed(nodes2, objs2, *enclose, right_offset as int));
    }
    subdivide(right_offset, BvhLeaf { offset: mid, length: right_len }, nodes, objects, enclose, plan, key);
    proof {
        let nodes3 = nodes@;
        let objs3 = objects@;
        assert(nodes2[right_offset as int] == nodes1[right_offset as int]);
        lemma_tiling_kept(nodes2, nodes3, objects@.len(), right_offset as int, left_offset as int);
        assert(nodes3[offset as int] == nodes1[offset as int]);
        assert(nodes3[offset as int].data is Branch);
        assert(tiled(nodes2, right_offset as int));
        lemma_boxes_kept(nodes2, nodes3, objs2, objs3, *enclose, right_offset as int, mid as int, hi as int, left_offset as int);
        lemma_range_elements_kept(objs1, objs2, lo as int, lo as int, mid as int, hi as int);
        lemma_range_elements_kept(objs2, objs3, lo as int, mid as int, hi as int, hi as int);
        assert(objs1.subrange(lo as int, hi as int).to_multiset() == objs0.subrange(lo as int, hi as int).to_multiset());
        let x = choose|x: &[(usize, O)]|
            #[trigger] call_ensures(*enclose, (x,), old(nodes)@[offset as int].aabb) && x@.to_multiset() == old(
                objects,
            )@.subrange(lo as int, hi as int).to_multiset();
        assert(call_ensures(*enclose, (x,), nodes3[offset as int].aabb));
        assert(node_boxed(nodes3, objs3, *enclose, offset as int));
    }
}

impl<B, O> Bvh<B, O> {
    /// Builds the hierarchy of objects with the given bounds (one per object,
    /// in the objects' order): the root is a leaf of every object, boxed by
    /// `enclose`, and is split in two (see `subdivide`) as long as that splits
    /// off leaves of more than two objects. Every node's box is what `enclose`
    /// gave for the objects that the node covers (`boxed_by`).
    pub fn from<E, S, K: PartialOrd, A, KF>(bounds: Vec<O>, enclose: &E, plan: &S, key: &KF) -> (bvh: Self)
        where
            E: Fn(&[(usize, O)]) -> B,
            S: Fn(&[(usize, O)]) -> (K, A),
            KF: Fn(&A, &(usize, O)) -> K,
        requires
            forall|x: &[(usize, O)]| #[trigger] call_requires(*enclose, (x,)),
            forall|x: &[(usize, O)]| #[trigger] call_requires(*plan, (x,)),
            forall|a: &A, x: &(usize, O)| #[trigger] call_requires(*key, (a, x)),
        ensures
            bvh.object_list().to_multiset() == numbered(bounds@).to_multiset(),
            bvh.object_ids().to_multiset() == Seq::new(bounds@.len(), |i: int| i as usize).to_multiset(),
            bounds@.len() > 0 ==> bvh.wf(),
            bvh.boxed_by(*enclose),
    {
        let ghost bs = bounds@;
        let mut objects: Vec<(usize, O)> = Vec::new();
        for b in it: bounds.into_iter()
            invariant
                it.seq() == bs,
                objects@ == numbered(bs.take(it.index())),
        {
            let i = objects.len();
            let ghost before = objects@;
            objects.push((i, b));
            assert(numbered(bs.take(it.index() + 1)) =~= before.push((i, b)));
        }
        assert(bs.take(bs.len() as int) =~= bs);
        let n = objects.len();
        let leaf = BvhLeaf { offset: 0, length: n };
        let all = objects.as_slice();
        let root_box = enclose(all);
        let ghost gall = all;
        let root = BvhNode { aabb: root_box, data: BvhNodeData::Leaf(leaf) };
        let mut nodes: Vec<BvhNode<B>> = Vec::new();
        nodes.push(root);
        proof {
            assert(objects@.subrange(0, n as int) =~= objects@);
            assert(call_ensures(*enclose, (gall,), nodes@[0].aabb));
            assert(node_boxed(nodes@, objects@, *enclose, 0));
        }
        if n > 0 {
            subdivide(0, leaf, &mut nodes, &mut objects, enclose, plan, key);
        }
        proof {
            let ids = |p: (usize, O)| p.0;
            lemma_map_keeps_multiset(objects@, numbered(bs), ids);
            assert(numbered(bs).map_values(ids) =~= Seq::new(bs.len(), |i: int| i as usize));
        }
        Bvh { object_bounds: objects, nodes }
    }
}

/// A search whose test accepts every box finds every object of the
/// hierarchy, each as often as it is held (so, for a hierarchy built by
/// `Bvh::from`, each position of the list it was built from once).
pub proof fn lemma_search_finds_every_object<B, O>(bvh: &Bvh<B, O>, accept: spec_fn(B) -> bool)
    requires
        bvh.wf(),
        forall|b: B| #[trigger] accept(b),
    ensures
        bvh.candidates(accept).to_multiset() == bvh.object_ids().to_multiset(),
{
    let objects = bvh.object_bounds@;
    lemma_found_covers(bvh.nodes@, objects, accept, 0);
    assert(objects.subrange(0, objects.len() as int) =~= objects);
}

/// Below a tiled, boxed node, a search finds every object covered there that
/// `hits` holds of, where `accept` holds of every box that `enclose` gives for
/// a list holding such an object.
proof fn lemma_hit_found<B, O, E: Fn(&[(usize, O)]) -> B>(
    nodes: Seq<BvhNode<B>>,
    objects: Seq<(usize, O)>,
    enclose: E,
    accept: spec_fn(B) -> bool,
    hits: spec_fn(O) -> bool,
    i: int,
    q: int,
)
    requires
        nodes_wf(nodes, objects.len()),
        tiled(nodes, i),
        boxed_below(nodes, objects, enclose, i),
        forall|x: &[(usize, O)], b: B, p: int|
            #![trigger call_ensures(enclose, (x,), b), x@[p]]
            call_ensures(enclose, (x,), b) && 0 <= p < x@.len() && hits(x@[p].1) ==> accept(b),
        span(nodes, i).0 <= q < span(nodes, i).0 + span(nodes, i).1,
        q < objects.len(),
        hits(objects[q].1),
    ensures
        found_below(nodes, objects, accept, i).contains(objects[q].0),
    decreases nodes.len() - i,
{
    broadcast use vstd::seq_lib::group_to_multiset_ensures;

    let sp = span(nodes, i);
    lemma_span_nonempty(nodes, objects.len(), i);
    let x = choose|x: &[(usize, O)]|
        #[trigger] call_ensures(enclose, (x,), nodes[i].aabb) && x@.to_multiset() == objects.subrange(
            sp.0,
            sp.0 + sp.1,
        ).to_multiset();
    let r = objects.subrange(sp.0, sp.0 + sp.1);
    assert(r[q - sp.0] == objects[q]);
    assert(r.contains(objects[q]));
    assert(x@.to_multiset().count(objects[q]) > 0);
    assert(x@.contains(objects[q]));
    let p = choose|p: int| 0 <= p < x@.len() && x@[p] == objects[q];
    assert(accept(nodes[i].aabb));
    match nodes[i].data {
        BvhNodeData::Leaf(l) => {
            let found = leaf_ids(objects, l, 0);
            assert(found[q - l.offset] == objects[q].0);
        },
        BvhNodeData::Branch(b) => {
            let li = b.left_offset as int;
            let ri = b.right_offset as int;
            lemma_span_nonempty(nodes, objects.len(), li);
            lemma_span_nonempty(nodes, objects.len(), ri);
            let fr = found_below(nodes, objects, accept, ri);
            let fl = found_below(nodes, objects, accept, li);
            if q < span(nodes, ri).0 {
                lemma_hit_found(nodes, objects, enclose, accept, hits, li, q);
                let k = choose|k: int| 0 <= k < fl.len() && fl[k] == objects[q].0;
                assert((fr + fl)[fr.len() + k] == objects[q].0);
            } else {
                lemma_hit_found(nodes, objects, enclose, accept, hits, ri, q);
                let k = choose|k: int| 0 <= k < fr.len() && fr[k] == objects[q].0;
                assert((fr + fl)[k] == objects[q].0);
            }
        },
    }
}

/// A search finds below a tiled node no object more often than the node
/// covers it.
proof fn lemma_found_within<B, O>(
    nodes: Seq<BvhNode<B>>,
    objects: Seq<(usize, O)>,
    accept: spec_fn(B) -> bool,
    i: int,
    v: usize,
)
    requires
        nodes_wf(nodes, objects.len()),
        tiled(nodes, i),
    ensures
        found_below(nodes, objects, accept, i).to_multiset().count(v) <= objects.subrange(
            span(nodes, i).0,
            span(nodes, i).0 + span(nodes, i).1,
        ).map_values(|p: (usize, O)| p.0).to_multiset().count(v),
    decreases nodes.len() - i,
{
    broadcast use vstd::seq_lib::lemma_multiset_commutative;
    broadcast use vstd::multiset::group_multiset_axioms;

    lemma_span_nonempty(nodes, objects.len(), i);
    let ids = |p: (usize, O)| p.0;
    if !accept(nodes[i].aabb) {
        assert(found_below(nodes, objects, accept, i).to_multiset() =~= vstd::multiset::Multiset::empty()) by {
            broadcast use vstd::seq_lib::group_to_multiset_ensures;
            assert(found_below(nodes, objects, accept, i).len() == 0);
        }
    } else {
        match nodes[i].data {
            BvhNodeData::Leaf(l) => {
                assert(leaf_ids(objects, l, 0) =~= objects.subrange(l.offset as int, l.offset + l.length).map_values(
                    ids,
                ));
            },
            BvhNodeData::Branch(b) => {
                let li = b.left_offset as int;
                let ri = b.right_offset as int;
                lemma_span_nonempty(nodes, objects.len(), li);
                lemma_span_nonempty(nodes, objects.len(), ri);
                lemma_found_within(nodes, objects, accept, li, v);
                lemma_found_within(nodes, objects, accept, ri, v);
                let lo = span(nodes, li).0;
                let mid = span(nodes, ri).0;
                let hi = mid + span(nodes, ri).1;
                assert(objects.subrange(lo, hi).map_values(ids) =~= objects.subrange(lo, mid).map_values(ids)
                    + objects.subrange(mid, hi).map_values(ids));
            },
        }
    }
}

/// A search whose test accepts every box that `enclose` gives for a list
/// holding an object that `hits` holds of finds every such object of the
/// hierarchy; and whatever the test, it finds no object more often than the
/// hierarchy holds it (so, for a hierarchy built by `Bvh::from`, each position
/// of the list it was built from at most once, and no other).
pub proof fn lemma_search_finds_every_hit_object<B, O, E: Fn(&[(usize, O)]) -> B>(
    bvh: &Bvh<B, O>,
    enclose: E,
    accept: spec_fn(B) -> bool,
    hits: spec_fn(O) -> bool,
)
    requires
        bvh.wf(),
        bvh.boxed_by(enclose),
        forall|x: &[(usize, O)], b: B, p: int|
            #![trigger call_ensures(enclose, (x,), b), x@[p]]
            call_ensures(enclose, (x,), b) && 0 <= p < x@.len() && hits(x@[p].1) ==> accept(b),
    ensures
        forall|q: int|
            0 <= q < bvh.object_list().len() && hits(#[trigger] bvh.object_list()[q].1) ==> bvh.candidates(
                accept,
            ).contains(bvh.object_list()[q].0),
        forall|v: usize|
            #[trigger] bvh.candidates(accept).to_multiset().count(v) <= bvh.object_ids().to_multiset().count(v),
{
    let objects = bvh.object_bounds@;
    assert forall|q: int| 0 <= q < objects.len() && hits(#[trigger] objects[q].1) implies bvh.candidates(
        accept,
    ).contains(objects[q].0) by {
        lemma_hit_found(bvh.nodes@, objects, enclose, accept, hits, 0, q);
    }
    assert forall|v: usize| #[trigger] bvh.candidates(accept).to_multiset().count(v) <= bvh.object_ids().to_multiset().count(v) by {
        lemma_found_within(bvh.nodes@, objects, accept, 0, v);
        assert(objects.subrange(0, objects.len() as int) =~= objects);
    }
}

/// For a hierarchy that `Bvh::from` built from the bounds `bounds` (so its
/// objects are those of `bounds`, numbered, and its boxes those `enclose`
/// gave): a search whose test accepts every box that `enclose` gives for a list
/// holding an object whose bounds `hits` holds of finds every position of
/// `bounds` whose bounds `hits` holds of; and whatever the test, it finds
/// positions of `bounds` only, each at most once.
pub proof fn lemma_built_search_finds_hits_once<B, O, E: Fn(&[(usize, O)]) -> B>(
    bvh: &Bvh<B, O>,
    bounds: Seq<O>,
    enclose: E,
    accept: spec_fn(B) -> bool,
    hits: spec_fn(O) -> bool,
)
    requires
        bvh.wf(),
        bvh.boxed_by(enclose),
        bounds.len() <= usize::MAX,
        bvh.object_list().to_multiset() == numbered(bounds).to_multiset(),
        bvh.object_ids().to_multiset() == Seq::new(bounds.len(), |i: int| i as usize).to_multiset(),
        forall|x: &[(usize, O)], b: B, p: int|
            #![trigger call_ensures(enclose, (x,), b), x@[p]]
            call_ensures(enclose, (x,), b) && 0 <= p < x@.len() && hits(x@[p].1) ==> accept(b),
    ensures
        forall|i: int| 0 <= i < bounds.len() && hits(#[trigger] bounds[i]) ==> bvh.candidates(accept).contains(i as usize),
        bvh.candidates(accept).no_duplicates(),
        forall|k: int| 0 <= k < bvh.candidates(accept).len() ==> #[trigger] bvh.candidates(accept)[k] < bounds.len(),
{
    broadcast use vstd::seq_lib::group_to_multiset_ensures;

    lemma_search_finds_every_hit_object(bvh, enclose, accept, hits);
    let objects = bvh.object_list();
    let c = bvh.candidates(accept);
    let ids = Seq::new(bounds.len(), |i: int| i as usize);
    assert forall|i: int| 0 <= i < bounds.len() && hits(#[trigger] bounds[i]) implies c.contains(i as usize) by {
        let nb = numbered(bounds);
        assert(nb[i] == (i as usize, bounds[i]));
        assert(nb.contains(nb[i]));
        assert(objects.to_multiset().count(nb[i]) > 0);
        assert(objects.contains(nb[i]));
        let q = choose|q: int| 0 <= q < objects.len() && objects[q] == nb[i];
        assert(hits(objects[q].1));
    }
    assert(ids.no_duplicates()) by {
        assert forall|a: int, b: int| 0 <= a < ids.len() && 0 <= b < ids.len() && a != b implies ids[a] != ids[b] by {
        }
    }
    ids.lemma_multiset_has_no_duplicates();
    assert forall|v: usize| c.to_multiset().contains(v) implies c.to_multiset().count(v) == 1 by {
        assert(c.to_multiset().count(v) <= bvh.object_ids().to_multiset().count(v));
        assert(ids.to_multiset().contains(v));
    }
    c.lemma_multiset_has_no_duplicates_conv();
    assert forall|k: int| 0 <= k < c.len() implies #[trigger] c[k] < bounds.len() by {
        let v = c[k];
        assert(c.contains(v));
        assert(c.to_multiset().count(v) <= bvh.object_ids().to_multiset().count(v));
        assert(ids.to_multiset().count(v) > 0);
        assert(ids.contains(v));
        let j = choose|j: int| 0 <= j < ids.len() && ids[j] == v;
    }
}

impl<B, O> Bvh<B, O> {
    fn node_height(&self, i: usize) -> (h: usize)
        requires
            self.wf(),
            i < self.nodes@.len(),
        ensures
            h == height(self.nodes@, i as int),
            h < self.nodes@.len() - i,
        decreases self.nodes@.len() - i,
    {
        let ghost nodes = self.nodes@;
        let len = self.nodes.len();
        assert(nodes_wf(nodes, self.object_bounds@.len()));
        match self.nodes[i].data {
            BvhNodeData::Leaf(_) => 0,
            BvhNodeData::Branch(b) => {
                assert(nodes[i as int].data == BvhNodeData::Branch(b));
                let hl = self.node_height(b.left_offset);
                let hr = self.node_height(b.right_offset);
                if hl >= hr {
                    hl + 1
                } else {
                    hr + 1
                }
            },
        }
    }

    /// The number of branch levels below the root.
    pub fn depth_value(&self) -> (d: usize)
        requires
            self.wf(),
        ensures
            d == self.depth(),
    {
        self.node_height(0)
    }
}

} // verus!
