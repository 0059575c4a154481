//! Tree nodes: leaf entries and parents holding a bounded array of children,
//! with the insert, split and remove engines that keep the tree balanced.
use vstd::prelude::*;
use vstd::multiset::Multiset;
use crate::geometry::{
    Axis, Rect, contains, union, area_spec, intersects_spec, valid_rect, largest_axis_spec,
};
use crate::bounds::{
    lemma_union_push, lemma_union_perm, lemma_union_halves, lemma_union_replace,
    lemma_union_replace_two, lemma_union_same_rect, lemma_union_swap_remove,
};
use vstd::laws_eq::obeys_concrete_eq;
use vstd::std_specs::cmp::PartialEqSpec;
use crate::entries::{
    lemma_ms_push, lemma_ms_perm, lemma_ms_add, lemma_ms_update, lemma_single_ms,
    lemma_swap_remove_ms, lemma_entries_member, lemma_pruned, lemma_concrete_eq,
    lemma_search_pruned, lemma_items_push, lemma_level_parts, lemma_move_last, lemma_partition_len,
    lemma_perm_all, lemma_node_same_refl, lemma_node_same_trans,
};

verus! {

broadcast use vstd::std_specs::vec::group_vec_axioms;

/// The largest number of children a parent can hold.
pub const MAX_ITEMS: usize = 32;

/// The smallest number of children of a parent other than the root.
pub const MIN_ITEMS: usize = 2;

/// A leaf entry: a rectangle and its payload.
pub struct Item<T> {
    pub rect: Rect,
    pub item: T,
}

/// An interior record: the bounding rectangle of its children, and the children.
pub struct Parent<T> {
    pub rect: Rect,
    pub nodes: Vec<Node<T>>,
}

/// A node of the tree: a leaf entry or a parent.
pub enum Node<T> {
    Item(Item<T>),
    Parent(Parent<T>),
}

impl<T> Node<T> {
    pub open spec fn rect_of(self) -> Rect {
        match self {
            Node::Item(it) => it.rect,
            Node::Parent(p) => p.rect,
        }
    }
}

/// The entries below a node, depth first, children in order.
pub open spec fn node_entries<T>(n: Node<T>) -> Seq<(Rect, T)>
    decreases n,
{
    match n {
        Node::Item(it) => seq![(it.rect, it.item)],
        Node::Parent(p) => entries_of(p.nodes@),
    }
}

/// The entries below a sequence of nodes, in order.
pub open spec fn entries_of<T>(s: Seq<Node<T>>) -> Seq<(Rect, T)>
    decreases s,
{
    if s.len() == 0 {
        Seq::empty()
    } else {
        entries_of(s.drop_last()) + node_entries(s.last())
    }
}

/// The number of nodes in the subtree `n`, `n` included.
pub open spec fn node_size<T>(n: Node<T>) -> nat
    decreases n,
{
    match n {
        Node::Item(_) => 1,
        Node::Parent(p) => 1 + sizes_of(p.nodes@),
    }
}

/// The number of nodes in the subtrees of a sequence of nodes.
pub open spec fn sizes_of<T>(s: Seq<Node<T>>) -> nat
    decreases s,
{
    if s.len() == 0 {
        0
    } else {
        sizes_of(s.drop_last()) + node_size(s.last())
    }
}

/// Every rectangle of `s` lies within `r`.
pub open spec fn bounds_all<T>(r: Rect, s: Seq<Node<T>>) -> bool {
    forall|i: int| 0 <= i < s.len() ==> contains(r, #[trigger] s[i].rect_of())
}

/// Each side of `r` is reached by some rectangle of `s`.
pub open spec fn attains<T>(r: Rect, s: Seq<Node<T>>) -> bool {
    &&& exists|i: int| 0 <= i < s.len() && #[trigger] s[i].rect_of().min.x == r.min.x
    &&& exists|i: int| 0 <= i < s.len() && #[trigger] s[i].rect_of().min.y == r.min.y
    &&& exists|i: int| 0 <= i < s.len() && #[trigger] s[i].rect_of().max.x == r.max.x
    &&& exists|i: int| 0 <= i < s.len() && #[trigger] s[i].rect_of().max.y == r.max.y
}

/// `r` is the tight union of the rectangles of `s`: the componentwise
/// minimum of their low corners and maximum of their high corners.
pub open spec fn is_union_of<T>(r: Rect, s: Seq<Node<T>>) -> bool {
    bounds_all(r, s) && attains(r, s)
}

/// A subtree whose leaves sit `level` edges below its top, whose parents are
/// tight and hold between `MIN_ITEMS` and `MAX_ITEMS - 1` children.
pub open spec fn node_wf<T>(n: Node<T>, level: nat) -> bool
    decreases n,
{
    match n {
        Node::Item(_) => level == 0,
        Node::Parent(p) => {
            &&& level > 0
            &&& MIN_ITEMS <= p.nodes.len() < MAX_ITEMS
            &&& is_union_of(p.rect, p.nodes@)
            &&& forall|i: int| 0 <= i < p.nodes.len() ==> node_wf(#[trigger] p.nodes@[i], (level - 1) as nat)
        },
    }
}


/// Two subtrees hold the same entries and parents with the same rectangles,
/// in the same places.
pub open spec fn node_same<T>(a: Node<T>, b: Node<T>) -> bool
    decreases a,
{
    match a {
        Node::Item(x) => b == Node::Item(x),
        Node::Parent(p) => match b {
            Node::Item(_) => false,
            Node::Parent(q) => {
                &&& p.rect == q.rect
                &&& p.nodes@.len() == q.nodes@.len()
                &&& forall|i: int| 0 <= i < p.nodes@.len() ==> node_same(#[trigger] p.nodes@[i], q.nodes@[i])
            },
        },
    }
}

/// The multiset of entries below a node.
pub open spec fn node_ms<T>(n: Node<T>) -> Multiset<(Rect, T)> {
    node_entries(n).to_multiset()
}

/// The multiset of entries below a sequence of nodes.
pub open spec fn ms_of<T>(s: Seq<Node<T>>) -> Multiset<(Rect, T)> {
    entries_of(s).to_multiset()
}

/// The entries of `s` whose rectangles meet `q`, in order.
pub open spec fn search_spec<T>(s: Seq<(Rect, T)>, q: Rect) -> Seq<(Rect, T)> {
    s.filter(|e: (Rect, T)| intersects_spec(e.0, q))
}

/// Pairs of a rectangle and a borrowed payload, read as pairs of values.
pub open spec fn deref_pairs<T>(s: Seq<(Rect, &T)>) -> Seq<(Rect, T)> {
    s.map_values(|p: (Rect, &T)| (p.0, *p.1))
}

/// `r` is the tight bounding rectangle of the entries `s`: it holds every
/// entry's rectangle, and each of its sides is reached by some entry.
pub open spec fn bounds_entries<T>(r: Rect, s: Seq<(Rect, T)>) -> bool {
    &&& forall|k: int| 0 <= k < s.len() ==> contains(r, #[trigger] s[k].0)
    &&& exists|x: (Rect, T)| s.contains(x) && #[trigger] x.0.min.x == r.min.x
    &&& exists|x: (Rect, T)| s.contains(x) && #[trigger] x.0.min.y == r.min.y
    &&& exists|x: (Rect, T)| s.contains(x) && #[trigger] x.0.max.x == r.max.x
    &&& exists|x: (Rect, T)| s.contains(x) && #[trigger] x.0.max.y == r.max.y
}

/// Every leaf entry below `n` sits exactly `depth` edges below it.
pub open spec fn leaves_at<T>(n: Node<T>, depth: nat) -> bool
    decreases n,
{
    match n {
        Node::Item(_) => depth == 0,
        Node::Parent(p) => depth > 0 && forall|i: int|
            0 <= i < p.nodes@.len() ==> leaves_at(#[trigger] p.nodes@[i], (depth - 1) as nat),
    }
}

/// Every parent in the subtree `n` has between `MIN_ITEMS` and `MAX_ITEMS`
/// children.
pub open spec fn fanout_ok<T>(n: Node<T>) -> bool
    decreases n,
{
    match n {
        Node::Item(_) => true,
        Node::Parent(p) => {
            &&& MIN_ITEMS <= p.nodes@.len() <= MAX_ITEMS
            &&& forall|i: int| 0 <= i < p.nodes@.len() ==> fanout_ok(#[trigger] p.nodes@[i])
        },
    }
}

/// Every parent in the subtree `n` has the tight union of its children's
/// rectangles for its own.
pub open spec fn tight_all<T>(n: Node<T>) -> bool
    decreases n,
{
    match n {
        Node::Item(_) => true,
        Node::Parent(p) => {
            &&& is_union_of(p.rect, p.nodes@)
            &&& forall|i: int| 0 <= i < p.nodes@.len() ==> tight_all(#[trigger] p.nodes@[i])
        },
    }
}

/// The entry a leaf record holds, as a pair.
pub open spec fn item_pair<T>(it: Item<T>) -> (Rect, T) {
    (it.rect, it.item)
}

/// The entries held in a list of leaf entries, as a multiset.
pub open spec fn items_ms<T>(v: Seq<Item<T>>) -> Multiset<(Rect, T)> {
    v.map_values(|it: Item<T>| item_pair(it)).to_multiset()
}


/// Every node of `s` is a well-formed subtree with its leaves `level` below it.
pub open spec fn level_ok<T>(s: Seq<Node<T>>, level: nat) -> bool {
    forall|i: int| 0 <= i < s.len() ==> node_wf(#[trigger] s[i], level)
}

/// How much `n`'s rectangle grows when widened to hold `r`.
pub open spec fn enlargement<T>(n: Node<T>, r: Rect) -> int {
    area_spec(union(n.rect_of(), r)) - area_spec(n.rect_of())
}

/// `i` is the first of the children `s` that grows least when widened to
/// hold `r`, ties going to the smaller area.
pub open spec fn least_enlargement_at<T>(s: Seq<Node<T>>, r: Rect, i: int) -> bool {
    &&& 0 <= i < s.len()
    &&& forall|j: int| 0 <= j < s.len() ==> !better_for(#[trigger] s[j], s[i], r)
    &&& forall|j: int| 0 <= j < i ==> better_for(s[i], #[trigger] s[j], r)
}

/// A child stays on the low side when a parent with rectangle `b` is split:
/// on the longest axis of `b`, the gap between the low sides is strictly
/// smaller than the gap between the high sides.
pub open spec fn stays_left<T>(c: Node<T>, b: Rect) -> bool {
    let axis = largest_axis_spec(b);
    c.rect_of().min.on_spec(axis) - b.min.on_spec(axis) < b.max.on_spec(axis) - c.rect_of().max.on_spec(axis)
}

/// How many of the children `s` of a parent with rectangle `b` stay on the
/// low side when it is split.
pub open spec fn stay_count<T>(s: Seq<Node<T>>, b: Rect) -> nat {
    s.filter(|c: Node<T>| stays_left(c, b)).len()
}

/// `a` is a strictly better subtree than `b` for `r`: it grows less, or as
/// much and has the smaller area.
pub open spec fn better_for<T>(a: Node<T>, b: Node<T>, r: Rect) -> bool {
    ||| enlargement(a, r) < enlargement(b, r)
    ||| (enlargement(a, r) == enlargement(b, r) && area_spec(a.rect_of()) < area_spec(b.rect_of()))
}

/// The sort key of a node on `axis`: its low edge, or its high edge if `high`.
pub open spec fn edge_key<T>(n: Node<T>, axis: Axis, high: bool) -> i32 {
    if high {
        n.rect_of().max.on_spec(axis)
    } else {
        n.rect_of().min.on_spec(axis)
    }
}

pub open spec fn sorted_by_edge<T>(s: Seq<Node<T>>, axis: Axis, high: bool) -> bool {
    forall|i: int, j: int|
        0 <= i < j < s.len() ==> edge_key(#[trigger] s[i], axis, high) <= edge_key(
            #[trigger] s[j],
            axis,
            high,
        )
}

impl<T> Node<T> {
    /// The rectangle of a leaf entry or of a parent.
    pub fn rect(&self) -> (r: Rect)
        ensures
            r == self.rect_of(),
    {
        match self {
            Node::Item(n) => n.rect,
            Node::Parent(n) => n.rect,
        }
    }
}

/// Sorts `v` by `edge_key` ascending; equal keys come out in no fixed order.
fn sort_by_edge<T>(v: &mut Vec<Node<T>>, axis: Axis, high: bool)
    ensures
        final(v)@.to_multiset() == old(v)@.to_multiset(),
        final(v)@.len() == old(v)@.len(),
        sorted_by_edge(final(v)@, axis, high),
{
    broadcast use vstd::seq_lib::group_to_multiset_ensures;
    broadcast use vstd::multiset::group_multiset_axioms;

    let ghost orig = v@;
    let mut out: Vec<Node<T>> = Vec::new();
    while v.len() > 0
        invariant
            out@.to_multiset().add(v@.to_multiset()) == orig.to_multiset(),
            out@.len() + v@.len() == orig.len(),
            sorted_by_edge(out@, axis, high),
            forall|a: int, b: int|
                0 <= a < out@.len() && 0 <= b < v@.len() ==> edge_key(#[trigger] out@[a], axis, high)
                    <= edge_key(#[trigger] v@[b], axis, high),
        decreases v@.len(),
    {
        let mut m: usize = 0;
        let mut j: usize = 1;
        while j < v.len()
            invariant
                0 <= m < j <= v@.len(),
                forall|k: int| 0 <= k < j ==> edge_key(v@[m as int], axis, high) <= edge_key(#[trigger] v@[k], axis, high),
            decreases v@.len() - j,
        {
            let km = if high { v[m].rect().max.on(axis) } else { v[m].rect().min.on(axis) };
            let kj = if high { v[j].rect().max.on(axis) } else { v[j].rect().min.on(axis) };
            if kj < km {
                m = j;
            }
            j += 1;
        }
        let ghost before = v@;
        let ghost out_before = out@;
        proof {
            lemma_swap_remove_ms(before, m as int);
        }
        let x = v.swap_remove(m);
        out.push(x);
        assert(before.contains(before[m as int]));
        proof {
            vstd::seq_lib::to_multiset_contains(before, x);
            vstd::seq_lib::to_multiset_build(out_before, x);
        }
        assert(before.to_multiset().count(x) > 0);
        assert(v@.to_multiset() == before.to_multiset().remove(x));
        assert(out@ == out_before.push(x));
        assert(out@.to_multiset() == out_before.to_multiset().insert(x));
        assert(out@.to_multiset().add(v@.to_multiset()) =~= orig.to_multiset());
        assert forall|b: int| 0 <= b < v@.len() implies exists|k: int| 0 <= k < before.len() && #[trigger] v@[b] == before[k] by {
            if b == m {
                assert(v@[b] == before[before.len() - 1]);
            } else {
                assert(v@[b] == before[b]);
            }
        }
        assert forall|a: int, b: int|
            0 <= a < out@.len() && 0 <= b < v@.len() implies edge_key(#[trigger] out@[a], axis, high)
                <= edge_key(#[trigger] v@[b], axis, high) by {
            let k = choose|k: int| 0 <= k < before.len() && v@[b] == before[k];
            if a < out_before.len() {
                assert(out@[a] == out_before[a]);
            }
        }
        assert forall|a: int, b: int|
            0 <= a < b < out@.len() implies edge_key(#[trigger] out@[a], axis, high)
                <= edge_key(#[trigger] out@[b], axis, high) by {
            if b < out_before.len() {
                assert(out@[a] == out_before[a] && out@[b] == out_before[b]);
            } else {
                assert(out@[a] == out_before[a]);
                assert(out@[b] == before[m as int]);
            }
        }
    }
    *v = out;
}

impl<T> Parent<T> {
    /// A parent well formed but for its lower bound on children: its children
    /// are subtrees of level `level`, and its rectangle is their tight union
    /// when it has any.
    pub open spec fn inner_wf(self, level: nat) -> bool {
        &&& self.nodes.len() <= MAX_ITEMS
        &&& (self.nodes.len() > 0 ==> is_union_of(self.rect, self.nodes@))
        &&& level_ok(self.nodes@, level)
    }

    /// An empty parent with the given rectangle.
    pub fn new(rect: Rect) -> (r: Parent<T>)
        ensures
            r.rect == rect,
            r.nodes@.len() == 0,
    {
        Parent { rect, nodes: Vec::new() }
    }

    pub fn len(&self) -> (r: usize)
        ensures
            r == self.nodes@.len(),
    {
        self.nodes.len()
    }

    pub fn is_full(&self) -> (r: bool)
        ensures
            r == (self.nodes@.len() >= MAX_ITEMS),
    {
        self.nodes.len() >= MAX_ITEMS
    }

    /// Recomputes the rectangle as the tight union of the children; a parent
    /// without children keeps its rectangle.
    pub fn recalc(&mut self)
        ensures
            final(self).nodes == old(self).nodes,
            old(self).nodes@.len() > 0 ==> is_union_of(final(self).rect, final(self).nodes@),
            old(self).nodes@.len() == 0 ==> final(self).rect == old(self).rect,
    {
        if self.nodes.len() == 0 {
            return;
        }
        let mut rect = self.nodes[0].rect();
        let ghost s = self.nodes@;
        proof {
            lemma_union_push(rect, Seq::<Node<T>>::empty(), s[0]);
            assert(Seq::<Node<T>>::empty().push(s[0]) =~= s.subrange(0, 1));
            assert(union(rect, rect) == rect);
        }
        let mut i: usize = 1;
        while i < self.nodes.len()
            invariant
                self.nodes@ == s,
                1 <= i <= s.len(),
                is_union_of(rect, s.subrange(0, i as int)),
            decreases s.len() - i,
        {
            proof {
                lemma_union_push(rect, s.subrange(0, i as int), s[i as int]);
                assert(s.subrange(0, i as int).push(s[i as int]) =~= s.subrange(0, i + 1));
            }
            rect.expand(&self.nodes[i].rect());
            i += 1;
        }
        assert(s.subrange(0, s.len() as int) =~= s);
        self.rect = rect;
    }

    /// The index of the child that grows least when widened to hold `rect`;
    /// ties go to the smaller area, then to the first such child.
    pub fn choose_least_enlargement(&self, rect: &Rect) -> (r: usize)
        requires
            self.nodes@.len() > 0,
        ensures
            r < self.nodes@.len(),
            forall|j: int| 0 <= j < self.nodes@.len() ==> !better_for(#[trigger] self.nodes@[j], self.nodes@[r as int], *rect),
            forall|j: int| 0 <= j < r ==> better_for(self.nodes@[r as int], #[trigger] self.nodes@[j], *rect),
    {
        let mut n: usize = 0;
        let mut min_delta: i128 = 0;
        let mut min_area: i128 = 0;
        let mut i: usize = 0;
        while i < self.nodes.len()
            invariant
                0 <= i <= self.nodes@.len(),
                i > 0 ==> n < i,
                i > 0 ==> min_delta == enlargement(self.nodes@[n as int], *rect),
                i > 0 ==> min_area == area_spec(self.nodes@[n as int].rect_of()),
                forall|j: int| 0 <= j < i ==> !better_for(#[trigger] self.nodes@[j], self.nodes@[n as int], *rect),
                forall|j: int| 0 <= j < n ==> better_for(self.nodes@[n as int], #[trigger] self.nodes@[j], *rect),
            decreases self.nodes@.len() - i,
        {
            let r = self.nodes[i].rect();
            let uarea = r.unioned_area(rect);
            let area = r.area();
            let delta = uarea - area;
            if i == 0 || delta < min_delta || (delta == min_delta && area < min_area) {
                n = i;
                min_delta = delta;
                min_area = area;
            }
            i += 1;
        }
        n
    }

    /// Adds `child` after the other children.
    pub fn push(&mut self, child: Node<T>)
        requires
            old(self).nodes@.len() < MAX_ITEMS,
        ensures
            final(self).rect == old(self).rect,
            final(self).nodes@ == old(self).nodes@.push(child),
    {
        self.nodes.push(child);
    }

    /// Moves the last child of `from` onto `self`.
    fn take_last(&mut self, from: &mut Parent<T>)
        requires
            old(from).nodes@.len() > 0,
        ensures
            final(self).rect == old(self).rect,
            final(from).rect == old(from).rect,
            final(self).nodes@ == old(self).nodes@.push(old(from).nodes@.last()),
            final(from).nodes@ == old(from).nodes@.drop_last(),
    {
        let n = from.nodes.pop().unwrap();
        self.nodes.push(n);
    }

    /// Splits a full parent in two along the longest axis of its rectangle:
    /// a child stays if its low edge is strictly nearer the low side than its
    /// high edge is to the high side, and moves to the returned sibling
    /// otherwise (ties move). A side left with fewer than `MIN_ITEMS`
    /// children takes from the other side the ones nearest to it: those with
    /// the largest low edge for the staying side, the largest high edge for
    /// the sibling. Both sides end tight and sorted by `min.x`.
    pub(crate) fn split_largest_axis_edge_snap(&mut self, Ghost(level): Ghost<nat>) -> (r: Node<T>)
        requires
            old(self).inner_wf(level),
            old(self).nodes@.len() == MAX_ITEMS,
        ensures
            r is Parent,
            final(self).inner_wf(level),
            r->Parent_0.inner_wf(level),
            MIN_ITEMS <= final(self).nodes@.len() < MAX_ITEMS,
            MIN_ITEMS <= r->Parent_0.nodes@.len() < MAX_ITEMS,
            union(final(self).rect, r->Parent_0.rect) == old(self).rect,
            final(self).nodes@.to_multiset().add(r->Parent_0.nodes@.to_multiset())
                == old(self).nodes@.to_multiset(),
            ms_of(final(self).nodes@).add(ms_of(r->Parent_0.nodes@)) == ms_of(old(self).nodes@),
            sorted_by_edge(final(self).nodes@, Axis::X, false),
            sorted_by_edge(r->Parent_0.nodes@, Axis::X, false),
            ({
                let b = old(self).rect;
                let k = stay_count(old(self).nodes@, b);
                let lft = final(self).nodes@;
                let rgt = r->Parent_0.nodes@;
                let axis = largest_axis_spec(b);
                &&& MIN_ITEMS <= k <= MAX_ITEMS - MIN_ITEMS ==> {
                    &&& forall|i: int| 0 <= i < lft.len() ==> stays_left(#[trigger] lft[i], b)
                    &&& forall|j: int| 0 <= j < rgt.len() ==> !stays_left(#[trigger] rgt[j], b)
                }
                &&& k < MIN_ITEMS ==> {
                    &&& lft.len() == MIN_ITEMS
                    &&& forall|j: int| 0 <= j < rgt.len() ==> !stays_left(#[trigger] rgt[j], b)
                    &&& forall|i: int, j: int|
                        0 <= i < lft.len() && 0 <= j < rgt.len() && !stays_left(lft[i], b)
                            ==> edge_key(#[trigger] lft[i], axis, false) >= edge_key(
                            #[trigger] rgt[j],
                            axis,
                            false,
                        )
                }
                &&& k > MAX_ITEMS - MIN_ITEMS ==> {
                    &&& rgt.len() == MIN_ITEMS
                    &&& forall|i: int| 0 <= i < lft.len() ==> stays_left(#[trigger] lft[i], b)
                    &&& forall|i: int, j: int|
                        0 <= i < lft.len() && 0 <= j < rgt.len() && stays_left(rgt[j], b)
                            ==> edge_key(#[trigger] rgt[j], axis, true) >= edge_key(
                            #[trigger] lft[i],
                            axis,
                            true,
                        )
                }
            }),
    {
        broadcast use vstd::multiset::group_multiset_axioms;

        let ghost orig = self.nodes@;
        let rect = self.rect;
        let axis = rect.largest_axis();
        let ghost pred = |c: Node<T>| stays_left(c, rect);
        let mut right: Parent<T> = Parent::new(rect);
        let mut i: usize = 0;
        proof {
            vstd::seq_lib::to_multiset_len(right.nodes@);
            vstd::multiset::lemma_multiset_empty_len(right.nodes@.to_multiset());
        }
        assert(self.nodes@.to_multiset().add(right.nodes@.to_multiset()) =~= orig.to_multiset());
        while i < self.nodes.len()
            invariant
                self.nodes@.to_multiset().add(right.nodes@.to_multiset()) == orig.to_multiset(),
                self.nodes@.len() + right.nodes@.len() == MAX_ITEMS,
                i <= self.nodes@.len(),
                axis == largest_axis_spec(rect),
                forall|j: int| 0 <= j < i ==> stays_left(#[trigger] self.nodes@[j], rect),
                forall|j: int| 0 <= j < right.nodes@.len() ==> !stays_left(#[trigger] right.nodes@[j], rect),
            decreases self.nodes@.len() - i,
        {
            let r = self.nodes[i].rect();
            let min = r.min.on(axis) as i64 - rect.min.on(axis) as i64;
            let max = rect.max.on(axis) as i64 - r.max.on(axis) as i64;
            if min < max {
                i += 1;
            } else {
                let ghost before = self.nodes@;
                let ghost rbefore = right.nodes@;
                proof {
                    lemma_swap_remove_ms(before, i as int);
                    vstd::seq_lib::to_multiset_contains(before, before[i as int]);
                }
                let n = self.nodes.swap_remove(i);
                right.nodes.push(n);
                proof {
                    vstd::seq_lib::to_multiset_build(rbefore, n);
                    assert(before.contains(before[i as int]));
                    assert forall|j: int| 0 <= j < i implies stays_left(#[trigger] self.nodes@[j], rect) by {
                        assert(self.nodes@[j] == before[j]);
                    }
                    assert forall|j: int| 0 <= j < right.nodes@.len() implies !stays_left(
                        #[trigger] right.nodes@[j],
                        rect,
                    ) by {
                        if j < rbefore.len() {
                            assert(right.nodes@[j] == rbefore[j]);
                        }
                    }
                }
                assert(self.nodes@.to_multiset().add(right.nodes@.to_multiset()) =~= orig.to_multiset());
            }
        }
        proof {
            assert forall|j: int| 0 <= j < self.nodes@.len() implies pred(#[trigger] self.nodes@[j]) by {}
            assert forall|j: int| 0 <= j < right.nodes@.len() implies !pred(#[trigger] right.nodes@[j]) by {}
            lemma_partition_len(self.nodes@, right.nodes@, orig, pred);
        }
        let ghost k = self.nodes@.len();
        assert(k == stay_count(orig, rect));
        if self.nodes.len() < MIN_ITEMS {
            let ghost r0 = right.nodes@;
            sort_by_edge(&mut right.nodes, axis, false);
            proof {
                lemma_perm_all(r0, right.nodes@, |c: Node<T>| !stays_left(c, rect));
            }
            while self.nodes.len() < MIN_ITEMS
                invariant
                    self.nodes@.to_multiset().add(right.nodes@.to_multiset()) == orig.to_multiset(),
                    self.nodes@.len() + right.nodes@.len() == MAX_ITEMS,
                    self.nodes@.len() <= MIN_ITEMS,
                    axis == largest_axis_spec(rect),
                    sorted_by_edge(right.nodes@, axis, false),
                    forall|j: int| 0 <= j < right.nodes@.len() ==> !stays_left(#[trigger] right.nodes@[j], rect),
                    forall|a: int, j: int|
                        0 <= a < self.nodes@.len() && 0 <= j < right.nodes@.len() && !stays_left(
                            self.nodes@[a],
                            rect,
                        ) ==> edge_key(#[trigger] self.nodes@[a], axis, false) >= edge_key(
                            #[trigger] right.nodes@[j],
                            axis,
                            false,
                        ),
                decreases MIN_ITEMS - self.nodes@.len(),
            {
                let ghost a0 = self.nodes@;
                let ghost b0 = right.nodes@;
                proof {
                    lemma_move_last(a0, b0);
                }
                self.take_last(&mut right);
                proof {
                    assert forall|a: int, j: int|
                        0 <= a < self.nodes@.len() && 0 <= j < right.nodes@.len() && !stays_left(
                            self.nodes@[a],
                            rect,
                        ) implies edge_key(#[trigger] self.nodes@[a], axis, false) >= edge_key(
                        #[trigger] right.nodes@[j],
                        axis,
                        false,
                    ) by {
                        assert(right.nodes@[j] == b0[j]);
                        if a < a0.len() {
                            assert(self.nodes@[a] == a0[a]);
                        } else {
                            assert(self.nodes@[a] == b0[b0.len() - 1]);
                        }
                    }
                    assert forall|j: int| 0 <= j < right.nodes@.len() implies !stays_left(
                        #[trigger] right.nodes@[j],
                        rect,
                    ) by {
                        assert(right.nodes@[j] == b0[j]);
                    }
                    assert forall|x: int, y: int| 0 <= x < y < right.nodes@.len() implies edge_key(
                        #[trigger] right.nodes@[x],
                        axis,
                        false,
                    ) <= edge_key(#[trigger] right.nodes@[y], axis, false) by {
                        assert(right.nodes@[x] == b0[x] && right.nodes@[y] == b0[y]);
                    }
                }
            }
        } else if right.nodes.len() < MIN_ITEMS {
            let ghost l0 = self.nodes@;
            sort_by_edge(&mut self.nodes, axis, true);
            proof {
                lemma_perm_all(l0, self.nodes@, |c: Node<T>| stays_left(c, rect));
            }
            while right.nodes.len() < MIN_ITEMS
                invariant
                    self.nodes@.to_multiset().add(right.nodes@.to_multiset()) == orig.to_multiset(),
                    self.nodes@.len() + right.nodes@.len() == MAX_ITEMS,
                    right.nodes@.len() <= MIN_ITEMS,
                    axis == largest_axis_spec(rect),
                    sorted_by_edge(self.nodes@, axis, true),
                    forall|j: int| 0 <= j < self.nodes@.len() ==> stays_left(#[trigger] self.nodes@[j], rect),
                    forall|a: int, j: int|
                        0 <= a < self.nodes@.len() && 0 <= j < right.nodes@.len() && stays_left(
                            right.nodes@[j],
                            rect,
                        ) ==> edge_key(#[trigger] right.nodes@[j], axis, true) >= edge_key(
                            #[trigger] self.nodes@[a],
                            axis,
                            true,
                        ),
                decreases MIN_ITEMS - right.nodes@.len(),
            {
                let ghost a = self.nodes@;
                let ghost b = right.nodes@;
                proof {
                    lemma_move_last(b, a);
                }
                right.take_last(self);
                assert(right.nodes@ == b.push(a.last()));
                assert(self.nodes@ == a.drop_last());
                assert(a.to_multiset().add(b.to_multiset()) =~= b.to_multiset().add(a.to_multiset()));
                assert(self.nodes@.to_multiset().add(right.nodes@.to_multiset()) =~= right.nodes@.to_multiset().add(self.nodes@.to_multiset()));
                assert(self.nodes@.to_multiset().add(right.nodes@.to_multiset()) =~= orig.to_multiset());
                proof {
                    assert forall|x: int, j: int|
                        0 <= x < self.nodes@.len() && 0 <= j < right.nodes@.len() && stays_left(
                            right.nodes@[j],
                            rect,
                        ) implies edge_key(#[trigger] right.nodes@[j], axis, true) >= edge_key(
                        #[trigger] self.nodes@[x],
                        axis,
                        true,
                    ) by {
                        assert(self.nodes@[x] == a[x]);
                        if j < b.len() {
                            assert(right.nodes@[j] == b[j]);
                        } else {
                            assert(right.nodes@[j] == a[a.len() - 1]);
                        }
                    }
                    assert forall|j: int| 0 <= j < self.nodes@.len() implies stays_left(
                        #[trigger] self.nodes@[j],
                        rect,
                    ) by {
                        assert(self.nodes@[j] == a[j]);
                    }
                    assert forall|x: int, y: int| 0 <= x < y < self.nodes@.len() implies edge_key(
                        #[trigger] self.nodes@[x],
                        axis,
                        true,
                    ) <= edge_key(#[trigger] self.nodes@[y], axis, true) by {
                        assert(self.nodes@[x] == a[x] && self.nodes@[y] == a[y]);
                    }
                }
            }
        }
        self.recalc();
        right.recalc();
        let ghost left_unsorted = self.nodes@;
        let ghost right_unsorted = right.nodes@;
        self.sort_by_x();
        right.sort_by_x();
        proof {
            lemma_union_perm(self.rect, left_unsorted, self.nodes@);
            lemma_union_perm(right.rect, right_unsorted, right.nodes@);
            lemma_level_parts(orig, self.nodes@, right.nodes@, level);
            vstd::seq_lib::lemma_multiset_commutative(self.nodes@, right.nodes@);
            lemma_union_halves(rect, orig, self.rect, self.nodes@, right.rect, right.nodes@);
            lemma_ms_perm(self.nodes@ + right.nodes@, orig);
            lemma_ms_add(self.nodes@, right.nodes@);
            let lft = self.nodes@;
            let rgt = right.nodes@;
            if k >= MIN_ITEMS {
                lemma_perm_all(left_unsorted, lft, |c: Node<T>| stays_left(c, rect));
            }
            lemma_perm_all(left_unsorted, lft, |c: Node<T>| !stays_left(c, rect) ==> forall|j: int|
                0 <= j < right_unsorted.len() ==> edge_key(c, axis, false) >= edge_key(
                    #[trigger] right_unsorted[j],
                    axis,
                    false,
                ));
            if k <= MAX_ITEMS - MIN_ITEMS {
                lemma_perm_all(right_unsorted, rgt, |c: Node<T>| !stays_left(c, rect));
            }
            lemma_perm_all(right_unsorted, rgt, |c: Node<T>| stays_left(c, rect) ==> forall|j: int|
                0 <= j < left_unsorted.len() ==> edge_key(c, axis, true) >= edge_key(
                    #[trigger] left_unsorted[j],
                    axis,
                    true,
                ));
            if k < MIN_ITEMS {
                assert forall|x: int, j: int|
                    0 <= x < lft.len() && 0 <= j < rgt.len() && !stays_left(lft[x], rect)
                        implies edge_key(#[trigger] lft[x], axis, false) >= edge_key(
                        #[trigger] rgt[j],
                        axis,
                        false,
                    ) by {
                    let c = lft[x];
                    lemma_perm_all(right_unsorted, rgt, |d: Node<T>| edge_key(c, axis, false) >= edge_key(d, axis, false));
                }
            }
            if k > MAX_ITEMS - MIN_ITEMS {
                assert forall|x: int, j: int|
                    0 <= x < lft.len() && 0 <= j < rgt.len() && stays_left(rgt[j], rect)
                        implies edge_key(#[trigger] rgt[j], axis, true) >= edge_key(
                        #[trigger] lft[x],
                        axis,
                        true,
                    ) by {
                    let c = rgt[j];
                    lemma_perm_all(left_unsorted, lft, |d: Node<T>| edge_key(c, axis, true) >= edge_key(d, axis, true));
                }
            }
        }
        Node::Parent(right)
    }

    /// Inserts the entry `(rect, item)` below this parent, whose children sit
    /// at level `height` (leaf entries at level 0). A child that fills up is
    /// split and its new sibling added here; this parent may end up full.
    pub fn insert(&mut self, rect: Rect, item: T, height: usize)
        requires
            old(self).nodes@.len() < MAX_ITEMS,
            old(self).inner_wf(height as nat),
            old(self).nodes@.len() == 0 ==> height == 0 && old(self).rect == rect,
        ensures
            final(self).inner_wf(height as nat),
            old(self).nodes@.len() <= final(self).nodes@.len(),
            final(self).nodes@.len() > 0,
            final(self).rect == union(old(self).rect, rect),
            ms_of(final(self).nodes@) == ms_of(old(self).nodes@).insert((rect, item)),
            height == 0 ==> final(self).nodes@ == old(self).nodes@.push(
                Node::Item(Item { rect, item }),
            ),
            height > 0 ==> final(self).nodes@.len() <= old(self).nodes@.len() + 1,
            height > 0 ==> exists|i: int|
                least_enlargement_at(old(self).nodes@, rect, i) && forall|j: int|
                    0 <= j < old(self).nodes@.len() && j != i ==> #[trigger] final(self).nodes@[j]
                        == old(self).nodes@[j],
        decreases height,
    {
        broadcast use vstd::multiset::group_multiset_axioms;

        let ghost s = self.nodes@;
        let ghost e = (rect, item);
        if height > 0 {
            let i = self.choose_least_enlargement(&rect);
            let ghost c = s[i as int];
            assert(node_wf(c, height as nat));
            let mut right: Option<Node<T>> = None;
            match &mut self.nodes[i] {
                Node::Parent(child) => {
                    child.insert(rect, item, height - 1);
                    if child.is_full() {
                        right = Some(child.split_largest_axis_edge_snap(Ghost((height - 1) as nat)));
                    }
                },
                Node::Item(_) => {},
            }
            let ghost c2 = self.nodes@[i as int];
            assert(self.nodes@ == s.update(i as int, c2));
            assert(c2 is Parent);
            assert(node_ms(c2) == ms_of(c2->Parent_0.nodes@));
            assert(node_ms(c) == ms_of(c->Parent_0.nodes@));
            proof {
                lemma_ms_update(s, i as int, c2);
            }
            match right {
                Some(r) => {
                    self.push(r);
                    assert(node_ms(r) == ms_of(r->Parent_0.nodes@));
                    assert(node_ms(c2).add(node_ms(r)) == node_ms(c).insert(e));
                    proof {
                        lemma_ms_push(s.update(i as int, c2), r);
                        lemma_union_replace_two(old(self).rect, s, i as int, c2, r, rect);
                        let xs = ms_of(s.update(i as int, c2));
                        assert forall|v| #[trigger] ms_of(self.nodes@).count(v) == ms_of(s).insert(e).count(v) by {
                            assert(xs.add(node_ms(c)).count(v) == ms_of(s).add(node_ms(c2)).count(v));
                            assert(node_ms(c2).add(node_ms(r)).count(v) == node_ms(c).insert(e).count(v));
                        }
                        assert(ms_of(self.nodes@) =~= ms_of(s).insert(e));
                        assert forall|k: int| 0 <= k < self.nodes@.len() implies node_wf(
                            #[trigger] self.nodes@[k],
                            height as nat,
                        ) by {
                            if k != i && k != s.len() {
                                assert(self.nodes@[k] == s[k]);
                            }
                        }
                    }
                },
                None => {
                    proof {
                        lemma_union_replace(old(self).rect, s, i as int, c2, rect);
                        let xs = ms_of(s.update(i as int, c2));
                        assert forall|v| #[trigger] ms_of(self.nodes@).count(v) == ms_of(s).insert(e).count(v) by {
                            assert(xs.add(node_ms(c)).count(v) == ms_of(s).add(node_ms(c2)).count(v));
                        }
                        assert(ms_of(self.nodes@) =~= ms_of(s).insert(e));
                        assert forall|k: int| 0 <= k < self.nodes@.len() implies node_wf(
                            #[trigger] self.nodes@[k],
                            height as nat,
                        ) by {
                            if k != i {
                                assert(self.nodes@[k] == s[k]);
                            }
                        }
                    }
                },
            }
            assert(least_enlargement_at(s, rect, i as int));
            assert(forall|j: int|
                0 <= j < s.len() && j != i ==> #[trigger] self.nodes@[j] == s[j]);
        } else {
            let n = Node::Item(Item { rect, item });
            self.push(n);
            proof {
                lemma_ms_push(s, n);
                lemma_union_push(old(self).rect, s, n);
                assert(node_entries(n) == seq![e]);
                lemma_single_ms(e);
                assert(ms_of(self.nodes@) =~= ms_of(s).insert(e));
                assert forall|k: int| 0 <= k < self.nodes@.len() implies node_wf(#[trigger] self.nodes@[k], 0) by {
                    if k < s.len() {
                        assert(self.nodes@[k] == s[k]);
                    }
                }
            }
        }
        self.rect.expand(&rect);
    }

    /// Moves every leaf entry below this parent onto `reinsert`, leaving the
    /// parent without children.
    fn flatten_into(&mut self, reinsert: &mut Vec<Item<T>>, Ghost(level): Ghost<nat>)
        requires
            level_ok(old(self).nodes@, level),
        ensures
            items_ms(final(reinsert)@) == items_ms(old(reinsert)@).add(ms_of(old(self).nodes@)),
            final(self).nodes@.len() == 0,
            old(reinsert)@.len() <= final(reinsert)@.len(),
            final(reinsert)@.subrange(0, old(reinsert)@.len() as int) == old(reinsert)@,
        decreases level,
    {
        broadcast use vstd::multiset::group_multiset_axioms;

        let ghost s0 = self.nodes@;
        let ghost r0 = reinsert@;
        while self.nodes.len() > 0
            invariant
                level_ok(self.nodes@, level),
                items_ms(reinsert@).add(ms_of(self.nodes@)) == items_ms(r0).add(ms_of(s0)),
                r0.len() <= reinsert@.len(),
                reinsert@.subrange(0, r0.len() as int) == r0,
                r0 == old(reinsert)@,
            decreases self.nodes@.len(),
        {
            let ghost before = self.nodes@;
            let ghost rb = reinsert@;
            let node = self.nodes.pop().unwrap();
            proof {
                assert(before.drop_last().push(before.last()) =~= before);
                lemma_ms_push(before.drop_last(), before.last());
                assert(node_wf(node, level));
            }
            match node {
                Node::Item(item) => {
                    let ghost e = item_pair(item);
                    reinsert.push(item);
                    proof {
                        lemma_items_push(rb, item);
                        lemma_single_ms(e);
                        assert(node_entries(node) == seq![e]);
                    }
                    assert(items_ms(reinsert@).add(ms_of(self.nodes@)) =~= items_ms(r0).add(ms_of(s0)));
                    assert(reinsert@.subrange(0, r0.len() as int) =~= rb.subrange(0, r0.len() as int));
                },
                Node::Parent(mut p) => {
                    let ghost pn = p.nodes@;
                    p.flatten_into(reinsert, Ghost((level - 1) as nat));
                    assert(node_ms(node) == ms_of(pn));
                    assert(items_ms(reinsert@).add(ms_of(self.nodes@)) =~= items_ms(r0).add(ms_of(s0)));
                    assert(reinsert@.subrange(0, r0.len() as int) =~= reinsert@.subrange(
                        0,
                        rb.len() as int,
                    ).subrange(0, r0.len() as int));
                },
            }
        }
        assert(entries_of(self.nodes@) =~= Seq::<(Rect, T)>::empty());
        proof {
            vstd::seq_lib::to_multiset_len(Seq::<(Rect, T)>::empty());
            vstd::multiset::lemma_multiset_empty_len(Seq::<(Rect, T)>::empty().to_multiset());
        }
        assert(items_ms(reinsert@) =~= items_ms(r0).add(ms_of(s0)));
    }

    /// Removes the first entry below this parent whose rectangle is `rect` and
    /// whose payload equals `data`, descending only into children whose
    /// rectangles meet `rect`. A child left with fewer than `MIN_ITEMS`
    /// children is dissolved and its entries moved onto `reinsert`. The flag
    /// says whether this parent's rectangle was recomputed; when it is not
    /// set the rectangle is unchanged.
    pub fn remove(
        &mut self,
        rect: &Rect,
        data: &T,
        reinsert: &mut Vec<Item<T>>,
        height: usize,
    ) -> (r: (Option<Item<T>>, bool)) where T: PartialEq
        requires
            old(self).inner_wf(height as nat),
            obeys_concrete_eq::<T>(),
        ensures
            final(self).inner_wf(height as nat),
            final(self).nodes@.len() <= old(self).nodes@.len() <= final(self).nodes@.len() + 1,
            !r.1 ==> final(self).rect == old(self).rect,
            r.0 is None ==> {
                &&& !r.1
                &&& final(self).nodes@.len() == old(self).nodes@.len()
                &&& ms_of(final(self).nodes@) == ms_of(old(self).nodes@)
                &&& final(reinsert)@ == old(reinsert)@
                &&& valid_rect(*rect) ==> ms_of(old(self).nodes@).count((*rect, *data)) == 0
                &&& forall|i: int|
                    0 <= i < old(self).nodes@.len() ==> node_same(
                        #[trigger] final(self).nodes@[i],
                        old(self).nodes@[i],
                    )
            },
            old(reinsert)@.len() <= final(reinsert)@.len(),
            final(reinsert)@.subrange(0, old(reinsert)@.len() as int) == old(reinsert)@,
            r.0 is Some ==> {
                &&& r.0->Some_0.rect == *rect
                &&& r.0->Some_0.item == *data
                &&& ms_of(final(self).nodes@).add(items_ms(final(reinsert)@)).insert((*rect, *data))
                    == ms_of(old(self).nodes@).add(items_ms(old(reinsert)@))
            },
        decreases height,
    {
        broadcast use vstd::multiset::group_multiset_axioms;

        proof {
            lemma_concrete_eq::<T>();
        }
        let ghost s = self.nodes@;
        let ghost e = (*rect, *data);
        let ghost r0 = reinsert@;
        if height == 0 {
            let mut i: usize = 0;
            while i < self.nodes.len()
                invariant
                    self.nodes@ == s,
                    s == old(self).nodes@,
                    e == (*rect, *data),
                    r0 == old(reinsert)@,
                    self.rect == old(self).rect,
                    reinsert@ == r0,
                    i <= s.len(),
                    level_ok(s, 0),
                    s.len() > 0 ==> is_union_of(self.rect, s),
                    s.len() <= MAX_ITEMS,
                    height == 0,
                    T::obeys_eq_spec(),
                    forall|x: T, y: T| x.eq_spec(&y) <==> (x == y),
                    forall|j: int|
                        0 <= j < i ==> !(#[trigger] s[j]->Item_0.rect == *rect && s[j]->Item_0.item
                            == *data),
                decreases s.len() - i,
            {
                assert(node_wf(s[i as int], 0));
                let hit = match &self.nodes[i] {
                    Node::Item(it) => it.rect == *rect && it.item.eq(data),
                    Node::Parent(_) => false,
                };
                assert(hit ==> s[i as int]->Item_0.rect == *rect && s[i as int]->Item_0.item == *data);
                if hit {
                    proof {
                        lemma_swap_remove_ms(s, i as int);
                        lemma_single_ms(e);
                    }
                    let n = self.nodes.swap_remove(i);
                    match n {
                        Node::Item(item) => {
                            assert(node_entries(n) == seq![e]);
                            let recalced = self.rect.on_edge(&item.rect);
                            if recalced {
                                self.recalc();
                            } else {
                                proof {
                                    lemma_union_swap_remove(self.rect, s, i as int);
                                }
                            }
                            assert forall|k: int| 0 <= k < self.nodes@.len() implies node_wf(
                                #[trigger] self.nodes@[k],
                                0,
                            ) by {
                                if k == i {
                                    assert(self.nodes@[k] == s[s.len() - 1]);
                                } else {
                                    assert(self.nodes@[k] == s[k]);
                                }
                            }
                            assert(ms_of(self.nodes@).add(items_ms(reinsert@)).insert(e) =~= ms_of(
                                s,
                            ).add(items_ms(r0)));
                            assert(reinsert@.subrange(0, r0.len() as int) =~= r0);
                            return (Some(item), recalced);
                        },
                        Node::Parent(_) => {
                            return (None, false);
                        },
                    }
                }
                i += 1;
            }
            proof {
                assert forall|i: int| 0 <= i < s.len() implies node_same(#[trigger] s[i], s[i]) by {
                    lemma_node_same_refl(s[i]);
                }
                assert(reinsert@.subrange(0, r0.len() as int) =~= r0);
                if ms_of(s).count(e) > 0 {
                    vstd::seq_lib::to_multiset_contains(entries_of(s), e);
                    lemma_entries_member(s, e);
                    let j = choose|j: int| 0 <= j < s.len() && #[trigger] node_entries(s[j]).contains(e);
                    assert(node_wf(s[j], 0));
                    let it = s[j]->Item_0;
                    assert(node_entries(s[j]) == seq![(it.rect, it.item)]);
                    assert(node_entries(s[j])[0] == e);
                    assert(it.rect == *rect && it.item == *data);
                }
            }
            return (None, false);
        }
        proof {
            assert forall|j: int| 0 <= j < s.len() implies node_same(#[trigger] self.nodes@[j], s[j]) by {
                lemma_node_same_refl(s[j]);
            }
        }
        let mut i: usize = 0;
        while i < self.nodes.len()
            invariant
                0 < height,
                obeys_concrete_eq::<T>(),
                s == old(self).nodes@,
                e == (*rect, *data),
                r0 == old(reinsert)@,
                self.rect == old(self).rect,
                reinsert@ == r0,
                i <= self.nodes@.len(),
                self.nodes@.len() == s.len(),
                self.inner_wf(height as nat),
                ms_of(self.nodes@) == ms_of(s),
                valid_rect(*rect) ==> forall|j: int|
                    0 <= j < i ==> !node_entries(#[trigger] self.nodes@[j]).contains(e),
                forall|j: int| 0 <= j < s.len() ==> node_same(#[trigger] self.nodes@[j], s[j]),
            decreases s.len() - i,
        {
            let ghost cur = self.nodes@;
            let ghost c = cur[i as int];
            assert(node_wf(c, height as nat));
            if self.nodes[i].rect().intersects(rect) {
                let mut res: (Option<Item<T>>, bool) = (None, false);
                match &mut self.nodes[i] {
                    Node::Parent(child) => {
                        res = child.remove(rect, data, reinsert, height - 1);
                    },
                    Node::Item(_) => {},
                }
                let (removed, mut recalced) = res;
                let ghost c2 = self.nodes@[i as int];
                let ghost r1 = reinsert@;
                assert(self.nodes@ == cur.update(i as int, c2));
                assert(c2 is Parent);
                assert(node_ms(c2) == ms_of(c2->Parent_0.nodes@));
                assert(node_ms(c) == ms_of(c->Parent_0.nodes@));
                proof {
                    lemma_ms_update(cur, i as int, c2);
                }
                if removed.is_some() {
                    let underflow = match &self.nodes[i] {
                        Node::Parent(c) => c.len() < MIN_ITEMS,
                        Node::Item(_) => false,
                    };
                    if underflow {
                        let ghost s1 = self.nodes@;
                        let nrect = self.nodes[i].rect();
                        proof {
                            lemma_swap_remove_ms(s1, i as int);
                            if !recalced {
                                lemma_union_same_rect(self.rect, cur, i as int, c2);
                            }
                        }
                        let n = self.nodes.swap_remove(i);
                        match n {
                            Node::Parent(mut c) => {
                                c.flatten_into(reinsert, Ghost((height - 1) as nat));
                            },
                            Node::Item(_) => {},
                        }
                        assert forall|k: int| 0 <= k < self.nodes@.len() implies node_wf(
                            #[trigger] self.nodes@[k],
                            height as nat,
                        ) by {
                            if k == i {
                                assert(self.nodes@[k] == s1[s1.len() - 1]);
                            } else {
                                assert(self.nodes@[k] == s1[k]);
                            }
                        }
                        assert forall|v| #[trigger] ms_of(self.nodes@).add(items_ms(reinsert@)).insert(
                            e,
                        ).count(v) == ms_of(s).add(items_ms(r0)).count(v) by {
                            assert(ms_of(cur.update(i as int, c2)).add(node_ms(c)).count(v) == ms_of(
                                cur,
                            ).add(node_ms(c2)).count(v));
                            assert(ms_of(s1).count(v) == ms_of(self.nodes@).add(node_ms(c2)).count(v));
                            assert(ms_of(c2->Parent_0.nodes@).add(items_ms(r1)).insert(e).count(v)
                                == ms_of(c->Parent_0.nodes@).add(items_ms(r0)).count(v));
                            assert(items_ms(reinsert@).count(v) == items_ms(r1).add(ms_of(c2->Parent_0.nodes@)).count(v));
                        }
                        if !recalced {
                            recalced = self.rect.on_edge(&nrect);
                            if !recalced {
                                proof {
                                    lemma_union_swap_remove(self.rect, s1, i as int);
                                }
                            }
                        }
                    } else {
                        proof {
                            if !recalced {
                                lemma_union_same_rect(self.rect, cur, i as int, c2);
                            }
                        }
                        assert forall|k: int| 0 <= k < self.nodes@.len() implies node_wf(
                            #[trigger] self.nodes@[k],
                            height as nat,
                        ) by {
                            if k != i {
                                assert(self.nodes@[k] == cur[k]);
                            }
                        }
                        assert forall|v| #[trigger] ms_of(self.nodes@).add(items_ms(reinsert@)).insert(
                            e,
                        ).count(v) == ms_of(s).add(items_ms(r0)).count(v) by {
                            assert(ms_of(cur.update(i as int, c2)).add(node_ms(c)).count(v) == ms_of(
                                cur,
                            ).add(node_ms(c2)).count(v));
                            assert(ms_of(c2->Parent_0.nodes@).add(items_ms(r1)).insert(e).count(v)
                                == ms_of(c->Parent_0.nodes@).add(items_ms(r0)).count(v));
                        }
                    }
                    if recalced {
                        self.recalc();
                    }
                    assert(ms_of(self.nodes@).add(items_ms(reinsert@)).insert(e) =~= ms_of(s).add(
                        items_ms(r0),
                    ));
                    assert(reinsert@.subrange(0, r0.len() as int) =~= reinsert@.subrange(
                        0,
                        r1.len() as int,
                    ).subrange(0, r0.len() as int));
                    return (removed, recalced);
                }
                proof {
                    assert(node_same(c2, c));
                    lemma_node_same_trans(c2, c, s[i as int]);
                    assert forall|j: int| 0 <= j < s.len() implies node_same(#[trigger] self.nodes@[j], s[j]) by {
                        if j != i {
                            assert(self.nodes@[j] == cur[j]);
                        }
                    }
                    lemma_union_same_rect(self.rect, cur, i as int, c2);
                    assert forall|k: int| 0 <= k < self.nodes@.len() implies node_wf(
                        #[trigger] self.nodes@[k],
                        height as nat,
                    ) by {
                        if k != i {
                            assert(self.nodes@[k] == cur[k]);
                        }
                    }
                    assert forall|v| #[trigger] ms_of(self.nodes@).count(v) == ms_of(s).count(v) by {
                        assert(ms_of(cur.update(i as int, c2)).add(node_ms(c)).count(v) == ms_of(
                            cur,
                        ).add(node_ms(c2)).count(v));
                    }
                    assert(ms_of(self.nodes@) =~= ms_of(s));
                    if valid_rect(*rect) {
                        vstd::seq_lib::to_multiset_contains(node_entries(c2), e);
                        assert forall|j: int| 0 <= j < i + 1 implies !node_entries(
                            #[trigger] self.nodes@[j],
                        ).contains(e) by {
                            if j != i {
                                assert(self.nodes@[j] == cur[j]);
                            }
                        }
                    }
                }
            } else {
                proof {
                    if valid_rect(*rect) {
                        lemma_pruned(c, height as nat, *rect, e);
                    }
                }
            }
            i += 1;
        }
        proof {
            if valid_rect(*rect) && ms_of(s).count(e) > 0 {
                vstd::seq_lib::to_multiset_contains(entries_of(self.nodes@), e);
                lemma_entries_member(self.nodes@, e);
            }
        }
        (None, false)
    }

    /// Appends to `items`, depth first, every entry below this parent whose
    /// rectangle meets `rect`, skipping subtrees whose rectangles miss it.
    pub fn search_flat<'a>(&'a self, rect: &Rect, items: &mut Vec<(Rect, &'a T)>)
        requires
            exists|l: nat| self.inner_wf(l),
        ensures
            deref_pairs(final(items)@) == deref_pairs(old(items)@) + search_spec(
                entries_of(self.nodes@),
                *rect,
            ),
        decreases self,
    {
        let ghost l = choose|l: nat| self.inner_wf(l);
        let ghost s = self.nodes@;
        let ghost q = *rect;
        let ghost pred = |e: (Rect, T)| intersects_spec(e.0, q);
        assert(s.subrange(0, 0) =~= Seq::<Node<T>>::empty());
        assert(deref_pairs(items@) =~= deref_pairs(old(items)@) + search_spec(
            entries_of(s.subrange(0, 0)),
            q,
        ));
        let mut i: usize = 0;
        while i < self.nodes.len()
            invariant
                self.inner_wf(l),
                s == self.nodes@,
                q == *rect,
                i <= s.len(),
                deref_pairs(items@) == deref_pairs(old(items)@) + search_spec(
                    entries_of(s.subrange(0, i as int)),
                    q,
                ),
            decreases s.len() - i,
        {
            let ghost before = items@;
            let ghost pre = s.subrange(0, i as int);
            let node = &self.nodes[i];
            proof {
                assert(s.subrange(0, i + 1).drop_last() =~= pre);
                assert(entries_of(s.subrange(0, i + 1)) == entries_of(pre) + node_entries(s[i as int]));
                Seq::filter_distributes_over_add(entries_of(pre), node_entries(s[i as int]), pred);
                assert(node_wf(s[i as int], l));
            }
            if node.rect().intersects(rect) {
                match node {
                    Node::Item(item) => {
                        items.push((item.rect, &item.item));
                        proof {
                            let e = (item.rect, item.item);
                            assert(node_entries(*node) == seq![e]);
                            reveal_with_fuel(Seq::filter, 2);
                            assert(seq![e].drop_last() =~= Seq::<(Rect, T)>::empty());
                            assert(search_spec(seq![e], q) =~= seq![e]);
                        }
                        assert(deref_pairs(items@) =~= deref_pairs(before).push((item.rect, item.item)));
                    },
                    Node::Parent(p) => {
                        assert(p.inner_wf((l - 1) as nat));
                        p.search_flat(rect, items);
                    },
                }
            } else {
                proof {
                    lemma_search_pruned(s[i as int], l, q);
                }
            }
            assert(deref_pairs(items@) =~= deref_pairs(old(items)@) + search_spec(
                entries_of(s.subrange(0, i + 1)),
                q,
            ));
            i += 1;
        }
        assert(s.subrange(0, s.len() as int) =~= s);
    }

    /// Sorts the children by the low `x` edge of their rectangles.
    fn sort_by_x(&mut self)
        ensures
            final(self).rect == old(self).rect,
            final(self).nodes@.to_multiset() == old(self).nodes@.to_multiset(),
            final(self).nodes@.len() == old(self).nodes@.len(),
            sorted_by_edge(final(self).nodes@, Axis::X, false),
    {
        sort_by_edge(&mut self.nodes, Axis::X, false);
    }
}

} // verus!
