//! Lemmas about the entries below nodes: how they split over sequences,
//! how moving nodes around keeps their multiset, where they lie, and the
//! shape of well-formed subtrees.
use vstd::prelude::*;
use vstd::multiset::Multiset;
use vstd::laws_eq::obeys_concrete_eq;
use vstd::std_specs::cmp::PartialEqSpec;
use crate::geometry::{Rect, contains, intersects_spec};
use crate::node::{
    Item, Node, Parent, node_entries, entries_of, node_size, sizes_of, ms_of, node_ms, node_wf,
    level_ok, bounds_entries, items_ms, item_pair, search_spec, leaves_at, fanout_ok, tight_all,
    node_same,
};

verus! {

broadcast use vstd::std_specs::vec::group_vec_axioms;

pub proof fn lemma_entries_add<T>(a: Seq<Node<T>>, b: Seq<Node<T>>)
    ensures
        entries_of(a + b) == entries_of(a) + entries_of(b),
    decreases b.len(),
{
    if b.len() == 0 {
        assert(a + b =~= a);
        assert(entries_of(a) + entries_of(b) =~= entries_of(a));
    } else {
        assert((a + b).drop_last() =~= a + b.drop_last());
        lemma_entries_add(a, b.drop_last());
        assert(entries_of(a + b) =~= entries_of(a) + entries_of(b));
    }
}

pub proof fn lemma_sizes_add<T>(a: Seq<Node<T>>, b: Seq<Node<T>>)
    ensures
        sizes_of(a + b) == sizes_of(a) + sizes_of(b),
    decreases b.len(),
{
    if b.len() == 0 {
        assert(a + b =~= a);
    } else {
        assert((a + b).drop_last() =~= a + b.drop_last());
        lemma_sizes_add(a, b.drop_last());
    }
}

/// Splitting off the first of a sequence of nodes splits its entries and
/// its node count the same way.
pub proof fn lemma_split_first<T>(s: Seq<Node<T>>)
    requires
        s.len() > 0,
    ensures
        entries_of(s) == node_entries(s[0]) + entries_of(s.skip(1)),
        sizes_of(s) == node_size(s[0]) + sizes_of(s.skip(1)),
{
    let a = seq![s[0]];
    assert(s =~= a + s.skip(1));
    lemma_entries_add(a, s.skip(1));
    lemma_sizes_add(a, s.skip(1));
    assert(a.drop_last() =~= Seq::<Node<T>>::empty());
    assert(entries_of(a) == entries_of(Seq::<Node<T>>::empty()) + node_entries(s[0]));
    assert(entries_of(a) =~= node_entries(s[0]));
    assert(sizes_of(a) == sizes_of(Seq::<Node<T>>::empty()) + node_size(s[0]));
}

pub proof fn lemma_ms_push<T>(s: Seq<Node<T>>, x: Node<T>)
    ensures
        ms_of(s.push(x)) == ms_of(s).add(node_ms(x)),
{
    assert(s.push(x).drop_last() =~= s);
    vstd::seq_lib::lemma_multiset_commutative(entries_of(s), node_entries(x));
}

pub proof fn lemma_ms_add<T>(a: Seq<Node<T>>, b: Seq<Node<T>>)
    ensures
        ms_of(a + b) == ms_of(a).add(ms_of(b)),
{
    lemma_entries_add(a, b);
    vstd::seq_lib::lemma_multiset_commutative(entries_of(a), entries_of(b));
}

pub proof fn lemma_ms_remove<T>(s: Seq<Node<T>>, i: int)
    requires
        0 <= i < s.len(),
    ensures
        ms_of(s) == ms_of(s.remove(i)).add(node_ms(s[i])),
{
    let a = s.subrange(0, i);
    let b = s.subrange(i + 1, s.len() as int);
    assert(s =~= a.push(s[i]) + b);
    assert(s.remove(i) =~= a + b);
    lemma_ms_add(a.push(s[i]), b);
    lemma_ms_add(a, b);
    lemma_ms_push(a, s[i]);
    assert(ms_of(s) =~= ms_of(s.remove(i)).add(node_ms(s[i])));
}

pub proof fn lemma_single_ms<A>(e: A)
    ensures
        seq![e].to_multiset() == Multiset::<A>::empty().insert(e),
{
    vstd::seq_lib::to_multiset_len(Seq::<A>::empty());
    vstd::multiset::lemma_multiset_empty_len(Seq::<A>::empty().to_multiset());
    vstd::seq_lib::to_multiset_build(Seq::<A>::empty(), e);
    assert(seq![e] =~= Seq::<A>::empty().push(e));
}

pub proof fn lemma_ms_update<T>(s: Seq<Node<T>>, i: int, x: Node<T>)
    requires
        0 <= i < s.len(),
    ensures
        ms_of(s.update(i, x)).add(node_ms(s[i])) == ms_of(s).add(node_ms(x)),
{
    lemma_ms_remove(s, i);
    lemma_ms_remove(s.update(i, x), i);
    assert(s.update(i, x).remove(i) =~= s.remove(i));
    assert(ms_of(s.update(i, x)).add(node_ms(s[i])) =~= ms_of(s).add(node_ms(x)));
}

/// A well-formed subtree of level `level` holds more than `level` entries.
pub proof fn lemma_entries_len<T>(n: Node<T>, level: nat)
    requires
        node_wf(n, level),
    ensures
        node_entries(n).len() > level,
    decreases n,
{
    if let Node::Parent(p) = n {
        let s = p.nodes@;
        assert(node_wf(s[0], (level - 1) as nat));
        assert(node_wf(s[1], (level - 1) as nat));
        lemma_entries_len(s[0], (level - 1) as nat);
        lemma_entries_len(s[1], (level - 1) as nat);
        lemma_entries_first_two(s);
    }
}

/// The entries below a sequence include those below its first two nodes.
pub proof fn lemma_entries_first_two<T>(s: Seq<Node<T>>)
    requires
        s.len() >= 2,
    ensures
        entries_of(s).len() >= node_entries(s[0]).len() + node_entries(s[1]).len(),
{
    let a = s.subrange(0, 2);
    let b = s.subrange(2, s.len() as int);
    assert(s =~= a + b);
    lemma_entries_add(a, b);
    let a1 = seq![s[0]];
    assert(a.drop_last() =~= a1);
    assert(a1.drop_last() =~= Seq::<Node<T>>::empty());
    assert(entries_of(a) == entries_of(a1) + node_entries(s[1]));
    assert(entries_of(a1) == entries_of(Seq::<Node<T>>::empty()) + node_entries(s[0]));
}

/// The entries below a sequence include those below its first node.
pub proof fn lemma_entries_first<T>(s: Seq<Node<T>>)
    requires
        s.len() >= 1,
    ensures
        entries_of(s).len() >= node_entries(s[0]).len(),
{
    let a = s.subrange(0, 1);
    let b = s.subrange(1, s.len() as int);
    assert(s =~= a + b);
    lemma_entries_add(a, b);
    assert(a.drop_last() =~= Seq::<Node<T>>::empty());
    assert(entries_of(a) == entries_of(Seq::<Node<T>>::empty()) + node_entries(s[0]));
}

/// Every entry below a sequence of nodes is below one of them.
pub proof fn lemma_entries_member<T>(s: Seq<Node<T>>, e: (Rect, T))
    requires
        entries_of(s).contains(e),
    ensures
        exists|j: int| 0 <= j < s.len() && #[trigger] node_entries(s[j]).contains(e),
    decreases s.len(),
{
    let d = s.drop_last();
    let k = choose|k: int| 0 <= k < entries_of(s).len() && entries_of(s)[k] == e;
    if k < entries_of(d).len() {
        assert(entries_of(d)[k] == e);
        assert(entries_of(d).contains(e));
        lemma_entries_member(d, e);
        let j = choose|j: int| 0 <= j < d.len() && #[trigger] node_entries(d[j]).contains(e);
        assert(s[j] == d[j]);
    } else {
        let l = s.len() - 1;
        assert(node_entries(s[l])[k - entries_of(d).len()] == e);
        assert(node_entries(s[l]).contains(e));
    }
}

/// Every entry below a well-formed subtree lies within its rectangle.
pub proof fn lemma_entries_within<T>(n: Node<T>, level: nat, e: (Rect, T))
    requires
        node_wf(n, level),
        node_entries(n).contains(e),
    ensures
        contains(n.rect_of(), e.0),
    decreases n,
{
    match n {
        Node::Item(it) => {
            assert(node_entries(n) == seq![(it.rect, it.item)]);
            assert(node_entries(n)[0] == e);
        },
        Node::Parent(p) => {
            lemma_entries_member(p.nodes@, e);
            let j = choose|j: int| 0 <= j < p.nodes@.len() && #[trigger] node_entries(p.nodes@[j]).contains(e);
            assert(node_wf(p.nodes@[j], (level - 1) as nat));
            lemma_entries_within(p.nodes@[j], (level - 1) as nat, e);
            assert(contains(p.rect, p.nodes@[j].rect_of()));
        },
    }
}

/// An entry lies in a subtree only if the subtree's rectangle meets every
/// rectangle that meets the entry's own.
pub proof fn lemma_pruned<T>(n: Node<T>, level: nat, r: Rect, e: (Rect, T))
    requires
        node_wf(n, level),
        !intersects_spec(n.rect_of(), r),
        intersects_spec(e.0, r),
    ensures
        !node_entries(n).contains(e),
{
    if node_entries(n).contains(e) {
        lemma_entries_within(n, level, e);
    }
}

pub proof fn lemma_concrete_eq<T: PartialEq>()
    requires
        obeys_concrete_eq::<T>(),
    ensures
        T::obeys_eq_spec(),
        forall|x: T, y: T| x.eq_spec(&y) <==> (x == y),
{
    reveal(obeys_concrete_eq);
}

/// What a filter keeps was in the sequence.
pub proof fn lemma_filter_within<A>(s: Seq<A>, pred: spec_fn(A) -> bool, x: A)
    requires
        s.filter(pred).contains(x),
    ensures
        s.contains(x),
    decreases s.len(),
{
    reveal(Seq::filter);
    if s.len() > 0 {
        let d = s.drop_last();
        if d.filter(pred).contains(x) {
            lemma_filter_within(d, pred, x);
            let k = choose|k: int| 0 <= k < d.len() && d[k] == x;
            assert(s[k] == x);
        } else {
            assert(x == s.last());
            assert(s[s.len() - 1] == x);
        }
    }
}

/// Every entry below one of a sequence's nodes is below the sequence.
pub proof fn lemma_entries_include<T>(s: Seq<Node<T>>, j: int, x: (Rect, T))
    requires
        0 <= j < s.len(),
        node_entries(s[j]).contains(x),
    ensures
        entries_of(s).contains(x),
    decreases s.len(),
{
    let d = s.drop_last();
    let k = choose|k: int| 0 <= k < node_entries(s[j]).len() && node_entries(s[j])[k] == x;
    if j == s.len() - 1 {
        assert(entries_of(s)[entries_of(d).len() + k] == x);
    } else {
        assert(d[j] == s[j]);
        lemma_entries_include(d, j, x);
        let m = choose|m: int| 0 <= m < entries_of(d).len() && entries_of(d)[m] == x;
        assert(entries_of(s)[m] == x);
    }
}

/// A tight parent's rectangle is the tight bounding rectangle of the
/// entries below it.
pub proof fn lemma_parent_bound<T>(p: Parent<T>, level: nat)
    requires
        p.inner_wf(level),
        p.nodes@.len() > 0,
    ensures
        bounds_entries(p.rect, entries_of(p.nodes@)),
    decreases p,
{
    let s = p.nodes@;
    let es = entries_of(s);
    assert forall|k: int| 0 <= k < es.len() implies contains(p.rect, #[trigger] es[k].0) by {
        assert(es.contains(es[k]));
        lemma_entries_member(s, es[k]);
        let j = choose|j: int| 0 <= j < s.len() && #[trigger] node_entries(s[j]).contains(es[k]);
        assert(node_wf(s[j], level));
        lemma_entries_within(s[j], level, es[k]);
        assert(contains(p.rect, s[j].rect_of()));
    }
    let j0 = choose|i: int| 0 <= i < s.len() && #[trigger] s[i].rect_of().min.x == p.rect.min.x;
    let j1 = choose|i: int| 0 <= i < s.len() && #[trigger] s[i].rect_of().min.y == p.rect.min.y;
    let j2 = choose|i: int| 0 <= i < s.len() && #[trigger] s[i].rect_of().max.x == p.rect.max.x;
    let j3 = choose|i: int| 0 <= i < s.len() && #[trigger] s[i].rect_of().max.y == p.rect.max.y;
    lemma_node_bound(s[j0], level);
    lemma_node_bound(s[j1], level);
    lemma_node_bound(s[j2], level);
    lemma_node_bound(s[j3], level);
    let x0 = choose|x: (Rect, T)| node_entries(s[j0]).contains(x) && #[trigger] x.0.min.x == s[j0].rect_of().min.x;
    let x1 = choose|x: (Rect, T)| node_entries(s[j1]).contains(x) && #[trigger] x.0.min.y == s[j1].rect_of().min.y;
    let x2 = choose|x: (Rect, T)| node_entries(s[j2]).contains(x) && #[trigger] x.0.max.x == s[j2].rect_of().max.x;
    let x3 = choose|x: (Rect, T)| node_entries(s[j3]).contains(x) && #[trigger] x.0.max.y == s[j3].rect_of().max.y;
    lemma_entries_include(s, j0, x0);
    lemma_entries_include(s, j1, x1);
    lemma_entries_include(s, j2, x2);
    lemma_entries_include(s, j3, x3);
}

/// A well-formed subtree's rectangle is the tight bounding rectangle of the
/// entries below it.
pub proof fn lemma_node_bound<T>(n: Node<T>, level: nat)
    requires
        node_wf(n, level),
    ensures
        bounds_entries(n.rect_of(), node_entries(n)),
    decreases n,
{
    match n {
        Node::Item(it) => {
            let x = (it.rect, it.item);
            assert(node_entries(n) == seq![x]);
            assert(node_entries(n)[0] == x);
            assert(node_entries(n).contains(x));
            assert(x.0.min.x == it.rect.min.x && x.0.min.y == it.rect.min.y);
            assert(x.0.max.x == it.rect.max.x && x.0.max.y == it.rect.max.y);
            assert forall|k: int| 0 <= k < node_entries(n).len() implies contains(
                n.rect_of(),
                #[trigger] node_entries(n)[k].0,
            ) by {
                assert(k == 0);
            }
        },
        Node::Parent(p) => {
            lemma_parent_bound(p, (level - 1) as nat);
        },
    }
}

/// A well-formed subtree of level `level` has all its leaves `level` below
/// it, bounded fan-out and tight rectangles.
pub proof fn lemma_node_shape<T>(n: Node<T>, level: nat)
    requires
        node_wf(n, level),
    ensures
        leaves_at(n, level),
        fanout_ok(n),
        tight_all(n),
    decreases n,
{
    if let Node::Parent(p) = n {
        assert forall|i: int| 0 <= i < p.nodes@.len() implies leaves_at(
            #[trigger] p.nodes@[i],
            (level - 1) as nat,
        ) && fanout_ok(p.nodes@[i]) && tight_all(p.nodes@[i]) by {
            lemma_node_shape(p.nodes@[i], (level - 1) as nat);
        }
    }
}

/// A subtree whose rectangle misses `q` holds no entry that meets `q`.
pub proof fn lemma_search_pruned<T>(n: Node<T>, level: nat, q: Rect)
    requires
        node_wf(n, level),
        !intersects_spec(n.rect_of(), q),
    ensures
        search_spec(node_entries(n), q) == Seq::<(Rect, T)>::empty(),
{
    let pred = |e: (Rect, T)| intersects_spec(e.0, q);
    let f = node_entries(n).filter(pred);
    if f.len() > 0 {
        node_entries(n).lemma_filter_pred(pred, 0);
        assert(f.contains(f[0]));
        lemma_filter_within(node_entries(n), pred, f[0]);
        lemma_pruned(n, level, q, f[0]);
    }
    assert(f =~= Seq::<(Rect, T)>::empty());
}

pub proof fn lemma_items_push<T>(v: Seq<Item<T>>, it: Item<T>)
    ensures
        items_ms(v.push(it)) == items_ms(v).insert(item_pair(it)),
{
    let f = |it: Item<T>| item_pair(it);
    assert(v.push(it).map_values(f) =~= v.map_values(f).push(item_pair(it)));
    vstd::seq_lib::to_multiset_build(v.map_values(f), item_pair(it));
}

/// Reordering nodes keeps the entries below them.
pub proof fn lemma_ms_perm<T>(s1: Seq<Node<T>>, s2: Seq<Node<T>>)
    requires
        s1.to_multiset() == s2.to_multiset(),
    ensures
        ms_of(s1) == ms_of(s2),
    decreases s1.len(),
{
    broadcast use vstd::seq_lib::group_to_multiset_ensures;
    broadcast use vstd::multiset::group_multiset_axioms;

    if s1.len() == 0 {
        vstd::seq_lib::to_multiset_len(s1);
        vstd::seq_lib::to_multiset_len(s2);
        assert(s2.len() == 0);
        assert(s1 =~= s2);
    } else {
        let x = s1.last();
        assert(s1.to_multiset().count(x) > 0);
        assert(s2.contains(x));
        let k = choose|k: int| 0 <= k < s2.len() && s2[k] == x;
        assert(s1.drop_last() =~= s1.remove(s1.len() - 1));
        assert(s1.drop_last().to_multiset() =~= s2.remove(k).to_multiset());
        lemma_ms_perm(s1.drop_last(), s2.remove(k));
        lemma_ms_push(s1.drop_last(), x);
        assert(s1.drop_last().push(x) =~= s1);
        lemma_ms_remove(s2, k);
    }
}

/// `swap_remove` keeps every other node.
pub proof fn lemma_swap_remove_ms<T>(s: Seq<Node<T>>, i: int)
    requires
        0 <= i < s.len(),
    ensures
        s.update(i, s.last()).drop_last().to_multiset() == s.to_multiset().remove(s[i]),
        ms_of(s) == ms_of(s.update(i, s.last()).drop_last()).add(node_ms(s[i])),
{
    broadcast use vstd::seq_lib::group_to_multiset_ensures;
    broadcast use vstd::multiset::group_multiset_axioms;

    let t = s.update(i, s.last()).drop_last();
    if i == s.len() - 1 {
        assert(t =~= s.remove(i));
    } else {
        let last = s.len() - 1;
        assert(t =~= s.remove(last).update(i, s.last()));
        assert(s.remove(last).to_multiset() == s.to_multiset().remove(s[last]));
        assert(t.to_multiset() =~= s.to_multiset().remove(s[i]));
    }
    assert(t.push(s[i]).to_multiset() =~= s.to_multiset());
    lemma_ms_perm(t.push(s[i]), s);
    lemma_ms_push(t, s[i]);
}

/// Nodes split off a sequence of well-formed subtrees are well formed.
pub proof fn lemma_level_parts<T>(s: Seq<Node<T>>, a: Seq<Node<T>>, b: Seq<Node<T>>, level: nat)
    requires
        level_ok(s, level),
        a.to_multiset().add(b.to_multiset()) == s.to_multiset(),
    ensures
        level_ok(a, level),
        level_ok(b, level),
{
    broadcast use vstd::seq_lib::group_to_multiset_ensures;
    broadcast use vstd::multiset::group_multiset_axioms;

    assert forall|i: int| 0 <= i < a.len() implies node_wf(#[trigger] a[i], level) by {
        vstd::seq_lib::to_multiset_contains(a, a[i]);
        vstd::seq_lib::to_multiset_contains(s, a[i]);
        assert(a.contains(a[i]));
    }
    assert forall|i: int| 0 <= i < b.len() implies node_wf(#[trigger] b[i], level) by {
        vstd::seq_lib::to_multiset_contains(b, b[i]);
        vstd::seq_lib::to_multiset_contains(s, b[i]);
        assert(b.contains(b[i]));
    }
}

/// Moving the last node of `b` onto `a` keeps the two together.
pub proof fn lemma_move_last<T>(a: Seq<Node<T>>, b: Seq<Node<T>>)
    requires
        b.len() > 0,
    ensures
        a.push(b.last()).to_multiset().add(b.drop_last().to_multiset()) == a.to_multiset().add(
            b.to_multiset(),
        ),
{
    broadcast use vstd::multiset::group_multiset_axioms;

    vstd::seq_lib::to_multiset_build(a, b.last());
    vstd::seq_lib::to_multiset_build(b.drop_last(), b.last());
    assert(b.drop_last().push(b.last()) =~= b);
    assert(a.push(b.last()).to_multiset().add(b.drop_last().to_multiset()) =~= a.to_multiset().add(
        b.to_multiset(),
    ));
}

/// How often a filter keeps a value: as often as the sequence holds it if
/// it passes, never otherwise.
pub proof fn lemma_filter_count<A>(s: Seq<A>, pred: spec_fn(A) -> bool, x: A)
    ensures
        s.filter(pred).to_multiset().count(x) == if pred(x) { s.to_multiset().count(x) } else { 0 },
    decreases s.len(),
{
    broadcast use vstd::multiset::group_multiset_axioms;

    reveal(Seq::filter);
    if s.len() == 0 {
        vstd::seq_lib::to_multiset_len(s);
        vstd::multiset::lemma_multiset_empty_len(s.to_multiset());
        assert(s.filter(pred) =~= s);
    } else {
        let d = s.drop_last();
        lemma_filter_count(d, pred, x);
        vstd::seq_lib::to_multiset_build(d, s.last());
        vstd::seq_lib::to_multiset_build(d.filter(pred), s.last());
        assert(d.push(s.last()) =~= s);
    }
}

/// Two parts of a sequence, one holding only values that pass `pred` and
/// the other only values that fail it: the first is the filter of the
/// sequence, up to order.
pub proof fn lemma_partition_len<A>(a: Seq<A>, b: Seq<A>, s: Seq<A>, pred: spec_fn(A) -> bool)
    requires
        a.to_multiset().add(b.to_multiset()) == s.to_multiset(),
        forall|i: int| 0 <= i < a.len() ==> pred(#[trigger] a[i]),
        forall|i: int| 0 <= i < b.len() ==> !pred(#[trigger] b[i]),
    ensures
        a.len() == s.filter(pred).len(),
{
    broadcast use vstd::multiset::group_multiset_axioms;

    assert forall|x: A| #[trigger] a.to_multiset().count(x) == s.filter(pred).to_multiset().count(x) by {
        lemma_filter_count(s, pred, x);
        vstd::seq_lib::to_multiset_contains(a, x);
        vstd::seq_lib::to_multiset_contains(b, x);
        assert(a.to_multiset().add(b.to_multiset()).count(x) == s.to_multiset().count(x));
        if a.contains(x) {
            let i = choose|i: int| 0 <= i < a.len() && a[i] == x;
            assert(pred(a[i]));
        }
        if b.contains(x) {
            let i = choose|i: int| 0 <= i < b.len() && b[i] == x;
            assert(!pred(b[i]));
        }
    }
    assert(a.to_multiset() =~= s.filter(pred).to_multiset());
    vstd::seq_lib::to_multiset_len(a);
    vstd::seq_lib::to_multiset_len(s.filter(pred));
}

/// What holds of every value of a sequence holds of every value of a
/// reordering of it.
pub proof fn lemma_perm_all<A>(s1: Seq<A>, s2: Seq<A>, p: spec_fn(A) -> bool)
    requires
        s1.to_multiset() == s2.to_multiset(),
        forall|i: int| 0 <= i < s1.len() ==> p(#[trigger] s1[i]),
    ensures
        forall|i: int| 0 <= i < s2.len() ==> p(#[trigger] s2[i]),
{
    assert forall|i: int| 0 <= i < s2.len() implies p(#[trigger] s2[i]) by {
        vstd::seq_lib::to_multiset_contains(s2, s2[i]);
        vstd::seq_lib::to_multiset_contains(s1, s2[i]);
        assert(s2.contains(s2[i]));
        let j = choose|j: int| 0 <= j < s1.len() && s1[j] == s2[i];
        assert(p(s1[j]));
    }
}

/// Every subtree is the same as itself.
pub proof fn lemma_node_same_refl<T>(n: Node<T>)
    ensures
        node_same(n, n),
    decreases n,
{
    if let Node::Parent(p) = n {
        assert forall|i: int| 0 <= i < p.nodes@.len() implies node_same(#[trigger] p.nodes@[i], p.nodes@[i]) by {
            lemma_node_same_refl(p.nodes@[i]);
        }
    }
}

/// Being the same subtree is transitive.
pub proof fn lemma_node_same_trans<T>(a: Node<T>, b: Node<T>, c: Node<T>)
    requires
        node_same(a, b),
        node_same(b, c),
    ensures
        node_same(a, c),
    decreases a,
{
    if let Node::Parent(p) = a {
        let q = b->Parent_0;
        let r = c->Parent_0;
        assert forall|i: int| 0 <= i < p.nodes@.len() implies node_same(#[trigger] p.nodes@[i], r.nodes@[i]) by {
            assert(node_same(p.nodes@[i], q.nodes@[i]));
            assert(node_same(q.nodes@[i], r.nodes@[i]));
            lemma_node_same_trans(p.nodes@[i], q.nodes@[i], r.nodes@[i]);
        }
    }
}

/// The same subtrees hold the same entries, in the same order.
pub proof fn lemma_node_same_entries<T>(a: Node<T>, b: Node<T>)
    requires
        node_same(a, b),
    ensures
        node_entries(a) == node_entries(b),
        a.rect_of() == b.rect_of(),
    decreases a, 1nat,
{
    if let Node::Parent(p) = a {
        let q = b->Parent_0;
        lemma_same_seq_entries(p.nodes@, q.nodes@);
    }
}

/// Sequences of the same subtrees hold the same entries, in the same order.
pub proof fn lemma_same_seq_entries<T>(s1: Seq<Node<T>>, s2: Seq<Node<T>>)
    requires
        s1.len() == s2.len(),
        forall|i: int| 0 <= i < s1.len() ==> node_same(#[trigger] s1[i], s2[i]),
    ensures
        entries_of(s1) == entries_of(s2),
    decreases s1, 0nat,
{
    if s1.len() > 0 {
        let n = s1.len() - 1;
        assert(node_same(s1[n], s2[n]));
        lemma_node_same_entries(s1[n], s2[n]);
        assert forall|i: int| 0 <= i < s1.drop_last().len() implies node_same(
            #[trigger] s1.drop_last()[i],
            s2.drop_last()[i],
        ) by {
            assert(node_same(s1[i], s2[i]));
        }
        lemma_same_seq_entries(s1.drop_last(), s2.drop_last());
    }
}

} // verus!
