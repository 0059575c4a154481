//! Facts about tight bounding rectangles of a sequence of nodes.
use vstd::prelude::*;
use crate::geometry::{Rect, union, contains, on_edge_spec};
use crate::node::{Node, is_union_of};

verus! {

/// Two nodes are bounded tightly by the union of their rectangles.
pub proof fn lemma_union_pair<T>(a: Node<T>, b: Node<T>)
    ensures
        is_union_of(union(a.rect_of(), b.rect_of()), seq![a, b]),
{
    lemma_union_push(a.rect_of(), Seq::<Node<T>>::empty(), a);
    assert(Seq::<Node<T>>::empty().push(a) =~= seq![a]);
    assert(union(a.rect_of(), a.rect_of()) == a.rect_of());
    lemma_union_push(a.rect_of(), seq![a], b);
    assert(seq![a].push(b) =~= seq![a, b]);
}

/// Pushing one more node onto a tight sequence widens its bound by that node.
pub proof fn lemma_union_push<T>(p: Rect, s: Seq<Node<T>>, x: Node<T>)
    requires
        is_union_of(p, s) || (s.len() == 0 && p == x.rect_of()),
    ensures
        is_union_of(union(p, x.rect_of()), s.push(x)),
{
    let t = s.push(x);
    let u = union(p, x.rect_of());
    assert(t[s.len() as int] == x);
    assert forall|i: int| 0 <= i < t.len() implies contains(u, #[trigger] t[i].rect_of()) by {
        if i < s.len() {
            assert(t[i] == s[i]);
        }
    }
    if s.len() > 0 {
        let i0 = choose|i: int| 0 <= i < s.len() && #[trigger] s[i].rect_of().min.x == p.min.x;
        let i1 = choose|i: int| 0 <= i < s.len() && #[trigger] s[i].rect_of().min.y == p.min.y;
        let i2 = choose|i: int| 0 <= i < s.len() && #[trigger] s[i].rect_of().max.x == p.max.x;
        let i3 = choose|i: int| 0 <= i < s.len() && #[trigger] s[i].rect_of().max.y == p.max.y;
        assert(t[i0] == s[i0] && t[i1] == s[i1] && t[i2] == s[i2] && t[i3] == s[i3]);
    }
}

/// Replacing node `i` of a tight sequence by one whose rectangle is the old
/// one widened by `r` widens the bound by `r`.
pub proof fn lemma_union_replace<T>(p: Rect, s: Seq<Node<T>>, i: int, x: Node<T>, r: Rect)
    requires
        is_union_of(p, s),
        0 <= i < s.len(),
        x.rect_of() == union(s[i].rect_of(), r),
    ensures
        is_union_of(union(p, r), s.update(i, x)),
{
    let t = s.update(i, x);
    let u = union(p, r);
    assert(contains(p, s[i].rect_of()));
    assert forall|k: int| 0 <= k < t.len() implies contains(u, #[trigger] t[k].rect_of()) by {
        if k != i {
            assert(t[k] == s[k]);
            assert(contains(p, s[k].rect_of()));
        }
    }
    let i0 = choose|k: int| 0 <= k < s.len() && #[trigger] s[k].rect_of().min.x == p.min.x;
    let i1 = choose|k: int| 0 <= k < s.len() && #[trigger] s[k].rect_of().min.y == p.min.y;
    let i2 = choose|k: int| 0 <= k < s.len() && #[trigger] s[k].rect_of().max.x == p.max.x;
    let i3 = choose|k: int| 0 <= k < s.len() && #[trigger] s[k].rect_of().max.y == p.max.y;
    assert(t[i] == x);
    if i0 != i { assert(t[i0] == s[i0]); }
    if i1 != i { assert(t[i1] == s[i1]); }
    if i2 != i { assert(t[i2] == s[i2]); }
    if i3 != i { assert(t[i3] == s[i3]); }
}

/// Replacing node `i` of a tight sequence by two nodes whose rectangles
/// together make the old one widened by `r` widens the bound by `r`.
pub proof fn lemma_union_replace_two<T>(
    p: Rect,
    s: Seq<Node<T>>,
    i: int,
    a: Node<T>,
    b: Node<T>,
    r: Rect,
)
    requires
        is_union_of(p, s),
        0 <= i < s.len(),
        union(a.rect_of(), b.rect_of()) == union(s[i].rect_of(), r),
    ensures
        is_union_of(union(p, r), s.update(i, a).push(b)),
{
    let t = s.update(i, a).push(b);
    let u = union(p, r);
    let n = s.len() as int;
    assert(contains(p, s[i].rect_of()));
    assert(t[i] == a && t[n] == b);
    assert forall|k: int| 0 <= k < t.len() implies contains(u, #[trigger] t[k].rect_of()) by {
        if k != i && k != n {
            assert(t[k] == s[k]);
            assert(contains(p, s[k].rect_of()));
        }
    }
    let i0 = choose|k: int| 0 <= k < s.len() && #[trigger] s[k].rect_of().min.x == p.min.x;
    let i1 = choose|k: int| 0 <= k < s.len() && #[trigger] s[k].rect_of().min.y == p.min.y;
    let i2 = choose|k: int| 0 <= k < s.len() && #[trigger] s[k].rect_of().max.x == p.max.x;
    let i3 = choose|k: int| 0 <= k < s.len() && #[trigger] s[k].rect_of().max.y == p.max.y;
    if i0 != i { assert(t[i0] == s[i0]); }
    if i1 != i { assert(t[i1] == s[i1]); }
    if i2 != i { assert(t[i2] == s[i2]); }
    if i3 != i { assert(t[i3] == s[i3]); }
}

/// Replacing a node by one with the same rectangle keeps the bound tight.
pub proof fn lemma_union_same_rect<T>(p: Rect, s: Seq<Node<T>>, i: int, x: Node<T>)
    requires
        is_union_of(p, s),
        0 <= i < s.len(),
        x.rect_of() == s[i].rect_of(),
    ensures
        is_union_of(p, s.update(i, x)),
{
    lemma_union_replace(p, s, i, x, s[i].rect_of());
    assert(contains(p, s[i].rect_of()));
    assert(union(p, s[i].rect_of()) == p);
}

/// Swap-removing a node that touches no side of a tight bound keeps it tight.
pub proof fn lemma_union_swap_remove<T>(p: Rect, s: Seq<Node<T>>, i: int)
    requires
        is_union_of(p, s),
        0 <= i < s.len(),
        !on_edge_spec(p, s[i].rect_of()),
    ensures
        is_union_of(p, s.update(i, s.last()).drop_last()),
{
    let t = s.update(i, s.last()).drop_last();
    let n = s.len() - 1;
    assert forall|k: int| 0 <= k < t.len() implies contains(p, #[trigger] t[k].rect_of()) by {
        if k == i {
            assert(t[k] == s[n]);
        } else {
            assert(t[k] == s[k]);
        }
    }
    let i0 = choose|k: int| 0 <= k < s.len() && #[trigger] s[k].rect_of().min.x == p.min.x;
    let i1 = choose|k: int| 0 <= k < s.len() && #[trigger] s[k].rect_of().min.y == p.min.y;
    let i2 = choose|k: int| 0 <= k < s.len() && #[trigger] s[k].rect_of().max.x == p.max.x;
    let i3 = choose|k: int| 0 <= k < s.len() && #[trigger] s[k].rect_of().max.y == p.max.y;
    let w0 = if i0 == n { i } else { i0 };
    let w1 = if i1 == n { i } else { i1 };
    let w2 = if i2 == n { i } else { i2 };
    let w3 = if i3 == n { i } else { i3 };
    assert(t[w0].rect_of().min.x == p.min.x);
    assert(t[w1].rect_of().min.y == p.min.y);
    assert(t[w2].rect_of().max.x == p.max.x);
    assert(t[w3].rect_of().max.y == p.max.y);
}

/// Whether a bound is tight does not depend on the order of the nodes.
pub proof fn lemma_union_perm<T>(p: Rect, s1: Seq<Node<T>>, s2: Seq<Node<T>>)
    requires
        is_union_of(p, s1),
        s1.to_multiset() == s2.to_multiset(),
    ensures
        is_union_of(p, s2),
{
    broadcast use vstd::seq_lib::group_to_multiset_ensures;

    assert forall|k: int| 0 <= k < s2.len() implies contains(p, #[trigger] s2[k].rect_of()) by {
        assert(s2.to_multiset().count(s2[k]) > 0);
        assert(s1.contains(s2[k]));
    }
    let i0 = choose|k: int| 0 <= k < s1.len() && #[trigger] s1[k].rect_of().min.x == p.min.x;
    let i1 = choose|k: int| 0 <= k < s1.len() && #[trigger] s1[k].rect_of().min.y == p.min.y;
    let i2 = choose|k: int| 0 <= k < s1.len() && #[trigger] s1[k].rect_of().max.x == p.max.x;
    let i3 = choose|k: int| 0 <= k < s1.len() && #[trigger] s1[k].rect_of().max.y == p.max.y;
    assert(s1.to_multiset().count(s1[i0]) > 0 && s2.contains(s1[i0]));
    assert(s1.to_multiset().count(s1[i1]) > 0 && s2.contains(s1[i1]));
    assert(s1.to_multiset().count(s1[i2]) > 0 && s2.contains(s1[i2]));
    assert(s1.to_multiset().count(s1[i3]) > 0 && s2.contains(s1[i3]));
}

/// Two tight halves of a tight sequence make up its bound together.
pub proof fn lemma_union_halves<T>(
    p: Rect,
    s: Seq<Node<T>>,
    pa: Rect,
    a: Seq<Node<T>>,
    pb: Rect,
    b: Seq<Node<T>>,
)
    requires
        is_union_of(p, s),
        is_union_of(pa, a),
        is_union_of(pb, b),
        (a + b).to_multiset() == s.to_multiset(),
    ensures
        union(pa, pb) == p,
{
    broadcast use vstd::seq_lib::group_to_multiset_ensures;

    let ab = a + b;
    assert forall|k: int| 0 <= k < ab.len() implies contains(p, #[trigger] ab[k].rect_of()) by {
        assert(ab.to_multiset().count(ab[k]) > 0);
        assert(s.contains(ab[k]));
    }
    let ka = choose|k: int| 0 <= k < a.len() && #[trigger] a[k].rect_of().min.x == pa.min.x;
    let kb = choose|k: int| 0 <= k < b.len() && #[trigger] b[k].rect_of().min.x == pb.min.x;
    assert(ab[ka] == a[ka] && ab[a.len() + kb] == b[kb]);
    let ka = choose|k: int| 0 <= k < a.len() && #[trigger] a[k].rect_of().min.y == pa.min.y;
    let kb = choose|k: int| 0 <= k < b.len() && #[trigger] b[k].rect_of().min.y == pb.min.y;
    assert(ab[ka] == a[ka] && ab[a.len() + kb] == b[kb]);
    let ka = choose|k: int| 0 <= k < a.len() && #[trigger] a[k].rect_of().max.x == pa.max.x;
    let kb = choose|k: int| 0 <= k < b.len() && #[trigger] b[k].rect_of().max.x == pb.max.x;
    assert(ab[ka] == a[ka] && ab[a.len() + kb] == b[kb]);
    let ka = choose|k: int| 0 <= k < a.len() && #[trigger] a[k].rect_of().max.y == pa.max.y;
    let kb = choose|k: int| 0 <= k < b.len() && #[trigger] b[k].rect_of().max.y == pb.max.y;
    assert(ab[ka] == a[ka] && ab[a.len() + kb] == b[kb]);
    let i0 = choose|k: int| 0 <= k < s.len() && #[trigger] s[k].rect_of().min.x == p.min.x;
    let i1 = choose|k: int| 0 <= k < s.len() && #[trigger] s[k].rect_of().min.y == p.min.y;
    let i2 = choose|k: int| 0 <= k < s.len() && #[trigger] s[k].rect_of().max.x == p.max.x;
    let i3 = choose|k: int| 0 <= k < s.len() && #[trigger] s[k].rect_of().max.y == p.max.y;
    assert(s.to_multiset().count(s[i0]) > 0 && ab.contains(s[i0]));
    assert(s.to_multiset().count(s[i1]) > 0 && ab.contains(s[i1]));
    assert(s.to_multiset().count(s[i2]) > 0 && ab.contains(s[i2]));
    assert(s.to_multiset().count(s[i3]) > 0 && ab.contains(s[i3]));
    let j0 = choose|k: int| 0 <= k < ab.len() && ab[k] == s[i0];
    let j1 = choose|k: int| 0 <= k < ab.len() && ab[k] == s[i1];
    let j2 = choose|k: int| 0 <= k < ab.len() && ab[k] == s[i2];
    let j3 = choose|k: int| 0 <= k < ab.len() && ab[k] == s[i3];
    if j0 < a.len() { assert(a[j0] == ab[j0]); } else { assert(b[j0 - a.len()] == ab[j0]); }
    if j1 < a.len() { assert(a[j1] == ab[j1]); } else { assert(b[j1 - a.len()] == ab[j1]); }
    if j2 < a.len() { assert(a[j2] == ab[j2]); } else { assert(b[j2 - a.len()] == ab[j2]); }
    if j3 < a.len() { assert(a[j3] == ab[j3]); } else { assert(b[j3 - a.len()] == ab[j3]); }
}

} // verus!
