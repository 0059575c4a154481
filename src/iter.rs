//! Traversals of the tree: every entry, the entries meeting a rectangle,
//! and entries in order of a caller's distance.
use vstd::prelude::*;
use crate::geometry::{Rect, contains, intersects_spec, infinite_spec};
use crate::node::{
    Node, Parent, node_entries, entries_of, node_wf, ms_of, level_ok, sizes_of, node_size,
    search_spec,
};
use crate::entries::{
    lemma_ms_remove, lemma_ms_push, lemma_entries_len, lemma_entries_first, lemma_split_first,
    lemma_search_pruned, lemma_single_ms,
};
use crate::tree::lemma_search_all;
use vstd::multiset::Multiset;

verus! {

/// One entry handed out by a traversal: its rectangle, its payload and the
/// distance it was ordered by (0 for scans and searches).
pub struct IterItem<'a, T> {
    pub rect: Rect,
    pub data: &'a T,
    pub dist: i128,
}

/// One level of a depth-first walk: the children of a parent and the index
/// of the next one to visit.
struct StackNode<'a, T> {
    nodes: &'a Vec<Node<T>>,
    pos: usize,
    level: Ghost<nat>,
}

/// The entries still to come from one level of a walk filtered by `q`.
spec fn frame_rest<'a, T>(f: StackNode<'a, T>, q: Rect) -> Seq<(Rect, T)> {
    search_spec(entries_of(f.nodes@.skip(f.pos as int)), q)
}

/// The entries still to come from a walk: the top level's first, then
/// those of the levels below it.
spec fn stack_rest<'a, T>(s: Seq<StackNode<'a, T>>, q: Rect) -> Seq<(Rect, T)>
    decreases s.len(),
{
    if s.len() == 0 {
        Seq::empty()
    } else {
        frame_rest(s.last(), q) + stack_rest(s.drop_last(), q)
    }
}

/// Each level of a walk holds well-formed subtrees and an index within them.
spec fn stack_ok<'a, T>(s: Seq<StackNode<'a, T>>) -> bool {
    forall|i: int|
        0 <= i < s.len() ==> #[trigger] s[i].pos <= s[i].nodes@.len() && level_ok(
            s[i].nodes@,
            s[i].level@,
        )
}

spec fn stack_measure<'a, T>(s: Seq<StackNode<'a, T>>) -> nat
    decreases s.len(),
{
    if s.len() == 0 {
        0
    } else {
        stack_measure(s.drop_last()) + 2 * sizes_of(s.last().nodes@.skip(s.last().pos as int)) + 1
    }
}

proof fn lemma_stack_push<'a, T>(s: Seq<StackNode<'a, T>>, f: StackNode<'a, T>, q: Rect)
    ensures
        stack_rest(s.push(f), q) == frame_rest(f, q) + stack_rest(s, q),
        stack_measure(s.push(f)) == stack_measure(s) + 2 * sizes_of(f.nodes@.skip(f.pos as int)) + 1,
{
    assert(s.push(f).drop_last() =~= s);
}

impl<'a, T> StackNode<'a, T> {
    /// A walk that starts at the children of `root`, which sit at level
    /// `level`.
    fn new_stack(root: Option<&'a Parent<T>>, Ghost(level): Ghost<nat>) -> (r: Vec<
        StackNode<'a, T>,
    >)
        requires
            root is Some ==> level_ok(root->Some_0.nodes@, level),
        ensures
            stack_ok(r@),
            forall|q: Rect|
                #[trigger] stack_rest(r@, q) == match root {
                    Some(p) => search_spec(entries_of(p.nodes@), q),
                    None => Seq::empty(),
                },
    {
        let mut stack: Vec<StackNode<'a, T>> = Vec::new();
        match root {
            Some(p) => {
                let ghost s0 = stack@;
                let f = StackNode { nodes: &p.nodes, pos: 0, level: Ghost(level) };
                stack.push(f);
                assert forall|q: Rect| #[trigger] stack_rest(stack@, q) == search_spec(entries_of(p.nodes@), q) by {
                    lemma_stack_push(s0, f, q);
                    assert(p.nodes@.skip(0) =~= p.nodes@);
                    assert(stack_rest(s0, q) == Seq::<(Rect, T)>::empty());
                    assert(stack_rest(stack@, q) =~= frame_rest(f, q));
                }
            },
            None => {},
        }
        stack
    }
}

/// The next entry of a depth-first walk whose rectangle meets `rect`;
/// subtrees whose rectangles miss `rect` are not entered.
fn walk_next<'a, T>(stack: &mut Vec<StackNode<'a, T>>, rect: &Rect) -> (r: Option<IterItem<'a, T>>)
    requires
        stack_ok(old(stack)@),
    ensures
        stack_ok(final(stack)@),
        stack_rest(old(stack)@, *rect).len() == 0 ==> r is None && stack_rest(final(stack)@, *rect)
            == stack_rest(old(stack)@, *rect),
        stack_rest(old(stack)@, *rect).len() > 0 ==> {
            &&& r is Some
            &&& (r->Some_0.rect, *r->Some_0.data) == stack_rest(old(stack)@, *rect)[0]
            &&& r->Some_0.dist == 0
            &&& stack_rest(final(stack)@, *rect) == stack_rest(old(stack)@, *rect).drop_first()
        },
{
    let ghost q = *rect;
    let ghost pred = |e: (Rect, T)| intersects_spec(e.0, q);
    while stack.len() > 0
        invariant
            q == *rect,
            pred == (|e: (Rect, T)| intersects_spec(e.0, q)),
            stack_ok(stack@),
            stack_rest(stack@, q) == stack_rest(old(stack)@, q),
        decreases stack_measure(stack@),
    {
        let ghost s0 = stack@;
        let n = stack.len();
        let nodes = stack[n - 1].nodes;
        let pos = stack[n - 1].pos;
        let level = stack[n - 1].level;
        let ghost d = s0.drop_last();
        let ghost top = s0[n - 1];
        proof {
            assert(s0 =~= d.push(top));
            lemma_stack_push(d, top, q);
            assert(top.pos <= top.nodes@.len());
            assert(level_ok(top.nodes@, top.level@));
        }
        if pos >= nodes.len() {
            stack.pop();
            proof {
                assert(top.nodes@.skip(pos as int) =~= Seq::<Node<T>>::empty());
                assert(entries_of(Seq::<Node<T>>::empty()) =~= Seq::<(Rect, T)>::empty());
                assert(sizes_of(Seq::<Node<T>>::empty()) == 0);
                assert(stack@ == d);
                assert(stack_rest(s0, q) =~= stack_rest(d, q));
            }
            continue;
        }
        let ghost rest = nodes@.skip(pos as int);
        stack.pop();
        let next_top = StackNode { nodes, pos: pos + 1, level };
        stack.push(next_top);
        let node: &'a Node<T> = &nodes[pos];
        proof {
            assert(stack@ == d.push(next_top));
            lemma_stack_push(d, next_top, q);
            lemma_split_first(rest);
            assert(rest.skip(1) =~= nodes@.skip(pos + 1));
            assert(rest[0] == *node);
            assert(node_wf(*node, level@));
            Seq::filter_distributes_over_add(node_entries(*node), entries_of(rest.skip(1)), pred);
            assert(frame_rest(top, q) == search_spec(node_entries(*node), q) + frame_rest(next_top, q));
            assert forall|i: int| 0 <= i < stack@.len() implies #[trigger] stack@[i].pos <= stack@[i].nodes@.len()
                && level_ok(stack@[i].nodes@, stack@[i].level@) by {
                if i < n - 1 {
                    assert(stack@[i] == s0[i]);
                }
            }
        }
        if !node.rect().intersects(rect) {
            proof {
                lemma_search_pruned(*node, level@, q);
                assert(stack_rest(stack@, q) =~= stack_rest(s0, q));
            }
            continue;
        }
        match node {
            Node::Item(it) => {
                proof {
                    let e = (it.rect, it.item);
                    assert(node_entries(*node) == seq![e]);
                    reveal_with_fuel(Seq::filter, 2);
                    assert(seq![e].drop_last() =~= Seq::<(Rect, T)>::empty());
                    assert(search_spec(seq![e], q) =~= seq![e]);
                    assert(stack_rest(s0, q) =~= seq![e] + stack_rest(stack@, q));
                    assert(stack_rest(stack@, q) =~= stack_rest(s0, q).drop_first());
                }
                return Some(IterItem { rect: it.rect, data: &it.item, dist: 0 });
            },
            Node::Parent(p) => {
                let ghost s1 = stack@;
                let child = StackNode { nodes: &p.nodes, pos: 0, level: Ghost((level@ - 1) as nat) };
                stack.push(child);
                proof {
                    lemma_stack_push(s1, child, q);
                    assert(p.nodes@.skip(0) =~= p.nodes@);
                    assert(node_entries(*node) == entries_of(p.nodes@));
                    assert(node_size(*node) == 1 + sizes_of(p.nodes@));
                    assert(stack_rest(stack@, q) =~= stack_rest(s0, q));
                    assert forall|i: int| 0 <= i < stack@.len() implies #[trigger] stack@[i].pos
                        <= stack@[i].nodes@.len() && level_ok(stack@[i].nodes@, stack@[i].level@) by {
                        if i < n {
                            assert(stack@[i] == s1[i]);
                        }
                    }
                }
            },
        }
    }
    None
}

/// The entries of a tree, depth first.
pub struct ScanIterator<'a, T> {
    stack: Vec<StackNode<'a, T>>,
}

/// The entries of a tree whose rectangles meet a query rectangle, depth
/// first; subtrees whose rectangles miss it are not entered.
pub struct SearchIterator<'a, T> {
    stack: Vec<StackNode<'a, T>>,
    rect: Rect,
}

impl<'a, T> ScanIterator<'a, T> {
    /// The entries not handed out yet, in the order they will come.
    pub closed spec fn remaining(self) -> Seq<(Rect, T)> {
        stack_rest(self.stack@, infinite_spec())
    }

    pub closed spec fn wf(self) -> bool {
        stack_ok(self.stack@)
    }

    /// A scan of the subtrees below `root`, at level `level`.
    pub(crate) fn new(root: Option<&'a Parent<T>>, Ghost(level): Ghost<nat>) -> (r: ScanIterator<'a, T>)
        requires
            root is Some ==> level_ok(root->Some_0.nodes@, level),
        ensures
            r.wf(),
            r.remaining() == match root {
                Some(p) => entries_of(p.nodes@),
                None => Seq::empty(),
            },
    {
        let r = ScanIterator { stack: StackNode::new_stack(root, Ghost(level)) };
        proof {
            if let Some(p) = root {
                lemma_search_all(entries_of(p.nodes@));
            }
            assert(stack_rest(r.stack@, infinite_spec()) == match root {
                Some(p) => search_spec(entries_of(p.nodes@), infinite_spec()),
                None => Seq::empty(),
            });
        }
        r
    }

    /// The next entry, or `None` once every entry has been handed out.
    pub fn next(&mut self) -> (r: Option<IterItem<'a, T>>)
        requires
            old(self).wf(),
        ensures
            final(self).wf(),
            old(self).remaining().len() == 0 ==> r is None && final(self).remaining() == old(
                self,
            ).remaining(),
            old(self).remaining().len() > 0 ==> {
                &&& r is Some
                &&& (r->Some_0.rect, *r->Some_0.data) == old(self).remaining()[0]
                &&& r->Some_0.dist == 0
                &&& final(self).remaining() == old(self).remaining().drop_first()
            },
    {
        let all = Rect::infinite();
        walk_next(&mut self.stack, &all)
    }
}

impl<'a, T> SearchIterator<'a, T> {
    /// The entries not handed out yet, in the order they will come.
    pub closed spec fn remaining(self) -> Seq<(Rect, T)> {
        stack_rest(self.stack@, self.rect)
    }

    /// The query rectangle.
    pub closed spec fn query(self) -> Rect {
        self.rect
    }

    pub closed spec fn wf(self) -> bool {
        stack_ok(self.stack@)
    }

    /// A search for `rect` in the subtrees below `root`, at level `level`.
    pub(crate) fn new(root: Option<&'a Parent<T>>, Ghost(level): Ghost<nat>, rect: Rect) -> (r: SearchIterator<'a, T>)
        requires
            root is Some ==> level_ok(root->Some_0.nodes@, level),
        ensures
            r.wf(),
            r.query() == rect,
            r.remaining() == match root {
                Some(p) => search_spec(entries_of(p.nodes@), rect),
                None => Seq::empty(),
            },
    {
        let r = SearchIterator { stack: StackNode::new_stack(root, Ghost(level)), rect };
        assert(stack_rest(r.stack@, rect) == match root {
            Some(p) => search_spec(entries_of(p.nodes@), rect),
            None => Seq::<(Rect, T)>::empty(),
        });
        r
    }

    /// The next entry, or `None` once every entry has been handed out.
    pub fn next(&mut self) -> (r: Option<IterItem<'a, T>>)
        requires
            old(self).wf(),
        ensures
            final(self).wf(),
            final(self).query() == old(self).query(),
            old(self).remaining().len() == 0 ==> r is None && final(self).remaining() == old(
                self,
            ).remaining(),
            old(self).remaining().len() > 0 ==> {
                &&& r is Some
                &&& (r->Some_0.rect, *r->Some_0.data) == old(self).remaining()[0]
                &&& r->Some_0.dist == 0
                &&& final(self).remaining() == old(self).remaining().drop_first()
            },
    {
        walk_next(&mut self.stack, &self.rect)
    }
}

/// `f` never returns less for a rectangle than for one that holds it.
pub open spec fn monotone_dist<'a, T, F: Fn(&Rect, Option<&'a T>) -> i128>(f: F) -> bool {
    forall|r1: Rect, o1: Option<&'a T>, d1: i128, r2: Rect, o2: Option<&'a T>, d2: i128|
        #![trigger f.ensures((&r1, o1), d1), f.ensures((&r2, o2), d2)]
        contains(r1, r2) && f.ensures((&r1, o1), d1) && f.ensures((&r2, o2), d2) ==> d1 <= d2
}

/// `f` accepts every rectangle and payload.
pub open spec fn total_dist<'a, T, F: Fn(&Rect, Option<&'a T>) -> i128>(f: F) -> bool {
    forall|r: Rect, o: Option<&'a T>| #[trigger] f.requires((&r, o))
}

/// A node waiting in the queue of a nearest-first traversal, with the
/// distance it is ordered by and the level of its leaves below it.
struct NearbyItem<'a, T> {
    dist: i128,
    node: &'a Node<T>,
    level: Ghost<nat>,
    from_fn: Ghost<bool>,
}

/// A node that may wait in the queue: a leaf entry at level 0, or a parent
/// with at least one child whose children are well formed at the level below.
pub open spec fn queued_ok<T>(n: Node<T>, level: nat) -> bool {
    match n {
        Node::Item(_) => level == 0,
        Node::Parent(p) => level > 0 && p.nodes@.len() > 0 && p.inner_wf((level - 1) as nat),
    }
}

/// The argument a traversal hands the distance function for a node.
pub open spec fn dist_arg<'a, T>(n: &'a Node<T>) -> (&'a Rect, Option<&'a T>) {
    match n {
        Node::Item(it) => (&it.rect, Some(&it.item)),
        Node::Parent(p) => (&p.rect, None),
    }
}

spec fn item_weight<'a, T>(it: NearbyItem<'a, T>) -> nat {
    node_entries(*it.node).len() * (it.level@ + 1)
}

spec fn queue_weight<'a, T>(q: Seq<NearbyItem<'a, T>>) -> nat
    decreases q.len(),
{
    if q.len() == 0 {
        0
    } else {
        queue_weight(q.drop_last()) + item_weight(q.last())
    }
}

proof fn lemma_queue_weight_add<'a, T>(a: Seq<NearbyItem<'a, T>>, b: Seq<NearbyItem<'a, T>>)
    ensures
        queue_weight(a + b) == queue_weight(a) + queue_weight(b),
    decreases b.len(),
{
    if b.len() == 0 {
        assert(a + b =~= a);
    } else {
        assert((a + b).drop_last() =~= a + b.drop_last());
        lemma_queue_weight_add(a, b.drop_last());
    }
}

proof fn lemma_queue_weight_remove<'a, T>(q: Seq<NearbyItem<'a, T>>, i: int)
    requires
        0 <= i < q.len(),
    ensures
        queue_weight(q) == queue_weight(q.remove(i)) + item_weight(q[i]),
{
    let a = q.subrange(0, i);
    let b = q.subrange(i + 1, q.len() as int);
    assert(q =~= a.push(q[i]) + b);
    assert(q.remove(i) =~= a + b);
    lemma_queue_weight_add(a.push(q[i]), b);
    lemma_queue_weight_add(a, b);
    assert(a.push(q[i]).drop_last() =~= a);
}

spec fn queue_nodes<'a, T>(q: Seq<NearbyItem<'a, T>>) -> Seq<Node<T>> {
    q.map_values(|it: NearbyItem<'a, T>| *it.node)
}

/// Entries in order of a distance the caller computes from each node's
/// rectangle (and, for a leaf entry, its payload): nearest first when that
/// distance never shrinks from a rectangle to one inside it.
pub struct NearbyIterator<'a, T, F> {
    queue: Vec<NearbyItem<'a, T>>,
    dist: F,
    last: Ghost<Option<int>>,
}

impl<'a, T, F: Fn(&Rect, Option<&'a T>) -> i128> NearbyIterator<'a, T, F> {
    /// The entries not handed out yet.
    pub closed spec fn remaining_ms(self) -> Multiset<(Rect, T)> {
        ms_of(queue_nodes(self.queue@))
    }

    /// The distance function.
    pub closed spec fn dist_fn(self) -> F {
        self.dist
    }

    /// The distance of the entry handed out last, if any.
    pub closed spec fn last_dist(self) -> Option<int> {
        self.last@
    }

    /// The distances of the nodes waiting in the queue.
    pub closed spec fn queued_dists(self) -> Seq<int> {
        self.queue@.map_values(|it: NearbyItem<'a, T>| it.dist as int)
    }

    pub closed spec fn wf(self) -> bool {
        &&& total_dist(self.dist)
        &&& forall|i: int|
            0 <= i < self.queue@.len() ==> queued_ok(*(#[trigger] self.queue@[i]).node, self.queue@[i].level@)
        &&& forall|i: int|
            0 <= i < self.queue@.len() && (#[trigger] self.queue@[i]).from_fn@ ==> self.dist.ensures(
                dist_arg(self.queue@[i].node),
                self.queue@[i].dist,
            )
        &&& forall|i: int|
            0 <= i < self.queue@.len() && (*(#[trigger] self.queue@[i]).node is Item) ==> self.queue@[i].from_fn@
        &&& forall|i: int|
            0 <= i < self.queue@.len() && !(#[trigger] self.queue@[i]).from_fn@ ==> self.queue@.len() == 1
                && self.last@ is None
        &&& monotone_dist(self.dist) && self.last@ is Some ==> forall|i: int|
            0 <= i < self.queue@.len() ==> #[trigger] self.queue@[i].dist >= self.last@->Some_0
    }

    /// A traversal starting from `root`, whose leaves sit `level` below it.
    pub(crate) fn new(root: &'a Option<Node<T>>, dist: F, Ghost(level): Ghost<nat>) -> (r: Self)
        requires
            total_dist(dist),
            root is Some ==> root->Some_0 is Parent && queued_ok(root->Some_0, level),
        ensures
            r.wf(),
            r.dist_fn() == dist,
            r.last_dist() is None,
            r.remaining_ms() == match *root {
                Some(n) => node_entries(n).to_multiset(),
                None => Multiset::empty(),
            },
    {
        let mut queue: Vec<NearbyItem<'a, T>> = Vec::new();
        proof {
            assert(entries_of(Seq::<Node<T>>::empty()) =~= Seq::<(Rect, T)>::empty());
            vstd::seq_lib::to_multiset_len(Seq::<(Rect, T)>::empty());
            vstd::multiset::lemma_multiset_empty_len(Seq::<(Rect, T)>::empty().to_multiset());
        }
        match root {
            Some(n) => {
                queue.push(NearbyItem { dist: 0, node: n, level: Ghost(level), from_fn: Ghost(false) });
                proof {
                    lemma_ms_push(Seq::<Node<T>>::empty(), *n);
                    assert(queue_nodes(queue@) =~= Seq::<Node<T>>::empty().push(*n));
                }
            },
            None => {
                assert(queue_nodes(queue@) =~= Seq::<Node<T>>::empty());
            },
        }
        let r = NearbyIterator { queue, dist, last: Ghost(None) };
        assert(r.remaining_ms() =~= match *root {
            Some(n) => node_entries(n).to_multiset(),
            None => Multiset::empty(),
        });
        r
    }

    /// The queued entry with the smallest distance: the next entry if it is
    /// a leaf entry; a parent is replaced by its children, each with the
    /// distance the caller's function gives it. `None` once the queue is
    /// empty.
    pub fn next(&mut self) -> (r: Option<IterItem<'a, T>>)
        requires
            old(self).wf(),
        ensures
            final(self).wf(),
            final(self).dist_fn() == old(self).dist_fn(),
            r is None ==> old(self).remaining_ms().len() == 0 && final(self).remaining_ms() == old(
                self,
            ).remaining_ms() && final(self).queued_dists().len() == 0,
            r is Some ==> forall|i: int|
                0 <= i < final(self).queued_dists().len() ==> r->Some_0.dist
                    <= #[trigger] final(self).queued_dists()[i],
            r is Some ==> {
                &&& old(self).remaining_ms() == final(self).remaining_ms().insert(
                    (r->Some_0.rect, *r->Some_0.data),
                )
                &&& old(self).dist_fn().ensures(
                    (&r->Some_0.rect, Some(r->Some_0.data)),
                    r->Some_0.dist,
                )
            },
            monotone_dist(old(self).dist_fn()) && r is Some && old(self).last_dist() is Some
                ==> old(self).last_dist()->Some_0 <= r->Some_0.dist,
            r is Some ==> final(self).last_dist() == Some(r->Some_0.dist as int),
    {
        broadcast use vstd::multiset::group_multiset_axioms;

        while self.queue.len() > 0
            invariant
                self.wf(),
                self.dist == old(self).dist,
                self.last == old(self).last,
                self.remaining_ms() == old(self).remaining_ms(),
            decreases queue_weight(self.queue@),
        {
            let mut m: usize = 0;
            let mut j: usize = 1;
            while j < self.queue.len()
                invariant
                    m < j <= self.queue@.len(),
                    forall|k: int| 0 <= k < j ==> self.queue@[m as int].dist <= #[trigger] self.queue@[k].dist,
                decreases self.queue@.len() - j,
            {
                if self.queue[j].dist < self.queue[m].dist {
                    m = j;
                }
                j += 1;
            }
            let ghost q = self.queue@;
            let ghost base = q.remove(m as int);
            let item = self.queue.remove(m);
            proof {
                lemma_queue_weight_remove(q, m as int);
                lemma_ms_remove(queue_nodes(q), m as int);
                assert(queue_nodes(q).remove(m as int) =~= queue_nodes(base));
                assert forall|i: int| 0 <= i < base.len() implies #[trigger] base[i] == q[if i < m { i } else { i + 1 }] by {}
            }
            match item.node {
                Node::Item(data) => {
                    proof {
                        assert(node_entries(*item.node) == seq![(data.rect, data.item)]);
                        lemma_single_ms((data.rect, data.item));
                        assert(self.remaining_ms().insert((data.rect, data.item)) =~= old(self).remaining_ms());
                        assert(q[m as int] == item);
                        assert forall|i: int| 0 <= i < base.len() implies (#[trigger] base[i]).from_fn@ by {
                            if !base[i].from_fn@ {
                                assert(q.len() == 1);
                            }
                        }
                    }
                    self.last = Ghost(Some(item.dist as int));
                    return Some(IterItem { rect: data.rect, data: &data.item, dist: item.dist });
                },
                Node::Parent(p) => {
                    let ghost lvl = item.level@;
                    assert(q[m as int] == item);
                    assert(queued_ok(*item.node, lvl));
                    assert(item.from_fn@ ==> self.dist.ensures(dist_arg(item.node), item.dist));
                    assert(!item.from_fn@ ==> q.len() == 1 && self.last@ is None);
                    assert forall|i: int| 0 <= i < base.len() implies (#[trigger] base[i]).from_fn@ by {
                        if !base[i].from_fn@ {
                            assert(q.len() == 1);
                        }
                    }
                    let mut k: usize = 0;
                    proof {
                        assert(p.nodes@.subrange(0, 0) =~= Seq::<Node<T>>::empty());
                        assert(entries_of(Seq::<Node<T>>::empty()) =~= Seq::<(Rect, T)>::empty());
                        vstd::seq_lib::to_multiset_len(Seq::<(Rect, T)>::empty());
                        vstd::multiset::lemma_multiset_empty_len(Seq::<(Rect, T)>::empty().to_multiset());
                        assert(ms_of(queue_nodes(self.queue@)) =~= ms_of(queue_nodes(base)).add(
                            ms_of(p.nodes@.subrange(0, 0)),
                        ));
                    }
                    while k < p.nodes.len()
                        invariant
                            self.wf(),
                            self.dist == old(self).dist,
                            self.last == old(self).last,
                            0 <= k <= p.nodes@.len(),
                            lvl > 0,
                            p.nodes@.len() > 0,
                            p.inner_wf((lvl - 1) as nat),
                            *item.node == Node::Parent(*p),
                            item.level@ == lvl,
                            monotone_dist(self.dist) && self.last@ is Some ==> item.dist
                                >= self.last@->Some_0 && self.dist.ensures(dist_arg(item.node), item.dist),
                            forall|i: int| 0 <= i < self.queue@.len() ==> (#[trigger] self.queue@[i]).from_fn@,
                            queue_weight(self.queue@) == queue_weight(base) + entries_of(
                                p.nodes@.subrange(0, k as int),
                            ).len() * lvl,
                            ms_of(queue_nodes(self.queue@)) == ms_of(queue_nodes(base)).add(
                                ms_of(p.nodes@.subrange(0, k as int)),
                            ),
                        decreases p.nodes@.len() - k,
                    {
                        let c: &'a Node<T> = &p.nodes[k];
                        let d = match c {
                            Node::Item(it) => (self.dist)(&it.rect, Some(&it.item)),
                            Node::Parent(cp) => (self.dist)(&cp.rect, None),
                        };
                        let ghost before = self.queue@;
                        let ni = NearbyItem { dist: d, node: c, level: Ghost((lvl - 1) as nat), from_fn: Ghost(true) };
                        proof {
                            assert(node_wf(*c, (lvl - 1) as nat));
                            assert(contains(p.rect, c.rect_of()));
                            let sub = p.nodes@.subrange(0, k as int);
                            assert(p.nodes@.subrange(0, k + 1).drop_last() =~= sub);
                            assert(entries_of(p.nodes@.subrange(0, k + 1)).len() == entries_of(sub).len()
                                + node_entries(*c).len());
                            assert((entries_of(sub).len() + node_entries(*c).len()) * lvl == entries_of(
                                sub,
                            ).len() * lvl + node_entries(*c).len() * lvl) by (nonlinear_arith);
                            lemma_ms_push(sub, *c);
                            lemma_ms_push(queue_nodes(before), *c);
                        }
                        self.queue.push(ni);
                        proof {
                            assert(self.queue@.drop_last() =~= before);
                            assert(queue_nodes(self.queue@) =~= queue_nodes(before).push(*c));
                            assert(p.nodes@.subrange(0, k + 1) =~= p.nodes@.subrange(0, k as int).push(*c));
                            assert(ms_of(queue_nodes(self.queue@)) =~= ms_of(queue_nodes(base)).add(
                                ms_of(p.nodes@.subrange(0, k + 1)),
                            ));
                        }
                        k += 1;
                    }
                    proof {
                        assert(p.nodes@.subrange(0, p.nodes@.len() as int) =~= p.nodes@);
                        assert(node_entries(*item.node) == entries_of(p.nodes@));
                        assert(node_wf(p.nodes@[0], (lvl - 1) as nat));
                        lemma_entries_len(p.nodes@[0], (lvl - 1) as nat);
                        lemma_entries_first(p.nodes@);
                        assert(entries_of(p.nodes@).len() * (lvl + 1) == entries_of(p.nodes@).len() * lvl
                            + entries_of(p.nodes@).len()) by (nonlinear_arith);
                        assert(ms_of(queue_nodes(self.queue@)) =~= old(self).remaining_ms());
                    }
                },
            }
        }
        proof {
            assert(queue_nodes(self.queue@) =~= Seq::<Node<T>>::empty());
            assert(entries_of(Seq::<Node<T>>::empty()) =~= Seq::<(Rect, T)>::empty());
            vstd::seq_lib::to_multiset_len(Seq::<(Rect, T)>::empty());
        }
        None
    }
}

} // verus!
