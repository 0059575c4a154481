//! The tree itself: its root, entry count and height, and the operations
//! that keep them consistent.
use vstd::prelude::*;
use vstd::multiset::Multiset;
use crate::geometry::{
    Rect, union, valid_rect, intersects_spec, infinite_spec, contains, is_point, box_dist_spec,
};
use crate::node::{leaves_at, fanout_ok, tight_all, MIN_ITEMS};
use crate::entries::{
    lemma_node_shape, lemma_entries_len, lemma_entries_first, lemma_items_push, lemma_parent_bound,
    lemma_ms_push, lemma_same_seq_entries,
};
use crate::iter::{ScanIterator, SearchIterator, NearbyIterator, total_dist, monotone_dist};
use vstd::laws_eq::obeys_concrete_eq;
use crate::bounds::lemma_union_pair;
use crate::node::{
    Item, Node, Parent, MAX_ITEMS, node_entries, entries_of, ms_of, node_wf, items_ms, item_pair,
    search_spec, deref_pairs, bounds_entries,
};

verus! {

/// The rectangle spanning the whole range meets every entry.
pub proof fn lemma_search_all<T>(s: Seq<(Rect, T)>)
    ensures
        search_spec(s, infinite_spec()) == s,
    decreases s.len(),
{
    reveal(Seq::filter);
    if s.len() > 0 {
        lemma_search_all(s.drop_last());
        assert(intersects_spec(s.last().0, infinite_spec()));
        assert(s.drop_last().push(s.last()) =~= s);
    }
}

/// Every leaf entry sits exactly `height + 1` edges below the root.
pub proof fn lemma_leaf_depth<T>(t: RTree<T>)
    requires
        t.wf(),
    ensures
        t.root_spec() is Some ==> leaves_at(t.root_spec()->Some_0, t.height_spec() + 1),
{
    if let Some(Node::Parent(p)) = t.root {
        assert forall|i: int| 0 <= i < p.nodes@.len() implies leaves_at(
            #[trigger] p.nodes@[i],
            t.height_spec(),
        ) by {
            lemma_node_shape(p.nodes@[i], t.height_spec());
        }
    }
}

/// The root of a non-empty tree is a parent with between one and
/// `MAX_ITEMS` children, and every other parent has between `MIN_ITEMS`
/// and `MAX_ITEMS` children.
pub proof fn lemma_fanout<T>(t: RTree<T>)
    requires
        t.wf(),
    ensures
        t.root_spec() is Some ==> {
            let p = t.root_spec()->Some_0->Parent_0;
            &&& t.root_spec()->Some_0 is Parent
            &&& 1 <= p.nodes@.len() <= MAX_ITEMS
            &&& forall|i: int| 0 <= i < p.nodes@.len() ==> fanout_ok(#[trigger] p.nodes@[i])
        },
{
    if let Some(Node::Parent(p)) = t.root {
        assert forall|i: int| 0 <= i < p.nodes@.len() implies fanout_ok(#[trigger] p.nodes@[i]) by {
            lemma_node_shape(p.nodes@[i], t.height_spec());
        }
    }
}

/// Every parent's rectangle is the tight union of its children's.
pub proof fn lemma_tight<T>(t: RTree<T>)
    requires
        t.wf(),
    ensures
        t.root_spec() is Some ==> tight_all(t.root_spec()->Some_0),
{
    if let Some(Node::Parent(p)) = t.root {
        assert forall|i: int| 0 <= i < p.nodes@.len() implies tight_all(#[trigger] p.nodes@[i]) by {
            lemma_node_shape(p.nodes@[i], t.height_spec());
        }
    }
}

/// A well-formed tree has the shape every tree keeps.
pub proof fn lemma_shape<T>(t: RTree<T>)
    requires
        t.wf(),
    ensures
        t.shape_ok(),
{
    lemma_leaf_depth(t);
    lemma_fanout(t);
    lemma_tight(t);
}

/// The count the tree keeps is the number of entries a scan hands out.
pub proof fn lemma_len_counts_entries<T>(t: RTree<T>)
    requires
        t.wf(),
    ensures
        t.len_spec() == t.entries().len(),
{
}

/// Inserting `(rect, v)` and then removing by `rect` and `v` finds the entry
/// and gives back the entries the tree had before, and its length. `before`,
/// `mid` and `after` are the tree before, between and after the two calls,
/// and `removed` is what the removal returned; the conditions are what
/// `insert` and `remove` promise. The rectangle is one whose low corner is
/// not above or right of its high corner.
pub proof fn lemma_insert_then_remove<T>(
    before: RTree<T>,
    mid: RTree<T>,
    after: RTree<T>,
    rect: Rect,
    v: T,
    removed: Option<Item<T>>,
)
    requires
        before.wf(),
        valid_rect(rect),
        mid.view_ms() == before.view_ms().insert((rect, v)),
        removed is None ==> after.view_ms() == mid.view_ms(),
        removed is None ==> mid.view_ms().count((rect, v)) == 0,
        removed is Some ==> after.view_ms() == mid.view_ms().remove((rect, v)),
    ensures
        removed is Some,
        after.view_ms() == before.view_ms(),
        after.entries().len() == before.entries().len(),
{
    broadcast use vstd::multiset::group_multiset_axioms;

    assert(after.view_ms() =~= before.view_ms());
    vstd::seq_lib::to_multiset_len(after.entries());
    vstd::seq_lib::to_multiset_len(before.entries());
}

/// A removal that finds `(rect, v)` keeps every other entry as many times as
/// before: entries moved out of dissolved parents and inserted again are
/// all still there, each once if it was there once.
pub proof fn lemma_remove_keeps_others<T>(before: RTree<T>, after: RTree<T>, rect: Rect, v: T)
    requires
        after.view_ms() == before.view_ms().remove((rect, v)),
    ensures
        forall|x: (Rect, T)| x != (rect, v) ==> #[trigger] after.view_ms().count(x) == before.view_ms().count(x),
{
    broadcast use vstd::multiset::group_multiset_axioms;
}

/// With the box distance to a point for `dist`, a nearest-first traversal
/// hands entries out in nondecreasing distance: that distance never shrinks
/// from a rectangle to one inside it.
pub proof fn lemma_nearby_point_order<'a, T, F: Fn(&Rect, Option<&'a T>) -> i128>(f: F, q: Rect)
    requires
        is_point(q),
        forall|r: Rect, o: Option<&'a T>, d: i128| #[trigger] f.ensures((&r, o), d) ==> d == box_dist_spec(r, q),
    ensures
        monotone_dist(f),
{
    assert forall|r1: Rect, r2: Rect| contains(r1, r2) implies 0 <= box_dist_spec(r1, q) <= box_dist_spec(r2, q) by {
        crate::geometry::lemma_point_dist_monotone(r1, r2, q);
    }
}

/// An R-tree over rectangles with payloads of type `T`.
pub struct RTree<T> {
    root: Option<Node<T>>,
    length: usize,
    height: usize,
}

impl<T> RTree<T> {
    /// The root node, if the tree holds any entry.
    pub closed spec fn root_spec(self) -> Option<Node<T>> {
        self.root
    }

    /// The number of parent levels below the root's own.
    pub closed spec fn height_spec(self) -> nat {
        self.height as nat
    }

    /// The number of entries the tree counts.
    pub closed spec fn len_spec(self) -> nat {
        self.length as nat
    }

    /// The entries of the tree, depth first.
    pub open spec fn entries(self) -> Seq<(Rect, T)> {
        match self.root_spec() {
            Some(n) => node_entries(n),
            None => Seq::empty(),
        }
    }

    /// The rectangle of the root, if there is one.
    pub closed spec fn bound(self) -> Option<Rect> {
        match self.root {
            Some(n) => Some(n.rect_of()),
            None => None,
        }
    }

    /// The shape every tree keeps: a non-empty tree has a parent for its
    /// root with between one and `MAX_ITEMS` children, every leaf entry sits
    /// `height + 1` edges below the root, every other parent has between
    /// `MIN_ITEMS` and `MAX_ITEMS` children, and every parent's rectangle
    /// is the tight union of its children's.
    pub open spec fn shape_ok(self) -> bool {
        self.root_spec() is Some ==> {
            let n = self.root_spec()->Some_0;
            let p = n->Parent_0;
            &&& n is Parent
            &&& 1 <= p.nodes@.len() <= MAX_ITEMS
            &&& leaves_at(n, self.height_spec() + 1)
            &&& forall|i: int| 0 <= i < p.nodes@.len() ==> fanout_ok(#[trigger] p.nodes@[i])
            &&& tight_all(n)
        }
    }

    /// The entries of the tree as a multiset.
    pub open spec fn view_ms(self) -> Multiset<(Rect, T)> {
        self.entries().to_multiset()
    }

    /// The tree's invariant: an empty tree has no root and height 0; a
    /// non-empty one has a parent for its root, with between one and
    /// `MAX_ITEMS - 1` children, each a well-formed subtree with its leaves
    /// `height` levels below it, and a tight rectangle; `length` counts the
    /// entries.
    pub closed spec fn wf(self) -> bool {
        match self.root {
            None => self.length == 0 && self.height == 0,
            Some(Node::Item(_)) => false,
            Some(Node::Parent(p)) => {
                &&& 1 <= p.nodes@.len() < MAX_ITEMS
                &&& p.inner_wf(self.height as nat)
                &&& self.length == node_entries(Node::Parent(p)).len()
            },
        }
    }

    /// An empty tree.
    pub fn new() -> (r: RTree<T>)
        ensures
            r.wf(),
            r.entries() == Seq::<(Rect, T)>::empty(),
            r.view_ms() == Multiset::<(Rect, T)>::empty(),
            r.len_spec() == 0,
            r.height_spec() == 0,
            r.root_spec() is None,
            r.shape_ok(),
    {
        proof {
            vstd::seq_lib::to_multiset_len(Seq::<(Rect, T)>::empty());
            vstd::multiset::lemma_multiset_empty_len(Seq::<(Rect, T)>::empty().to_multiset());
        }
        RTree { root: None, length: 0, height: 0 }
    }

    /// The number of entries in the tree.
    pub fn len(&self) -> (r: usize)
        requires
            self.wf(),
        ensures
            r == self.entries().len(),
    {
        self.length
    }

    /// The tight bounding rectangle of all entries, or `None` for an empty
    /// tree.
    pub fn rect(&self) -> (r: Option<Rect>)
        requires
            self.wf(),
        ensures
            r == self.bound(),
            r is None <==> self.entries().len() == 0,
            r is Some ==> bounds_entries(r->Some_0, self.entries()),
    {
        match &self.root {
            Some(Node::Parent(root)) => {
                proof {
                    lemma_parent_bound(*root, self.height as nat);
                }
                Some(root.rect)
            },
            _ => None,
        }
    }

    /// Appends to `items`, depth first, every entry whose rectangle meets
    /// `rect`.
    pub fn search_flat<'a>(&'a self, rect: Rect, items: &mut Vec<(Rect, &'a T)>)
        requires
            self.wf(),
        ensures
            deref_pairs(final(items)@) == deref_pairs(old(items)@) + search_spec(self.entries(), rect),
    {
        match &self.root {
            Some(Node::Parent(root)) => {
                root.search_flat(&rect, items);
            },
            _ => {
                assert(search_spec(self.entries(), rect) =~= Seq::<(Rect, T)>::empty());
                assert(deref_pairs(items@) =~= deref_pairs(old(items)@) + search_spec(self.entries(), rect));
            },
        }
    }

    /// Every entry of the tree, depth first.
    pub fn iter<'a>(&'a self) -> (r: ScanIterator<'a, T>)
        requires
            self.wf(),
        ensures
            r.wf(),
            r.remaining() == self.entries(),
    {
        let root = match &self.root {
            Some(Node::Parent(p)) => Some(p),
            _ => None,
        };
        proof {
            assert(entries_of(Seq::<Node<T>>::empty()) =~= Seq::<(Rect, T)>::empty());
        }
        ScanIterator::new(root, Ghost(self.height as nat))
    }

    /// The entries whose rectangles meet `rect` (closed: touching counts),
    /// depth first.
    pub fn search<'a>(&'a self, rect: Rect) -> (r: SearchIterator<'a, T>)
        requires
            self.wf(),
        ensures
            r.wf(),
            r.query() == rect,
            r.remaining() == search_spec(self.entries(), rect),
    {
        let root = match &self.root {
            Some(Node::Parent(p)) => Some(p),
            _ => None,
        };
        proof {
            assert(search_spec(Seq::<(Rect, T)>::empty(), rect) =~= Seq::<(Rect, T)>::empty());
        }
        SearchIterator::new(root, Ghost(self.height as nat), rect)
    }

    /// The entries in order of `dist`, which is given each node's rectangle
    /// and, for a leaf entry, its payload. The root waits at distance 0; each
    /// step takes the waiting node with the smallest distance, hands it out
    /// if it is an entry and puts its children in its place if it is a
    /// parent. When `dist` never shrinks from a rectangle to one inside it
    /// (see `monotone_dist`) the entries come nearest first.
    pub fn nearby<'a, F: Fn(&Rect, Option<&'a T>) -> i128>(&'a self, dist: F) -> (r: NearbyIterator<'a, T, F>)
        requires
            self.wf(),
            total_dist(dist),
        ensures
            r.wf(),
            r.dist_fn() == dist,
            r.last_dist() is None,
            r.remaining_ms() == self.view_ms(),
    {
        proof {
            vstd::seq_lib::to_multiset_len(Seq::<(Rect, T)>::empty());
            vstd::multiset::lemma_multiset_empty_len(Seq::<(Rect, T)>::empty().to_multiset());
        }
        NearbyIterator::new(&self.root, dist, Ghost((self.height + 1) as nat))
    }

    /// Adds the entry `(rect, data)`. A root that fills up is split, and the
    /// tree grows by one level.
    pub fn insert(&mut self, rect: Rect, data: T)
        requires
            old(self).wf(),
            old(self).entries().len() < usize::MAX,
        ensures
            final(self).wf(),
            final(self).shape_ok(),
            final(self).view_ms() == old(self).view_ms().insert((rect, data)),
            final(self).entries().len() == old(self).entries().len() + 1,
            old(self).root_spec() is None ==> final(self).height_spec() == 0,
            final(self).height_spec() == old(self).height_spec() || final(self).height_spec()
                == old(self).height_spec() + 1,
            final(self).height_spec() == old(self).height_spec() + 1 ==> {
                &&& final(self).root_spec()->Some_0 is Parent
                &&& final(self).root_spec()->Some_0->Parent_0.nodes@.len() == 2
            },
    {
        broadcast use vstd::multiset::group_multiset_axioms;

        if self.root.is_none() {
            self.root = Some(Node::Parent(Parent::new(rect)));
            proof {
                assert(entries_of(Seq::<Node<T>>::empty()) =~= Seq::<(Rect, T)>::empty());
                vstd::seq_lib::to_multiset_len(Seq::<(Rect, T)>::empty());
                vstd::multiset::lemma_multiset_empty_len(Seq::<(Rect, T)>::empty().to_multiset());
            }
        }
        let ghost before = self.root->Some_0->Parent_0;
        assert(before.nodes@.len() == 0 ==> ms_of(before.nodes@) == old(self).view_ms());
        assert(before.nodes@.len() > 0 ==> ms_of(before.nodes@) == old(self).view_ms());
        let height = self.height;
        let mut grow = false;
        match &mut self.root {
            Some(Node::Parent(root)) => {
                root.insert(rect, data, height);
                grow = root.is_full();
            },
            _ => {},
        }
        assert(ms_of(self.root->Some_0->Parent_0.nodes@) == old(self).view_ms().insert((rect, data)));
        proof {
            vstd::seq_lib::to_multiset_len(old(self).entries());
            vstd::seq_lib::to_multiset_len(entries_of(self.root->Some_0->Parent_0.nodes@));
        }
        if grow {
            let old_root = self.root.take();
            match old_root {
                Some(Node::Parent(mut root)) => {
                    let ghost full = root;
                    let mut new_root: Parent<T> = Parent::new(root.rect);
                    let right = root.split_largest_axis_edge_snap(Ghost(height as nat));
                    let left = Node::Parent(root);
                    proof {
                        lemma_union_pair(left, right);
                        lemma_ms_push(Seq::<Node<T>>::empty(), left);
                        lemma_ms_push(seq![left], right);
                        assert(Seq::<Node<T>>::empty().push(left) =~= seq![left]);
                        assert(seq![left].push(right) =~= seq![left, right]);
                        assert(entries_of(Seq::<Node<T>>::empty()) =~= Seq::<(Rect, T)>::empty());
                        vstd::seq_lib::to_multiset_len(Seq::<(Rect, T)>::empty());
                        vstd::multiset::lemma_multiset_empty_len(Seq::<(Rect, T)>::empty().to_multiset());
                    }
                    new_root.push(left);
                    new_root.push(right);
                    assert(new_root.nodes@ =~= seq![left, right]);
                    assert(ms_of(new_root.nodes@) =~= ms_of(full.nodes@));
                    proof {
                        lemma_entries_len(left, (height + 1) as nat);
                        lemma_entries_first(new_root.nodes@);
                        vstd::seq_lib::to_multiset_len(entries_of(new_root.nodes@));
                    }
                    self.root = Some(Node::Parent(new_root));
                    self.height = height + 1;
                },
                _ => {},
            }
        }
        self.length += 1;
        proof {
            lemma_shape(*self);
        }
    }

    /// Removes an entry whose rectangle is `rect` and whose payload equals
    /// `data`, and returns it; returns `None` when there is no such entry (for
    /// a rectangle whose low corner is not above or right of its high corner
    /// the search may miss it). Parents left with too few children are
    /// dissolved and their entries inserted again; a root left with a single
    /// parent child is replaced by that child.
    pub fn remove(&mut self, rect: Rect, data: &T) -> (r: Option<Item<T>>) where T: PartialEq
        requires
            old(self).wf(),
            obeys_concrete_eq::<T>(),
        ensures
            final(self).wf(),
            final(self).shape_ok(),
            r is None ==> final(self).view_ms() == old(self).view_ms(),
            r is None ==> final(self).entries() == old(self).entries(),
            r is None ==> final(self).bound() == old(self).bound(),
            r is None ==> final(self).entries().len() == old(self).entries().len(),
            r is Some ==> final(self).entries().len() == old(self).entries().len() - 1,
            r is None && valid_rect(rect) ==> old(self).view_ms().count((rect, *data)) == 0,
            r is Some ==> {
                &&& r->Some_0.rect == rect
                &&& r->Some_0.item == *data
                &&& old(self).view_ms().count((rect, *data)) > 0
                &&& final(self).view_ms() == old(self).view_ms().remove((rect, *data))
            },
    {
        broadcast use vstd::multiset::group_multiset_axioms;

        let ghost e = (rect, *data);
        let ghost m0 = old(self).view_ms();
        let height = self.height;
        let mut reinsert: Vec<Item<T>> = Vec::new();
        let mut res: (Option<Item<T>>, bool) = (None, false);
        if self.root.is_none() {
            proof {
                vstd::seq_lib::to_multiset_len(Seq::<(Rect, T)>::empty());
                vstd::multiset::lemma_multiset_empty_len(Seq::<(Rect, T)>::empty().to_multiset());
            }
            return None;
        }
        let ghost root0 = self.root->Some_0->Parent_0;
        proof {
            vstd::seq_lib::to_multiset_len(Seq::<Item<T>>::empty().map_values(|it: Item<T>| item_pair(it)));
            vstd::multiset::lemma_multiset_empty_len(items_ms(Seq::<Item<T>>::empty()));
            assert(reinsert@ =~= Seq::<Item<T>>::empty());
        }
        match &mut self.root {
            Some(Node::Parent(root)) => {
                res = root.remove(&rect, data, &mut reinsert, height);
            },
            _ => {},
        }
        let (removed, recalced) = res;
        let ghost root1 = self.root->Some_0->Parent_0;
        proof {
            vstd::seq_lib::to_multiset_len(entries_of(root0.nodes@));
            vstd::seq_lib::to_multiset_len(entries_of(root1.nodes@));
            vstd::seq_lib::to_multiset_len(reinsert@.map_values(|it: Item<T>| item_pair(it)));
        }
        if removed.is_none() {
            proof {
                lemma_same_seq_entries(root1.nodes@, root0.nodes@);
                lemma_shape(*self);
            }
            return None;
        }
        assert(ms_of(root1.nodes@).add(items_ms(reinsert@)).insert(e) == m0);
        assert(ms_of(root1.nodes@).len() + reinsert@.len() + 1 == self.length);
        self.length = self.length - (reinsert.len() + 1);
        let root_len = match &self.root {
            Some(Node::Parent(root)) => root.len(),
            _ => 0,
        };
        if self.length == 0 {
            self.root = None;
            self.height = 0;
            proof {
                vstd::multiset::lemma_multiset_empty_len(ms_of(root1.nodes@));
                vstd::seq_lib::to_multiset_len(Seq::<(Rect, T)>::empty());
                vstd::multiset::lemma_multiset_empty_len(Seq::<(Rect, T)>::empty().to_multiset());
            }
        } else if height > 0 && root_len == 1 {
            let old_root = self.root.take();
            match old_root {
                Some(Node::Parent(mut root)) => {
                    let ghost only = root.nodes@[0];
                    assert(node_wf(only, height as nat));
                    let mut n = root.nodes.pop().unwrap();
                    match &mut n {
                        Node::Parent(p) => p.recalc(),
                        Node::Item(_) => {},
                    }
                    proof {
                        assert(root1.nodes@.drop_last() =~= Seq::<Node<T>>::empty());
                        assert(entries_of(root1.nodes@) == entries_of(Seq::<Node<T>>::empty()) + node_entries(only));
                        assert(entries_of(root1.nodes@) =~= node_entries(only));
                    }
                    self.root = Some(n);
                    self.height = height - 1;
                },
                _ => {},
            }
        } else if recalced {
            match &mut self.root {
                Some(Node::Parent(root)) => root.recalc(),
                _ => {},
            }
        }
        assert(self.view_ms() == ms_of(root1.nodes@));
        while reinsert.len() > 0
            invariant
                self.wf(),
                self.view_ms().add(items_ms(reinsert@)).insert(e) == m0,
                self.entries().len() + reinsert@.len() + 1 == old(self).entries().len(),
                old(self).entries().len() <= usize::MAX,
            decreases reinsert@.len(),
        {
            let ghost before = reinsert@;
            let ghost t0 = self.view_ms();
            let item = reinsert.pop().unwrap();
            proof {
                assert(before.drop_last().push(before.last()) =~= before);
                lemma_items_push(before.drop_last(), before.last());
                vstd::seq_lib::to_multiset_len(self.entries());
            }
            self.insert(item.rect, item.item);
            assert(self.view_ms().add(items_ms(reinsert@)).insert(e) =~= m0);
        }
        proof {
            vstd::seq_lib::to_multiset_len(reinsert@.map_values(|it: Item<T>| item_pair(it)));
            vstd::multiset::lemma_multiset_empty_len(items_ms(reinsert@));
        }
        assert(self.view_ms() =~= m0.remove(e));
        proof {
            lemma_shape(*self);
            vstd::seq_lib::to_multiset_len(self.entries());
            vstd::seq_lib::to_multiset_len(old(self).entries());
        }
        removed
    }
}

} // verus!
