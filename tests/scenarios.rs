use rtree::{Item, IterItem, Node, Parent, Point, RTree, Rect};

fn scan_all<T: Clone>(t: &RTree<T>) -> Vec<(Rect, T)> {
    let mut it = t.iter();
    let mut out = Vec::new();
    while let Some(IterItem { rect, data, dist }) = it.next() {
        assert_eq!(dist, 0);
        out.push((rect, data.clone()));
    }
    out
}

fn search_all<T: Clone>(t: &RTree<T>, q: Rect) -> Vec<(Rect, T)> {
    let mut it = t.search(q);
    let mut out = Vec::new();
    while let Some(item) = it.next() {
        out.push((item.rect, item.data.clone()));
    }
    out
}

fn rect(x0: i32, y0: i32, x1: i32, y1: i32) -> Rect {
    Rect::new(Point::new(x0, y0), Point::new(x1, y1))
}

fn diagonal(n: i32) -> RTree<i32> {
    let mut t = RTree::new();
    for i in 0..n {
        t.insert(Rect::point(i, i), i);
    }
    t
}

#[test]
fn single_insert_search() {
    let mut t = RTree::new();
    t.insert(Rect::point(1, 2), "a");
    let hits = search_all(&t, Rect::point(1, 2));
    assert_eq!(hits.len(), 1);
    assert_eq!(hits[0].1, "a");
    assert_eq!(hits[0].0, Rect::point(1, 2));
    assert_eq!(search_all(&t, Rect::point(5, 5)).len(), 0);
}

#[test]
fn overflow_and_split() {
    let t = diagonal(40);
    assert_eq!(t.len(), 40);
    assert_eq!(scan_all(&t).len(), 40);
    let mut hits: Vec<i32> = search_all(&t, rect(10, 10, 20, 20)).into_iter().map(|e| e.1).collect();
    hits.sort();
    assert_eq!(hits, (10..=20).collect::<Vec<i32>>());
    assert_eq!(t.rect(), Some(rect(0, 0, 39, 39)));
}

#[test]
fn remove_with_underflow_and_reinsert() {
    let mut t = diagonal(40);
    for i in 0..35 {
        let removed = t.remove(Rect::point(i, i), &i).expect("entry is present");
        assert_eq!(removed.item, i);
        assert_eq!(removed.rect, Rect::point(i, i));
        assert_eq!(t.len(), (39 - i) as usize);
        let mut left: Vec<i32> = scan_all(&t).into_iter().map(|e| e.1).collect();
        left.sort();
        assert_eq!(left, ((i + 1)..40).collect::<Vec<i32>>());
    }
    assert_eq!(t.len(), 5);
    assert_eq!(t.rect(), Some(rect(35, 35, 39, 39)));
}

#[test]
fn remove_nonexistent() {
    let mut t = RTree::new();
    t.insert(Rect::point(0, 0), 1);
    assert!(t.remove(Rect::point(0, 0), &2).is_none());
    assert!(t.remove(Rect::point(1, 1), &1).is_none());
    assert_eq!(t.len(), 1);
}

#[test]
fn nearest_neighbour_order() {
    let mut t = RTree::new();
    t.insert(Rect::point(0, 0), "A");
    t.insert(Rect::point(3, 0), "B");
    t.insert(Rect::point(0, 4), "C");
    t.insert(Rect::point(6, 8), "D");
    let q = Rect::point(0, 0);
    let mut it = t.nearby(|r: &Rect, _: Option<&&str>| r.box_dist(&q));
    let mut got = Vec::new();
    while let Some(item) = it.next() {
        got.push((*item.data, item.dist));
    }
    assert_eq!(got, vec![("A", 0), ("B", 9), ("C", 16), ("D", 100)]);
}

#[test]
fn edge_touching_intersects() {
    let mut t = RTree::new();
    t.insert(rect(0, 0, 1, 1), "X");
    let hits = search_all(&t, rect(1, 1, 2, 2));
    assert_eq!(hits.len(), 1);
    assert_eq!(hits[0].1, "X");
}

#[test]
fn empty_tree() {
    let mut t: RTree<u32> = RTree::new();
    assert_eq!(t.len(), 0);
    assert_eq!(t.rect(), None);
    assert!(t.iter().next().is_none());
    assert!(t.search(Rect::infinite()).next().is_none());
    assert!(t.nearby(|_: &Rect, _: Option<&u32>| 0).next().is_none());
    assert!(t.remove(Rect::point(0, 0), &0).is_none());
}

#[test]
fn emptied_tree_accepts_inserts_again() {
    let mut t = diagonal(100);
    for i in 0..100 {
        assert!(t.remove(Rect::point(i, i), &i).is_some());
    }
    assert_eq!(t.len(), 0);
    assert_eq!(t.rect(), None);
    t.insert(Rect::point(7, 8), 3);
    assert_eq!(t.len(), 1);
    assert_eq!(scan_all(&t), vec![(Rect::point(7, 8), 3)]);
}

#[test]
fn duplicate_entries_are_removed_one_at_a_time() {
    let mut t = RTree::new();
    t.insert(Rect::point(2, 2), 9);
    t.insert(Rect::point(2, 2), 9);
    t.insert(Rect::point(2, 2), 8);
    assert!(t.remove(Rect::point(2, 2), &9).is_some());
    assert_eq!(t.len(), 2);
    assert!(t.remove(Rect::point(2, 2), &9).is_some());
    assert!(t.remove(Rect::point(2, 2), &9).is_none());
    assert_eq!(scan_all(&t), vec![(Rect::point(2, 2), 8)]);
}

#[test]
fn remove_needs_the_same_rectangle() {
    let mut t = RTree::new();
    t.insert(rect(0, 0, 4, 4), 1);
    assert!(t.remove(rect(0, 0, 2, 2), &1).is_none());
    assert!(t.remove(rect(0, 0, 4, 4), &1).is_some());
    assert_eq!(t.len(), 0);
}

#[test]
fn search_flat_appends_matches() {
    let t = diagonal(50);
    let mut items: Vec<(Rect, &i32)> = Vec::new();
    t.search_flat(rect(0, 0, 2, 2), &mut items);
    t.search_flat(rect(45, 45, 100, 100), &mut items);
    let mut got: Vec<i32> = items.iter().map(|e| *e.1).collect();
    got.sort();
    assert_eq!(got, vec![0, 1, 2, 45, 46, 47, 48, 49]);
    for (r, v) in items {
        assert_eq!(r, Rect::point(*v, *v));
    }
}

#[test]
fn scan_after_split_covers_everything_once() {
    let t = diagonal(1000);
    let mut all: Vec<i32> = scan_all(&t).into_iter().map(|e| e.1).collect();
    all.sort();
    assert_eq!(all, (0..1000).collect::<Vec<i32>>());
    assert_eq!(search_all(&t, Rect::infinite()).len(), 1000);
}

#[test]
fn parent_level_remove_and_search() {
    let a = Rect::point(0, 0);
    let b = Rect::point(4, 2);
    let mut p = Parent::new(rect(0, 0, 4, 2));
    p.push(Node::Item(Item { rect: a, item: 'a' }));
    p.push(Node::Item(Item { rect: b, item: 'b' }));
    let mut found: Vec<(Rect, &char)> = Vec::new();
    p.search_flat(&rect(3, 1, 9, 9), &mut found);
    assert_eq!(found, vec![(b, &'b')]);
    let mut reinsert = Vec::new();
    let (removed, recalced) = p.remove(&b, &'b', &mut reinsert, 0);
    assert_eq!(removed.map(|it| it.item), Some('b'));
    assert!(recalced);
    assert_eq!(p.rect, a);
    assert_eq!(p.len(), 1);
    assert!(reinsert.is_empty());
    let (missing, recalced) = p.remove(&b, &'b', &mut reinsert, 0);
    assert!(missing.is_none());
    assert!(!recalced);
}

#[test]
fn failed_remove_leaves_the_tree_as_it_was() {
    let mut t = diagonal(60);
    let before = scan_all(&t);
    let bound = t.rect();
    assert!(t.remove(Rect::point(3, 4), &3).is_none());
    assert!(t.remove(Rect::point(3, 3), &4).is_none());
    assert_eq!(scan_all(&t), before);
    assert_eq!(t.rect(), bound);
}
