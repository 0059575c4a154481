use rtree::{Point, RTree, Rect};

struct Lcg(u64);

impl Lcg {
    fn next(&mut self, bound: i32) -> i32 {
        self.0 = self.0.wrapping_mul(6364136223846793005).wrapping_add(1442695040888963407);
        ((self.0 >> 33) % bound as u64) as i32
    }

    fn rect(&mut self) -> Rect {
        let x = self.next(1000);
        let y = self.next(1000);
        let w = self.next(30);
        let h = self.next(30);
        Rect::new(Point::new(x, y), Point::new(x + w, y + h))
    }
}

fn entries(t: &RTree<u32>) -> Vec<(Rect, u32)> {
    let mut it = t.iter();
    let mut out = Vec::new();
    while let Some(item) = it.next() {
        out.push((item.rect, *item.data));
    }
    out.sort_by_key(|e| (e.1, e.0.min.x, e.0.min.y, e.0.max.x, e.0.max.y));
    out
}

fn intersects(a: &Rect, b: &Rect) -> bool {
    a.min.x <= b.max.x && b.min.x <= a.max.x && a.min.y <= b.max.y && b.min.y <= a.max.y
}

fn random_tree(seed: u64, n: u32) -> (RTree<u32>, Vec<(Rect, u32)>) {
    let mut rng = Lcg(seed);
    let mut t = RTree::new();
    let mut all = Vec::new();
    for v in 0..n {
        let r = rng.rect();
        t.insert(r, v);
        all.push((r, v));
    }
    (t, all)
}

#[test]
fn len_matches_scan() {
    let (mut t, all) = random_tree(1, 500);
    assert_eq!(t.len(), entries(&t).len());
    for (r, v) in all.iter().take(250) {
        assert!(t.remove(*r, v).is_some());
        assert_eq!(t.len(), entries(&t).len());
    }
    assert_eq!(t.len(), 250);
}

#[test]
fn insert_then_remove_restores_entries() {
    let (mut t, _) = random_tree(2, 300);
    let before = entries(&t);
    let r = Rect::new(Point::new(5, 6), Point::new(9, 9));
    t.insert(r, 7777);
    assert_eq!(t.len(), 301);
    let removed = t.remove(r, &7777).expect("just inserted");
    assert_eq!(removed.item, 7777);
    assert_eq!(t.len(), 300);
    assert_eq!(entries(&t), before);
}

#[test]
fn search_matches_brute_force() {
    let (t, all) = random_tree(3, 700);
    let mut rng = Lcg(99);
    for _ in 0..50 {
        let q = rng.rect();
        let mut got: Vec<u32> = Vec::new();
        let mut it = t.search(q);
        while let Some(item) = it.next() {
            assert!(intersects(&item.rect, &q));
            got.push(*item.data);
        }
        got.sort();
        let mut want: Vec<u32> = all.iter().filter(|e| intersects(&e.0, &q)).map(|e| e.1).collect();
        want.sort();
        assert_eq!(got, want);
    }
}

#[test]
fn nearby_is_nondecreasing() {
    let (t, all) = random_tree(4, 600);
    let q = Rect::point(500, 500);
    let mut it = t.nearby(|r: &Rect, _: Option<&u32>| r.box_dist(&q));
    let mut last = 0i128;
    let mut count = 0;
    while let Some(item) = it.next() {
        assert!(item.dist >= last);
        assert_eq!(item.dist, item.rect.box_dist(&q));
        last = item.dist;
        count += 1;
    }
    assert_eq!(count, all.len());
}

#[test]
fn underflow_reinserts_keep_every_entry_once() {
    let (mut t, all) = random_tree(5, 400);
    let mut kept: Vec<(Rect, u32)> = all.clone();
    for (r, v) in all.iter().filter(|e| e.1 % 3 == 0) {
        assert!(t.remove(*r, v).is_some());
        kept.retain(|e| e.1 != *v);
        let got = entries(&t);
        let mut want = kept.clone();
        want.sort_by_key(|e| (e.1, e.0.min.x, e.0.min.y, e.0.max.x, e.0.max.y));
        assert_eq!(got, want);
    }
}

#[test]
fn bounding_rect_is_tight() {
    let (t, all) = random_tree(6, 200);
    let b = t.rect().expect("non-empty");
    assert_eq!(b.min.x, all.iter().map(|e| e.0.min.x).min().unwrap());
    assert_eq!(b.min.y, all.iter().map(|e| e.0.min.y).min().unwrap());
    assert_eq!(b.max.x, all.iter().map(|e| e.0.max.x).max().unwrap());
    assert_eq!(b.max.y, all.iter().map(|e| e.0.max.y).max().unwrap());
}

#[test]
fn nearby_orders_a_shifted_distance_that_goes_negative() {
    let (t, all) = random_tree(7, 300);
    let q = Rect::point(200, 700);
    let mut it = t.nearby(|r: &Rect, _: Option<&u32>| r.box_dist(&q) - 50_000);
    let mut last: Option<i128> = None;
    let mut count = 0;
    let mut negative = 0;
    while let Some(item) = it.next() {
        if let Some(l) = last {
            assert!(item.dist >= l);
        }
        if item.dist < 0 {
            negative += 1;
        }
        last = Some(item.dist);
        count += 1;
    }
    assert_eq!(count, all.len());
    assert!(negative > 0);
}
