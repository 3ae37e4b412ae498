use raytracer::bvh::{Bvh, BvhHitCandidate, BvhLeaf};

fn enclose(objs: &[(usize, f32)]) -> (f32, f32) {
    let mut lo = f32::INFINITY;
    let mut hi = f32::NEG_INFINITY;
    for (_, x) in objs {
        lo = lo.min(*x);
        hi = hi.max(*x);
    }
    (lo, hi)
}

fn plan(objs: &[(usize, f32)]) -> (f32, ()) {
    let sum: f32 = objs.iter().map(|(_, x)| *x).sum();
    (sum / objs.len() as f32, ())
}

fn key(_: &(), o: &(usize, f32)) -> f32 {
    o.1
}

fn line(n: usize) -> Vec<f32> {
    (0..n).map(|i| ((i * 7) % n) as f32).collect()
}

fn all_candidates(bvh: &Bvh<(f32, f32), f32>, lo: f32, hi: f32) -> Vec<usize> {
    let mut it = bvh.hit_candidates(|b: &(f32, f32)| b.1 >= lo && b.0 <= hi);
    let mut out = Vec::new();
    while let Some(BvhHitCandidate { object_index }) = it.next() {
        out.push(object_index);
    }
    out
}

#[test]
fn leaf_range() {
    let leaf = BvhLeaf { offset: 3, length: 4 };
    assert_eq!(leaf.range(), 3..7);
}

#[test]
fn every_object_is_found_once() {
    let points = line(100);
    let bvh = Bvh::from(points.clone(), &enclose, &plan, &key);
    assert!(bvh.depth_value() <= 29);
    let mut found = all_candidates(&bvh, f32::NEG_INFINITY, f32::INFINITY);
    found.sort();
    assert_eq!(found, (0..100).collect::<Vec<_>>());
    assert_eq!(bvh.aabb(), (0.0, 99.0));
}

#[test]
fn only_hit_boxes_are_entered() {
    let points = line(64);
    let bvh = Bvh::from(points.clone(), &enclose, &plan, &key);
    let found = all_candidates(&bvh, 10.0, 20.0);
    // Every object inside the range is found; objects far outside are not.
    for (i, x) in points.iter().enumerate() {
        if (10.0..=20.0).contains(x) {
            assert!(found.contains(&i));
        }
        if *x < 5.0 || *x > 25.0 {
            assert!(!found.contains(&i));
        }
    }
    assert!(all_candidates(&bvh, 100.0, 200.0).is_empty());
}

#[test]
fn small_sets_stay_one_leaf() {
    let bvh = Bvh::from(vec![1.0f32, 2.0], &enclose, &plan, &key);
    assert_eq!(bvh.depth_value(), 0);
    assert_eq!(all_candidates(&bvh, 0.0, 5.0), vec![0, 1]);
}

#[test]
fn search_visits_second_child_first() {
    // The root splits at the mean 1.5 into the leaves [0, 1] and [3, 2];
    // the search takes the second child first, then each leaf in order.
    let bvh = Bvh::from(vec![0.0f32, 1.0, 2.0, 3.0], &enclose, &plan, &key);
    assert_eq!(bvh.depth_value(), 1);
    assert_eq!(all_candidates(&bvh, f32::NEG_INFINITY, f32::INFINITY), vec![3, 2, 0, 1]);
    assert_eq!(all_candidates(&bvh, 2.5, 5.0), vec![3, 2]);
}

#[test]
fn search_stays_done_after_none() {
    let points = line(10);
    let at_three = points.iter().position(|x| *x == 3.0).unwrap();
    let bvh = Bvh::from(points, &enclose, &plan, &key);
    let mut it = bvh.hit_candidates(|b: &(f32, f32)| b.1 >= 3.0 && b.0 <= 3.0);
    let mut found = Vec::new();
    while let Some(c) = it.next() {
        found.push(c.object_index);
    }
    assert!(found.contains(&at_three));
    let mut sorted = found.clone();
    sorted.sort();
    sorted.dedup();
    assert_eq!(sorted.len(), found.len());
    assert!(it.next().is_none());
    assert!(it.next().is_none());
}
