use rigid_physics::aabb::{Vec3, AABB};
use rigid_physics::bvh::BVH;

/// Fixed-point thousandths of a world unit.
fn fx(v: f32) -> i32 {
    (v * 1000.0).round() as i32
}

fn point(x: f32, y: f32, z: f32) -> Vec3 {
    Vec3::new(fx(x), fx(y), fx(z))
}

fn boxed(center: Vec3, radii: Vec3) -> AABB {
    AABB::new(center, radii)
}

fn overlaps(bvh: &BVH) -> Vec<(u64, u64)> {
    let mut contacts = Vec::new();
    bvh.get_overlaps(&mut contacts);
    contacts
}

#[test]
fn test_bvh() {
    let mut bvh = BVH::new();
    bvh.insert(0, boxed(point(0.0, 0.0, 0.0), point(1.0, 1.0, 1.0)));
    bvh.insert(1, boxed(point(1.5, 0.0, 0.0), point(1.0, 1.0, 1.0)));
    {
        let contacts = overlaps(&bvh);
        let mut iter = contacts.iter();
        assert_eq!(iter.next().unwrap(), &(0, 1));
        assert_eq!(iter.next(), None);
    }
    bvh.insert(2, boxed(point(4.0, 0.0, 0.0), point(0.5, 0.5, 0.5)));
    {
        let contacts = overlaps(&bvh);
        let mut iter = contacts.iter();
        assert_eq!(iter.next().unwrap(), &(0, 1));
        assert_eq!(iter.next(), None);
    }
    bvh.insert(3, boxed(point(4.0, 1.0, 0.0), point(1.0, 1.0, 1.0)));
    {
        let contacts = overlaps(&bvh);
        let mut iter = contacts.iter();
        assert_eq!(iter.next().unwrap(), &(0, 1));
        assert_eq!(iter.next().unwrap(), &(2, 3));
        assert_eq!(iter.next(), None);
    }
}

#[test]
fn test_bvh_insert() {
    let mut bvh = BVH::new();
    let leaf1_id = bvh.insert(0, boxed(point(0.0, 0.0, 0.0), point(1.0, 1.0, 1.0)));
    let leaf2_id = bvh.insert(1, boxed(point(1.5, 0.0, 0.0), point(1.0, 1.0, 1.0)));
    {
        let contacts = overlaps(&bvh);
        let mut iter = contacts.iter();
        assert_eq!(iter.next().unwrap(), &(0, 1));
        assert_eq!(iter.next(), None);
    }
    let leaf3_id = bvh.insert(2, boxed(point(4.0, 0.0, 0.0), point(0.5, 0.5, 0.5)));
    {
        let contacts = overlaps(&bvh);
        let mut iter = contacts.iter();
        assert_eq!(iter.next().unwrap(), &(0, 1));
        assert_eq!(iter.next(), None);
    }
    let leaf4_id = bvh.insert(3, boxed(point(4.0, 1.0, 0.0), point(1.0, 1.0, 1.0)));
    {
        let contacts = overlaps(&bvh);
        let mut iter = contacts.iter();
        assert_eq!(iter.next().unwrap(), &(0, 1));
        assert_eq!(iter.next().unwrap(), &(2, 3));
        assert_eq!(iter.next(), None);
    }

    let leaf2_data = bvh.remove(leaf2_id).unwrap();
    assert_eq!(leaf2_data, 1);
    {
        let contacts = overlaps(&bvh);
        let mut iter = contacts.iter();
        assert_eq!(iter.next().unwrap(), &(2, 3));
        assert_eq!(iter.next(), None);
    }
    let _leaf2_id = bvh.insert(1, boxed(point(1.5, 0.0, 0.0), point(1.0, 1.0, 1.0)));
    {
        let contacts = overlaps(&bvh);
        let mut iter = contacts.iter();
        assert_eq!(iter.next().unwrap(), &(0, 1));
        assert_eq!(iter.next().unwrap(), &(2, 3));
        assert_eq!(iter.next(), None);
    }

    let leaf1_data = bvh.remove(leaf1_id).unwrap();
    assert_eq!(leaf1_data, 0);
    {
        let contacts = overlaps(&bvh);
        let mut iter = contacts.iter();
        assert_eq!(iter.next().unwrap(), &(2, 3));
        assert_eq!(iter.next(), None);
    }

    let leaf4_data = bvh.remove(leaf4_id).unwrap();
    assert_eq!(leaf4_data, 3);
    {
        let contacts = overlaps(&bvh);
        let mut iter = contacts.iter();
        assert_eq!(iter.next(), None);
    }

    let leaf3_data = bvh.remove(leaf3_id).unwrap();
    assert_eq!(leaf3_data, 2);
    {
        let contacts = overlaps(&bvh);
        let mut iter = contacts.iter();
        assert_eq!(iter.next(), None);
    }
    assert_eq!(bvh.len(), 1);
    let _leaf1_id = bvh.insert(0, boxed(point(0.0, 0.0, 0.0), point(1.0, 1.0, 1.0)));
    {
        let contacts = overlaps(&bvh);
        let mut iter = contacts.iter();
        assert_eq!(iter.next().unwrap(), &(1, 0));
        assert_eq!(iter.next(), None);
    }
}

/// A small deterministic generator for box layouts.
fn next(seed: &mut u64) -> u64 {
    *seed = seed.wrapping_mul(6364136223846793005).wrapping_add(1442695040888963407);
    *seed >> 33
}

fn random_box(seed: &mut u64) -> AABB {
    let c = Vec3::new(
        (next(seed) % 20000) as i32 - 10000,
        (next(seed) % 20000) as i32 - 10000,
        (next(seed) % 20000) as i32 - 10000,
    );
    let r = Vec3::new(
        (next(seed) % 3000) as i32 + 1,
        (next(seed) % 3000) as i32 + 1,
        (next(seed) % 3000) as i32 + 1,
    );
    AABB::new(c, r)
}

fn normalized(pairs: &[(u64, u64)]) -> Vec<(u64, u64)> {
    let mut v: Vec<(u64, u64)> = pairs.iter().map(|&(a, b)| if a < b { (a, b) } else { (b, a) }).collect();
    v.sort();
    v
}

fn brute_force(boxes: &[(u64, AABB)]) -> Vec<(u64, u64)> {
    let mut v = Vec::new();
    for i in 0..boxes.len() {
        for j in (i + 1)..boxes.len() {
            if boxes[i].1.intersect(&boxes[j].1) {
                v.push((boxes[i].0, boxes[j].0));
            }
        }
    }
    normalized(&v)
}

#[test]
fn overlaps_match_brute_force_after_inserts_and_removals() {
    let mut seed = 7u64;
    let mut bvh = BVH::new();
    let mut live: Vec<(u64, AABB, (usize, u64))> = Vec::new();
    for data in 0..60u64 {
        let b = random_box(&mut seed);
        let id = bvh.insert(data, b);
        live.push((data, b, id));
    }
    for round in 0..4 {
        let boxes: Vec<(u64, AABB)> = live.iter().map(|&(d, b, _)| (d, b)).collect();
        let got = overlaps(&bvh);
        let sorted = normalized(&got);
        let mut dedup = sorted.clone();
        dedup.dedup();
        assert_eq!(dedup.len(), got.len(), "a pair was reported twice");
        assert_eq!(sorted, brute_force(&boxes));
        // take out every third leaf, then add fresh ones
        let mut kept = Vec::new();
        for (i, entry) in live.iter().enumerate() {
            if i % 3 == round % 3 {
                assert_eq!(bvh.remove(entry.2), Some(entry.0));
            } else {
                kept.push(*entry);
            }
        }
        live = kept;
        for k in 0..10u64 {
            let data = 100 * (round as u64 + 1) + k;
            let b = random_box(&mut seed);
            let id = bvh.insert(data, b);
            live.push((data, b, id));
        }
        assert_eq!(bvh.len(), live.len());
    }
}

#[test]
fn removing_every_leaf_in_any_order_empties_the_tree() {
    let mut seed = 11u64;
    let mut bvh = BVH::new();
    let mut ids = Vec::new();
    for data in 0..25u64 {
        ids.push((data, bvh.insert(data, random_box(&mut seed))));
    }
    // remove in an interleaved order
    let order: Vec<usize> = (0..25).map(|i| (i * 7) % 25).collect();
    for &i in &order {
        assert_eq!(bvh.remove(ids[i].1), Some(ids[i].0));
    }
    assert!(bvh.is_empty());
    assert_eq!(bvh.len(), 0);
    assert!(overlaps(&bvh).is_empty());
    // the tree is usable again afterwards
    let a = bvh.insert(1, boxed(point(0.0, 0.0, 0.0), point(1.0, 1.0, 1.0)));
    let _b = bvh.insert(2, boxed(point(0.5, 0.0, 0.0), point(1.0, 1.0, 1.0)));
    assert_eq!(overlaps(&bvh), vec![(1, 2)]);
    assert_eq!(bvh.remove(a), Some(1));
    assert!(overlaps(&bvh).is_empty());
}

#[test]
fn stale_or_unknown_handles_are_ignored() {
    let mut bvh = BVH::new();
    assert_eq!(bvh.remove((0, 0)), None);
    let a = bvh.insert(5, boxed(point(0.0, 0.0, 0.0), point(1.0, 1.0, 1.0)));
    let b = bvh.insert(6, boxed(point(3.0, 0.0, 0.0), point(1.0, 1.0, 1.0)));
    assert_eq!(bvh.remove(a), Some(5));
    assert_eq!(bvh.remove(a), None);
    // the slot of `a` is reused, the old handle stays invalid
    let c = bvh.insert(7, boxed(point(3.5, 0.0, 0.0), point(1.0, 1.0, 1.0)));
    assert_eq!(bvh.remove(a), None);
    assert_eq!(bvh.len(), 2);
    assert_eq!(overlaps(&bvh), vec![(6, 7)]);
    assert_eq!(bvh.remove(c), Some(7));
    assert_eq!(bvh.remove(b), Some(6));
    assert!(bvh.is_empty());
}

#[test]
fn touching_leaves_are_not_reported() {
    let mut bvh = BVH::new();
    bvh.insert(1, boxed(point(0.0, 0.0, 0.0), point(1.0, 1.0, 1.0)));
    bvh.insert(2, boxed(point(2.0, 0.0, 0.0), point(1.0, 1.0, 1.0)));
    assert!(overlaps(&bvh).is_empty());
}
