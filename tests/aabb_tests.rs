use rigid_physics::aabb::{Vec3, AABB};

fn fx(v: f32) -> i32 {
    (v * 1000.0).round() as i32
}

fn point(x: f32, y: f32, z: f32) -> Vec3 {
    Vec3::new(fx(x), fx(y), fx(z))
}

#[test]
fn test_aabb_intersect() {
    let b1 = AABB::new(point(0.0, 0.0, 0.0), point(1.0, 1.0, 1.0));
    let b2 = b1;
    let expected = true;
    assert_eq!(b1.intersect(&b2), expected);

    let b1 = AABB::new(point(0.0, 0.0, 0.0), point(1.0, 1.0, 1.0));
    let b2 = AABB::new(point(1.5, 1.5, 1.5), point(0.5, 0.5, 0.5));
    let expected = false;
    assert_eq!(b1.intersect(&b2), expected);

    let b1 = AABB::new(point(0.0, 0.0, 0.0), point(1.0, 1.0, 1.0));
    let b2 = AABB::new(point(1.5, 1.5, 1.5), point(0.6, 0.6, 0.6));
    let expected = true;
    assert_eq!(b1.intersect(&b2), expected);

    let b1 = AABB::new(point(0.0, 0.0, 0.0), point(1.0, 1.0, 1.0));
    let b2 = AABB::new(point(2.0, 0.0, 0.0), point(0.5, 0.5, 0.5));
    let expected = false;
    assert_eq!(b1.intersect(&b2), expected);

    let b1 = AABB::new(point(0.0, 0.0, 0.0), point(1.0, 1.0, 1.0));
    let b2 = AABB::new(point(0.0, 2.0, 0.0), point(0.5, 0.5, 0.5));
    let expected = false;
    assert_eq!(b1.intersect(&b2), expected);

    let b1 = AABB::new(point(0.0, 0.0, 0.0), point(1.0, 1.0, 1.0));
    let b2 = AABB::new(point(0.0, 0.0, 3.0), point(0.5, 0.5, 0.5));
    let expected = false;
    assert_eq!(b1.intersect(&b2), expected);

    let b1 = AABB::new(point(0.0, 0.0, 0.0), point(1.0, 1.0, 1.0));
    let b2 = AABB::new(point(0.0, 0.0, -3.0), point(0.5, 0.5, 0.5));
    let expected = false;
    assert_eq!(b1.intersect(&b2), expected);
}

#[test]
fn test_aabb_merge() {
    let b1 = AABB::new(point(0.0, 0.0, 0.0), point(1.0, 1.0, 1.0));
    let b2 = b1;
    let expected = b1;
    assert_eq!(b1.merge(&b2), expected);

    let b1 = AABB::new(point(0.0, 0.0, 0.0), point(1.0, 1.0, 1.0));
    let b2 = AABB::new(point(1.5, 1.5, 1.5), point(0.5, 0.5, 0.5));
    let expected = AABB::new(point(0.5, 0.5, 0.5), point(1.5, 1.5, 1.5));
    assert_eq!(b1.merge(&b2), expected);

    let b1 = AABB::new(point(1.0, 2.0, 3.0), point(10.0, 8.0, 9.0));
    let b2 = AABB::new(point(4.0, 3.0, 1.0), point(1.0, 2.0, 1.0));
    let expected = b1;
    assert_eq!(b1.merge(&b2), expected);
    assert_eq!(b2.merge(&b1), expected);
}

#[test]
fn test_aabb_expand() {
    let b = AABB::new(point(0.0, 0.0, 0.0), point(1.0, 1.0, 1.0));
    let p = point(0.0, 0.0, 0.0);
    let expected = b;
    assert_eq!(b.expand(&p), expected);

    let b = AABB::new(point(0.0, 0.0, 0.0), point(1.0, 1.0, 1.0));
    let p = point(2.0, 1.5, -1.5);
    let expected = AABB::new_min_max(point(-1.0, -1.0, -1.5), point(2.0, 1.5, 1.0));
    assert_eq!(b.expand(&p), expected);
}

fn corners(b: &AABB) -> Vec<Vec3> {
    let mut v = Vec::new();
    for &x in &[b.min.x, b.max.x] {
        for &y in &[b.min.y, b.max.y] {
            for &z in &[b.min.z, b.max.z] {
                v.push(Vec3::new(x, y, z));
            }
        }
    }
    v
}

fn inside(b: &AABB, p: &Vec3) -> bool {
    b.min.x <= p.x && p.x <= b.max.x && b.min.y <= p.y && p.y <= b.max.y && b.min.z <= p.z && p.z <= b.max.z
}

#[test]
fn merge_is_idempotent_and_contains_both_corners() {
    let boxes = [
        AABB::new(point(0.0, 0.0, 0.0), point(1.0, 1.0, 1.0)),
        AABB::new(point(-3.0, 2.0, 0.5), point(0.25, 4.0, 1.0)),
        AABB::new(point(10.0, -10.0, 5.0), point(2.0, 2.0, 0.1)),
        AABB::new(point(0.5, 0.5, 0.5), point(0.5, 0.5, 0.5)),
    ];
    for a in &boxes {
        assert_eq!(a.merge(a), *a);
        for b in &boxes {
            let m = a.merge(b);
            for c in corners(a).iter().chain(corners(b).iter()) {
                assert!(inside(&m, c));
            }
            assert_eq!(m, b.merge(a));
        }
    }
}

#[test]
fn expand_mut_only_grows() {
    let mut b = AABB::new(point(0.0, 0.0, 0.0), point(1.0, 1.0, 1.0));
    b.expand_mut(&point(0.5, -0.5, 0.0));
    assert_eq!(b, AABB::new(point(0.0, 0.0, 0.0), point(1.0, 1.0, 1.0)));
    b.expand_mut(&point(-3.0, 0.0, 2.0));
    assert_eq!(b, AABB::new_min_max(point(-3.0, -1.0, -1.0), point(1.0, 1.0, 2.0)));
}

#[test]
fn volume_is_product_of_extents() {
    let b = AABB::new_min_max(Vec3::new(-1, 0, 2), Vec3::new(3, 5, 8));
    assert_eq!(b.volume(), 4 * 5 * 6);
    let big = AABB::new_min_max(
        Vec3::new(i32::MIN, i32::MIN, i32::MIN),
        Vec3::new(i32::MAX, i32::MAX, i32::MAX),
    );
    let side = (i32::MAX as i128) - (i32::MIN as i128);
    assert_eq!(big.volume(), side * side * side);
}

#[test]
fn touching_boxes_do_not_intersect() {
    let a = AABB::new(point(0.0, 0.0, 0.0), point(1.0, 1.0, 1.0));
    let b = AABB::new(point(2.0, 0.0, 0.0), point(1.0, 1.0, 1.0));
    assert!(!a.intersect(&b));
    assert!(!b.intersect(&a));
    let c = AABB::new(point(1.999, 0.0, 0.0), point(1.0, 1.0, 1.0));
    assert!(a.intersect(&c));
    assert!(c.intersect(&a));
}
