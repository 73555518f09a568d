use rt::aabb::{Corner, AABB};
use rt::bounds::HittableList;

/// An integer that orders f32 values (other than NaN) as `<` does.
fn key(v: f32) -> u32 {
    let bits = v.to_bits();
    if bits & 0x8000_0000 != 0 {
        !bits
    } else {
        bits | 0x8000_0000
    }
}

fn corner(x: f32, y: f32, z: f32) -> Corner {
    Corner::new(key(x), key(y), key(z))
}

fn new_zeroes() -> Corner {
    corner(0.0, 0.0, 0.0)
}

#[test]
fn keys_keep_order() {
    let values = [-3.5f32, -1.0, -0.5, 0.0, 0.25, 1.0, 2.0, 100.0];
    for w in values.windows(2) {
        assert!(key(w[0]) < key(w[1]));
    }
}

#[test]
fn corner_index_syntax() {
    let c = Corner::new(7, 8, 9);
    assert_eq!(c.get(0), 7);
    assert_eq!(c.get(1), 8);
    assert_eq!(c.get(2), 9);
}

#[test]
fn merge() {
    let aabb1 = AABB::new(new_zeroes(), corner(1.0, 2.0, 3.0));
    let aabb2 = AABB::new(corner(-1.0, 0.0, 1.0), corner(-0.5, 2.0, 4.0));
    let expected_min = corner(-1.0, 0.0, 0.0);
    let expected_max = corner(1.0, 2.0, 4.0);

    let aabb = AABB::merge(&aabb1, &aabb2);
    assert_eq!(aabb.min, expected_min);
    assert_eq!(aabb.max, expected_max);
}

#[test]
fn merge_is_commutative() {
    let aabb1 = AABB::new(new_zeroes(), corner(1.0, 2.0, 3.0));
    let aabb2 = AABB::new(corner(-1.0, 0.0, 1.0), corner(-0.5, 2.0, 4.0));
    assert_eq!(AABB::merge(&aabb1, &aabb2), AABB::merge(&aabb2, &aabb1));
}

#[test]
fn merge_with_itself() {
    let aabb = AABB::new(corner(-2.0, 0.5, 1.0), corner(3.0, 2.5, 4.0));
    assert_eq!(AABB::merge(&aabb, &aabb), aabb);
}

#[test]
fn expand() {
    let aabb1 = AABB::new(new_zeroes(), corner(1.0, 2.0, 3.0));
    let aabb2 = AABB::new(corner(-1.0, 0.0, 1.0), corner(-0.5, 2.0, 4.0));
    let expected_min = corner(-1.0, 0.0, 0.0);
    let expected_max = corner(1.0, 2.0, 4.0);

    let mut aabb1_expand = aabb1;
    aabb1_expand.expand(&aabb2);

    let mut aabb2_expand = aabb2;
    aabb2_expand.expand(&aabb1);

    // Order does not matter.
    assert_eq!(aabb1_expand, aabb2_expand);
    assert_eq!(aabb1_expand.min, expected_min);
    assert_eq!(aabb1_expand.max, expected_max);
}

#[test]
fn hittable_bounding_box() {
    let bounds1 = AABB::new(new_zeroes(), corner(1.0, 1.0, 1.0));
    let bounds2 = AABB::new(corner(-1.0, 0.0, -1.0), corner(1.0, 2.0, 1.0));
    let boxes = vec![bounds1, bounds2];
    let combined_aabb = AABB::merge(&bounds1, &bounds2);
    let mut hit_list = HittableList::new();

    // No bounds yet.
    assert!(hit_list.bounding_box().is_none());

    // Bounds match the first object.
    hit_list.push(0, &boxes);
    assert_eq!(hit_list.bounding_box().unwrap(), bounds1);

    // Bounds are the combination of both.
    hit_list.push(1, &boxes);
    assert_eq!(hit_list.bounding_box().unwrap(), combined_aabb);
    assert_eq!(hit_list.len(), 2);
}

#[test]
fn list_from_vec_bounds_all_members() {
    let boxes = vec![
        AABB::new(Corner::new(5, 5, 5), Corner::new(6, 6, 6)),
        AABB::new(Corner::new(1, 9, 4), Corner::new(2, 10, 4)),
        AABB::new(Corner::new(3, 0, 7), Corner::new(8, 1, 9)),
    ];
    let list = HittableList::from_vec(vec![2, 0, 1], &boxes);
    assert_eq!(list.list, vec![2, 0, 1]);
    assert_eq!(
        list.bounding_box(),
        Some(AABB::new(Corner::new(1, 0, 4), Corner::new(8, 10, 9)))
    );
    let single = HittableList::from_vec(vec![1], &boxes);
    assert_eq!(single.bounding_box(), Some(boxes[1]));
    let empty = HittableList::from_vec(Vec::new(), &boxes);
    assert!(empty.bounding_box().is_none());
    assert_eq!(empty.len(), 0);
}

#[test]
fn with_capacity_is_empty() {
    let list = HittableList::with_capacity(8);
    assert_eq!(list.len(), 0);
    assert!(list.bounding_box().is_none());
}
