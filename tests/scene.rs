use rt::aabb::{Corner, AABB};
use rt::scene::{build_bvh, build_scene, Node, Scene, BVH_THRESHOLD};

fn cube(x: u32, y: u32, z: u32) -> AABB {
    AABB::new(Corner::new(x, y, z), Corner::new(x + 2, y + 2, z + 2))
}

fn leaves(scene: &Scene, i: usize) -> Vec<usize> {
    match &scene.nodes[i] {
        Node::Leaf(p) => vec![*p],
        Node::List(ps) => ps.clone(),
        Node::Branch { left, right, .. } => {
            assert!(*left < i);
            let mut v = leaves(scene, *left);
            if let Some(r) = right {
                assert!(*r < i);
                v.extend(leaves(scene, *r));
            }
            v
        }
    }
}

fn check_bvh(scene: &Scene, i: usize, keys: &[AABB]) {
    match &scene.nodes[i] {
        Node::Branch { left, right, axis } => {
            assert!(*axis < 3);
            match right {
                None => assert!(matches!(scene.nodes[*left], Node::Leaf(_))),
                Some(r) => {
                    let lv = leaves(scene, *left);
                    let rv = leaves(scene, *r);
                    let count = lv.len() + rv.len();
                    assert_eq!(lv.len(), count / 2);
                    for a in &lv {
                        for b in &rv {
                            assert!(keys[*a].min.get(*axis) <= keys[*b].min.get(*axis));
                        }
                    }
                    if count == 2 {
                        assert!(matches!(scene.nodes[*left], Node::Leaf(_)));
                        assert!(matches!(scene.nodes[*r], Node::Leaf(_)));
                    } else {
                        check_bvh(scene, *left, keys);
                        check_bvh(scene, *r, keys);
                    }
                }
            }
        }
        _ => panic!("a hierarchy node was expected"),
    }
}

fn scattered_keys(n: usize) -> Vec<AABB> {
    (0..n)
        .map(|i| {
            let i = i as u32;
            cube((i * 7919) % 101, (i * 104729) % 37, 1000 - i)
        })
        .collect()
}

/// Checks each node's box against the boxes of the primitives it reaches.
fn check_bounds(scene: &Scene, keys: &[AABB]) {
    assert_eq!(scene.bounds.len(), scene.nodes.len());
    for i in 0..scene.nodes.len() {
        let reached = leaves(scene, i);
        match scene.bounds[i] {
            None => assert!(reached.is_empty()),
            Some(b) => {
                assert!(!reached.is_empty());
                let lo = |f: fn(&Corner) -> u32| reached.iter().map(|p| f(&keys[*p].min)).min().unwrap();
                let hi = |f: fn(&Corner) -> u32| reached.iter().map(|p| f(&keys[*p].max)).max().unwrap();
                assert_eq!(b.min, Corner::new(lo(|c| c.x), lo(|c| c.y), lo(|c| c.z)));
                assert_eq!(b.max, Corner::new(hi(|c| c.x), hi(|c| c.y), hi(|c| c.z)));
            }
        }
    }
}

#[test]
fn small_scene_is_flat_list() {
    let keys = scattered_keys(5);
    let scene = build_scene(&keys);
    assert_eq!(scene.nodes.len(), 1);
    assert_eq!(scene.root, 0);
    match &scene.nodes[0] {
        Node::List(ps) => assert_eq!(ps, &vec![0, 1, 2, 3, 4]),
        _ => panic!("a flat list was expected"),
    }
    check_bounds(&scene, &keys);
}

#[test]
fn threshold_scene_is_flat_list() {
    let keys = scattered_keys(BVH_THRESHOLD);
    let scene = build_scene(&keys);
    assert!(matches!(scene.nodes[scene.root], Node::List(_)));
    assert_eq!(leaves(&scene, scene.root), (0..BVH_THRESHOLD).collect::<Vec<_>>());
}

#[test]
fn empty_scene_is_empty_list() {
    let scene = build_scene(&Vec::new());
    assert!(leaves(&scene, scene.root).is_empty());
    assert!(scene.bounding_box().is_none());
}

#[test]
fn large_scene_is_hierarchy_over_every_primitive() {
    for n in [11usize, 12, 17, 64, 200] {
        let keys = scattered_keys(n);
        let scene = build_scene(&keys);
        assert_eq!(scene.root, scene.nodes.len() - 1);
        let mut reached = leaves(&scene, scene.root);
        reached.sort();
        assert_eq!(reached, (0..n).collect::<Vec<_>>());
        check_bvh(&scene, scene.root, &keys);
        check_bounds(&scene, &keys);
    }
}

#[test]
fn single_primitive_hierarchy() {
    let scene = build_bvh(&vec![cube(3, 4, 5)]);
    assert_eq!(scene.nodes.len(), 2);
    assert!(matches!(scene.nodes[0], Node::Leaf(0)));
    match &scene.nodes[1] {
        Node::Branch { left, right, .. } => {
            assert_eq!(*left, 0);
            assert!(right.is_none());
            assert_eq!(scene.bounding_box(), Some(cube(3, 4, 5)));
        }
        _ => panic!("a hierarchy node was expected"),
    }
}

#[test]
fn pair_is_ordered_by_key() {
    // Ordered the same way on every axis, so the random axis does not matter.
    let keys = vec![cube(9, 9, 9), cube(1, 1, 1)];
    let scene = build_bvh(&keys);
    assert_eq!(scene.nodes.len(), 3);
    match &scene.nodes[scene.root] {
        Node::Branch { left, right: Some(r), .. } => {
            assert!(matches!(scene.nodes[*left], Node::Leaf(1)));
            assert!(matches!(scene.nodes[*r], Node::Leaf(0)));
        }
        _ => panic!("a two-child node was expected"),
    }
}

#[test]
fn equal_keys_pair_keeps_both() {
    let keys = vec![cube(2, 2, 2), cube(2, 2, 2)];
    let scene = build_bvh(&keys);
    let mut reached = leaves(&scene, scene.root);
    reached.sort();
    assert_eq!(reached, vec![0, 1]);
}

#[test]
fn equal_keys_large_scene() {
    let keys = vec![cube(5, 5, 5); 23];
    let scene = build_scene(&keys);
    let mut reached = leaves(&scene, scene.root);
    reached.sort();
    assert_eq!(reached, (0..23).collect::<Vec<_>>());
    check_bvh(&scene, scene.root, &keys);
    check_bounds(&scene, &keys);
    assert_eq!(scene.bounding_box(), Some(cube(5, 5, 5)));
}
