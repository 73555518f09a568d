use rt::aabb::{Corner, AABB};
use rt::scene::{build_bvh, build_scene, Node, Scene};

fn cube(x: u32, y: u32, z: u32) -> AABB {
    AABB::new(Corner::new(x, y, z), Corner::new(x + 3, y + 3, z + 3))
}

fn boxes(n: usize) -> Vec<AABB> {
    (0..n as u32)
        .map(|i| cube((i * 37) % 50, (i * 11) % 23, (i * 5) % 7))
        .collect()
}

/// Distances of the hits: `None` for a primitive that is missed.
fn hits(n: usize, seed: u32) -> Vec<Option<u32>> {
    (0..n as u32)
        .map(|i| {
            let v = (i + 1).wrapping_mul(2654435761).wrapping_add(seed) % 1000;
            if v % 3 == 0 {
                None
            } else {
                Some(v)
            }
        })
        .collect()
}

fn leaves(scene: &Scene, i: usize) -> Vec<usize> {
    match &scene.nodes[i] {
        Node::Leaf(p) => vec![*p],
        Node::List(ps) => ps.clone(),
        Node::Branch { left, right, .. } => {
            let mut v = leaves(scene, *left);
            if let Some(r) = right {
                v.extend(leaves(scene, *r));
            }
            v
        }
    }
}

fn search(scene: &Scene, hit: &[Option<u32>], hi: u32, prune: bool) -> Option<(usize, u32)> {
    let leaf = |p: usize, h: u32| match hit[p] {
        Some(d) if d < h => Some(d),
        _ => None,
    };
    // An exact box test: a node is entered only if something below it hits in range.
    let enter = |i: usize, h: u32| {
        !prune || leaves(scene, i).iter().any(|p| matches!(hit[*p], Some(d) if d < h))
    };
    scene.intersect(&leaf, &enter, hi)
}

fn brute_force(hit: &[Option<u32>], hi: u32) -> Option<u32> {
    hit.iter().filter_map(|d| *d).filter(|d| *d < hi).min()
}

#[test]
fn hierarchy_matches_linear_scan() {
    for n in [1usize, 2, 3, 10, 11, 57, 200] {
        for seed in 0..4u32 {
            let b = boxes(n);
            let hit = hits(n, seed);
            let bvh = build_bvh(&b);
            let flat = build_scene(&b[..n.min(10)].to_vec());
            for hi in [0u32, 1, 250, 500, 1000, u32::MAX] {
                let expected = brute_force(&hit, hi);
                for prune in [false, true] {
                    let found = search(&bvh, &hit, hi, prune);
                    assert_eq!(found.map(|(_, t)| t), expected);
                    if let Some((p, t)) = found {
                        assert_eq!(hit[p], Some(t));
                    }
                }
                if n <= 10 {
                    let scanned = search(&flat, &hit, hi, false);
                    assert_eq!(scanned.map(|(_, t)| t), expected);
                }
            }
        }
    }
}

#[test]
fn miss_everything() {
    let b = boxes(20);
    let hit = vec![None; 20];
    let scene = build_scene(&b);
    assert_eq!(search(&scene, &hit, u32::MAX, true), None);
}

#[test]
fn equal_distances_report_the_shared_distance() {
    let b = boxes(15);
    let hit = vec![Some(42); 15];
    let scene = build_scene(&b);
    let (p, t) = search(&scene, &hit, 100, true).unwrap();
    assert!(p < 15);
    assert_eq!(t, 42);
    assert_eq!(search(&scene, &hit, 42, true), None);
}

#[test]
fn list_keeps_first_of_equal_hits() {
    let b = boxes(3);
    let hit = vec![Some(7), Some(3), Some(3)];
    let scene = build_scene(&b);
    assert_eq!(search(&scene, &hit, 10, false), Some((1, 3)));
}

#[test]
fn rejected_root_box_hides_everything() {
    let b = boxes(12);
    let hit = vec![Some(5); 12];
    let scene = build_scene(&b);
    let leaf = |p: usize, h: u32| match hit[p] {
        Some(d) if d < h => Some(d),
        _ => None,
    };
    assert_eq!(scene.intersect(&leaf, &|_i: usize, _h: u32| false, 100), None);
}
