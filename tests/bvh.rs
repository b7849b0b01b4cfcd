use path_tracer::bvh::{AxisKeys, BvhNode};

fn leaves(node: &BvhNode, out: &mut Vec<usize>) {
    match node {
        BvhNode::Leaf(p) => out.push(*p),
        BvhNode::Branch { left, right, .. } => {
            leaves(left, out);
            leaves(right, out);
        }
    }
}

fn check_ordered(node: &BvhNode, keys: &[AxisKeys]) {
    if let BvhNode::Branch { axis, left, right } = node {
        assert!(*axis < 3);
        let mut l = Vec::new();
        let mut r = Vec::new();
        leaves(left, &mut l);
        leaves(right, &mut r);
        let lmax = l.iter().map(|p| keys[*p].on(*axis)).max().unwrap();
        let rmin = r.iter().map(|p| keys[*p].on(*axis)).min().unwrap();
        assert!(lmax <= rmin);
        check_ordered(left, keys);
        check_ordered(right, keys);
    }
}

fn k(x: u64, y: u64, z: u64) -> AxisKeys {
    AxisKeys { x, y, z }
}

#[test]
fn keys_by_axis() {
    let key = k(4, 5, 6);
    assert_eq!(key.on(0), 4);
    assert_eq!(key.on(1), 5);
    assert_eq!(key.on(2), 6);
}

#[test]
fn single_primitive_is_on_both_sides() {
    let keys = vec![k(1, 2, 3)];
    let node = BvhNode::from_hittable_list(&keys);
    match node {
        BvhNode::Branch { left, right, .. } => {
            assert!(matches!(*left, BvhNode::Leaf(0)));
            assert!(matches!(*right, BvhNode::Leaf(0)));
        }
        BvhNode::Leaf(_) => panic!("the root is a branch"),
    }
}

#[test]
fn two_primitives_are_ordered_along_the_axis() {
    let keys = vec![k(9, 9, 9), k(1, 1, 1)];
    let node = BvhNode::from_hittable_list(&keys);
    match node {
        BvhNode::Branch { left, right, .. } => {
            assert!(matches!(*left, BvhNode::Leaf(1)));
            assert!(matches!(*right, BvhNode::Leaf(0)));
        }
        BvhNode::Leaf(_) => panic!("the root is a branch"),
    }
}

#[test]
fn equal_keys_keep_both_primitives() {
    let keys = vec![k(3, 3, 3), k(3, 3, 3)];
    let node = BvhNode::from_hittable_list(&keys);
    let mut l = Vec::new();
    leaves(&node, &mut l);
    l.sort();
    assert_eq!(l, vec![0, 1]);
}

#[test]
fn every_primitive_is_reached() {
    let keys: Vec<AxisKeys> = (0..37u64).map(|i| k((i * 7) % 37, (i * 11) % 37, 36 - i)).collect();
    let node = BvhNode::from_hittable_list(&keys);
    let mut l = Vec::new();
    leaves(&node, &mut l);
    l.sort();
    l.dedup();
    assert_eq!(l, (0..37).collect::<Vec<usize>>());
    check_ordered(&node, &keys);
}

#[test]
fn subset_of_primitives() {
    let keys: Vec<AxisKeys> = (0..10u64).map(|i| k(10 - i, i, i * i)).collect();
    let objects = vec![8, 2, 5, 3, 9];
    let node = BvhNode::from_slice(&objects, &keys);
    let mut l = Vec::new();
    leaves(&node, &mut l);
    l.sort();
    l.dedup();
    assert_eq!(l, vec![2, 3, 5, 8, 9]);
    check_ordered(&node, &keys);
}

#[test]
fn three_primitives_split_one_and_two() {
    let keys = vec![k(5, 5, 5), k(1, 1, 1), k(3, 3, 3)];
    let node = BvhNode::from_hittable_list(&keys);
    match &node {
        BvhNode::Branch { left, right, .. } => {
            // The lowest key goes to the left half, alone on both its sides.
            let mut l = Vec::new();
            leaves(left, &mut l);
            assert_eq!(l, vec![1, 1]);
            let mut r = Vec::new();
            leaves(right, &mut r);
            assert_eq!(r, vec![2, 0]);
        }
        BvhNode::Leaf(_) => panic!("the root is a branch"),
    }
}

/// Traversal of the hierarchy as a renderer runs it, with exact primitive
/// queries: left side first, right side bounded by what the left found.
fn tree_hit(node: &BvhNode, dist: &[Option<u64>], bound: u64) -> Option<u64> {
    match node {
        BvhNode::Leaf(p) => dist[*p].filter(|t| *t <= bound),
        BvhNode::Branch { left, right, .. } => {
            let l = tree_hit(left, dist, bound);
            tree_hit(right, dist, l.unwrap_or(bound)).or(l)
        }
    }
}

fn list_hit(dist: &[Option<u64>], bound: u64) -> Option<u64> {
    let mut closest = bound;
    let mut found = None;
    for d in dist {
        if let Some(t) = d.filter(|t| *t <= closest) {
            closest = t;
            found = Some(t);
        }
    }
    found
}

#[test]
fn hierarchy_and_list_find_the_same_nearest_hit() {
    let n = 50u64;
    let keys: Vec<AxisKeys> = (0..n).map(|i| k((i * 17) % n, (i * 29) % n, (i * 31) % n)).collect();
    let node = BvhNode::from_hittable_list(&keys);
    for seed in 0..20u64 {
        let dist: Vec<Option<u64>> = (0..n)
            .map(|i| {
                let h = (i * 7919 + seed * 104729) % 97;
                if h % 3 == 0 { None } else { Some(h) }
            })
            .collect();
        for bound in [0u64, 5, 40, 96, u64::MAX] {
            assert_eq!(tree_hit(&node, &dist, bound), list_hit(&dist, bound));
        }
    }
    let none: Vec<Option<u64>> = vec![None; n as usize];
    assert_eq!(tree_hit(&node, &none, u64::MAX), None);
}

fn depth(node: &BvhNode) -> usize {
    match node {
        BvhNode::Leaf(_) => 0,
        BvhNode::Branch { left, right, .. } => 1 + depth(left).max(depth(right)),
    }
}

#[test]
fn hierarchy_splits_at_the_middle() {
    // 37 -> 19 -> 10 -> 5 -> 3 -> 2: six levels of branches.
    let keys: Vec<AxisKeys> = (0..37u64).map(|i| k(i, 36 - i, i % 5)).collect();
    let node = BvhNode::from_hittable_list(&keys);
    assert_eq!(depth(&node), 6);
    let one = BvhNode::from_hittable_list(&keys[..1].to_vec());
    assert_eq!(depth(&one), 1);
    let four = BvhNode::from_hittable_list(&keys[..4].to_vec());
    assert_eq!(depth(&four), 2);
}
