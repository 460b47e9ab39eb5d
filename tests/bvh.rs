use std::cmp::Ordering;

use raytracer::bvh::{box_compare, BoxKey, BvhChild, BvhNode};
use raytracer::rtweekend::random_int_min_max;

fn key(x: i64, y: i64, z: i64) -> BoxKey {
    BoxKey { x, y, z }
}

fn leaves(c: &BvhChild, out: &mut Vec<usize>) {
    match c {
        BvhChild::Leaf(i) => out.push(*i),
        BvhChild::Node(n) => {
            leaves(&n.left, out);
            leaves(&n.right, out);
        }
    }
}

fn node_leaves(n: &BvhNode) -> (Vec<usize>, Vec<usize>) {
    let mut l = vec![];
    let mut r = vec![];
    leaves(&n.left, &mut l);
    leaves(&n.right, &mut r);
    (l, r)
}

// Each node splits its primitives on some axis: every key on the left is at most every
// key on the right.
fn check_partitioned(n: &BvhNode, keys: &[BoxKey]) {
    let (l, r) = node_leaves(n);
    let split = (0..3).any(|axis| {
        l.iter()
            .all(|&a| r.iter().all(|&b| keys[a].axis(axis) <= keys[b].axis(axis)))
    });
    assert!(split);
    for c in [&n.left, &n.right] {
        if let BvhChild::Node(sub) = c {
            check_partitioned(sub, keys);
        }
    }
}

#[test]
fn axis_picks_a_component() {
    let k = key(1, 2, 3);
    assert_eq!(k.axis(0), 1);
    assert_eq!(k.axis(1), 2);
    assert_eq!(k.axis(2), 3);
    assert_eq!(k.axis(7), 1);
    assert_eq!(k.axis(-1), 1);
}

#[test]
fn box_compare_orders_by_the_axis_minimum() {
    let a = key(0, 5, -3);
    let b = key(1, 4, -3);
    assert_eq!(box_compare(&a, &b, 0), Ordering::Less);
    assert_eq!(box_compare(&b, &a, 0), Ordering::Greater);
    assert_eq!(box_compare(&a, &b, 1), Ordering::Greater);
    assert_eq!(box_compare(&b, &a, 1), Ordering::Less);
    // Equal minima compare as greater either way.
    assert_eq!(box_compare(&a, &b, 2), Ordering::Greater);
    assert_eq!(box_compare(&b, &a, 2), Ordering::Greater);
}

#[test]
fn random_int_stays_in_range() {
    for _ in 0..1000 {
        let r = random_int_min_max(0, 2);
        assert!((0..=2).contains(&r));
    }
    assert_eq!(random_int_min_max(5, 5), 5);
    assert_eq!(random_int_min_max(i32::MIN, i32::MIN), i32::MIN);
}

#[test]
fn from_list_of_nothing_is_none() {
    assert!(BvhNode::from_list(&vec![]).is_none());
}

#[test]
fn from_list_of_one_holds_it_twice() {
    let node = BvhNode::from_list(&vec![key(3, 3, 3)]).unwrap();
    assert!(matches!(node.left, BvhChild::Leaf(0)));
    assert!(matches!(node.right, BvhChild::Leaf(0)));
}

#[test]
fn from_list_of_two_orders_them() {
    // The second box lies below the first on every axis, so whatever the axis it goes left.
    let node = BvhNode::from_list(&vec![key(5, 5, 5), key(1, 1, 1)]).unwrap();
    assert!(matches!(node.left, BvhChild::Leaf(1)));
    assert!(matches!(node.right, BvhChild::Leaf(0)));
}

#[test]
fn new_on_a_pair_leaves_the_range_alone() {
    let keys = vec![key(0, 0, 0), key(9, 9, 9), key(4, 4, 4)];
    let mut objects = vec![1, 2, 0];
    let node = BvhNode::new(&mut objects, &keys, 0, 2);
    assert_eq!(objects, vec![1, 2, 0]);
    assert!(matches!(node.left, BvhChild::Leaf(2)));
    assert!(matches!(node.right, BvhChild::Leaf(1)));
}

#[test]
fn new_sorts_and_halves_a_range() {
    let keys: Vec<BoxKey> = (0..5).map(|i| key(10 - i, 20 - i, 30 - i)).collect();
    let mut objects = vec![7, 0, 1, 2, 3, 4, 7];
    let node = BvhNode::new(&mut objects, &keys[..].to_vec(), 1, 6);
    // Outside the range nothing moves; inside, the primitives are sorted on every axis alike.
    assert_eq!(objects[0], 7);
    assert_eq!(objects[6], 7);
    assert_eq!(objects[1..6].to_vec(), vec![4, 3, 2, 1, 0]);
    let (l, r) = node_leaves(&node);
    // Five split as two and three; the two form a pair, the three split as one and two.
    assert_eq!(l, vec![4, 3]);
    assert_eq!(r, vec![2, 2, 1, 0]);
}

#[test]
fn from_list_covers_every_primitive() {
    for n in 1..40usize {
        let keys: Vec<BoxKey> = (0..n as i64)
            .map(|i| key((i * 7919) % 31, (i * 104729) % 17 - 8, -i))
            .collect();
        let node = BvhNode::from_list(&keys).unwrap();
        let (mut l, r) = node_leaves(&node);
        l.extend(r);
        l.sort();
        l.dedup();
        assert_eq!(l, (0..n).collect::<Vec<_>>());
        check_partitioned(&node, &keys);
    }
}
