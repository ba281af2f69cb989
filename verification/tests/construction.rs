use kiddo::KdTree;
use rand::Rng;

fn n(num: f32) -> u32 {
    (num * 16384.0).round() as u32
}

fn n64(num: f64) -> u32 {
    (num * 16384.0).round() as u32
}

fn pt(coords: &[u32]) -> Vec<u32> {
    coords.to_vec()
}

fn fixture_16() -> Vec<(Vec<u32>, u32)> {
    vec![
        (vec![n(0.9), n(0.0), n(0.9), n(0.0)], 9),
        (vec![n(0.4), n(0.5), n(0.4), n(0.5)], 4),
        (vec![n(0.12), n(0.3), n(0.12), n(0.3)], 12),
        (vec![n(0.7), n(0.2), n(0.7), n(0.2)], 7),
        (vec![n(0.13), n(0.4), n(0.13), n(0.4)], 13),
        (vec![n(0.6), n(0.3), n(0.6), n(0.3)], 6),
        (vec![n(0.2), n(0.7), n(0.2), n(0.7)], 2),
        (vec![n(0.14), n(0.5), n(0.14), n(0.5)], 14),
        (vec![n(0.3), n(0.6), n(0.3), n(0.6)], 3),
        (vec![n(0.10), n(0.1), n(0.10), n(0.1)], 10),
        (vec![n(0.16), n(0.7), n(0.16), n(0.7)], 16),
        (vec![n(0.1), n(0.8), n(0.1), n(0.8)], 1),
        (vec![n(0.15), n(0.6), n(0.15), n(0.6)], 15),
        (vec![n(0.5), n(0.4), n(0.5), n(0.4)], 5),
        (vec![n(0.8), n(0.1), n(0.8), n(0.1)], 8),
        (vec![n(0.11), n(0.2), n(0.11), n(0.2)], 11),
    ]
}

fn issue_12_points() -> Vec<Vec<u32>> {
    let pts: Vec<[f64; 2]> = vec![
        [19.2023, 7.1812],
        [7.6427, 22.5779],
        [26.6314, 34.8920],
        [36.7890, 27.2663],
        [28.3226, 8.5047],
        [5.3914, 28.1360],
        [5.0978, 3.6814],
        [0.5114, 11.6552],
        [4.7981, 21.6210],
        [29.0030, 9.6799],
        [35.5580, 1.8891],
        [3.9160, 25.5702],
        [22.2497, 31.6140],
        [30.7110, 36.7514],
        [0.2828, 12.4298],
        [20.0206, 3.0635],
        [30.6153, 2.8582],
        [23.7179, 6.2048],
        [13.0438, 4.2319],
        [4.6433, 30.9660],
        [5.0588, 5.2028],
        [19.2023, 23.7406],
        [37.3171, 32.7523],
        [12.6957, 15.7080],
        [15.6001, 14.3995],
        [36.0203, 21.0366],
        [6.3956, 2.7644],
        [3.1719, 8.7039],
        [0.9159, 12.2299],
        [23.8157, 14.0699],
        [27.7757, 7.3597],
        [28.4198, 31.3427],
        [2.3290, 6.2364],
        [10.1126, 7.7009],
    ];
    pts.iter().map(|p| vec![n64(p[0]), n64(p[1])]).collect()
}

#[test]
fn can_add_an_item() {
    let mut tree = KdTree::new(4, 32);

    let point = pt(&[n(0.1), n(0.2), n(0.3), n(0.4)]);
    let item = 123;

    tree.add(&point, item);

    assert_eq!(tree.size(), 1);
}

#[test]
fn can_add_enough_items_to_cause_a_split() {
    let mut tree = KdTree::new(4, 4);

    for (point, item) in fixture_16() {
        tree.add(&point, item);
    }

    assert_eq!(tree.size(), 16);
}

#[test]
fn can_remove_an_item() {
    let mut tree = KdTree::new(4, 4);

    for (point, item) in fixture_16() {
        tree.add(&point, item);
    }

    assert_eq!(tree.size(), 16);

    let removed = tree.remove(&pt(&[n(0.9), n(0.0), n(0.9), n(0.0)]), 9);

    assert_eq!(removed, 1);
    assert_eq!(tree.size(), 15);
}

#[test]
fn can_add_shitloads_of_points() {
    let mut tree = KdTree::new(4, 5);

    let mut rng = rand::thread_rng();
    for i in 0..1000 {
        let point = vec![
            n(rng.gen_range(0f32..0.99998f32)),
            n(rng.gen_range(0f32..0.99998f32)),
            n(rng.gen_range(0f32..0.99998f32)),
            n(rng.gen_range(0f32..0.99998f32)),
        ];

        tree.add(&point, i);
    }

    assert_eq!(tree.size(), 1000);
}

#[test]
fn can_add_shitloads_of_random_points() {
    fn rand_data_2d() -> (Vec<u32>, u32) {
        let (coords, item) = rand::random::<([f64; 2], u32)>();
        (vec![n64(coords[0]), n64(coords[1])], item)
    }

    let points_to_add: Vec<(Vec<u32>, u32)> = (0..100_000).map(|_| rand_data_2d()).collect();

    let mut points = vec![];
    let mut kdtree = KdTree::with_capacity(2, 32, 200_000);
    for _ in 0..100_000 {
        points.push(rand_data_2d());
    }
    for i in 0..points.len() {
        kdtree.add(&points[i].0, points[i].1);
    }

    points_to_add.iter().for_each(|point| kdtree.add(&point.0, point.1));
}

#[test]
fn test_can_handle_remove_edge_case_from_issue_12() {
    let pts = issue_12_points();

    let mut tree = KdTree::new(2, 32);

    for (i, p) in pts.iter().enumerate() {
        tree.add(p, i as u32);
    }

    assert_eq!(tree.remove(&pts[0], 0), 1);
}

#[test]
fn remove_decrements_size_on_regression_fixture() {
    let pts = issue_12_points();

    let mut tree = KdTree::new(2, 32);

    for (i, p) in pts.iter().enumerate() {
        tree.add(p, i as u32);
    }
    assert_eq!(tree.size(), 34);

    assert_eq!(tree.remove(&pts[0], 0), 1);
    assert_eq!(tree.size(), 33);
}

#[test]
fn removing_an_absent_pair_returns_zero() {
    let mut tree = KdTree::new(4, 4);
    for (point, item) in fixture_16() {
        tree.add(&point, item);
    }

    // right point, wrong item
    assert_eq!(tree.remove(&pt(&[n(0.9), n(0.0), n(0.9), n(0.0)]), 77), 0);
    // absent point
    assert_eq!(tree.remove(&pt(&[n(0.42), n(0.42), n(0.42), n(0.42)]), 9), 0);
    assert_eq!(tree.size(), 16);
}

#[test]
fn duplicate_pairs_are_stored_and_removed_together() {
    let mut tree = KdTree::new(2, 4);
    let p = pt(&[100, 200]);
    tree.add(&p, 7);
    tree.add(&p, 7);
    tree.add(&p, 8);
    assert_eq!(tree.size(), 3);

    assert_eq!(tree.remove(&p, 7), 2);
    assert_eq!(tree.size(), 1);
    assert_eq!(tree.remove(&p, 8), 1);
    assert_eq!(tree.size(), 0);
}

#[test]
fn thousand_points_make_a_stem() {
    let mut tree = KdTree::new(4, 5);
    let mut rng = rand::thread_rng();
    for i in 0..1000 {
        let point = vec![
            rng.gen_range(0u32..16384),
            rng.gen_range(0u32..16384),
            rng.gen_range(0u32..16384),
            rng.gen_range(0u32..16384),
        ];
        tree.add(&point, i);
    }

    assert_eq!(tree.size(), 1000);
    assert!(tree.stems.len() >= 1);
}

#[test]
fn every_leaf_stays_within_capacity() {
    let b = 4;
    let mut tree = KdTree::new(3, b);
    let mut rng = rand::thread_rng();
    for i in 0..500 {
        let point = vec![
            rng.gen_range(0u32..16384),
            rng.gen_range(0u32..16384),
            rng.gen_range(0u32..16384),
        ];
        tree.add(&point, i);
        for leaf in &tree.leaves {
            assert!(leaf.items.len() <= b);
            assert_eq!(leaf.items.len(), leaf.points.len());
        }
    }
    for i in (0..500u32).step_by(3) {
        tree.remove(&vec![i, i, i], i);
        for leaf in &tree.leaves {
            assert!(leaf.items.len() <= b);
        }
    }
}

#[test]
fn split_distributes_the_full_bucket() {
    // five pairs into a bucket of four force exactly one split; the two
    // leaves hold all five pairs between them
    let mut tree = KdTree::new(2, 4);
    for i in 0..5u32 {
        tree.add(&vec![i * 100, i * 37], i);
    }
    assert_eq!(tree.size(), 5);
    assert_eq!(tree.stems.len(), 1);
    assert_eq!(tree.leaves.len(), 2);
    let total: usize = tree.leaves.iter().map(|l| l.items.len()).sum();
    assert_eq!(total, 5);
    for leaf in &tree.leaves {
        assert!(leaf.items.len() <= 4);
    }
}

#[test]
fn size_accounting_over_mixed_operations() {
    let mut tree = KdTree::new(2, 3);
    let mut adds = 0u32;
    let mut removed_total = 0usize;
    for i in 0..50u32 {
        tree.add(&vec![i % 7, i % 11], i);
        adds += 1;
    }
    for i in 0..50u32 {
        removed_total += tree.remove(&vec![i % 7, i % 11], i);
    }
    assert_eq!(tree.size() as usize, adds as usize - removed_total);
}

#[test]
fn freshly_added_pair_is_removable_even_on_split_ties() {
    // fill a bucket with pairs sharing one coordinate, then add another pair
    // whose coordinate equals the split value the overflow promotes: the
    // uniform descent rule must still find it
    let mut tree = KdTree::new(2, 4);
    for i in 0..4u32 {
        tree.add(&vec![500, i], i);
    }
    tree.add(&vec![500, 99], 42);
    assert_eq!(tree.size(), 5);
    assert_eq!(tree.remove(&vec![500, 99], 42), 1);
    assert_eq!(tree.size(), 4);

    // same along the second dimension, with enough pairs for a deeper split
    let mut tree = KdTree::new(2, 2);
    for i in 0..8u32 {
        tree.add(&vec![i, 700], i);
    }
    tree.add(&vec![3, 700], 42);
    assert_eq!(tree.remove(&vec![3, 700], 42), 1);
    assert_eq!(tree.size(), 8);
}
