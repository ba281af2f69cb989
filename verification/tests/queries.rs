use kiddo::dist::dist;
use kiddo::{KdTree, Metric, MAX_DIST};
use rand::Rng;

fn n(num: f32) -> u32 {
    (num * 16384.0).round() as u32
}

fn fixture_16() -> Vec<(Vec<u32>, u32)> {
    vec![
        (vec![n(0.9), n(0.0), n(0.9), n(0.0)], 9),
        (vec![n(0.4), n(0.5), n(0.4), n(0.5)], 4),
        (vec![n(0.12), n(0.3), n(0.12), n(0.3)], 12),
        (vec![n(0.7), n(0.2), n(0.7), n(0.2)], 7),
        (vec![n(0.13), n(0.4), n(0.13), n(0.4)], 13),
        (vec![n(0.6), n(0.3), n(0.6), n(0.3)], 6),
        (vec![n(0.2), n(0.7), n(0.2), n(0.7)], 2),
        (vec![n(0.14), n(0.5), n(0.14), n(0.5)], 14),
        (vec![n(0.3), n(0.6), n(0.3), n(0.6)], 3),
        (vec![n(0.10), n(0.1), n(0.10), n(0.1)], 10),
        (vec![n(0.16), n(0.7), n(0.16), n(0.7)], 16),
        (vec![n(0.1), n(0.8), n(0.1), n(0.8)], 1),
        (vec![n(0.15), n(0.6), n(0.15), n(0.6)], 15),
        (vec![n(0.5), n(0.4), n(0.5), n(0.4)], 5),
        (vec![n(0.8), n(0.1), n(0.8), n(0.1)], 8),
        (vec![n(0.11), n(0.2), n(0.11), n(0.2)], 11),
    ]
}

fn linear_search(content: &[(Vec<u32>, u32)], query_point: &Vec<u32>) -> (u32, u32) {
    let mut best_dist: u32 = MAX_DIST;
    let mut best_item: u32 = u32::MAX;

    for (p, item) in content {
        let d = dist(Metric::Manhattan, query_point, p);
        if d < best_dist {
            best_item = *item;
            best_dist = d;
        }
    }

    (best_dist, best_item)
}

fn linear_search_n(content: &[(Vec<u32>, u32)], qty: usize, query_point: &Vec<u32>) -> Vec<(u32, u32)> {
    let mut results: Vec<(u32, u32)> = vec![];

    for (p, item) in content {
        let d = dist(Metric::Manhattan, query_point, p);
        if results.len() < qty {
            results.push((d, *item));
            results.sort_by(|(a_dist, _), (b_dist, _)| a_dist.cmp(b_dist));
        } else if d < results[qty - 1].0 {
            results[qty - 1] = (d, *item);
            results.sort_by(|(a_dist, _), (b_dist, _)| a_dist.cmp(b_dist));
        }
    }

    results
}

fn collect_n(tree: &KdTree, query: &Vec<u32>, qty: usize, metric: Metric) -> Vec<(u32, u32)> {
    let mut it = tree.nearest_n(query, qty, metric);
    let mut out = vec![];
    while let Some(pair) = it.next() {
        out.push(pair);
    }
    out
}

#[test]
fn can_query_nearest_one_item() {
    let mut tree = KdTree::new(4, 4);

    let content_to_add = fixture_16();

    for (point, item) in &content_to_add {
        tree.add(point, *item);
    }

    assert_eq!(tree.size(), 16);

    let query_point = vec![n(0.78), n(0.55), n(0.78), n(0.55)];
    let expected = (n(0.86), 7);

    let result = tree.nearest_one(&query_point, Metric::Manhattan);
    assert_eq!(result, expected);

    let mut rng = rand::thread_rng();
    for _i in 0..1000 {
        let query_point = vec![
            n(rng.gen_range(0f32..1f32)),
            n(rng.gen_range(0f32..1f32)),
            n(rng.gen_range(0f32..1f32)),
            n(rng.gen_range(0f32..1f32)),
        ];
        let expected = linear_search(&content_to_add, &query_point);

        let result = tree.nearest_one(&query_point, Metric::Manhattan);

        assert_eq!(result.0, expected.0);
    }
}

#[test]
fn can_query_nearest_one_item_large_scale() {
    const TREE_SIZE: usize = 100_000;
    const NUM_QUERIES: usize = 100;

    let mut rng = rand::thread_rng();
    let content_to_add: Vec<(Vec<u32>, u32)> = (0..TREE_SIZE)
        .map(|_| {
            (
                vec![
                    rng.gen_range(0u32..16384),
                    rng.gen_range(0u32..16384),
                    rng.gen_range(0u32..16384),
                    rng.gen_range(0u32..16384),
                ],
                rng.gen_range(0u32..u32::MAX),
            )
        })
        .collect();

    let mut tree = KdTree::with_capacity(4, 4, TREE_SIZE);
    content_to_add.iter().for_each(|(point, content)| tree.add(point, *content));
    assert_eq!(tree.size(), TREE_SIZE as u32);

    let query_points: Vec<Vec<u32>> = (0..NUM_QUERIES)
        .map(|_| {
            vec![
                rng.gen_range(0u32..16384),
                rng.gen_range(0u32..16384),
                rng.gen_range(0u32..16384),
                rng.gen_range(0u32..16384),
            ]
        })
        .collect();

    for query_point in query_points {
        let expected = linear_search(&content_to_add, &query_point);

        let result = tree.nearest_one(&query_point, Metric::Manhattan);

        assert_eq!(result.0, expected.0);
    }
}

#[test]
fn can_query_nearest_n_items() {
    let mut tree = KdTree::new(4, 4);

    let content_to_add = fixture_16();

    for (point, item) in &content_to_add {
        tree.add(point, *item);
    }

    assert_eq!(tree.size(), 16);

    let query_point = vec![n(0.78), n(0.55), n(0.78), n(0.55)];

    let expected = vec![(n(0.86), 7), (n(0.86), 5), (n(0.86), 4)];

    let result = collect_n(&tree, &query_point, 3, Metric::Manhattan);
    assert_eq!(result, expected);

    let qty = 10;
    let mut rng = rand::thread_rng();
    for _i in 0..1000 {
        let query_point = vec![
            n(rng.gen_range(0f32..1f32)),
            n(rng.gen_range(0f32..1f32)),
            n(rng.gen_range(0f32..1f32)),
            n(rng.gen_range(0f32..1f32)),
        ];
        let expected = linear_search_n(&content_to_add, qty, &query_point);

        let result = collect_n(&tree, &query_point, qty, Metric::Manhattan);

        let result_dists: Vec<_> = result.iter().map(|(d, _)| d).collect();
        let expected_dists: Vec<_> = expected.iter().map(|(d, _)| d).collect();

        assert_eq!(result_dists, expected_dists);
    }
}

#[test]
fn nearest_one_agrees_with_scan_under_squared_euclidean() {
    let mut rng = rand::thread_rng();
    let content: Vec<(Vec<u32>, u32)> = (0..2000)
        .map(|i| {
            (
                vec![rng.gen_range(0u32..1000000), rng.gen_range(0u32..1000000)],
                i,
            )
        })
        .collect();

    let mut tree = KdTree::new(2, 8);
    for (p, i) in &content {
        tree.add(p, *i);
    }

    for _ in 0..500 {
        let q = vec![rng.gen_range(0u32..1000000), rng.gen_range(0u32..1000000)];
        let mut best = MAX_DIST;
        for (p, _) in &content {
            let d = dist(Metric::SquaredEuclidean, &q, p);
            if d < best {
                best = d;
            }
        }
        let r = tree.nearest_one(&q, Metric::SquaredEuclidean);
        assert_eq!(r.0, best);
    }
}

#[test]
fn empty_tree_returns_the_sentinel() {
    let tree = KdTree::new(3, 4);
    let q = vec![1, 2, 3];
    assert_eq!(tree.nearest_one(&q, Metric::Manhattan), (MAX_DIST, 0));
    assert_eq!(collect_n(&tree, &q, 5, Metric::Manhattan), vec![]);
}

#[test]
fn nearest_n_with_zero_or_excess_qty() {
    let mut tree = KdTree::new(2, 4);
    tree.add(&vec![10, 10], 1);
    tree.add(&vec![20, 20], 2);

    assert_eq!(collect_n(&tree, &vec![0, 0], 0, Metric::Manhattan), vec![]);

    let all = collect_n(&tree, &vec![0, 0], 5, Metric::Manhattan);
    assert_eq!(all.len(), 2);
    assert_eq!(all[0], (20, 1));
    assert_eq!(all[1], (40, 2));
}

#[test]
fn remove_is_a_partial_inverse() {
    let mut tree = KdTree::new(4, 4);
    for (point, item) in fixture_16() {
        tree.add(&point, item);
    }

    let p = vec![n(0.77), n(0.51), n(0.77), n(0.51)];
    tree.add(&p, 42);
    let r = tree.nearest_one(&p, Metric::Manhattan);
    assert_eq!(r, (0, 42));

    assert_eq!(tree.remove(&p, 42), 1);
    let r2 = tree.nearest_one(&p, Metric::Manhattan);
    assert_ne!(r2.1, 42);
}

#[test]
fn manhattan_distance_has_exact_values() {
    let a = vec![100, 250, 3];
    let b = vec![40, 250, 10];
    assert_eq!(dist(Metric::Manhattan, &a, &b), 67);
    // squared euclidean rescales by 16384 (14 fractional bits)
    let c = vec![16384, 0];
    let d = vec![0, 16384];
    assert_eq!(dist(Metric::SquaredEuclidean, &c, &d), 32768);
    // saturates instead of overflowing
    let e = vec![0, 0];
    let f = vec![u32::MAX, u32::MAX];
    assert_eq!(dist(Metric::Manhattan, &e, &f), u32::MAX);
}
