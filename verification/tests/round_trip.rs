use kiddo::tree::{LeafNode, StemNode};
use kiddo::{KdTree, Metric};
use rand::Rng;

fn n(num: f32) -> u32 {
    (num * 16384.0).round() as u32
}

// A minimal caller-side wire format: every field flattened to a little-endian
// byte stream, then parsed back. The library only promises that rebuilding
// from its own parts restores the tree exactly.
fn serialize(parts: &(Vec<StemNode>, Vec<LeafNode>, u32, u32, usize, usize)) -> Vec<u8> {
    let mut words: Vec<u32> = vec![
        parts.2,
        parts.3,
        parts.4 as u32,
        parts.5 as u32,
        parts.0.len() as u32,
    ];
    for s in &parts.0 {
        words.push(s.split_val);
        words.push(s.left);
        words.push(s.right);
    }
    words.push(parts.1.len() as u32);
    for l in &parts.1 {
        words.push(l.items.len() as u32);
        for p in &l.points {
            for c in p {
                words.push(*c);
            }
        }
        for it in &l.items {
            words.push(*it);
        }
    }
    words.iter().flat_map(|w| w.to_le_bytes()).collect()
}

fn deserialize(bytes: &[u8]) -> KdTree {
    let words: Vec<u32> = bytes
        .chunks(4)
        .map(|c| u32::from_le_bytes([c[0], c[1], c[2], c[3]]))
        .collect();
    let mut at = 0usize;
    let mut take = || {
        let w = words[at];
        at += 1;
        w
    };
    let root_index = take();
    let size = take();
    let k = take() as usize;
    let b = take() as usize;
    let n_stems = take() as usize;
    let mut stems = Vec::new();
    for _ in 0..n_stems {
        let split_val = take();
        let left = take();
        let right = take();
        stems.push(StemNode { split_val, left, right });
    }
    let n_leaves = take() as usize;
    let mut leaves = Vec::new();
    for _ in 0..n_leaves {
        let sz = take() as usize;
        let mut points = Vec::new();
        for _ in 0..sz {
            let mut p = Vec::new();
            for _ in 0..k {
                p.push(take());
            }
            points.push(p);
        }
        let mut items = Vec::new();
        for _ in 0..sz {
            items.push(take());
        }
        leaves.push(LeafNode { points, items });
    }
    KdTree::from_parts(stems, leaves, root_index, size, k, b)
}

#[test]
fn round_trip_preserves_every_query() {
    let mut rng = rand::thread_rng();
    let mut tree = KdTree::new(4, 4);
    let mut content = vec![];
    for i in 0..300u32 {
        let p = vec![
            rng.gen_range(0u32..16384),
            rng.gen_range(0u32..16384),
            rng.gen_range(0u32..16384),
            rng.gen_range(0u32..16384),
        ];
        tree.add(&p, i);
        content.push(p);
    }

    let queries: Vec<Vec<u32>> = (0..50)
        .map(|_| {
            vec![
                rng.gen_range(0u32..16384),
                rng.gen_range(0u32..16384),
                rng.gen_range(0u32..16384),
                rng.gen_range(0u32..16384),
            ]
        })
        .collect();

    let before_one: Vec<(u32, u32)> =
        queries.iter().map(|q| tree.nearest_one(q, Metric::Manhattan)).collect();
    let before_n: Vec<Vec<(u32, u32)>> = queries
        .iter()
        .map(|q| {
            let mut it = tree.nearest_n(q, 7, Metric::SquaredEuclidean);
            let mut out = vec![];
            while let Some(pair) = it.next() {
                out.push(pair);
            }
            out
        })
        .collect();
    let size_before = tree.size();

    let bytes = serialize(&tree.to_parts());
    let restored = deserialize(&bytes);

    assert_eq!(restored.size(), size_before);
    for (qi, q) in queries.iter().enumerate() {
        assert_eq!(restored.nearest_one(q, Metric::Manhattan), before_one[qi]);
        let mut it = restored.nearest_n(q, 7, Metric::SquaredEuclidean);
        let mut out = vec![];
        while let Some(pair) = it.next() {
            out.push(pair);
        }
        assert_eq!(out, before_n[qi]);
    }
}

#[test]
fn sixteen_point_fixture_survives_a_round_trip() {
    let fixture = vec![
        (vec![n(0.9), n(0.0), n(0.9), n(0.0)], 9),
        (vec![n(0.13), n(0.4), n(0.13), n(0.4)], 13),
        (vec![n(0.12), n(0.3), n(0.12), n(0.3)], 12),
        (vec![n(0.7), n(0.2), n(0.7), n(0.2)], 7),
    ];
    let mut tree = KdTree::new(4, 2);
    for (p, i) in &fixture {
        tree.add(p, *i);
    }
    let bytes = serialize(&tree.to_parts());
    let restored = deserialize(&bytes);
    assert_eq!(restored.size(), 4);
    let q = vec![n(0.78), n(0.55), n(0.78), n(0.55)];
    assert_eq!(restored.nearest_one(&q, Metric::Manhattan), (n(0.86), 7));
}
