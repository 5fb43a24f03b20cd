use storage_map::shard::Shard;
use storage_map::view::UniformView;

fn sizes() -> Vec<usize> {
    vec![1024, 0, 511, 257, 0, 64, 128, 64]
}

#[test]
fn test_build_failure() {
    let mut uniform = UniformView::new(0, 2049);
    sizes().iter().all(|size| uniform.add(*size));

    if let Ok(_) = uniform.build() {
        panic!("The view should not have been built")
    }
}

#[test]
fn uniform_test_build() {
    let mut uniform = UniformView::new(1, 2047);
    sizes().iter().all(|size| uniform.add(*size));

    let shards = vec![
        Shard { start: 1, end: 1024 },
        Shard { start: 0, end: 511 },
        Shard { start: 0, end: 257 },
        Shard { start: 0, end: 64 },
        Shard { start: 0, end: 128 },
        Shard { start: 0, end: 63 },
    ];

    let indices: Vec<usize> = vec![0, 2, 3, 5, 6, 7];

    let view = uniform.build().unwrap();
    assert_eq!(view.len(), shards.len());
    assert_eq!(view.len(), indices.len());

    for i in 0..view.len() {
        let (resource, shard) = &view[i];
        assert_eq!(*resource, indices[i]);
        assert_eq!(shard, &shards[i]);
    }
}

#[test]
fn test_view_partition_sums() {
    // a successful view's shard sizes sum to the requested length, in
    // non-decreasing resource order, each within its resource's bounds
    let all = sizes();
    let mut uniform = UniformView::new(1, 2047);
    all.iter().all(|size| uniform.add(*size));
    let view = uniform.build().unwrap();

    let mut total = 0usize;
    let mut last_index = 0usize;
    for (t, (idx, shard)) in view.iter().enumerate() {
        assert!(shard.start <= shard.end);
        assert!(shard.end <= all[*idx]);
        if t > 0 {
            assert!(*idx > last_index);
        }
        last_index = *idx;
        total += shard.end - shard.start;
    }
    assert_eq!(total, 2046);
}

#[test]
fn test_zero_length_view() {
    let mut uniform = UniformView::new(5, 5);
    sizes().iter().all(|size| uniform.add(*size));
    let view = uniform.build().unwrap();
    assert!(view.is_empty());
}
