use bustubx::execution::parallel::{chunk_ranges, clamp_parallelism, gather_in_order};

fn ordered_map_serially(input: &[i32], workers: usize, f: fn(i32) -> i32) -> Vec<i32> {
    let parts = chunk_ranges(input.len(), workers)
        .into_iter()
        .map(|(a, b)| input[a..b].iter().map(|x| f(*x)).collect())
        .collect();
    gather_in_order(parts)
}

#[test]
fn chunked_evaluation_preserves_order() {
    assert_eq!(ordered_map_serially(&[0, 1, 2, 3], 4, |v| v * 2), vec![0, 2, 4, 6]);
    assert_eq!(chunk_ranges(4, 4).len(), 4);
    assert_eq!(ordered_map_serially(&[1, 2, 3, 4, 5], 3, |x| x), vec![1, 2, 3, 4, 5]);
    assert_eq!(ordered_map_serially(&[7], 64, |x| x), vec![7]);
    assert!(ordered_map_serially(&[], 4, |_| panic!()).is_empty());
    assert_eq!(chunk_ranges(2, 1), vec![(0, 2)]);
}

#[test]
fn chunks_are_contiguous_and_at_most_one_per_worker() {
    assert_eq!(chunk_ranges(5, 3), vec![(0, 2), (2, 4), (4, 5)]);
    assert_eq!(chunk_ranges(10, 4), vec![(0, 3), (3, 6), (6, 9), (9, 10)]);
    assert_eq!(chunk_ranges(9, 4), vec![(0, 3), (3, 6), (6, 9)]);
    assert_eq!(chunk_ranges(3, 0), vec![(0, 3)]);
    assert_eq!(chunk_ranges(0, 8), vec![]);
    for len in 0..50 {
        for workers in 0..10 {
            let r = chunk_ranges(len, workers);
            assert!(r.len() <= workers.max(1));
            let mut next = 0;
            for (a, b) in r {
                assert_eq!(a, next);
                assert!(a < b);
                next = b;
            }
            assert_eq!(next, len);
        }
    }
}

#[test]
fn parallelism_is_clamped() {
    assert_eq!(clamp_parallelism(0), 1);
    assert_eq!(clamp_parallelism(1), 1);
    assert_eq!(clamp_parallelism(4), 4);
    assert_eq!(clamp_parallelism(64), 64);
    assert_eq!(clamp_parallelism(65), 64);
}

#[test]
fn gather_concatenates_in_order() {
    assert_eq!(gather_in_order(vec![vec![1, 2], vec![], vec![3]]), vec![1, 2, 3]);
    assert_eq!(gather_in_order::<u8>(vec![]), Vec::<u8>::new());
}
