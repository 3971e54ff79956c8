use prefix_scan::prefix_scans::helper_functions;
use prefix_scan::prefix_scans::Scanner;
use prefix_scan::segmented_scan;
use prefix_scan::split_vector::SplitVector;
use prefix_scan::util::ranged_vector::RangedVector;
use prefix_scan::util::thread_pool::ThreadPool;

#[test]
fn main_thread_pool_basic_test() {
    let numbers: Vec<u64> = vec![1, 2, 3, 4];
    let pool = ThreadPool::new(4);
    let result: u64 = pool
        .broadcast(&numbers, |(index, _): (usize, usize), args: &Vec<u64>| {
            args[index] * args[index]
        })
        .gather()
        .unwrap()
        .iter()
        .sum();
    assert_eq!(result, 1 + 4 + 9 + 16);
}

#[test]
fn thread_pool_thread_pool_basic_test() {
    let numbers: Vec<u64> = vec![1, 2, 3, 4];
    let pool = ThreadPool::new(4);
    let result: u64 = pool
        .broadcast(&numbers, |(index, _): (usize, usize), args: &Vec<u64>| {
            args[index] * args[index]
        })
        .gather()
        .unwrap()
        .iter()
        .sum();
    assert_eq!(result, 1 + 4 + 9 + 16);
}

#[test]
fn thread_pool_sendall_applies_per_worker() {
    let pool = ThreadPool::new(3);
    let msgs: Vec<u64> = vec![10, 20, 30];
    let results = pool
        .sendall(msgs, |(index, total): (usize, usize), msg: u64| {
            msg + (index as u64) + (total as u64)
        })
        .gather()
        .unwrap();
    assert_eq!(results, vec![13, 24, 35]);
}

#[test]
fn main_quicksum_test() {
    let vec = (0..35).collect::<Vec<u64>>();
    assert_eq!(helper_functions::quicksum_simd(&vec), vec.iter().sum());
}

#[test]
fn helper_functions_quicksum_test() {
    let vec = (0..35).collect::<Vec<u64>>();
    assert_eq!(helper_functions::quicksum_simd(&vec), vec.iter().sum());
}

#[test]
fn main_parallel_quicksum_test() {
    let vec = (0..35).collect::<Vec<u64>>();
    assert_eq!(
        Scanner::new().with_threads(4).parallel_quicksum_simd(&vec),
        vec.iter().sum()
    );
}

#[test]
fn mod_parallel_quicksum_test() {
    let vec = (0..35).collect::<Vec<u64>>();
    assert_eq!(
        Scanner::new().with_threads(4).parallel_quicksum_simd(&vec),
        vec.iter().sum()
    );
}

#[test]
fn basic_test() {
    let mut sv = SplitVector::<u64>::with_size(5);
    sv.set(2, 5);
    sv.set(3, 7);

    println!("pre chunked ref count == {:?}", sv.ref_count());
    let offsets = vec![0, 2, 4, 5];
    let mut chunks = sv.chunk(&offsets).unwrap();
    println!("post chunked ref count == {:?}", sv.ref_count());
    for chunk in chunks.iter_mut() {
        for i in 0..chunk.len() {
            let bumped = *chunk.get(i) + 1;
            chunk.set(i, bumped);
        }
    }
    sv.absorb(chunks);
    let modified = sv.extract().unwrap();
    println!("modified vector: {:?}", modified);
    assert_eq!(modified, vec![1, 1, 6, 8, 1]);
}

#[test]
fn split_vector_rejects_bad_offsets_and_double_split() {
    let mut sv = SplitVector::with_vec(vec![1u64, 2, 3]);
    assert!(sv.chunk(&vec![0, 0, 3]).is_none());
    assert!(sv.chunk(&vec![0, 4]).is_none());
    let chunks = sv.chunk(&vec![0, 2]).unwrap();
    assert_eq!(sv.ref_count(), 2);
    assert!(sv.extract().is_none());
    sv.absorb(chunks);
    assert_eq!(sv.extract().unwrap(), vec![1, 2, 3]);
}

#[test]
fn split_vector_chunk_all_reaches_the_end() {
    let mut sv = SplitVector::with_vec(vec![1u64, 2, 3, 4, 5]);
    let chunks = sv.chunk_all(vec![0, 4]).unwrap();
    assert_eq!(chunks.len(), 2);
    assert_eq!(chunks[0].len(), 4);
    assert_eq!(chunks[1].len(), 1);
    assert_eq!(*chunks[1].get(0), 5);
    assert_eq!(chunks[1].start(), 4);
}

#[test]
fn chunk_ranges_examples() {
    assert_eq!(helper_functions::chunk_ranges(100, 4), vec![0, 25, 50, 75, 100]);
    assert_eq!(helper_functions::chunk_ranges(10, 3), vec![0, 4, 7, 10]);
    assert_eq!(helper_functions::chunk_ranges(0, 3), vec![0, 0, 0, 0]);
    assert_eq!(helper_functions::chunk_ranges(2, 4), vec![0, 1, 2, 2, 2]);
}

#[test]
fn ranged_vector_lookup() {
    let rv = RangedVector::new(vec![0usize, 3, 7, 10], vec![11u64, 22, 33]);
    for point in 0..3 {
        let r = rv.get(point).unwrap();
        assert_eq!((r.start(), r.end(), *r.value()), (0, 3, 11));
    }
    for point in 3..7 {
        let r = rv.get(point).unwrap();
        assert_eq!((r.start(), r.end(), *r.value()), (3, 7, 22));
    }
    for point in 7..10 {
        let r = rv.get(point).unwrap();
        assert_eq!((r.start(), r.end(), *r.value()), (7, 10, 33));
    }
    assert!(rv.get(10).is_none());
    assert!(rv.get(11).is_none());
    let first = rv.get_range(0).unwrap();
    let second = rv.next_range(first).unwrap();
    assert_eq!(*second.value(), 22);
    let third = rv.next_range(second).unwrap();
    assert!(rv.next_range(third).is_none());
    assert!(rv.get_range(3).is_none());
}

#[test]
fn kernel_scans_and_sums() {
    let mut data = vec![1u64, 2, 3, 4, 5];
    helper_functions::prefix_scan_simd(&mut data);
    assert_eq!(data, vec![1, 3, 6, 10, 15]);
    let mut data2 = vec![1u64, 2, 3, 4, 5];
    helper_functions::prefix_scan_no_simd(&mut data2);
    assert_eq!(data2, vec![1, 3, 6, 10, 15]);
    assert_eq!(helper_functions::quicksum_range(&data2, 1, 3), 3 + 6);
    let mut data3 = vec![1u64, 2, 3];
    helper_functions::add_to_all_simd(10, &mut data3);
    assert_eq!(data3, vec![11, 12, 13]);
}

#[test]
fn wrapping_addition_is_used_throughout() {
    let list = vec![u64::MAX, 2];
    let mut scanned = list.clone();
    helper_functions::prefix_scan_simd(&mut scanned);
    assert_eq!(scanned, vec![u64::MAX, 1]);
    assert_eq!(
        Scanner::new().with_threads(2).hillis_steel_scan(list.clone()).unwrap(),
        vec![u64::MAX, 1]
    );
    assert_eq!(helper_functions::quicksum_simd(&list), 1);
}

#[test]
fn head_flag_vec_round_trip() {
    let batch = vec![vec![1u64, 2], vec![3, 4, 5], vec![6]];
    let flagged = segmented_scan::HeadFlagVec::from_vec(&batch);
    assert_eq!(flagged.len(), 6);
    assert_eq!(flagged.get(0), (1, true));
    assert_eq!(flagged.get(1), (2, false));
    assert_eq!(flagged.get(2), (3, true));
    assert_eq!(flagged.get(5), (6, true));
    let rebuilt = flagged.to_vec().unwrap();
    assert_eq!(rebuilt, batch);
}

#[test]
fn segmented_sequential_scan_restarts_at_heads() {
    let batch = vec![vec![1u64, 2], vec![3, 4, 5], vec![6]];
    let scanned = segmented_scan::sequential_scan(&batch).unwrap();
    assert_eq!(scanned, vec![vec![1, 3], vec![3, 7, 12], vec![6]]);
}

#[test]
fn segmented_parallel_scans_restart_at_heads() {
    let batch = vec![vec![1u64, 2], vec![3, 4]];
    let expected = segmented_scan::sequential_scan(&batch).unwrap();
    assert_eq!(expected, vec![vec![1, 3], vec![3, 7]]);
    let hillis = segmented_scan::hillis_steel_scan(4, &batch).unwrap();
    assert_eq!(hillis, expected);
    let dac = segmented_scan::divide_and_conquer_scan(4, &batch).unwrap();
    assert_eq!(dac, expected);
    let tree = segmented_scan::blelloch_scan(4, &vec![0u64, 1, 2, 3]).unwrap();
    assert_eq!(tree, vec![0, 0, 1, 3]);
}

#[test]
fn segmented_parallel_scans_many_short_segments() {
    let batch: Vec<Vec<u64>> = (0..9u64).map(|s| (s..s + 3).collect()).collect();
    let expected = segmented_scan::sequential_scan(&batch).unwrap();
    for threads in [1usize, 3, 4, 8] {
        assert_eq!(segmented_scan::hillis_steel_scan(threads, &batch).unwrap(), expected);
        assert_eq!(
            segmented_scan::divide_and_conquer_scan(threads, &batch).unwrap(),
            expected
        );
    }
    let one_long = vec![(0..100u64).collect::<Vec<u64>>(), vec![7], vec![8, 9]];
    let expected2 = segmented_scan::sequential_scan(&one_long).unwrap();
    assert_eq!(segmented_scan::hillis_steel_scan(4, &one_long).unwrap(), expected2);
    assert_eq!(
        segmented_scan::divide_and_conquer_scan(4, &one_long).unwrap(),
        expected2
    );
}

#[test]
fn segmented_chunk_ranges_returns_starts() {
    assert_eq!(segmented_scan::chunk_ranges(100, 4), vec![0, 25, 50, 75]);
}

#[test]
fn sequential_scan_no_simd_with_custom_operator() {
    let list = vec![3u64, 1, 4, 1, 5];
    let maxed = prefix_scan::prefix_scans::baseline::sequential_scan_no_simd(
        list,
        |a: &u64, b: &u64| if a > b { *a } else { *b },
    )
    .unwrap();
    assert_eq!(maxed, vec![3, 3, 4, 4, 5]);
}
