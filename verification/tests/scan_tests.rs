use prefix_scan::prefix_scans::baseline;
use prefix_scan::prefix_scans::Scanner;

fn reference_scan(list: &[u64]) -> Vec<u64> {
    baseline::sequential_scan_no_simd(list.to_vec(), |a: &u64, b: &u64| a.wrapping_add(*b)).unwrap()
}

#[test]
fn large_divide_conquer_test() {
    let count = 12;
    let list = (0..count).collect::<Vec<u64>>();
    assert_eq!(
        baseline::sequential_scan_no_simd(list.clone(), |a: &u64, b: &u64| a + b).unwrap(),
        Scanner::new().with_threads(4).divide_and_conquer_scan(list).unwrap()
    );
}

#[test]
fn large_divide_conquer_test_2() {
    let count = 12;
    let list = (0..count).collect::<Vec<u64>>();
    assert_eq!(
        baseline::sequential_scan_no_simd(list.clone(), |a: &u64, b: &u64| a + b).unwrap(),
        Scanner::new().with_threads(4).divide_and_conquer_scan_2(list).unwrap()
    );
}

#[test]
fn main_simd_sequential_test() {
    let count = 32;
    let mut list = (0..count).collect::<Vec<u64>>();
    let baseline_input = list.clone();
    baseline::sequential_scan_simd(&mut list).unwrap();
    assert_eq!(
        baseline::sequential_scan_no_simd(baseline_input, |a: &u64, b: &u64| a + b).unwrap(),
        list
    );
}

#[test]
fn helper_functions_simd_sequential_test() {
    let count = 32;
    let mut list = (0..count).collect::<Vec<u64>>();
    let baseline_input = list.clone();
    baseline::sequential_scan_simd(&mut list).unwrap();
    assert_eq!(
        baseline::sequential_scan_no_simd(baseline_input, |a: &u64, b: &u64| a + b).unwrap(),
        list
    );
}

#[test]
fn blelloch_scan_small_test() {
    let list = (0..12).collect::<Vec<u64>>();
    let baseline_out =
        baseline::sequential_scan_no_simd(list.clone(), |a: &u64, b: &u64| a + b).unwrap();
    let blelloch = Scanner::new().with_threads(4).blelloch_scan(list).unwrap();
    assert_eq!(baseline_out.split_last().unwrap().1, &blelloch[1..]);
}

#[test]
fn medium_500000_test() {
    let list = (0..500000).collect::<Vec<u64>>();
    let baseline_out =
        baseline::sequential_scan_no_simd(list.clone(), |a: &u64, b: &u64| a + b).unwrap();
    let blelloch = Scanner::new().with_threads(4).blelloch_scan(list).unwrap();
    assert_eq!(baseline_out.split_last().unwrap().1, &blelloch[1..]);
}

#[test]
fn small_post_scatter_test() {
    let count = 12;
    let list = (0..count).collect::<Vec<u64>>();
    let baseline_out =
        baseline::sequential_scan_no_simd(list.clone(), |a: &u64, b: &u64| a + b).unwrap();
    let dac = Scanner::new().with_threads(4).divide_and_conquer_scan(list).unwrap();
    assert_eq!(baseline_out, dac);
}

#[test]
fn hillis_steel_scan_small_test() {
    let count = 12;
    let list = (0..count).collect::<Vec<u64>>();
    let baseline_out =
        baseline::sequential_scan_no_simd(list.clone(), |a: &u64, b: &u64| a + b).unwrap();
    let hillis_steel = Scanner::new().with_threads(4).hillis_steel_scan(list).unwrap();
    assert_eq!(baseline_out, hillis_steel);
}

#[test]
fn all_algorithms_match_baseline_many_lengths() {
    for &len in &[0usize, 1, 2, 7, 8, 9, 31, 32, 33, 10000] {
        let list: Vec<u64> = (0..len as u64).map(|x| x.wrapping_mul(2654435761).wrapping_add(7)).collect();
        let expected = reference_scan(&list);
        for &threads in &[1usize, 3, 4] {
            let hillis = Scanner::new().with_threads(threads).hillis_steel_scan(list.clone()).unwrap();
            assert_eq!(expected, hillis, "doubling len {} threads {}", len, threads);
            let post = Scanner::new().with_threads(threads).divide_and_conquer_scan(list.clone()).unwrap();
            assert_eq!(expected, post, "post len {} threads {}", len, threads);
            let pre = Scanner::new().with_threads(threads).divide_and_conquer_scan_2(list.clone()).unwrap();
            assert_eq!(expected, pre, "pre len {} threads {}", len, threads);
            let tree = Scanner::new().with_threads(threads).blelloch_scan(list.clone()).unwrap();
            if len > 0 {
                assert_eq!(&expected[..len - 1], &tree[1..], "tree len {} threads {}", len, threads);
                assert_eq!(tree[0], 0, "tree first element len {}", len);
            } else {
                assert_eq!(tree.len(), 0);
            }
        }
    }
}

#[test]
fn million_element_scans_match_baseline() {
    let len = 1000000usize;
    let list: Vec<u64> = (0..len as u64).collect();
    let expected = reference_scan(&list);
    let hillis = Scanner::new().with_threads(4).hillis_steel_scan(list.clone()).unwrap();
    assert_eq!(expected, hillis);
    let post = Scanner::new().with_threads(4).divide_and_conquer_scan(list.clone()).unwrap();
    assert_eq!(expected, post);
    let pre = Scanner::new().with_threads(4).divide_and_conquer_scan_2(list.clone()).unwrap();
    assert_eq!(expected, pre);
    let tree = Scanner::new().with_threads(4).blelloch_scan(list.clone()).unwrap();
    assert_eq!(&expected[..len - 1], &tree[1..]);
}

#[test]
fn twelve_element_concrete_scenario() {
    let list: Vec<u64> = (0..12).collect();
    let expected = vec![0u64, 1, 3, 6, 10, 15, 21, 28, 36, 45, 55, 66];
    assert_eq!(reference_scan(&list), expected);
    assert_eq!(
        Scanner::new().with_threads(4).hillis_steel_scan(list.clone()).unwrap(),
        expected
    );
    assert_eq!(
        Scanner::new().with_threads(4).divide_and_conquer_scan(list.clone()).unwrap(),
        expected
    );
    assert_eq!(
        Scanner::new().with_threads(4).divide_and_conquer_scan_2(list.clone()).unwrap(),
        expected
    );
    let tree_expected = vec![0u64, 0, 1, 3, 6, 10, 15, 21, 28, 36, 45, 55];
    assert_eq!(
        Scanner::new().with_threads(4).blelloch_scan(list.clone()).unwrap(),
        tree_expected
    );
}

#[test]
fn empty_input_yields_empty_output() {
    let empty: Vec<u64> = Vec::new();
    assert_eq!(reference_scan(&empty), Vec::<u64>::new());
    assert_eq!(
        Scanner::new().with_threads(4).hillis_steel_scan(empty.clone()).unwrap(),
        Vec::<u64>::new()
    );
    assert_eq!(
        Scanner::new().with_threads(4).divide_and_conquer_scan(empty.clone()).unwrap(),
        Vec::<u64>::new()
    );
    assert_eq!(
        Scanner::new().with_threads(4).divide_and_conquer_scan_2(empty.clone()).unwrap(),
        Vec::<u64>::new()
    );
    assert_eq!(
        Scanner::new().with_threads(4).blelloch_scan(empty.clone()).unwrap(),
        Vec::<u64>::new()
    );
}

#[test]
fn single_element_scenario() {
    let one = vec![42u64];
    assert_eq!(
        Scanner::new().with_threads(4).hillis_steel_scan(one.clone()).unwrap(),
        vec![42u64]
    );
    assert_eq!(
        Scanner::new().with_threads(4).divide_and_conquer_scan(one.clone()).unwrap(),
        vec![42u64]
    );
    assert_eq!(
        Scanner::new().with_threads(4).divide_and_conquer_scan_2(one.clone()).unwrap(),
        vec![42u64]
    );
    assert_eq!(
        Scanner::new().with_threads(4).blelloch_scan(one.clone()).unwrap(),
        vec![0u64]
    );
}

#[test]
fn post_and_pre_scatter_agree() {
    for &len in &[0usize, 5, 12, 100, 4097] {
        let list: Vec<u64> = (0..len as u64).map(|x| x * 3 + 1).collect();
        let post = Scanner::new().with_threads(4).divide_and_conquer_scan(list.clone()).unwrap();
        let pre = Scanner::new().with_threads(4).divide_and_conquer_scan_2(list.clone()).unwrap();
        assert_eq!(post, pre);
    }
}

#[test]
fn small_cache_blocks_cross_block_carries() {
    let list: Vec<u64> = (0..1000).collect();
    let expected = reference_scan(&list);
    let post = Scanner::new()
        .with_threads(4)
        .with_cache_chunk_length(64)
        .divide_and_conquer_scan(list.clone())
        .unwrap();
    assert_eq!(expected, post);
    let pre = Scanner::new()
        .with_threads(4)
        .with_cache_chunk_length(64)
        .divide_and_conquer_scan_2(list.clone())
        .unwrap();
    assert_eq!(expected, pre);
}

#[test]
fn sequential_threshold_falls_back_to_one_range() {
    let list: Vec<u64> = (0..100).collect();
    let expected = reference_scan(&list);
    let tree = Scanner::new()
        .with_threads(4)
        .with_sequential_length(1000)
        .blelloch_scan(list.clone())
        .unwrap();
    assert_eq!(&expected[..99], &tree[1..]);
}

#[test]
fn without_simd_matches_simd_results() {
    let list: Vec<u64> = (0..257).collect();
    let expected = reference_scan(&list);
    let with_kernel = Scanner::new().with_threads(4).divide_and_conquer_scan(list.clone()).unwrap();
    let without_kernel = Scanner::new()
        .with_threads(4)
        .without_simd()
        .divide_and_conquer_scan(list.clone())
        .unwrap();
    assert_eq!(expected, with_kernel);
    assert_eq!(with_kernel, without_kernel);
}

#[test]
fn blelloch_scan_generic_with_max_operator() {
    let list: Vec<u64> = (0..12).collect();
    let maxed = Scanner::new()
        .with_threads(4)
        .blelloch_scan_generic(list, |a: &u64, b: &u64| if a > b { *a } else { *b })
        .unwrap();
    let expected: Vec<u64> = vec![0, 0, 1, 2, 3, 4, 5, 6, 7, 8, 9, 10];
    assert_eq!(maxed, expected);
    let empty: Vec<u64> = Vec::new();
    assert_eq!(
        Scanner::new()
            .with_threads(4)
            .blelloch_scan_generic(empty, |a: &u64, b: &u64| a + b)
            .unwrap(),
        Vec::<u64>::new()
    );
    assert_eq!(
        Scanner::new()
            .with_threads(4)
            .blelloch_scan_generic(vec![42u64], |a: &u64, b: &u64| a + b)
            .unwrap(),
        vec![0u64]
    );
}

#[test]
fn blelloch_scan_generic_matches_fixed_version() {
    let list: Vec<u64> = (0..12).collect();
    let tree = Scanner::new().with_threads(4).blelloch_scan(list.clone()).unwrap();
    let generic = Scanner::new()
        .with_threads(4)
        .blelloch_scan_generic(list, |a: &u64, b: &u64| a.wrapping_add(*b))
        .unwrap();
    assert_eq!(tree, generic);
}
