use schmimmdee::histogram::merge_histograms;
use schmimmdee::histogram::scalar_histogram_optimized;
use schmimmdee::histogram::simd_histogram_parallel;
use schmimmdee::histogram::simd_histogram_single;
use schmimmdee::histogram::simd_histogram_unsafe;
use schmimmdee::histogram::standard_histogram;

fn sample_bytes(len: usize) -> Vec<u8> {
    let mut data = Vec::with_capacity(len);
    let mut x: u32 = 0x12345678;
    for _ in 0..len {
        x = x.wrapping_mul(1664525).wrapping_add(1013904223);
        data.push((x >> 24) as u8);
    }
    data
}

#[test]
fn histogram_counts_known_bytes() {
    let data = b"aabbbc";
    let mut hist = [0u32; 256];
    simd_histogram_single(data, &mut hist);
    assert_eq!(hist[b'a' as usize], 2);
    assert_eq!(hist[b'b' as usize], 3);
    assert_eq!(hist[b'c' as usize], 1);
    for (byte, &count) in hist.iter().enumerate() {
        if byte != b'a' as usize && byte != b'b' as usize && byte != b'c' as usize {
            assert_eq!(count, 0);
        }
    }
}

#[test]
fn histogram_empty_input_leaves_bins_untouched() {
    let mut hist = [0u32; 256];
    simd_histogram_single(&[], &mut hist);
    assert!(hist.iter().all(|&c| c == 0));
}

#[test]
fn histogram_all_kernels_agree() {
    let data = sample_bytes(1003);
    let mut h_standard = [0u32; 256];
    let mut h_single = [0u32; 256];
    let mut h_unsafe = [0u32; 256];
    let mut h_scalar = [0u32; 256];
    standard_histogram(&data, &mut h_standard);
    simd_histogram_single(&data, &mut h_single);
    simd_histogram_unsafe(&data, &mut h_unsafe);
    scalar_histogram_optimized(&data, &mut h_scalar);
    assert_eq!(h_standard, h_single);
    assert_eq!(h_standard, h_unsafe);
    assert_eq!(h_standard, h_scalar);
}

#[test]
fn histogram_conserves_byte_count() {
    let data = sample_bytes(777);
    let mut hist = [0u32; 256];
    simd_histogram_single(&data, &mut hist);
    let total: u64 = hist.iter().map(|&c| c as u64).sum();
    assert_eq!(total, 777);
}

#[test]
fn histogram_accumulates_across_calls() {
    let mut hist = [0u32; 256];
    standard_histogram(b"ab", &mut hist);
    standard_histogram(b"bc", &mut hist);
    assert_eq!(hist[b'a' as usize], 1);
    assert_eq!(hist[b'b' as usize], 2);
    assert_eq!(hist[b'c' as usize], 1);
}

#[test]
fn histogram_parallel_matches_single_threaded() {
    let data = sample_bytes(10_000);
    for parts in [1usize, 2, 3, 7] {
        let mut partials = vec![[0u32; 256]; parts];
        simd_histogram_parallel(&data, &mut partials);
        let merged = merge_histograms(&partials);
        let mut single = [0u32; 256];
        simd_histogram_single(&data, &mut single);
        assert_eq!(merged, single);
    }
}

#[test]
fn histogram_parallel_more_workers_than_bytes() {
    let data = b"xyz";
    let mut partials = vec![[0u32; 256]; 8];
    simd_histogram_parallel(data, &mut partials);
    let merged = merge_histograms(&partials);
    let mut single = [0u32; 256];
    standard_histogram(data, &mut single);
    assert_eq!(merged, single);
}
