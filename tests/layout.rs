use spectral::layout::{batch_widths, effective_batch_stride, gather, gather_indexed, scatter};

#[test]
fn batches_of_eight_four_one() {
    assert_eq!(batch_widths(13), vec![8, 4, 1]);
    assert_eq!(batch_widths(7), vec![4, 1, 1, 1]);
    assert_eq!(batch_widths(16), vec![8, 8]);
    assert_eq!(batch_widths(3), vec![1, 1, 1]);
    assert_eq!(batch_widths(0), Vec::<usize>::new());
}

#[test]
fn batches_cover_count() {
    for c in 0..100usize {
        let w = batch_widths(c);
        assert_eq!(w.iter().sum::<usize>(), c);
    }
}

#[test]
fn single_transform_ignores_batch_stride() {
    assert_eq!(effective_batch_stride(1, 99), 0);
    assert_eq!(effective_batch_stride(3, 99), 99);
    assert_eq!(effective_batch_stride(0, 5), 5);
}

#[test]
fn gather_strided_columns() {
    let src: Vec<u32> = (0..12).collect();
    assert_eq!(gather(&src, 3, 2, 1, 2), vec![0, 2, 4, 1, 3, 5]);
    assert_eq!(gather(&src, 4, 1, 4, 3), (0..12).collect::<Vec<u32>>());
    assert_eq!(gather(&src, 3, 4, 0, 1), vec![0, 4, 8]);
}

#[test]
fn scatter_to_strided_positions() {
    let mut dst = vec![0u32; 8];
    scatter(&mut dst, &[1, 2, 3, 4], 2, 1, 4, 2);
    assert_eq!(dst, vec![1, 2, 0, 0, 3, 4, 0, 0]);
    let mut dst = vec![9u32; 6];
    scatter(&mut dst, &[1, 2, 3, 4, 5, 6], 3, 2, 1, 2);
    assert_eq!(dst, vec![1, 4, 2, 5, 3, 6]);
}

#[test]
fn stride_round_trip() {
    let src: Vec<u32> = (100..124).collect();
    let block = gather(&src, 4, 3, 1, 3);
    let mut back = vec![0u32; 24];
    scatter(&mut back, &block, 4, 3, 1, 3);
    for a in 0..4 {
        for i in 0..3 {
            assert_eq!(back[a * 3 + i], src[a * 3 + i]);
            assert_eq!(block[a + i * 4], src[a * 3 + i]);
        }
    }
}

#[test]
fn gather_by_index() {
    let src = [10u32, 11, 12, 13, 14, 15, 16];
    assert_eq!(gather_indexed(&src, &[1, 3, 2, 6, 4, 5]), vec![11, 13, 12, 16, 14, 15]);
    assert_eq!(gather_indexed(&src, &[]), Vec::<u32>::new());
}
