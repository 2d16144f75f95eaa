use algorithm::bit_search::{BitSearcher, BitSearcherResult};

#[test]
fn test_result() {
    let target = vec![1, 2, 3, 4, 5];
    let result = BitSearcherResult::new(0);
    assert_eq!(result.bits(3), vec![false, false, false]);
    assert!(result.cover(&target).is_empty());
    let result = BitSearcherResult::new(1);
    assert_eq!(result.bits(3), vec![false, false, true]);
    assert_eq!(result.cover(&target), vec![5]);
    let result = BitSearcherResult::new(2);
    assert_eq!(result.bits(3), vec![false, true, false]);
    assert_eq!(result.cover(&target), vec![4]);
    let result = BitSearcherResult::new((1 << 3) - 1);
    assert_eq!(result.bits(3), vec![true, true, true]);
    assert_eq!(result.bits(4), vec![false, true, true, true]);
    assert_eq!(result.cover(&target), vec![3, 4, 5]);
}

#[test]
fn test_searcher() {
    let mut searcher = BitSearcher::new();
    assert_eq!(searcher.next().unwrap().n, 0);
    assert_eq!(searcher.next().unwrap().n, 1);
    assert_eq!(searcher.next().unwrap().n, 2);
    assert_eq!(searcher.next().unwrap().n, 3);
}

#[test]
fn test_bits_wide_window() {
    let result = BitSearcherResult::new(5);
    assert_eq!(
        result.bits(4),
        vec![false, true, false, true],
    );
    assert_eq!(result.bits(0), Vec::<bool>::new());
}

#[test]
fn test_cover_keeps_order() {
    let target = vec![10, 20, 30, 40];
    let result = BitSearcherResult::new(0b1010);
    assert_eq!(result.cover(&target), vec![10, 30]);
    let result = BitSearcherResult::new(0b0101);
    assert_eq!(result.cover(&target), vec![20, 40]);
}
