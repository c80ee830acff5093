use arrow2::boolean::BooleanArray;
use arrow2::slices::SlicesIterator;

#[test]
fn test_slice_iterator_bits() {
    let filter_values = (0..64).map(|i| i == 1).collect::<Vec<bool>>();
    let filter = BooleanArray::from_slice(&filter_values);

    let iter = SlicesIterator::new(&filter);
    let filter_count = iter.get_filter_count();
    let chunks = iter.collect_runs();

    assert_eq!(chunks, vec![(1, 1)]);
    assert_eq!(filter_count, 1);
}

#[test]
fn test_slice_iterator_bits1() {
    let filter_values = (0..64).map(|i| i != 1).collect::<Vec<bool>>();
    let filter = BooleanArray::from_slice(&filter_values);

    let iter = SlicesIterator::new(&filter);
    let filter_count = iter.get_filter_count();
    let chunks = iter.collect_runs();

    assert_eq!(chunks, vec![(0, 1), (2, 62)]);
    assert_eq!(filter_count, 64 - 1);
}

#[test]
fn test_slice_iterator_chunk_and_bits() {
    let filter_values = (0..130).map(|i| i % 62 != 0).collect::<Vec<bool>>();
    let filter = BooleanArray::from_slice(&filter_values);

    let iter = SlicesIterator::new(&filter);
    let filter_count = iter.get_filter_count();
    let chunks = iter.collect_runs();

    assert_eq!(chunks, vec![(1, 61), (63, 61), (125, 5)]);
    assert_eq!(filter_count, 61 + 61 + 5);
}
