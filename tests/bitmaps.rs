use arrow2::bitmap::{Bitmap, MutableBitmap};
use arrow2::boolean::BooleanArray;
use arrow2::slices::SlicesIterator;

fn naive_runs(bits: &[bool]) -> Vec<(usize, usize)> {
    let mut runs = Vec::new();
    let mut open: Option<(usize, usize)> = None;
    for (i, bit) in bits.iter().enumerate() {
        match (open, *bit) {
            (Some((s, l)), true) => open = Some((s, l + 1)),
            (None, true) => open = Some((i, 1)),
            (Some(r), false) => {
                runs.push(r);
                open = None;
            }
            (None, false) => {}
        }
    }
    if let Some(r) = open {
        runs.push(r);
    }
    runs
}

fn check_runs(bits: &[bool]) {
    let array = BooleanArray::from_slice(bits);
    let iter = SlicesIterator::new(&array);
    let count = iter.get_filter_count();
    let runs = iter.collect_runs();
    assert_eq!(runs, naive_runs(bits));
    assert_eq!(count, bits.iter().filter(|b| **b).count());
    assert_eq!(runs.iter().map(|r| r.1).sum::<usize>(), count);
}

#[test]
fn runs_match_naive_scan_on_word_boundaries() {
    check_runs(&[]);
    check_runs(&[false; 10]);
    check_runs(&[true; 10]);
    check_runs(&vec![true; 64]);
    check_runs(&vec![false; 64]);
    check_runs(&vec![true; 200]);
    check_runs(&(0..200).map(|i| (60..70).contains(&i) || (127..129).contains(&i)).collect::<Vec<_>>());
    check_runs(&(0..193).map(|i| i % 3 != 0).collect::<Vec<_>>());
    check_runs(&(0..256).map(|i| i >= 64 && i < 192).collect::<Vec<_>>());
    check_runs(&(0..130).map(|i| i == 63 || i == 64 || i == 129).collect::<Vec<_>>());
}

#[test]
fn runs_of_a_sliced_mask() {
    let bits = (0..150).map(|i| i % 7 < 4).collect::<Vec<_>>();
    let array = BooleanArray::from_slice(&bits).slice(5, 140);
    let runs = SlicesIterator::new(&array).collect_runs();
    assert_eq!(runs, naive_runs(&bits[5..145]));
}

#[test]
fn bitmap_reads_bits_and_counts_unset() {
    let bitmap = Bitmap::try_new(vec![0b0000_0101, 0b1000_0000], 16).unwrap();
    assert!(bitmap.get_bit(0));
    assert!(!bitmap.get_bit(1));
    assert!(bitmap.get_bit(2));
    assert!(bitmap.get_bit(15));
    assert_eq!(bitmap.null_count(), 13);
    let slice = bitmap.slice(2, 14);
    assert_eq!(slice.len(), 14);
    assert!(slice.get_bit(0));
    assert!(slice.get_bit(13));
    assert_eq!(slice.null_count(), 12);
    assert_eq!(bitmap.word(0, 16), 0b1000_0000_0000_0101);
}

#[test]
fn bitmap_rejects_too_few_bytes() {
    assert!(Bitmap::try_new(vec![0u8], 9).is_err());
    assert!(Bitmap::try_new(vec![0u8], 8).is_ok());
}

#[test]
fn mutable_bitmap_extends() {
    let mut bits = MutableBitmap::new();
    bits.extend_constant(10, true);
    bits.push(false);
    bits.extend_from_slice(&[false, true]);
    let source = Bitmap::try_new(vec![0b0000_0010], 8).unwrap();
    bits.extend_from_bitmap(&source, 1, 2);
    assert_eq!(bits.len(), 15);
    assert_eq!(bits.null_count(), 3);
    let frozen = bits.into_bitmap();
    let expected = [true, true, true, true, true, true, true, true, true, true, false, false, true, true, false];
    assert_eq!(frozen.to_vec(), expected.to_vec());
}
