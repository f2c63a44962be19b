use buscaluso_bench::ValueRange;
use buscaluso_bench::combine_ranges;
use buscaluso_bench::extend_range;
use buscaluso_bench::get_range;

fn range(start: u64, end: u64) -> ValueRange {
    ValueRange { start, end }
}

#[test]
fn test_extend_range() {
    assert_eq!(extend_range(range(0, 5), 3), range(0, 5));
    assert_eq!(extend_range(range(0, 5), 9), range(0, 9));
    assert_eq!(extend_range(range(12, 15), 2), range(2, 15));
}

#[test]
fn test_get_range_empty() {
    assert!(get_range(&Vec::new()).is_none());
}

#[test]
fn test_get_range_min_max() {
    assert_eq!(get_range(&vec![4, 1, 9, 1, 7]), Some(range(1, 9)));
    assert_eq!(get_range(&vec![8]), Some(range(8, 8)));
}

#[test]
fn test_combine_ranges_covers_both() {
    assert_eq!(combine_ranges(&range(3, 5), &range(1, 4)), range(1, 5));
    assert_eq!(combine_ranges(&range(0, 9), &range(2, 3)), range(0, 9));
}
