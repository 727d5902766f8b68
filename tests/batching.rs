use rusto::batching::{aspect_order, batch_ranges};
use rusto::raster::Size;

#[test]
fn crops_go_by_increasing_aspect_ratio_stably() {
    let sizes = vec![
        Size::new(100, 10),
        Size::new(20, 10),
        Size::new(40, 20),
        Size::new(5, 0),
        Size::new(0, 5),
    ];
    assert_eq!(aspect_order(&sizes), vec![4, 1, 2, 3, 0]);
    assert!(aspect_order(&vec![]).is_empty());
}

#[test]
fn ratios_are_compared_exactly() {
    // 1/3 and 333333/1000000 differ by less than an f32 can always tell apart
    let sizes = vec![Size::new(1, 3), Size::new(333_333, 1_000_000), Size::new(1, 3)];
    assert_eq!(aspect_order(&sizes), vec![1, 0, 2]);
}

#[test]
fn batches_cut_positions_into_fixed_runs() {
    assert_eq!(batch_ranges(7, 3), vec![(0, 3), (3, 6), (6, 7)]);
    assert_eq!(batch_ranges(6, 3), vec![(0, 3), (3, 6)]);
    assert_eq!(batch_ranges(2, 6), vec![(0, 2)]);
    assert!(batch_ranges(0, 5).is_empty());
}

#[test]
fn every_crop_is_placed_once() {
    let sizes: Vec<Size> = (0..11).map(|i| Size::new((i * 37) % 13 + 1, (i * 5) % 7)).collect();
    let order = aspect_order(&sizes);
    let mut seen = vec![0; sizes.len()];
    for (beg, end) in batch_ranges(sizes.len(), 4) {
        for &idx in &order[beg..end] {
            seen[idx] += 1;
        }
    }
    assert!(seen.iter().all(|&c| c == 1));
}
