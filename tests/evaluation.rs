use oxislam::descriptor::{DescriptorKind, PatchExtractor};
use oxislam::image::Image;
use oxislam::ops::{map2, map_windows};
use oxislam::parallel::{par_filter_map, par_flat_map, par_row_collect};
use oxislam::suppress::local_maxima;

#[test]
fn row_collect_is_row_major() {
    let v = par_row_collect(3, 2, |x, y| 10 * y + x);
    assert_eq!(v, vec![0, 1, 2, 10, 11, 12]);
}

#[test]
fn flat_map_concatenates_in_order() {
    let v = par_flat_map(2..5, |i| vec![i; i - 1]);
    assert_eq!(v, vec![2, 3, 3, 4, 4, 4]);
    let empty: Vec<usize> = par_flat_map(5..5, |i| vec![i]);
    assert!(empty.is_empty());
}

#[test]
fn filter_map_keeps_order() {
    let v = par_filter_map(vec![1, 2, 3, 4, 5, 6], |i: i32| if i % 2 == 0 { Some(i * 10) } else { None });
    assert_eq!(v, vec![20, 40, 60]);
}

#[test]
fn map_is_pointwise_and_compact() {
    let img = Image::new(2, 2, 3, vec![1i32, 2, 0, 3, 4, 0]);
    let out = oxislam::ops::map(&img.view(), |p: &i32| p * 2);
    assert_eq!(out.stride(), 2);
    assert_eq!(out.view().pixels(), vec![2, 4, 6, 8]);
}

#[test]
fn map2_combines_same_shape() {
    let a = Image::new(2, 2, 2, vec![1i32, 2, 3, 4]);
    let b = Image::new(2, 2, 3, vec![10i32, 20, 0, 30, 40, 0]);
    let out = map2(&a.view(), &b.view(), |p: &i32, q: &i32| p * q);
    assert_eq!(out.view().pixels(), vec![10, 40, 90, 160]);
}

fn window_sum(v: &oxislam::image::ImageView<i64>) -> i64 {
    v.pixels().iter().sum()
}

#[test]
fn windows_shrink_by_size_minus_one() {
    let img = Image::new(5, 4, 5, (0..20i64).collect());
    let out = map_windows(&img.view(), 3, window_sum).unwrap();
    assert_eq!(out.width(), 3);
    assert_eq!(out.height(), 2);
    // window at (0, 0): rows 0..3, columns 0..3
    assert_eq!(*out.get(0, 0), 0 + 1 + 2 + 5 + 6 + 7 + 10 + 11 + 12);
    assert_eq!(*out.get(2, 1), 7 + 8 + 9 + 12 + 13 + 14 + 17 + 18 + 19);
}

#[test]
fn windows_fail_on_small_images() {
    let img = Image::new(4, 5, 4, vec![0i64; 20]);
    assert!(map_windows(&img.view(), 5, window_sum).is_none());
    assert!(map_windows(&img.view(), 0, window_sum).is_none());
    let exact = map_windows(&img.view(), 4, window_sum).unwrap();
    assert_eq!((exact.width(), exact.height()), (1, 2));
}

#[test]
fn windows_of_constant_field_are_constant() {
    let img = Image::filled(6, 6, 2i64);
    let out = map_windows(&img.view(), 5, window_sum).unwrap();
    assert_eq!(out.view().pixels(), vec![50, 50, 50, 50]);
}

fn keep_above(t: i32) -> impl Fn(&i32) -> bool + Sync {
    move |p: &i32| *p > t
}

fn strictly_greater(p: &i32, q: &i32) -> bool {
    p > q
}

#[test]
fn single_peak_is_found() {
    let data = vec![
        0, 0, 0, 0, //
        0, 5, 1, 0, //
        0, 1, 1, 0, //
    ];
    let img = Image::new(4, 3, 4, data);
    let keep = keep_above(0);
    let peaks = local_maxima(&img.view(), &keep, &strictly_greater);
    assert_eq!(peaks, vec![(1, 1)]);
}

#[test]
fn equal_neighbours_suppress_each_other() {
    let data = vec![
        0, 0, 0, 0, //
        0, 5, 5, 0, //
        0, 0, 0, 0, //
    ];
    let img = Image::new(4, 3, 4, data);
    let keep = keep_above(0);
    assert!(local_maxima(&img.view(), &keep, &strictly_greater).is_empty());
}

#[test]
fn border_cells_compare_only_existing_neighbours() {
    let data = vec![
        9, 1, 0, //
        1, 0, 0, //
        0, 0, 7, //
    ];
    let img = Image::new(3, 3, 3, data);
    let keep = keep_above(0);
    assert_eq!(local_maxima(&img.view(), &keep, &strictly_greater), vec![(0, 0), (2, 2)]);
    let high = keep_above(8);
    assert_eq!(local_maxima(&img.view(), &high, &strictly_greater), vec![(0, 0)]);
}

#[test]
fn patch_extractor_configuration() {
    let e = PatchExtractor::<3, 9>::new(true);
    assert_eq!(e.patch_size(), 3);
    assert_eq!(e.descriptor_length(), 9);
    assert!(e.normalizes());
    assert!(!PatchExtractor::<5, 25>::new(false).normalizes());
    assert_ne!(DescriptorKind::Binary, DescriptorKind::Float);
}

#[test]
fn sample_reads_patch_row_major() {
    let img = Image::new(3, 3, 3, (1..=9u8).collect());
    let e = PatchExtractor::<3, 9>::new(true);
    assert_eq!(e.sample(&img.view(), 1, 1), Some((1..=9u8).collect::<Vec<_>>()));
    assert_eq!(e.sample(&img.view(), 0, 1), None);
}

#[test]
fn border_keypoints_are_discarded() {
    let img = Image::new(6, 6, 6, (0..36u8).collect());
    let e = PatchExtractor::<3, 9>::new(false);
    let centres: Vec<(isize, isize)> = vec![(0, 0), (2, 2), (5, 3), (3, 4), (3, 5), (1, 1), (-1, 2)];
    let out = e.sample_all(&img.view(), &centres);
    let kept: Vec<usize> = out.iter().map(|(i, _)| *i).collect();
    assert_eq!(kept, vec![1, 3, 5]);
    assert_eq!(centres.len() - out.len(), 4);
    assert_eq!(out[0].1, vec![7, 8, 9, 13, 14, 15, 19, 20, 21]);
    assert_eq!(out[2].1, vec![0, 1, 2, 6, 7, 8, 12, 13, 14]);
}
