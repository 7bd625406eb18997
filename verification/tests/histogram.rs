use image_compare::histogram::{histograms_of, intersection, Histogram};
use image_compare::images::GrayImage;
use image_compare::CompareError;

#[test]
fn intersection_simple() {
    let first_vec = vec![1; 256];
    let second_vec = vec![10; 256];

    let first = Histogram::from_vec(first_vec).unwrap();
    let second = Histogram::from_vec(second_vec).unwrap();

    assert_eq!(intersection(&first, &first), first.integral());
    assert_eq!(intersection(&first, &second), first.integral());
    assert_eq!(intersection(&first, &second), Some(256));
}

#[test]
fn histogram_counts_the_levels() {
    let img = GrayImage::from_raw(3, 2, vec![7, 0, 7, 255, 7, 0]).unwrap();
    let hist = Histogram::from_gray_image(&img);
    assert_eq!(hist.data.len(), 256);
    assert_eq!(hist.get_bin_content(0), 2);
    assert_eq!(hist.get_bin_content(7), 3);
    assert_eq!(hist.get_bin_content(255), 1);
    assert_eq!(hist.get_bin_content(8), 0);
    assert_eq!(hist.integral(), Some(6));
}

#[test]
fn histogram_of_an_image_without_a_pixel_is_empty() {
    let img = GrayImage::from_raw(0, 0, vec![]).unwrap();
    let hist = Histogram::from_gray_image(&img);
    assert_eq!(hist.integral(), Some(0));
}

#[test]
fn histogram_needs_a_bin_for_each_level() {
    assert!(Histogram::from_vec(vec![0; 255]).is_none());
    assert!(Histogram::from_vec(vec![0; 257]).is_none());
    assert!(Histogram::from_vec(vec![0; 256]).is_some());
}

#[test]
fn integral_that_does_not_fit() {
    let mut bins = vec![0; 256];
    bins[3] = u64::MAX;
    bins[200] = 1;
    let hist = Histogram::from_vec(bins).unwrap();
    assert_eq!(hist.integral(), None);
    assert_eq!(intersection(&hist, &hist), None);
}

#[test]
fn intersection_takes_the_lesser_bin() {
    let mut one = vec![0; 256];
    let mut other = vec![0; 256];
    one[0] = 5;
    other[0] = 3;
    one[9] = 2;
    other[9] = 8;
    one[255] = 4;
    let first = Histogram::from_vec(one).unwrap();
    let second = Histogram::from_vec(other).unwrap();
    assert_eq!(intersection(&first, &second), Some(5));
    assert_eq!(intersection(&second, &first), Some(5));
}

#[test]
fn histograms_of_images_of_different_size_are_refused() {
    let first = GrayImage::from_raw(1, 1, vec![0]).unwrap();
    let second = GrayImage::from_raw(2, 2, vec![0; 4]).unwrap();
    assert!(matches!(
        histograms_of(&first, &second),
        Err(CompareError::DimensionsDiffer)
    ));
    let (one, other) = histograms_of(&second, &second).ok().unwrap();
    assert_eq!(one.get_bin_content(0), 4);
    assert_eq!(other.integral(), Some(4));
}

#[test]
fn dimensions_differ_test_gray_histos() {
    let first = GrayImage::from_raw(1, 1, vec![0]).unwrap();
    let second = GrayImage::from_raw(2, 2, vec![0; 4]).unwrap();
    let result = histograms_of(&first, &second);
    assert!(result.is_err());
}
