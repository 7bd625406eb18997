use image_compare::images::{GrayImage, RgbImage, RgbaImage};

#[test]
fn gray_image_reads_row_after_row() {
    let img = GrayImage::from_raw(3, 2, vec![1, 2, 3, 4, 5, 6]).unwrap();
    assert_eq!(img.dimensions(), (3, 2));
    assert_eq!(img.width(), 3);
    assert_eq!(img.height(), 2);
    assert_eq!(img.get_pixel(0, 0), 1);
    assert_eq!(img.get_pixel(2, 0), 3);
    assert_eq!(img.get_pixel(0, 1), 4);
    assert_eq!(img.get_pixel(1, 1), 5);
}

#[test]
fn gray_image_needs_a_sample_for_each_pixel() {
    assert!(GrayImage::from_raw(3, 2, vec![0; 5]).is_none());
    assert!(GrayImage::from_raw(3, 2, vec![0; 6]).is_some());
    assert!(GrayImage::from_raw(0, 0, vec![]).is_some());
}

#[test]
fn gray_image_shows_the_first_samples_of_a_longer_buffer() {
    let img = GrayImage::from_raw(2, 1, vec![7, 8, 9]).unwrap();
    assert_eq!(img.dimensions(), (2, 1));
    assert_eq!(img.get_pixel(1, 0), 8);
}

#[test]
fn rgb_image_reads_three_samples_for_each_pixel() {
    let img = RgbImage::from_raw(2, 2, vec![1, 2, 3, 4, 5, 6, 7, 8, 9, 10, 11, 12]).unwrap();
    assert_eq!(img.dimensions(), (2, 2));
    assert_eq!(img.width(), 2);
    assert_eq!(img.height(), 2);
    assert_eq!(img.get_pixel(0, 0), (1, 2, 3));
    assert_eq!(img.get_pixel(1, 0), (4, 5, 6));
    assert_eq!(img.get_pixel(0, 1), (7, 8, 9));
    assert_eq!(img.get_pixel(1, 1), (10, 11, 12));
}

#[test]
fn rgb_image_needs_three_samples_for_each_pixel() {
    assert!(RgbImage::from_raw(2, 2, vec![0; 11]).is_none());
    assert!(RgbImage::from_raw(2, 2, vec![0; 12]).is_some());
}

#[test]
fn rgba_image_reads_four_samples_for_each_pixel() {
    let img = RgbaImage::from_raw(1, 2, vec![1, 2, 3, 4, 5, 6, 7, 8]).unwrap();
    assert_eq!(img.dimensions(), (1, 2));
    assert_eq!(img.width(), 1);
    assert_eq!(img.height(), 2);
    assert_eq!(img.get_pixel(0, 0), (1, 2, 3, 4));
    assert_eq!(img.get_pixel(0, 1), (5, 6, 7, 8));
}

#[test]
fn rgba_image_needs_four_samples_for_each_pixel() {
    assert!(RgbaImage::from_raw(1, 2, vec![0; 7]).is_none());
    assert!(RgbaImage::from_raw(1, 2, vec![0; 8]).is_some());
}
