use image_compare::images::GrayImage;
use image_compare::squared_error::root_mean_squared_error_simple;
use image_compare::CompareError;

fn filled(width: u32, height: u32, level: u8) -> GrayImage {
    GrayImage::from_raw(width, height, vec![level; (width * height) as usize]).unwrap()
}

fn as_float(value: i64) -> f64 {
    value as f64 / 1e9
}

#[test]
fn rms_simple_10() {
    let first = filled(1, 1, 0);
    let second = filled(1, 1, 10);
    let (_, comparison) =
        root_mean_squared_error_simple(&first, &second).expect("Do not expect error here");
    assert!((as_float(comparison.get(0, 0, 0)) - (1. - (10. / 255.0f64))).abs() < 1e-9);
    assert_eq!(comparison.get(0, 0, 0), 960_784_313);
}

#[test]
fn rms_simple_identity() {
    let first = filled(1, 1, 0);
    let second = filled(1, 1, 0);
    let (score, comparison) =
        root_mean_squared_error_simple(&first, &second).expect("Do not expect error here");
    assert_eq!(as_float(comparison.get(0, 0, 0)), 1.);
    assert_eq!(as_float(score), 1.);
}

#[test]
fn rms_simple_max() {
    let first = filled(1, 1, 0);
    let second = filled(1, 1, 255);
    let (score, comparison) =
        root_mean_squared_error_simple(&first, &second).expect("Do not expect error here");
    assert_eq!(as_float(comparison.get(0, 0, 0)), 0.);
    assert_eq!(as_float(score), 0.);
}

#[test]
fn rms_simple() {
    let width = 3;
    let height = 2;
    let first = filled(width, height, 0);
    let second = GrayImage::from_raw(width, height, vec![0, 0, 0, 0, 127, 0]).unwrap();

    let (comparison, _) =
        root_mean_squared_error_simple(&first, &second).expect("Do not expect error here");

    let result = 1. - ((127. / 255.0f64).powi(2) / (width * height) as f64).sqrt();
    assert!((as_float(comparison) - result).abs() < 1e-5);
    assert_eq!(comparison, 796_676_342);
}

#[test]
fn rms_does_not_depend_on_the_order() {
    let first = GrayImage::from_raw(2, 2, vec![1, 50, 200, 17]).unwrap();
    let second = GrayImage::from_raw(2, 2, vec![9, 40, 100, 255]).unwrap();
    let (one, one_plane) = root_mean_squared_error_simple(&first, &second).unwrap();
    let (other, other_plane) = root_mean_squared_error_simple(&second, &first).unwrap();
    assert_eq!(one, other);
    assert_eq!(one_plane.data, other_plane.data);
}

#[test]
fn rms_stays_between_zero_and_one() {
    let first = GrayImage::from_raw(2, 2, vec![0, 255, 3, 128]).unwrap();
    let second = GrayImage::from_raw(2, 2, vec![255, 0, 4, 127]).unwrap();
    let (score, plane) = root_mean_squared_error_simple(&first, &second).unwrap();
    assert!(0 <= score && score <= 1_000_000_000);
    for value in plane.data.iter() {
        assert!(0 <= *value && *value <= 1_000_000_000);
    }
    assert_eq!(plane.data, vec![0, 0, 996_078_431, 996_078_431]);
}

#[test]
fn rms_plane_is_laid_out_row_after_row() {
    let first = GrayImage::from_raw(2, 2, vec![0, 0, 0, 0]).unwrap();
    let second = GrayImage::from_raw(2, 2, vec![0, 255, 0, 0]).unwrap();
    let (_, plane) = root_mean_squared_error_simple(&first, &second).unwrap();
    assert_eq!(plane.width(), 2);
    assert_eq!(plane.height(), 2);
    assert_eq!(plane.get(1, 0, 0), 0);
    assert_eq!(plane.get(0, 1, 0), 1_000_000_000);
}

#[test]
fn rms_of_images_without_a_pixel_fails() {
    let first = GrayImage::from_raw(0, 0, vec![]).unwrap();
    let second = GrayImage::from_raw(0, 0, vec![]).unwrap();
    let result = root_mean_squared_error_simple(&first, &second);
    assert!(matches!(result, Err(CompareError::CalculationFailed(_))));
}
