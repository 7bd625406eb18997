use image_compare::images::{GrayImage, RgbImage};
use image_compare::similarity::{SimilarityImage, SimilarityPlane};
use image_compare::{
    gray_similarity_structure, rgb_similarity_structure, Algorithm, CompareError,
};

const ONE: i64 = 1_000_000_000;

fn filled(width: u32, height: u32, level: u8) -> GrayImage {
    GrayImage::from_raw(width, height, vec![level; (width * height) as usize]).unwrap()
}

fn gray_plane(image: Option<SimilarityImage>) -> SimilarityPlane {
    match image {
        Some(SimilarityImage::Gray(plane)) => plane,
        _ => panic!("a map with one value for each pixel is expected"),
    }
}

fn rgb_plane(image: Option<SimilarityImage>) -> SimilarityPlane {
    match image {
        Some(SimilarityImage::RGB(plane)) => plane,
        _ => panic!("a map with three values for each pixel is expected"),
    }
}

fn two_by_two() -> (RgbImage, RgbImage) {
    let first = RgbImage::from_raw(
        2,
        2,
        vec![10, 20, 30, 200, 100, 50, 0, 0, 0, 255, 255, 255],
    )
    .unwrap();
    let second = RgbImage::from_raw(
        2,
        2,
        vec![12, 22, 28, 100, 100, 50, 0, 0, 0, 250, 255, 240],
    )
    .unwrap();
    (first, second)
}

#[test]
fn dimensions_differ_test_gray_structure() {
    let first = filled(1, 1, 0);
    let second = filled(2, 2, 0);
    let result = gray_similarity_structure(&Algorithm::RootMeanSquared, &first, &second);
    assert!(result.is_err());
}

#[test]
fn dimensions_differ_test_rgb_structure() {
    let first = RgbImage::from_raw(1, 1, vec![0; 3]).unwrap();
    let second = RgbImage::from_raw(2, 2, vec![0; 12]).unwrap();
    let result = rgb_similarity_structure(&Algorithm::RootMeanSquared, &first, &second);
    assert!(result.is_err());
}

#[test]
fn images_of_different_size_are_refused_in_every_mode() {
    let first = filled(1, 1, 0);
    let second = filled(2, 2, 0);
    assert!(matches!(
        gray_similarity_structure(&Algorithm::RootMeanSquared, &first, &second),
        Err(CompareError::DimensionsDiffer)
    ));
    assert!(matches!(
        gray_similarity_structure(&Algorithm::MSSIMSimple, &first, &second),
        Err(CompareError::DimensionsDiffer)
    ));
    let wide = filled(4, 1, 0);
    assert!(matches!(
        gray_similarity_structure(&Algorithm::MSSIMSimple, &wide, &second),
        Err(CompareError::DimensionsDiffer)
    ));
    let first = RgbImage::from_raw(1, 1, vec![0; 3]).unwrap();
    let second = RgbImage::from_raw(2, 2, vec![0; 12]).unwrap();
    assert!(matches!(
        rgb_similarity_structure(&Algorithm::MSSIMSimple, &first, &second),
        Err(CompareError::DimensionsDiffer)
    ));
}

#[test]
fn images_without_a_pixel_have_no_score() {
    let first = filled(0, 0, 0);
    let second = filled(0, 0, 0);
    assert!(matches!(
        gray_similarity_structure(&Algorithm::RootMeanSquared, &first, &second),
        Err(CompareError::CalculationFailed(_))
    ));
    assert!(matches!(
        gray_similarity_structure(&Algorithm::MSSIMSimple, &first, &second),
        Err(CompareError::CalculationFailed(_))
    ));
    let first = RgbImage::from_raw(0, 0, vec![]).unwrap();
    let second = RgbImage::from_raw(0, 0, vec![]).unwrap();
    assert!(matches!(
        rgb_similarity_structure(&Algorithm::RootMeanSquared, &first, &second),
        Err(CompareError::CalculationFailed(_))
    ));
}

#[test]
fn gray_rms_of_zero_and_ten() {
    let result =
        gray_similarity_structure(&Algorithm::RootMeanSquared, &filled(1, 1, 0), &filled(1, 1, 10))
            .unwrap();
    let plane = gray_plane(result.image);
    assert!((plane.get(0, 0, 0) as f64 / 1e9 - 0.9608).abs() < 1e-4);
    assert_eq!(plane.get(0, 0, 0), 960_784_313);
    assert_eq!(result.score, 960_784_313);
}

#[test]
fn gray_rms_of_zero_and_255() {
    let result = gray_similarity_structure(
        &Algorithm::RootMeanSquared,
        &filled(1, 1, 0),
        &filled(1, 1, 255),
    )
    .unwrap();
    assert_eq!(result.score, 0);
    assert_eq!(gray_plane(result.image).get(0, 0, 0), 0);
}

#[test]
fn gray_ssim_of_zero_and_five() {
    let result =
        gray_similarity_structure(&Algorithm::MSSIMSimple, &filled(8, 8, 0), &filled(8, 8, 5))
            .unwrap();
    assert!((result.score as f64 / 1e9 - 0.2064).abs() < 1e-4);
    assert_eq!(result.score, 206_412_189);
}

#[test]
fn an_image_is_as_similar_to_itself_as_can_be() {
    let img = GrayImage::from_raw(3, 3, vec![5, 200, 7, 0, 255, 31, 9, 9, 100]).unwrap();
    let rms = gray_similarity_structure(&Algorithm::RootMeanSquared, &img, &img).unwrap();
    assert_eq!(rms.score, ONE);
    let ssim = gray_similarity_structure(&Algorithm::MSSIMSimple, &img, &img).unwrap();
    assert_eq!(ssim.score, ONE);
}

#[test]
fn the_order_of_the_images_does_not_matter() {
    let first = GrayImage::from_raw(3, 3, vec![5, 200, 7, 0, 255, 31, 9, 9, 100]).unwrap();
    let second = GrayImage::from_raw(3, 3, vec![50, 20, 70, 0, 25, 31, 90, 9, 10]).unwrap();
    for algorithm in [Algorithm::RootMeanSquared, Algorithm::MSSIMSimple] {
        let one = gray_similarity_structure(&algorithm, &first, &second).unwrap();
        let other = gray_similarity_structure(&algorithm, &second, &first).unwrap();
        assert_eq!(one.score, other.score);
        assert!(-ONE <= one.score && one.score <= ONE);
    }
}

#[test]
fn rgb_rms_takes_the_worst_channel() {
    let (first, second) = two_by_two();
    let result = rgb_similarity_structure(&Algorithm::RootMeanSquared, &first, &second).unwrap();
    assert_eq!(result.score, 803_637_461);
    let plane = rgb_plane(result.image);
    assert_eq!(
        plane.data,
        vec![
            992_156_862,
            992_156_862,
            992_156_862,
            607_843_137,
            1_000_000_000,
            1_000_000_000,
            1_000_000_000,
            1_000_000_000,
            1_000_000_000,
            980_392_156,
            1_000_000_000,
            941_176_470
        ]
    );
}

#[test]
fn rgb_ssim_takes_the_worst_channel() {
    let (first, second) = two_by_two();
    let result = rgb_similarity_structure(&Algorithm::MSSIMSimple, &first, &second).unwrap();
    assert_eq!(result.score, 891_032_045);
    let plane = rgb_plane(result.image);
    assert_eq!(plane.get(0, 0, 0), 891_032_045);
    assert_eq!(plane.get(1, 1, 1), 999_948_582);
    assert_eq!(plane.get(0, 1, 2), 996_591_928);
}

#[test]
fn rgb_of_an_image_with_itself() {
    let (first, _) = two_by_two();
    for algorithm in [Algorithm::RootMeanSquared, Algorithm::MSSIMSimple] {
        let result = rgb_similarity_structure(&algorithm, &first, &first).unwrap();
        assert_eq!(result.score, ONE);
    }
}
