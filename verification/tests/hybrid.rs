use image_compare::hybrid::{
    merge_similarity_channels_yuv, merge_similarity_channels_yuva, rgb_hybrid_compare,
    rgba_blended_hybrid_compare, rgba_hybrid_compare, BlendInput,
};
use image_compare::images::{GrayImage, RgbImage, RgbaImage};
use image_compare::similarity::{SimilarityImage, SimilarityPlane};
use image_compare::CompareError;

const ONE: i64 = 1_000_000_000;

fn plane_of(values: Vec<i64>) -> SimilarityPlane {
    SimilarityPlane { width: values.len() as u32, height: 1, channels: 1, data: values }
}

fn rgb_plane(image: Option<SimilarityImage>) -> SimilarityPlane {
    match image {
        Some(SimilarityImage::RGB(plane)) => plane,
        _ => panic!("a map with three values for each pixel is expected"),
    }
}

fn rgba_plane(image: Option<SimilarityImage>) -> SimilarityPlane {
    match image {
        Some(SimilarityImage::RGBA(plane)) => plane,
        _ => panic!("a map with four values for each pixel is expected"),
    }
}

fn two_by_two() -> (RgbImage, RgbImage) {
    let first = RgbImage::from_raw(
        2,
        2,
        vec![10, 20, 30, 200, 100, 50, 0, 0, 0, 255, 255, 255],
    )
    .unwrap();
    let second = RgbImage::from_raw(
        2,
        2,
        vec![12, 22, 28, 100, 100, 50, 0, 0, 0, 250, 255, 240],
    )
    .unwrap();
    (first, second)
}

#[test]
fn merge_takes_the_lesser_of_luma_and_colour() {
    // luma is the least; the colour is alike beyond one; the length of (0.3, 0.4) is 0.5
    let y = plane_of(vec![ONE / 4, ONE, ONE]);
    let u = plane_of(vec![ONE, ONE, 3 * ONE / 10]);
    let v = plane_of(vec![ONE, ONE / 2, 4 * ONE / 10]);
    let merged = merge_similarity_channels_yuv(&[y, u, v]);
    // (0.25 + 1 + 0.5) / 3
    assert_eq!(merged.score, (ONE / 4 + ONE + ONE / 2) / 3);
    let plane = rgb_plane(merged.image);
    assert_eq!(
        plane.data,
        vec![
            3 * ONE / 4,
            0,
            0,
            0,
            0,
            ONE / 2,
            0,
            7 * ONE / 10,
            6 * ONE / 10
        ]
    );
}

#[test]
fn merge_holds_the_similarities_within_zero_and_one() {
    let y = plane_of(vec![-ONE / 2, 2 * ONE]);
    let u = plane_of(vec![ONE, ONE]);
    let v = plane_of(vec![ONE, ONE]);
    let merged = merge_similarity_channels_yuv(&[y, u, v]);
    assert_eq!(merged.score, ONE / 2);
    let plane = rgb_plane(merged.image);
    assert_eq!(plane.data, vec![ONE, 0, 0, 0, 0, 0]);
}

#[test]
fn deviation_is_no_more_than_luma_and_colour_similarity() {
    let levels: Vec<i64> = vec![0, ONE / 10, ONE / 3, ONE / 2, 7 * ONE / 10, ONE];
    for y in levels.iter() {
        for u in levels.iter() {
            for v in levels.iter() {
                let merged = merge_similarity_channels_yuv(&[
                    plane_of(vec![*y]),
                    plane_of(vec![*u]),
                    plane_of(vec![*v]),
                ]);
                let colour = (((*u as f64).powi(2) + (*v as f64).powi(2)).sqrt()).min(1e9);
                assert!(merged.score <= *y);
                assert!(merged.score as f64 <= colour);
                assert!(merged.score == *y || (merged.score as f64 - colour).abs() < 1.0);
            }
        }
    }
}

#[test]
fn alpha_visibility_has_a_floor() {
    let alphas = GrayImage::from_raw(3, 1, vec![255, 255, 255]).unwrap();
    let merged = merge_similarity_channels_yuva(
        &[
            plane_of(vec![ONE, ONE, ONE]),
            plane_of(vec![ONE, ONE, ONE]),
            plane_of(vec![ONE, ONE, ONE]),
            plane_of(vec![0, ONE / 2, ONE]),
        ],
        &alphas,
        &alphas,
    );
    let plane = rgba_plane(merged.image);
    assert_eq!(plane.get(0, 0, 3), ONE / 10);
    // 0.1 + 0.5 * 0.9
    assert_eq!(plane.get(1, 0, 3), 55 * ONE / 100);
    assert_eq!(plane.get(2, 0, 3), ONE);
    // the least similarity is that of the alphas
    assert_eq!(merged.score, (ONE / 2 + ONE) / 3);
}

#[test]
fn differences_count_less_where_the_pixel_is_clear() {
    let half = plane_of(vec![ONE / 2, ONE / 2, ONE / 2, ONE / 2]);
    let full = plane_of(vec![ONE, ONE, ONE, ONE]);
    let first_alpha = GrayImage::from_raw(4, 1, vec![255, 255, 64, 0]).unwrap();
    let second_alpha = GrayImage::from_raw(4, 1, vec![255, 153, 64, 0]).unwrap();
    let merged = merge_similarity_channels_yuva(
        &[
            half,
            plane_of(vec![ONE, ONE, ONE, ONE]),
            plane_of(vec![ONE, ONE, ONE, ONE]),
            full,
        ],
        &first_alpha,
        &second_alpha,
    );
    // mean alphas 1, 0.8, 64 / 255 and 0: 0.5, 0.5 / 0.8, one, one
    assert_eq!(merged.score, (ONE / 2 + 625 * ONE / 1000 + ONE + ONE) / 4);
}

#[test]
fn hybrid_of_white_and_black() {
    let white = RgbImage::from_raw(8, 8, vec![255; 3 * 64]).unwrap();
    let black = RgbImage::from_raw(8, 8, vec![0; 3 * 64]).unwrap();
    let result = rgb_hybrid_compare(&white, &black).unwrap();
    assert!((result.score as f64 / 1e9).abs() < 1e-3);
    assert_eq!(result.score, 99_990);
    let plane = rgb_plane(result.image);
    assert_eq!(plane.width, 8);
    assert_eq!(plane.height, 8);
    for y in 0..8 {
        for x in 0..8 {
            assert_eq!(plane.get(x, y, 0), 999_900_010);
            assert_eq!(plane.get(x, y, 1), 0);
            assert_eq!(plane.get(x, y, 2), 0);
        }
    }
}

#[test]
fn hybrid_of_an_image_with_itself() {
    let (first, _) = two_by_two();
    let result = rgb_hybrid_compare(&first, &first).unwrap();
    assert_eq!(result.score, ONE);
    let plane = rgb_plane(result.image);
    assert_eq!(plane.data, vec![0; 12]);
}

#[test]
fn hybrid_of_red_and_blue() {
    let red = RgbImage::from_raw(1, 1, vec![255, 0, 0]).unwrap();
    let blue = RgbImage::from_raw(1, 1, vec![0, 0, 255]).unwrap();
    let result = rgb_hybrid_compare(&red, &blue).unwrap();
    assert_eq!(result.score, 533_463_074);
    let plane = rgb_plane(result.image);
    assert_eq!(plane.data, vec![333_509_348, 670_588_236, 580_392_157]);
}

#[test]
fn hybrid_of_two_small_images() {
    let (first, second) = two_by_two();
    let result = rgb_hybrid_compare(&first, &second).unwrap();
    assert_eq!(result.score, 988_281_218);
    let plane = rgb_plane(result.image);
    assert_eq!(
        plane.data,
        vec![
            11_718_782,
            7_843_138,
            0,
            11_718_782,
            66_666_667,
            196_078_432,
            11_718_782,
            0,
            0,
            11_718_782,
            27_450_981,
            7_843_138
        ]
    );
}

#[test]
fn hybrid_with_alpha_of_two_small_images() {
    let first = RgbaImage::from_raw(
        2,
        2,
        vec![10, 20, 30, 255, 200, 100, 50, 128, 0, 0, 0, 0, 255, 255, 255, 10],
    )
    .unwrap();
    let second = RgbaImage::from_raw(
        2,
        2,
        vec![12, 22, 28, 255, 100, 100, 50, 100, 9, 9, 9, 0, 250, 255, 240, 200],
    )
    .unwrap();
    let result = rgba_hybrid_compare(&first, &second).unwrap();
    assert_eq!(result.score, 901_581_338);
    let plane = rgba_plane(result.image);
    assert_eq!(
        plane.data,
        vec![
            12_722_263,
            7_843_138,
            0,
            1_000_000_000,
            12_722_263,
            66_666_667,
            196_078_432,
            901_176_470,
            12_722_263,
            0,
            0,
            1_000_000_000,
            12_722_263,
            27_450_981,
            7_843_138,
            329_411_764
        ]
    );
}

#[test]
fn hybrid_with_alpha_of_an_image_with_itself() {
    let img = RgbaImage::from_raw(2, 1, vec![10, 20, 30, 255, 200, 100, 50, 0]).unwrap();
    let result = rgba_hybrid_compare(&img, &img).unwrap();
    assert_eq!(result.score, ONE);
    let plane = rgba_plane(result.image);
    assert_eq!(plane.data, vec![0, 0, 0, ONE, 0, 0, 0, ONE]);
}

#[test]
fn hybrid_refuses_images_of_different_size() {
    let small = RgbImage::from_raw(1, 1, vec![0; 3]).unwrap();
    let large = RgbImage::from_raw(2, 2, vec![0; 12]).unwrap();
    assert!(matches!(
        rgb_hybrid_compare(&small, &large),
        Err(CompareError::DimensionsDiffer)
    ));
    let small = RgbaImage::from_raw(1, 1, vec![0; 4]).unwrap();
    let large = RgbaImage::from_raw(2, 2, vec![0; 16]).unwrap();
    assert!(matches!(
        rgba_hybrid_compare(&small, &large),
        Err(CompareError::DimensionsDiffer)
    ));
    let tall = RgbaImage::from_raw(1, 4, vec![0; 16]).unwrap();
    assert!(matches!(
        rgba_hybrid_compare(&tall, &large),
        Err(CompareError::DimensionsDiffer)
    ));
}

#[test]
fn hybrid_of_images_without_a_pixel_fails() {
    let first = RgbImage::from_raw(0, 0, vec![]).unwrap();
    let second = RgbImage::from_raw(0, 0, vec![]).unwrap();
    assert!(matches!(
        rgb_hybrid_compare(&first, &second),
        Err(CompareError::CalculationFailed(_))
    ));
    let first = RgbaImage::from_raw(0, 0, vec![]).unwrap();
    let second = RgbaImage::from_raw(0, 0, vec![]).unwrap();
    assert!(matches!(
        rgba_hybrid_compare(&first, &second),
        Err(CompareError::CalculationFailed(_))
    ));
}

#[test]
fn blended_hybrid_lays_alpha_over_the_ground() {
    // over white, a clear pixel is white
    let clear = RgbaImage::from_raw(1, 1, vec![3, 4, 5, 0]).unwrap();
    let white = RgbImage::from_raw(1, 1, vec![255, 255, 255]).unwrap();
    let result = rgba_blended_hybrid_compare(
        BlendInput::RGBA(&clear),
        BlendInput::PreBlended(&white),
        (255, 255, 255),
    )
    .unwrap();
    assert_eq!(result.score, ONE);
    // over black it is black
    let result = rgba_blended_hybrid_compare(
        BlendInput::PreBlended(&white),
        BlendInput::RGBA(&clear),
        (0, 0, 0),
    )
    .unwrap();
    assert_eq!(result.score, 99_990);
}

#[test]
fn blended_hybrid_of_images_without_alpha_is_the_plain_one() {
    let (first, second) = two_by_two();
    let blended = rgba_blended_hybrid_compare(
        BlendInput::PreBlended(&first),
        BlendInput::PreBlended(&second),
        (1, 2, 3),
    )
    .unwrap();
    assert_eq!(blended.score, 988_281_218);
}

#[test]
fn blended_hybrid_of_two_images_with_alpha() {
    let first = RgbaImage::from_raw(1, 1, vec![200, 200, 0, 128]).unwrap();
    let second = RgbaImage::from_raw(1, 1, vec![105, 105, 127, 255]).unwrap();
    let result = rgba_blended_hybrid_compare(
        BlendInput::RGBA(&first),
        BlendInput::RGBA(&second),
        (10, 10, 255),
    )
    .unwrap();
    assert_eq!(result.score, ONE);
    let large = RgbaImage::from_raw(2, 1, vec![0; 8]).unwrap();
    assert!(matches!(
        rgba_blended_hybrid_compare(
            BlendInput::RGBA(&first),
            BlendInput::RGBA(&large),
            (10, 10, 255)
        ),
        Err(CompareError::DimensionsDiffer)
    ));
}

#[test]
fn blend_input_from_an_image() {
    let (first, second) = two_by_two();
    let clear = RgbaImage::from_raw(2, 2, vec![0; 16]).unwrap();
    let result = rgba_blended_hybrid_compare((&first).into(), (&second).into(), (0, 0, 0)).unwrap();
    assert_eq!(result.score, 988_281_218);
    let ground = RgbImage::from_raw(2, 2, vec![9, 8, 7, 9, 8, 7, 9, 8, 7, 9, 8, 7]).unwrap();
    let result = rgba_blended_hybrid_compare((&clear).into(), (&ground).into(), (9, 8, 7)).unwrap();
    assert_eq!(result.score, ONE);
}
