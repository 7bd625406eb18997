use image_compare::colorization::ColorMap;
use image_compare::similarity::{SimilarityImage, SimilarityPlane};

const ONE: i64 = 1_000_000_000;

#[test]
fn gray_map_stretches_to_the_levels() {
    let plane = SimilarityPlane {
        width: 3,
        height: 2,
        channels: 1,
        data: vec![0, ONE, ONE / 2, -5, 2 * ONE, ONE / 255],
    };
    match SimilarityImage::Gray(plane).to_color_map() {
        ColorMap::Gray(img) => {
            assert_eq!(img.dimensions(), (3, 2));
            assert_eq!(img.get_pixel(0, 0), 0);
            assert_eq!(img.get_pixel(1, 0), 255);
            // 0.5 * 255 = 127.5
            assert_eq!(img.get_pixel(2, 0), 127);
            assert_eq!(img.get_pixel(0, 1), 0);
            assert_eq!(img.get_pixel(1, 1), 255);
            // a little less than one level
            assert_eq!(img.get_pixel(2, 1), 0);
        }
        _ => panic!("a grey image is expected"),
    }
}

#[test]
fn color_map_keeps_the_values_of_a_pixel_together() {
    let plane = SimilarityPlane {
        width: 1,
        height: 2,
        channels: 3,
        data: vec![0, ONE / 5, ONE, ONE, 4 * ONE / 5, 0],
    };
    match SimilarityImage::RGB(plane).to_color_map() {
        ColorMap::RGB(img) => {
            assert_eq!(img.dimensions(), (1, 2));
            assert_eq!(img.get_pixel(0, 0), (0, 51, 255));
            assert_eq!(img.get_pixel(0, 1), (255, 204, 0));
        }
        _ => panic!("an image with three samples to a pixel is expected"),
    }
}

#[test]
fn color_map_with_alpha() {
    let plane = SimilarityPlane {
        width: 1,
        height: 1,
        channels: 4,
        data: vec![0, ONE / 5, ONE, ONE / 10],
    };
    match SimilarityImage::RGBA(plane).to_color_map() {
        ColorMap::RGBA(img) => {
            assert_eq!(img.dimensions(), (1, 1));
            // 0.1 * 255 = 25.5
            assert_eq!(img.get_pixel(0, 0), (0, 51, 255, 25));
        }
        _ => panic!("an image with four samples to a pixel is expected"),
    }
}
