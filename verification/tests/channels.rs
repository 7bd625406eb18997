use image_compare::channels::{
    blend_alpha, merge_similarity_channels, rgb_to_yuv, split_rgba_to_yuva, Decompose,
};
use image_compare::images::{GrayImage, RgbImage, RgbaImage};
use image_compare::similarity::SimilarityPlane;

fn levels(img: &GrayImage) -> Vec<u8> {
    let mut out = Vec::new();
    for y in 0..img.height() {
        for x in 0..img.width() {
            out.push(img.get_pixel(x, y));
        }
    }
    out
}

#[test]
fn rgb_to_yuv_test() {
    let white = (255, 255, 255);
    let black = (0, 0, 0);
    let white_yuv = rgb_to_yuv(white);
    assert_eq!(white_yuv.0, 255);
    assert_eq!(white_yuv.1, 128);
    assert_eq!(white_yuv.2, 128);

    let black_yuv = rgb_to_yuv(black);
    assert_eq!(black_yuv.0, 0);
    assert_eq!(black_yuv.1, 128);
    assert_eq!(black_yuv.2, 128);
}

#[test]
fn rgb_to_yuv_of_the_primaries() {
    // 0.299 * 255 = 76.245, 128 - 0.168736 * 255 = 84.97, 128 + 0.5 * 255 = 255.5
    assert_eq!(rgb_to_yuv((255, 0, 0)), (76, 84, 255));
    // 0.587 * 255 = 149.685, 128 - 0.331264 * 255 = 43.53, 128 - 0.418688 * 255 = 21.23
    assert_eq!(rgb_to_yuv((0, 255, 0)), (149, 43, 21));
    // 0.114 * 255 = 29.07, 128 + 0.5 * 255 = 255.5, 128 - 0.081312 * 255 = 107.27
    assert_eq!(rgb_to_yuv((0, 0, 255)), (29, 255, 107));
    assert_eq!(rgb_to_yuv((12, 200, 99)), (132, 109, 42));
}

#[test]
fn split_channels_takes_the_samples_apart() {
    let img = RgbImage::from_raw(2, 2, vec![1, 2, 3, 4, 5, 6, 7, 8, 9, 10, 11, 12]).unwrap();
    let channels = img.split_channels();
    assert_eq!(channels[0].dimensions(), (2, 2));
    assert_eq!(levels(&channels[0]), vec![1, 4, 7, 10]);
    assert_eq!(levels(&channels[1]), vec![2, 5, 8, 11]);
    assert_eq!(levels(&channels[2]), vec![3, 6, 9, 12]);
    // the image is as it was
    assert_eq!(img.get_pixel(1, 1), (10, 11, 12));
}

#[test]
fn split_to_yuv_turns_every_pixel() {
    let img = RgbImage::from_raw(
        2,
        2,
        vec![255, 255, 255, 0, 0, 0, 255, 0, 0, 12, 200, 99],
    )
    .unwrap();
    let channels = img.split_to_yuv();
    assert_eq!(channels[1].dimensions(), (2, 2));
    assert_eq!(levels(&channels[0]), vec![255, 0, 76, 132]);
    assert_eq!(levels(&channels[1]), vec![128, 128, 84, 109]);
    assert_eq!(levels(&channels[2]), vec![128, 128, 255, 42]);
}

#[test]
fn split_rgba_keeps_alpha_as_it_is() {
    let img = RgbaImage::from_raw(
        2,
        1,
        vec![255, 255, 255, 17, 0, 0, 255, 200],
    )
    .unwrap();
    let channels = split_rgba_to_yuva(&img);
    assert_eq!(levels(&channels[0]), vec![255, 29]);
    assert_eq!(levels(&channels[1]), vec![128, 255]);
    assert_eq!(levels(&channels[2]), vec![128, 107]);
    assert_eq!(levels(&channels[3]), vec![17, 200]);
}

#[test]
fn split_of_an_image_without_a_pixel() {
    let img = RgbImage::from_raw(0, 0, vec![]).unwrap();
    let channels = img.split_channels();
    assert_eq!(channels[2].dimensions(), (0, 0));
}

#[test]
fn blend_lays_the_colour_over_the_ground() {
    let img = RgbaImage::from_raw(
        2,
        2,
        vec![
            200, 200, 0, 128, //
            200, 1, 2, 0, //
            200, 1, 2, 255, //
            0, 0, 0, 128,
        ],
    )
    .unwrap();
    let blended = blend_alpha(&img, (10, 10, 255));
    assert_eq!(blended.dimensions(), (2, 2));
    // (200 * 128 + 10 * 127) / 255 = 105.37, (0 * 128 + 255 * 127) / 255 = 127
    assert_eq!(blended.get_pixel(0, 0), (105, 105, 127));
    assert_eq!(blended.get_pixel(1, 0), (10, 10, 255));
    assert_eq!(blended.get_pixel(0, 1), (200, 1, 2));
    // (10 * 127) / 255 = 4.98
    assert_eq!(blended.get_pixel(1, 1), (4, 4, 127));
}

#[test]
fn merge_sets_the_planes_side_by_side() {
    let red = SimilarityPlane { width: 2, height: 1, channels: 1, data: vec![1, 2] };
    let green = SimilarityPlane { width: 2, height: 1, channels: 1, data: vec![3, 4] };
    let blue = SimilarityPlane { width: 2, height: 1, channels: 1, data: vec![5, 6] };
    let merged = merge_similarity_channels(&[&red, &green, &blue]);
    assert_eq!(merged.channels, 3);
    assert_eq!(merged.width, 2);
    assert_eq!(merged.height, 1);
    assert_eq!(merged.data, vec![1, 3, 5, 2, 4, 6]);
    assert_eq!(merged.get(1, 0, 2), 6);
}
