use image_compare::accelerator::{
    ssim_accelerated, ssim_cached, ssim_for_cached_windows, LinearAccelerator,
};
use image_compare::images::GrayImage;
use image_compare::similarity::{draw_window_to_image, SimilarityPlane};
use image_compare::ssim::{covariance, mean, ssim_for_window, ssim_simple, window_moments};
use image_compare::window::Window;
use image_compare::CompareError;

fn filled(width: u32, height: u32, level: u8) -> GrayImage {
    GrayImage::from_raw(width, height, vec![level; (width * height) as usize]).unwrap()
}

fn with_center_nine() -> GrayImage {
    GrayImage::from_raw(3, 3, vec![0, 0, 0, 0, 9, 0, 0, 0, 0]).unwrap()
}

fn ramp(width: u32, height: u32, bump_column: u32) -> GrayImage {
    let mut data = Vec::new();
    for y in 0..height {
        for x in 0..width {
            let bump = if x == bump_column { 3 } else { 0 };
            data.push(((x * 7 + y * 13 + bump) % 256) as u8);
        }
    }
    GrayImage::from_raw(width, height, data).unwrap()
}

fn as_float(value: i64) -> f64 {
    value as f64 / 1e9
}

#[test]
fn conv_avg_simple() {
    let img = filled(1, 1, 100);
    let window = Window::new((0, 0), (0, 0));
    let conv_result = mean(&img, &window);
    assert_eq!(conv_result.num as f64 / conv_result.den as f64, 100.);
}

#[test]
fn conv_avg_identity() {
    let window = Window::new((0, 0), (9, 9));
    let img = filled(window.width(), window.height(), 1);
    let conv_result = mean(&img, &window);
    assert!((conv_result.num as f64 / conv_result.den as f64 - 1.).abs() < 1e-5);
}

#[test]
fn test_variance() {
    let window = Window::new((0, 0), (2, 2));
    let img = with_center_nine();
    let avg = mean(&img, &window);
    let var = covariance(&img, &img, &window);
    assert_eq!(avg.num as f64 / avg.den as f64, 1.0);
    //64. by the central piece being (9-1)^2, 8 in total by each element contributing (0-1)^2,
    //and the variance is the mean of these nine
    assert_eq!(var.num as f64 / var.den as f64, (64. + 8.) / 9.);
}

#[test]
fn test_ssim_identity() {
    let window = Window::new((0, 0), (2, 2));
    let img = with_center_nine();
    let ssim_value = ssim_for_window(&img, &img, &window);
    assert_eq!(as_float(ssim_value), 1.0);
}

#[test]
fn test_ssim_stability() {
    let window = Window::new((0, 0), (2, 2));
    let img = filled(window.width(), window.height(), 0);
    let ssim_value = ssim_for_window(&img, &img, &window);
    assert_eq!(as_float(ssim_value), 1.0);
}

#[test]
fn test_ssim_different_mean() {
    let window = Window::new((0, 0), (2, 2));
    let img = filled(window.width(), window.height(), 0);
    let img_second = filled(window.width(), window.height(), 5);

    let ssim_value = ssim_for_window(&img, &img_second, &window);
    assert!((as_float(ssim_value) - 0.20641218950876916).abs() < 1e-9);
    assert_eq!(ssim_value, 206_412_189);
}

#[test]
fn window_moments_are_the_sums() {
    let first = GrayImage::from_raw(3, 2, vec![1, 2, 3, 4, 5, 6]).unwrap();
    let second = GrayImage::from_raw(3, 2, vec![6, 5, 4, 3, 2, 1]).unwrap();
    let window = Window::new((1, 0), (2, 1));
    let m = window_moments(&first, &second, &window);
    assert_eq!(m.area, 4);
    assert_eq!(m.sum_x, 2 + 3 + 5 + 6);
    assert_eq!(m.sum_y, 5 + 4 + 2 + 1);
    assert_eq!(m.sum_xx, 4 + 9 + 25 + 36);
    assert_eq!(m.sum_yy, 25 + 16 + 4 + 1);
    assert_eq!(m.sum_xy, 10 + 12 + 10 + 6);
    assert_eq!(m.mean_x().num, 16);
    assert_eq!(m.mean_y().num, 12);
    assert_eq!(m.mean_x().den, 4);
    assert_eq!(m.variance_x().num, 4 * 74 - 16 * 16);
    assert_eq!(m.variance_y().num, 4 * 46 - 12 * 12);
    assert_eq!(m.covariance().num, 4 * 38 - 16 * 12);
    assert_eq!(m.covariance().den, 16);
}

#[test]
fn ssim_can_be_negative() {
    let first = GrayImage::from_raw(2, 1, vec![0, 255]).unwrap();
    let second = GrayImage::from_raw(2, 1, vec![255, 0]).unwrap();
    let window = Window::new((0, 0), (1, 0));
    let value = ssim_for_window(&first, &second, &window);
    assert!(value < 0);
    assert!(value >= -1_000_000_000);
}

#[test]
fn ssim_of_an_all_zero_tile_and_an_all_five_tile() {
    let first = filled(8, 8, 0);
    let second = filled(8, 8, 5);
    let (score, plane) = ssim_simple(&first, &second).unwrap();
    assert!((as_float(score) - 0.2064).abs() < 1e-4);
    assert_eq!(score, 206_412_189);
    for value in plane.data.iter() {
        assert_eq!(*value, 206_412_189);
    }
}

#[test]
fn ssim_of_an_image_with_itself_is_one() {
    let img = ramp(19, 11, 100);
    let (score, plane) = ssim_simple(&img, &img).unwrap();
    assert_eq!(score, 1_000_000_000);
    for value in plane.data.iter() {
        assert_eq!(*value, 1_000_000_000);
    }
}

#[test]
fn ssim_does_not_depend_on_the_order() {
    let first = ramp(9, 8, 100);
    let second = ramp(9, 8, 8);
    let (one, one_plane) = ssim_simple(&first, &second).unwrap();
    let (other, other_plane) = ssim_simple(&second, &first).unwrap();
    assert_eq!(one, other);
    assert_eq!(one_plane.data, other_plane.data);
}

#[test]
fn ssim_weighs_the_tiles_by_their_area() {
    let first = ramp(9, 8, 100);
    let second = ramp(9, 8, 8);
    let (score, plane) = ssim_simple(&first, &second).unwrap();
    // the tile of 8 by 8 agrees, the tile of 1 by 8 beside it does not
    assert_eq!(plane.get(0, 0, 0), 1_000_000_000);
    assert_eq!(plane.get(8, 0, 0), 999_576_051);
    assert_eq!(score, (64 * 1_000_000_000i64 + 8 * 999_576_051) / 72);
    assert_eq!(score, 999_952_894);
}

#[test]
fn ssim_plane_is_flat_inside_a_tile() {
    let first = ramp(17, 10, 100);
    let second = ramp(17, 10, 3);
    let (_, plane) = ssim_simple(&first, &second).unwrap();
    let whole = Window::new((0, 0), (16, 9));
    for tile in whole.subdivide_by_offset(8) {
        let value = plane.get(tile.top_left.0, tile.top_left.1, 0);
        let mut pixels = tile.iter_pixels();
        while let Some((x, y)) = pixels.next() {
            assert_eq!(plane.get(x, y, 0), value);
        }
    }
    assert!(plane.get(0, 0, 0) != plane.get(8, 0, 0));
}

#[test]
fn ssim_of_images_without_a_pixel_fails() {
    let first = GrayImage::from_raw(0, 3, vec![]).unwrap();
    let second = GrayImage::from_raw(0, 3, vec![]).unwrap();
    assert!(matches!(
        ssim_simple(&first, &second),
        Err(CompareError::CalculationFailed(_))
    ));
    assert!(matches!(
        ssim_cached(&first, &second),
        Err(CompareError::CalculationFailed(_))
    ));
}

#[test]
fn cached_ssim_is_the_simple_one() {
    let first = ramp(21, 13, 100);
    let second = ramp(21, 13, 5);
    let (simple_score, simple_plane) = ssim_simple(&first, &second).unwrap();
    let (cached_score, cached_plane) = ssim_cached(&first, &second).unwrap();
    assert_eq!(simple_score, cached_score);
    assert_eq!(simple_plane.data, cached_plane.data);
}

#[test]
fn accelerator_lays_the_levels_out_tile_after_tile() {
    let mut data = Vec::new();
    for i in 0..(9 * 2) {
        data.push(i as u8);
    }
    let img = GrayImage::from_raw(9, 2, data).unwrap();
    let acc = LinearAccelerator::mk_cached_subdivision(&img);
    assert_eq!(acc.windows.len(), 2);
    assert_eq!(acc.windows[0].window.top_left, (0, 0));
    assert_eq!(acc.windows[0].window.bottom_right, (7, 1));
    assert_eq!(acc.windows[0].data_offset, 0);
    assert_eq!(acc.windows[1].window.top_left, (8, 0));
    assert_eq!(acc.windows[1].window.bottom_right, (8, 1));
    assert_eq!(acc.windows[1].data_offset, 16);
    assert_eq!(
        acc.buffer,
        vec![0, 1, 2, 3, 4, 5, 6, 7, 9, 10, 11, 12, 13, 14, 15, 16, 8, 17]
    );
    assert_eq!(acc.windows[0].sum, (0..18).sum::<u64>() - 8 - 17);
    assert_eq!(acc.windows[1].sum, 8 + 17);
    assert_eq!(acc.windows[1].mean().num, 25);
    assert_eq!(acc.windows[1].mean().den, 2);
    let variance = acc.windows[1].variance(&acc.buffer);
    assert_eq!(variance.num, 2 * (64 + 289) - 25 * 25);
    assert_eq!(variance.den, 4);
}

#[test]
fn cached_windows_give_the_value_of_the_window() {
    let first = ramp(9, 8, 100);
    let second = ramp(9, 8, 8);
    let one = LinearAccelerator::mk_cached_subdivision(&first);
    let other = LinearAccelerator::mk_cached_subdivision(&second);
    let value =
        ssim_for_cached_windows(&one.windows[1], &other.windows[1], &one.buffer, &other.buffer);
    let direct = ssim_for_window(&first, &second, &Window::new((8, 0), (8, 7)));
    assert_eq!(value, direct);
    assert_eq!(value, 999_576_051);
    let covariance = one.windows[1].covariance(&one.buffer, &other.windows[1], &other.buffer);
    let direct_covariance = image_compare::ssim::covariance(
        &first,
        &second,
        &Window::new((8, 0), (8, 7)),
    );
    assert_eq!(covariance.num, direct_covariance.num);
    assert_eq!(covariance.den, direct_covariance.den);
}

#[test]
fn drawing_a_window_leaves_the_rest() {
    let mut plane = SimilarityPlane {
        width: 4,
        height: 3,
        channels: 1,
        data: vec![1; 12],
    };
    draw_window_to_image(&Window::new((1, 1), (2, 2)), &mut plane, 7);
    assert_eq!(plane.data, vec![1, 1, 1, 1, 1, 7, 7, 1, 1, 7, 7, 1]);
}

#[test]
fn an_accelerator_serves_many_comparisons() {
    let first = ramp(21, 13, 100);
    let second = ramp(21, 13, 5);
    let third = ramp(21, 13, 17);
    let one = LinearAccelerator::mk_cached_subdivision(&first);
    assert_eq!((one.width, one.height), (21, 13));
    let other = LinearAccelerator::mk_cached_subdivision(&second);
    let (score, plane) = ssim_accelerated(&one, &other);
    let (simple_score, simple_plane) = ssim_simple(&first, &second).unwrap();
    assert_eq!(score, simple_score);
    assert_eq!(plane.data, simple_plane.data);
    let other = LinearAccelerator::mk_cached_subdivision(&third);
    let (score, plane) = ssim_accelerated(&one, &other);
    let (simple_score, simple_plane) = ssim_simple(&first, &third).unwrap();
    assert_eq!(score, simple_score);
    assert_eq!(plane.data, simple_plane.data);
    let (score, _) = ssim_accelerated(&one, &one);
    assert_eq!(score, 1_000_000_000);
}
