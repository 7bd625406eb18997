use image_compare::images::GrayImage;
use image_compare::window::Window;

#[test]
fn window_test() {
    let rows = 2;
    let cols = 9;
    let window = Window::new((1, 1), (cols, rows));
    assert_eq!(window.height(), rows);
    assert_eq!(window.width(), cols);
    assert_eq!(window.area(), (rows * cols) as u64);
}

#[test]
fn window_test_edge() {
    let window = Window::new((0, 0), (0, 0));
    assert_eq!(window.height(), 1);
    assert_eq!(window.width(), 1);
    assert_eq!(window.area(), 1);
}

#[test]
fn window_iterator_test() {
    let window = Window::new((0, 0), (3, 2));
    let mut iter = window.iter_pixels();

    let next = iter.next().expect("iterator should work");
    assert_eq!(next.0, 0);
    assert_eq!(next.1, 0);

    //expect column-first iteration
    let next = iter.next().expect("iterator should work");
    assert_eq!(next.0, 1);
    assert_eq!(next.1, 0);

    //row break works
    let next = iter.nth(3).expect("iterator should work");
    assert_eq!(next.0, 1);
    assert_eq!(next.1, 1);
}

#[test]
fn window_subdivide_test() {
    let window = Window::new((0, 0), (8, 7));
    let windows = window.subdivide_by_offset(8);
    //all windows areas combined are the area of the window
    assert_eq!(windows.iter().map(|w| w.area()).sum::<u64>(), window.area());
}

#[test]
fn from_image_test() {
    let img = GrayImage::from_raw(127, 244, vec![0; 127 * 244]).unwrap();
    let window = Window::from_image(&img);
    assert_eq!(window.bottom_right.0, 126);
    assert_eq!(window.bottom_right.1, 243);
}

#[test]
fn window_iterator_visits_every_pixel_once_in_scan_order() {
    let window = Window::new((2, 5), (4, 6));
    let mut iter = window.iter_pixels();
    let mut seen = Vec::new();
    while let Some(pixel) = iter.next() {
        seen.push(pixel);
    }
    assert_eq!(seen, vec![(2, 5), (3, 5), (4, 5), (2, 6), (3, 6), (4, 6)]);
    assert_eq!(iter.next(), None);
    assert_eq!(iter.next(), None);
}

#[test]
fn window_iterator_restarts() {
    let window = Window::new((0, 0), (1, 1));
    let mut first = window.iter_pixels();
    assert_eq!(first.nth(3), Some((1, 1)));
    assert_eq!(first.next(), None);
    let mut second = window.iter_pixels();
    assert_eq!(second.next(), Some((0, 0)));
}

#[test]
fn window_iterator_nth_past_the_end() {
    let window = Window::new((0, 0), (1, 1));
    let mut iter = window.iter_pixels();
    assert_eq!(iter.nth(4), None);
    assert_eq!(iter.next(), None);
}

#[test]
fn subdivide_clips_last_column_and_row() {
    let window = Window::new((0, 0), (8, 8));
    let tiles = window.subdivide_by_offset(8);
    let corners: Vec<((u32, u32), (u32, u32))> =
        tiles.iter().map(|t| (t.top_left, t.bottom_right)).collect();
    assert_eq!(
        corners,
        vec![
            ((0, 0), (7, 7)),
            ((8, 0), (8, 7)),
            ((0, 8), (7, 8)),
            ((8, 8), (8, 8)),
        ]
    );
    let areas: Vec<u64> = tiles.iter().map(|t| t.area()).collect();
    assert_eq!(areas, vec![64, 8, 8, 1]);
}

#[test]
fn subdivide_starts_at_the_top_left_corner() {
    let window = Window::new((2, 3), (11, 8));
    let tiles = window.subdivide_by_offset(4);
    let corners: Vec<((u32, u32), (u32, u32))> =
        tiles.iter().map(|t| (t.top_left, t.bottom_right)).collect();
    assert_eq!(
        corners,
        vec![
            ((2, 3), (5, 6)),
            ((6, 3), (9, 6)),
            ((10, 3), (11, 6)),
            ((2, 7), (5, 8)),
            ((6, 7), (9, 8)),
            ((10, 7), (11, 8)),
        ]
    );
}

#[test]
fn subdivide_by_a_large_edge_gives_the_window() {
    let window = Window::new((1, 1), (5, 3));
    let tiles = window.subdivide_by_offset(100);
    assert_eq!(tiles.len(), 1);
    assert_eq!(tiles[0].top_left, (1, 1));
    assert_eq!(tiles[0].bottom_right, (5, 3));
}

#[test]
fn tile_areas_add_up_for_every_edge() {
    let window = Window::new((3, 1), (25, 17));
    for edge in 1..30 {
        let tiles = window.subdivide_by_offset(edge);
        assert_eq!(tiles.iter().map(|t| t.area()).sum::<u64>(), 23 * 17);
    }
}

#[test]
fn tiles_cover_every_pixel_once() {
    let window = Window::new((1, 2), (13, 11));
    let tiles = window.subdivide_by_offset(5);
    for y in 2..=11u32 {
        for x in 1..=13u32 {
            let holders = tiles
                .iter()
                .filter(|t| {
                    t.top_left.0 <= x
                        && x <= t.bottom_right.0
                        && t.top_left.1 <= y
                        && y <= t.bottom_right.1
                })
                .count();
            assert_eq!(holders, 1);
        }
    }
}
