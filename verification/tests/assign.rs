use image_to_palette::{_assign_colors, nearest_color, squared_distance, Color};

fn rgba(r: u8, g: u8, b: u8, a: u8) -> Color {
    Color { r, g, b, a }
}

#[test]
fn squared_distance_sums_the_squares_over_all_channels() {
    assert_eq!(squared_distance(&rgba(1, 2, 3, 4), &rgba(4, 6, 8, 10)), 86);
    assert_eq!(squared_distance(&rgba(4, 6, 8, 10), &rgba(1, 2, 3, 4)), 86);
    assert_eq!(squared_distance(&rgba(0, 0, 0, 0), &rgba(255, 255, 255, 255)), 260100);
    assert_eq!(squared_distance(&rgba(0, 0, 0, 0), &rgba(0, 0, 0, 255)), 65025);
    assert_eq!(squared_distance(&rgba(9, 9, 9, 9), &rgba(9, 9, 9, 9)), 0);
}

#[test]
fn nearest_color_picks_the_closest_palette_entry() {
    let palette = vec![rgba(0, 0, 0, 255), rgba(255, 255, 255, 255), rgba(255, 0, 0, 255)];
    assert_eq!(nearest_color(&rgba(10, 5, 0, 255), &palette), Some(rgba(0, 0, 0, 255)));
    assert_eq!(nearest_color(&rgba(250, 240, 251, 255), &palette), Some(rgba(255, 255, 255, 255)));
    assert_eq!(nearest_color(&rgba(200, 30, 30, 255), &palette), Some(rgba(255, 0, 0, 255)));
    assert_eq!(nearest_color(&rgba(1, 2, 3, 4), &Vec::new()), None);
}

#[test]
fn nearest_color_weighs_alpha_like_any_channel() {
    let palette = vec![rgba(0, 0, 0, 0), rgba(3, 3, 3, 255)];
    assert_eq!(nearest_color(&rgba(0, 0, 0, 250), &palette), Some(rgba(3, 3, 3, 255)));
}

#[test]
fn assign_colors_maps_every_pixel_in_order() {
    let palette = vec![rgba(0, 0, 0, 255), rgba(255, 255, 255, 255)];
    let pixels = vec![
        rgba(200, 200, 200, 255),
        rgba(10, 10, 10, 255),
        rgba(127, 127, 127, 255),
        rgba(128, 128, 128, 255),
    ];
    assert_eq!(
        _assign_colors(pixels, palette),
        Some(vec![
            rgba(255, 255, 255, 255),
            rgba(0, 0, 0, 255),
            rgba(0, 0, 0, 255),
            rgba(255, 255, 255, 255),
        ])
    );
}

#[test]
fn assign_colors_returns_pixels_unchanged_when_the_palette_holds_them_all() {
    let pixels = vec![
        rgba(1, 2, 3, 4),
        rgba(200, 100, 50, 25),
        rgba(1, 2, 3, 4),
        rgba(0, 0, 0, 0),
        rgba(255, 255, 255, 255),
    ];
    let palette = vec![
        rgba(255, 255, 255, 255),
        rgba(0, 0, 0, 0),
        rgba(200, 100, 50, 25),
        rgba(7, 7, 7, 7),
        rgba(1, 2, 3, 4),
    ];
    let result = _assign_colors(pixels.clone(), palette).unwrap();
    assert_eq!(result, pixels);
    for (before, after) in pixels.iter().zip(result.iter()) {
        assert_eq!(squared_distance(before, after), 0);
    }
}

#[test]
fn assign_colors_prefers_the_earlier_of_two_equally_near_colors() {
    let pixel = rgba(10, 10, 10, 255);
    let low = rgba(0, 10, 10, 255);
    let high = rgba(20, 10, 10, 255);
    assert_eq!(_assign_colors(vec![pixel], vec![low, high]), Some(vec![low]));
    assert_eq!(_assign_colors(vec![pixel], vec![high, low]), Some(vec![high]));
    let far = rgba(200, 200, 200, 255);
    assert_eq!(_assign_colors(vec![pixel], vec![far, high, low, high]), Some(vec![high]));
}

#[test]
fn assign_colors_rejects_an_empty_palette() {
    assert_eq!(_assign_colors(vec![rgba(1, 2, 3, 4)], Vec::new()), None);
    assert_eq!(_assign_colors(vec![rgba(1, 2, 3, 4); 10], Vec::new()), None);
    assert_eq!(_assign_colors(Vec::new(), Vec::new()), None);
}

#[test]
fn assign_colors_of_no_pixels_is_no_pixels() {
    assert_eq!(_assign_colors(Vec::new(), vec![rgba(1, 2, 3, 4)]), Some(Vec::new()));
}
