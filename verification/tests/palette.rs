use image_to_palette::{make_palette, median_cut, palette_from_pixels, Color};

fn rgba(r: u8, g: u8, b: u8, a: u8) -> Color {
    Color { r, g, b, a }
}

fn reds(values: &[u8]) -> Vec<Color> {
    values.iter().map(|&v| rgba(v, 0, 0, 255)).collect()
}

#[test]
fn median_cut_deals_colors_out_by_the_median() {
    let mut colors = vec![rgba(0, 0, 0, 255), rgba(255, 255, 255, 255)];
    let (above, below) = median_cut(&mut colors).unwrap();
    assert_eq!(above, vec![rgba(255, 255, 255, 255)]);
    assert_eq!(below, vec![rgba(0, 0, 0, 255)]);
}

#[test]
fn median_cut_puts_the_median_itself_below() {
    let mut colors = reds(&[30, 10, 20]);
    let (above, below) = median_cut(&mut colors).unwrap();
    assert_eq!(above, reds(&[30]));
    assert_eq!(below, reds(&[10, 20]));
    assert_eq!(colors, reds(&[10, 20, 30]));
}

#[test]
fn median_cut_cuts_along_the_widest_channel() {
    let mut colors =
        vec![rgba(1, 90, 0, 0), rgba(2, 10, 0, 0), rgba(3, 50, 0, 0), rgba(4, 70, 0, 0)];
    let (above, below) = median_cut(&mut colors).unwrap();
    assert_eq!(above, vec![rgba(4, 70, 0, 0), rgba(1, 90, 0, 0)]);
    assert_eq!(below, vec![rgba(2, 10, 0, 0), rgba(3, 50, 0, 0)]);
}

#[test]
fn median_cut_of_identical_colors_leaves_nothing_above() {
    let mut colors = vec![rgba(10, 20, 30, 255); 4];
    let (above, below) = median_cut(&mut colors).unwrap();
    assert!(above.is_empty());
    assert_eq!(below, vec![rgba(10, 20, 30, 255); 4]);
}

#[test]
fn median_cut_of_empty_bucket_is_none() {
    let mut colors: Vec<Color> = Vec::new();
    assert!(median_cut(&mut colors).is_none());
}

#[test]
fn palette_of_black_and_white_after_one_cut() {
    let mut bucket = vec![rgba(0, 0, 0, 255), rgba(255, 255, 255, 255)];
    assert_eq!(
        make_palette(&mut bucket, 1),
        Some(vec![rgba(255, 255, 255, 255), rgba(0, 0, 0, 255)])
    );
}

#[test]
fn palette_of_identical_colors_fails_after_two_cuts() {
    let mut bucket = vec![rgba(10, 20, 30, 255); 4];
    assert_eq!(make_palette(&mut bucket, 2), None);
}

#[test]
fn palette_of_identical_colors_fails_after_one_cut() {
    let mut bucket = vec![rgba(10, 20, 30, 255); 4];
    assert_eq!(make_palette(&mut bucket, 1), None);
}

#[test]
fn palette_without_cuts_is_the_mean_color() {
    let mut bucket = vec![rgba(10, 20, 30, 40), rgba(20, 40, 60, 80), rgba(31, 61, 91, 121)];
    assert_eq!(make_palette(&mut bucket, 0), Some(vec![rgba(20, 40, 60, 80)]));
    let mut bucket = vec![rgba(0, 0, 0, 255), rgba(255, 255, 255, 255)];
    assert_eq!(make_palette(&mut bucket, 0), Some(vec![rgba(127, 127, 127, 255)]));
}

#[test]
fn palette_without_cuts_leaves_the_bucket_as_it_was() {
    let mut bucket = reds(&[9, 1, 5]);
    make_palette(&mut bucket, 0);
    assert_eq!(bucket, reds(&[9, 1, 5]));
}

#[test]
fn palette_with_cuts_leaves_the_bucket_sorted_by_its_widest_channel() {
    let mut bucket =
        vec![rgba(1, 90, 0, 0), rgba(2, 10, 0, 0), rgba(3, 50, 0, 0), rgba(4, 70, 0, 0)];
    make_palette(&mut bucket, 1);
    assert_eq!(
        bucket,
        vec![rgba(2, 10, 0, 0), rgba(3, 50, 0, 0), rgba(4, 70, 0, 0), rgba(1, 90, 0, 0)]
    );
}

#[test]
fn palette_of_empty_bucket_is_none() {
    for iterations in 0..4 {
        let mut bucket: Vec<Color> = Vec::new();
        assert_eq!(make_palette(&mut bucket, iterations), None);
    }
}

#[test]
fn palette_lists_the_upper_half_first_at_every_level() {
    let mut bucket = reds(&[0, 100, 200, 255]);
    assert_eq!(make_palette(&mut bucket, 1), Some(reds(&[227, 50])));
    let mut bucket = reds(&[0, 100, 200, 255]);
    assert_eq!(make_palette(&mut bucket, 2), Some(reds(&[255, 200, 100, 0])));
}

#[test]
fn palette_fails_when_a_bucket_runs_empty() {
    let mut bucket = reds(&[0, 100, 200, 255]);
    assert_eq!(make_palette(&mut bucket, 3), None);
    let mut bucket = reds(&[7]);
    assert_eq!(make_palette(&mut bucket, 1), None);
}

#[test]
fn palette_has_two_to_the_iterations_colors() {
    let values: Vec<u8> = (0..64).map(|i| (i * 4) as u8).collect();
    for iterations in 0..=6u8 {
        let mut bucket = reds(&values);
        let palette = make_palette(&mut bucket, iterations).unwrap();
        assert_eq!(palette.len(), 1usize << iterations);
    }
    let mut bucket = reds(&values);
    assert_eq!(make_palette(&mut bucket, 7), None);
}

#[test]
fn palette_does_not_depend_on_the_order_of_the_bucket() {
    let colors = vec![
        rgba(12, 200, 3, 255),
        rgba(90, 14, 77, 255),
        rgba(250, 250, 1, 255),
        rgba(0, 9, 180, 255),
        rgba(33, 33, 33, 255),
        rgba(120, 60, 240, 255),
        rgba(201, 17, 64, 255),
        rgba(5, 100, 100, 255),
    ];
    let mut forward = colors.clone();
    let mut backward: Vec<Color> = colors.iter().rev().cloned().collect();
    let mut rotated: Vec<Color> = colors[3..].iter().chain(colors[..3].iter()).cloned().collect();
    for iterations in 0..4 {
        let expected = make_palette(&mut forward, iterations);
        assert_eq!(make_palette(&mut backward, iterations), expected);
        assert_eq!(make_palette(&mut rotated, iterations), expected);
    }
}

#[test]
fn palette_from_pixels_builds_the_palette_and_keeps_the_pixels() {
    let pixels = reds(&[255, 0, 200, 100]);
    assert_eq!(palette_from_pixels(&pixels, 2), Ok(reds(&[255, 200, 100, 0])));
    assert_eq!(pixels, reds(&[255, 0, 200, 100]));
}

#[test]
fn palette_from_pixels_reports_a_failed_build() {
    let pixels = vec![rgba(10, 20, 30, 255); 4];
    assert_eq!(
        palette_from_pixels(&pixels, 2),
        Err(String::from("There was a problem building the palette."))
    );
    assert_eq!(
        palette_from_pixels(&Vec::new(), 0),
        Err(String::from("There was a problem building the palette."))
    );
}

#[test]
fn palette_needs_two_to_the_iterations_colors() {
    let mut bucket = reds(&[10, 20, 30]);
    assert_eq!(make_palette(&mut bucket, 2), None);
    let mut bucket = reds(&[10, 20, 30, 40]);
    assert_eq!(make_palette(&mut bucket, 2), Some(reds(&[40, 30, 20, 10])));
}

#[test]
fn palette_with_the_most_iterations_fails_at_once() {
    let values: Vec<u8> = (0..=255).collect();
    let mut bucket = reds(&values);
    assert_eq!(make_palette(&mut bucket, 255), None);
    let mut bucket = reds(&values);
    assert_eq!(make_palette(&mut bucket, 8).map(|palette| palette.len()), Some(256));
}
