use image_to_palette::{
    channel_mean, channel_median, channel_range, color_ranges, highest_range_channel, Color,
    ColorChannel,
};

fn rgba(r: u8, g: u8, b: u8, a: u8) -> Color {
    Color { r, g, b, a }
}

fn reds(values: &[u8]) -> Vec<Color> {
    values.iter().map(|&v| rgba(v, 0, 0, 255)).collect()
}

fn reference_mean(values: &[u8]) -> u8 {
    let sum: u64 = values.iter().map(|&v| v as u64).sum();
    (sum / values.len() as u64) as u8
}

fn reference_median(values: &[u8]) -> u8 {
    let mut sorted = values.to_vec();
    sorted.sort();
    let mid = sorted.len() / 2;
    if sorted.len() % 2 == 1 {
        sorted[mid]
    } else {
        ((sorted[mid - 1] as u16 + sorted[mid] as u16) / 2) as u8
    }
}

#[test]
fn mean_rounds_down() {
    assert_eq!(channel_mean(&reds(&[10, 20, 30, 41]), &ColorChannel::R), Some(25));
    assert_eq!(channel_mean(&reds(&[0, 255]), &ColorChannel::R), Some(127));
    assert_eq!(channel_mean(&reds(&[7]), &ColorChannel::R), Some(7));
}

#[test]
fn mean_reads_the_channel_asked_for() {
    let colors = vec![rgba(10, 20, 30, 40), rgba(20, 40, 60, 80), rgba(31, 61, 91, 121)];
    assert_eq!(channel_mean(&colors, &ColorChannel::R), Some(20));
    assert_eq!(channel_mean(&colors, &ColorChannel::G), Some(40));
    assert_eq!(channel_mean(&colors, &ColorChannel::B), Some(60));
    assert_eq!(channel_mean(&colors, &ColorChannel::A), Some(80));
}

#[test]
fn mean_of_empty_collection_is_none() {
    assert_eq!(channel_mean(&Vec::new(), &ColorChannel::R), None);
}

#[test]
fn mean_of_a_large_bucket_does_not_overflow() {
    let colors = vec![rgba(255, 255, 255, 255); 17_000_000];
    assert_eq!(channel_mean(&colors, &ColorChannel::G), Some(255));
}

#[test]
fn mean_agrees_with_reference() {
    let samples: [&[u8]; 5] =
        [&[3], &[0, 1], &[255, 255, 254], &[9, 200, 17, 4, 90, 90], &[1, 2, 3, 4, 5, 6, 7]];
    for values in samples {
        assert_eq!(
            channel_mean(&reds(values), &ColorChannel::R),
            Some(reference_mean(values))
        );
    }
}

#[test]
fn median_of_odd_count_is_the_middle_value() {
    let mut colors = reds(&[9, 1, 5]);
    assert_eq!(channel_median(&mut colors, &ColorChannel::R), Some(5));
}

#[test]
fn median_of_even_count_is_the_mean_of_the_two_middle_values() {
    let mut colors = reds(&[40, 10, 30, 20]);
    assert_eq!(channel_median(&mut colors, &ColorChannel::R), Some(25));
    let mut colors = reds(&[2, 1]);
    assert_eq!(channel_median(&mut colors, &ColorChannel::R), Some(1));
    let mut colors = reds(&[255, 0]);
    assert_eq!(channel_median(&mut colors, &ColorChannel::R), Some(127));
}

#[test]
fn median_of_one_color_is_its_value() {
    let mut colors = vec![rgba(1, 2, 3, 4)];
    assert_eq!(channel_median(&mut colors, &ColorChannel::B), Some(3));
}

#[test]
fn median_of_empty_collection_is_none() {
    let mut colors: Vec<Color> = Vec::new();
    assert_eq!(channel_median(&mut colors, &ColorChannel::R), None);
    assert!(colors.is_empty());
}

#[test]
fn median_agrees_with_reference() {
    let samples: [&[u8]; 6] = [
        &[3],
        &[1, 0],
        &[255, 254, 255],
        &[9, 200, 17, 4, 90, 90],
        &[7, 6, 5, 4, 3, 2, 1],
        &[100, 100, 100, 100],
    ];
    for values in samples {
        let mut colors = reds(values);
        assert_eq!(
            channel_median(&mut colors, &ColorChannel::R),
            Some(reference_median(values))
        );
    }
}

#[test]
fn median_sorts_the_bucket_by_the_channel() {
    let mut colors = vec![rgba(5, 1, 0, 0), rgba(3, 2, 0, 0), rgba(9, 3, 0, 0), rgba(1, 4, 0, 0)];
    channel_median(&mut colors, &ColorChannel::R);
    assert_eq!(
        colors,
        vec![rgba(1, 4, 0, 0), rgba(3, 2, 0, 0), rgba(5, 1, 0, 0), rgba(9, 3, 0, 0)]
    );
    channel_median(&mut colors, &ColorChannel::G);
    assert_eq!(
        colors,
        vec![rgba(5, 1, 0, 0), rgba(3, 2, 0, 0), rgba(9, 3, 0, 0), rgba(1, 4, 0, 0)]
    );
}

#[test]
fn median_keeps_the_order_of_colors_with_equal_values() {
    let mut colors = vec![rgba(5, 1, 0, 0), rgba(3, 2, 0, 0), rgba(5, 3, 0, 0), rgba(3, 4, 0, 0)];
    channel_median(&mut colors, &ColorChannel::R);
    assert_eq!(
        colors,
        vec![rgba(3, 2, 0, 0), rgba(3, 4, 0, 0), rgba(5, 1, 0, 0), rgba(5, 3, 0, 0)]
    );
}

#[test]
fn range_is_greatest_less_least() {
    let colors = vec![rgba(10, 0, 255, 7), rgba(200, 0, 0, 7), rgba(90, 1, 128, 7)];
    assert_eq!(channel_range(&colors, &ColorChannel::R), Some(190));
    assert_eq!(channel_range(&colors, &ColorChannel::G), Some(1));
    assert_eq!(channel_range(&colors, &ColorChannel::B), Some(255));
    assert_eq!(channel_range(&colors, &ColorChannel::A), Some(0));
    assert_eq!(channel_range(&Vec::new(), &ColorChannel::A), None);
}

#[test]
fn color_ranges_holds_the_range_of_every_channel() {
    let colors = vec![rgba(10, 0, 255, 7), rgba(200, 0, 0, 7), rgba(90, 1, 128, 7)];
    assert_eq!(color_ranges(&colors), Some(rgba(190, 1, 255, 0)));
    assert_eq!(color_ranges(&vec![rgba(4, 5, 6, 7)]), Some(rgba(0, 0, 0, 0)));
    assert_eq!(color_ranges(&Vec::new()), None);
}

#[test]
fn highest_range_channel_picks_the_widest() {
    let colors = vec![rgba(0, 0, 0, 0), rgba(10, 20, 5, 5)];
    assert!(matches!(highest_range_channel(&colors), Some(ColorChannel::G)));
    let colors = vec![rgba(0, 0, 0, 0), rgba(1, 1, 1, 9)];
    assert!(matches!(highest_range_channel(&colors), Some(ColorChannel::A)));
    let colors = vec![rgba(0, 0, 0, 0), rgba(1, 2, 9, 3)];
    assert!(matches!(highest_range_channel(&colors), Some(ColorChannel::B)));
    let colors = vec![rgba(0, 7, 7, 7), rgba(9, 7, 7, 7)];
    assert!(matches!(highest_range_channel(&colors), Some(ColorChannel::R)));
}

#[test]
fn highest_range_channel_prefers_red_over_green_on_a_tie() {
    let colors = vec![rgba(0, 0, 5, 9), rgba(100, 100, 20, 9)];
    assert!(matches!(highest_range_channel(&colors), Some(ColorChannel::R)));
}

#[test]
fn highest_range_channel_prefers_the_earlier_channel_on_any_tie() {
    let colors = vec![rgba(0, 0, 0, 0), rgba(1, 9, 9, 9)];
    assert!(matches!(highest_range_channel(&colors), Some(ColorChannel::G)));
    let colors = vec![rgba(0, 0, 0, 0), rgba(1, 1, 9, 9)];
    assert!(matches!(highest_range_channel(&colors), Some(ColorChannel::B)));
    let colors = vec![rgba(0, 0, 0, 255), rgba(255, 255, 255, 255)];
    assert!(matches!(highest_range_channel(&colors), Some(ColorChannel::R)));
}

#[test]
fn highest_range_channel_of_identical_colors_is_red() {
    let colors = vec![rgba(10, 20, 30, 255); 4];
    assert!(matches!(highest_range_channel(&colors), Some(ColorChannel::R)));
}

#[test]
fn highest_range_channel_counts_alpha_like_any_channel() {
    let colors = vec![rgba(0, 0, 0, 0), rgba(10, 10, 10, 200)];
    assert!(matches!(highest_range_channel(&colors), Some(ColorChannel::A)));
}

#[test]
fn highest_range_channel_of_empty_collection_is_none() {
    assert!(highest_range_channel(&Vec::new()).is_none());
}
