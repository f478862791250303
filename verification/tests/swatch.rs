use image_to_palette::{swatch_strip, Color, SQUARE_SIZE};

fn rgba(r: u8, g: u8, b: u8, a: u8) -> Color {
    Color { r, g, b, a }
}

#[test]
fn squares_are_fifty_pixels_wide() {
    assert_eq!(SQUARE_SIZE, 50);
}

#[test]
fn strip_has_one_square_for_each_color() {
    let first = rgba(255, 0, 0, 255);
    let second = rgba(0, 0, 255, 128);
    let (pixels, width, height) = swatch_strip(&vec![first, second]);
    assert_eq!(width, 100);
    assert_eq!(height, 50);
    assert_eq!(pixels.len(), 5000);
    for y in 0..50usize {
        for x in 0..100usize {
            let expected = if x < 50 { first } else { second };
            assert_eq!(pixels[y * 100 + x], expected);
        }
    }
}

#[test]
fn strip_of_one_color_is_one_square() {
    let color = rgba(1, 2, 3, 4);
    let (pixels, width, height) = swatch_strip(&vec![color]);
    assert_eq!((width, height), (50, 50));
    assert_eq!(pixels, vec![color; 2500]);
}

#[test]
fn strip_of_no_colors_has_no_pixels() {
    let (pixels, width, height) = swatch_strip(&Vec::new());
    assert_eq!((width, height), (0, 50));
    assert!(pixels.is_empty());
}
