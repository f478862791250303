use image_to_palette::{name_from_rgb, Color};

fn rgba(r: u8, g: u8, b: u8, a: u8) -> Color {
    Color { r, g, b, a }
}

#[test]
fn names_are_upper_case_hex_triplets() {
    let colors = vec![rgba(16, 32, 48, 255), rgba(255, 0, 171, 255), rgba(0, 0, 0, 255)];
    assert_eq!(
        name_from_rgb(&colors),
        vec![String::from("#102030"), String::from("#FF00AB"), String::from("#000000")]
    );
}

#[test]
fn names_leave_alpha_out() {
    assert_eq!(name_from_rgb(&vec![rgba(16, 32, 48, 64)]), vec![String::from("#102030")]);
    assert_eq!(name_from_rgb(&vec![rgba(16, 32, 48, 0)]), vec![String::from("#102030")]);
}

#[test]
fn names_pad_small_values_with_a_zero() {
    assert_eq!(name_from_rgb(&vec![rgba(1, 10, 15, 255)]), vec![String::from("#010A0F")]);
}

#[test]
fn names_of_no_colors_are_no_names() {
    assert!(name_from_rgb(&Vec::new()).is_empty());
}
