use kquant::codes::{hex_color_code, rgb_color_code, ColorCodeFormat};
use kquant::colors::{Color, ColorKind};
use kquant::kmeans::quantized_bytes;

fn rgb(r: u8, g: u8, b: u8) -> Color {
    Color { color_type: ColorKind::Rgb8, data: vec![r, g, b] }
}

fn rgba(r: u8, g: u8, b: u8, a: u8) -> Color {
    Color { color_type: ColorKind::Rgba8, data: vec![r, g, b, a] }
}

#[test]
fn hex_code_of_an_opaque_color() {
    assert_eq!(hex_color_code(&rgb(255, 0, 17)), b"#ff0011".to_vec());
}

#[test]
fn hex_code_of_a_color_with_alpha() {
    assert_eq!(hex_color_code(&rgba(1, 35, 69, 103)), b"#01234567".to_vec());
}

#[test]
fn rgb_code_of_an_opaque_color() {
    assert_eq!(rgb_color_code(&rgb(255, 0, 17)), b"rgb(255, 0, 17)".to_vec());
}

#[test]
fn rgb_code_of_a_color_with_alpha() {
    assert_eq!(rgb_color_code(&rgba(9, 10, 99, 100)), b"rgba(9, 10, 99, 100)".to_vec());
}

#[test]
fn decimal_digits_at_the_width_boundaries() {
    assert_eq!(rgb_color_code(&rgb(0, 9, 10)), b"rgb(0, 9, 10)".to_vec());
    assert_eq!(rgb_color_code(&rgb(99, 100, 255)), b"rgb(99, 100, 255)".to_vec());
}

#[test]
fn hex_digits_at_the_value_boundaries() {
    assert_eq!(hex_color_code(&rgb(0, 15, 16)), b"#000f10".to_vec());
    assert_eq!(hex_color_code(&rgb(159, 160, 255)), b"#9fa0ff".to_vec());
}

#[test]
fn format_dispatch_matches_the_plain_builders() {
    let c = rgb(12, 34, 56);
    assert_eq!(ColorCodeFormat::Hex.color_code(&c), hex_color_code(&c));
    assert_eq!(ColorCodeFormat::Rgb.color_code(&c), rgb_color_code(&c));
}

#[test]
fn quantized_bytes_replace_each_point_by_its_center() {
    let clusters = vec![rgb(1, 2, 3), rgb(9, 8, 7)];
    let assignments = vec![1, 0, 0, 1];
    assert_eq!(quantized_bytes(&clusters, &assignments), vec![9, 8, 7, 1, 2, 3, 1, 2, 3, 9, 8, 7]);
}

#[test]
fn quantized_bytes_of_no_points_are_empty() {
    let clusters = vec![rgb(1, 2, 3)];
    let assignments: Vec<usize> = Vec::new();
    assert_eq!(quantized_bytes(&clusters, &assignments), Vec::<u8>::new());
}
