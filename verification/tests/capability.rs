use kquant::colors::{Color, ColorKind};
use kquant::kmeans::Kmeansable;

fn rgb(r: u8, g: u8, b: u8) -> Color {
    Color { color_type: ColorKind::Rgb8, data: vec![r, g, b] }
}

#[test]
fn distance_is_squared_euclidean_over_the_channels() {
    let a = rgb(0, 0, 0);
    let b = rgb(3, 4, 0);
    assert_eq!(a.distance(&b), 25);
    assert_eq!(b.distance(&a), 25);
    assert_eq!(a.distance(&a), 0);
}

#[test]
fn distance_counts_the_alpha_channel() {
    let a = Color { color_type: ColorKind::Rgba8, data: vec![0, 0, 0, 10] };
    let b = Color { color_type: ColorKind::Rgba8, data: vec![0, 0, 0, 30] };
    assert_eq!(a.distance(&b), 400);
}

#[test]
fn accumulation_starts_from_four_zeros_and_truncates_to_the_channels() {
    let z = <Color as Kmeansable>::zero();
    assert_eq!(z, vec![0, 0, 0, 0]);
    let s = Color::add(&z, &rgb(1, 2, 3));
    assert_eq!(s, vec![1, 2, 3]);
    let s2 = Color::add(&s, &rgb(10, 20, 30));
    assert_eq!(s2, vec![11, 22, 33]);
}

#[test]
fn the_mean_truncates_toward_zero() {
    let sum: Vec<u64> = vec![5, 7, 255];
    let mean = Color::div(&sum, 2);
    assert_eq!(mean, rgb(2, 3, 127));
}

#[test]
fn the_mean_layout_follows_the_channel_count() {
    let sum: Vec<u64> = vec![8, 8, 8, 8];
    let mean = Color::div(&sum, 4);
    assert_eq!(mean, Color { color_type: ColorKind::Rgba8, data: vec![2, 2, 2, 2] });
}

#[test]
fn duplicate_copies_every_byte() {
    let c = Color { color_type: ColorKind::Rgba8, data: vec![1, 2, 3, 4] };
    let d = c.duplicate();
    assert_eq!(c, d);
}

#[test]
fn well_formedness_checks_the_channel_count() {
    assert!(rgb(1, 2, 3).is_well_formed());
    assert!(!Color { color_type: ColorKind::Rgb8, data: vec![1, 2, 3, 4] }.is_well_formed());
    assert!(Color { color_type: ColorKind::Rgba8, data: vec![1, 2, 3, 4] }.is_well_formed());
}
