use mandelbrot::gpu::{
    calibration_coords, iterate_header, size_hint, ComputeParams, CALIBRATION_X, CALIBRATION_Y,
};
use mandelbrot::primitives::{Coordinates, Dimensions, ScaledDimensions};

fn as_f32(bits: u32) -> f32 {
    f32::from_bits(bits)
}

#[test]
fn dimensions() {
    let d = Dimensions::new_nonzero(0, 5);
    assert_eq!((d.width, d.height), (1, 5));
    assert_eq!(d.shortest_side(), 1);
    assert_eq!(Dimensions::new_nonzero(800, 600).shortest_side(), 600);
    let s = ScaledDimensions { width: 100, height: 3 };
    assert_eq!(s.aligned_width(64), 128);
    assert_eq!(ScaledDimensions { width: 128, height: 3 }.aligned_width(64), 128);
    assert_eq!(ScaledDimensions { width: 0, height: 3 }.aligned_width(64), 0);
}

#[test]
fn new_coordinates() {
    let c = Coordinates::new((-0.5f32).to_bits(), 0.25f32.to_bits(), 0.125f32.to_bits(), 10);
    assert_eq!(c.size(), 2);
    assert_eq!(c.precision(), 10);
    assert_eq!(as_f32(c.x.as_f32_round()), -0.5);
    assert_eq!(as_f32(c.y.as_f32_round()), 0.25);
    assert_eq!(as_f32(c.step.as_f32_round()), 0.125);
}

#[test]
fn coordinates_at_most_negative_integer() {
    let min = (-2147483648.0f32).to_bits();
    let c = Coordinates::new(min, min, 0.5f32.to_bits(), 10);
    assert_eq!(c.x.words(), &vec![0, 0x8000_0000]);
    assert_eq!(c.y.as_f32_round(), min);
    let m = mandelbrot::primitives::Coordinates::new_magnified(min, 0, 3, 40);
    assert_eq!(m.x.as_f32_round(), min);
}

#[test]
fn magnified_coordinates() {
    let c = calibration_coords(4, 70);
    assert_eq!(c.size(), 4);
    assert_eq!(c.step.words(), &vec![0, 0, 64, 0]);
    assert_eq!(c.x.as_f32_round(), CALIBRATION_X);
    assert_eq!(c.y.as_f32_round(), CALIBRATION_Y);
    assert_eq!(as_f32(CALIBRATION_X), -0.6827560061104002f32);
}

#[test]
fn move_by_delta() {
    let mut c = Coordinates::new(1.0f32.to_bits(), 1.0f32.to_bits(), 0.125f32.to_bits(), 10);
    c.move_by_delta(2.0f32.to_bits(), (-4.0f32).to_bits());
    assert_eq!(as_f32(c.x.as_f32_round()), 0.75);
    assert_eq!(as_f32(c.y.as_f32_round()), 1.5);
    assert_eq!(c.size(), 2);
}

#[test]
fn zoom_keeps_anchor_in_place() {
    let mut c = Coordinates::new(0.0f32.to_bits(), 0.0f32.to_bits(), 0.25f32.to_bits(), 10);
    c.zoom_with_anchor(0.5f32.to_bits(), 4, 8, 1.0f32.to_bits());
    assert_eq!(as_f32(c.step.as_f32_round()), 0.125);
    // the pixel (4, 8) stays at (1, 2)
    assert_eq!(as_f32(c.x.as_f32_round()), 0.5);
    assert_eq!(as_f32(c.y.as_f32_round()), 1.0);
}

#[test]
fn zoom_out_is_limited_at_two_words() {
    let mut c = Coordinates::new(0.0f32.to_bits(), 0.0f32.to_bits(), 0.25f32.to_bits(), 10);
    c.zoom_with_anchor(4.0f32.to_bits(), 0, 0, 0.5f32.to_bits());
    assert_eq!(as_f32(c.step.as_f32_round()), 0.5);
}

#[test]
fn deep_zoom_grows_width_as_predicted() {
    let mut c = Coordinates::new(
        (-0.5f32).to_bits(),
        0.0f32.to_bits(),
        (4.0f32 / 800.0).to_bits(),
        10,
    );
    assert_eq!(c.size(), 2);
    let mut grew = false;
    for _ in 0..40 {
        let before = c.size();
        let predicted = c.step.precision_diff(c.precision());
        c.zoom_with_anchor(0.1f32.to_bits(), 400, 300, 0.02f32.to_bits());
        assert_eq!(c.size() as isize, before as isize + predicted);
        assert_eq!(c.x.word_count(), c.size());
        assert_eq!(c.y.word_count(), c.size());
        assert_eq!(c.step.word_count(), c.size());
        if c.size() > 2 {
            grew = true;
        }
    }
    assert!(grew);
    assert!(c.size() > 4);
}

#[test]
fn set_precision_resizes_all() {
    let mut c = Coordinates::new(1.0f32.to_bits(), 2.0f32.to_bits(), 1.0f32.to_bits(), 10);
    c.set_precision(64);
    assert_eq!(c.size(), 3);
    assert_eq!(c.x.word_count(), 3);
    assert_eq!(c.y.word_count(), 3);
    assert_eq!(as_f32(c.y.as_f32_round()), 2.0);
    assert_eq!(c.precision(), 10);
}

#[test]
fn parameter_block() {
    assert_eq!(size_hint(2), 40);
    let c = Coordinates::new(1.0f32.to_bits(), 2.0f32.to_bits(), 0.5f32.to_bits(), 10);
    let size = ScaledDimensions { width: 100, height: 7 };
    let params = ComputeParams::new(size, &c, 1000);
    assert!(params.reset);
    let bytes = params.encode();
    assert_eq!(bytes.len(), 40);
    assert_eq!(&bytes[0..4], &1000u32.to_ne_bytes());
    assert_eq!(&bytes[4..8], &1u32.to_ne_bytes());
    assert_eq!(&bytes[8..12], &128u32.to_ne_bytes());
    assert_eq!(&bytes[12..16], &7u32.to_ne_bytes());
    assert_eq!(&bytes[16..24], c.x.as_bytes());
    assert_eq!(&bytes[32..36], &0x8000_0000u32.to_ne_bytes()[..]);
    assert_eq!(&bytes[36..40], &0u32.to_ne_bytes()[..]);
    let mut header = 55u32.to_ne_bytes().to_vec();
    header.extend_from_slice(&[0, 0, 0, 1]);
    assert_eq!(iterate_header(55, true), header);
    header[7] = 0;
    assert_eq!(iterate_header(55, false), header);
}
