use raytracer::pixel::{channel_byte, Rgb};
use raytracer::shapes::plane::Plane;

#[test]
fn a_channel_in_range_keeps_its_value() {
    assert_eq!(channel_byte(0), 0);
    assert_eq!(channel_byte(1), 1);
    assert_eq!(channel_byte(127), 127);
    assert_eq!(channel_byte(254), 254);
    assert_eq!(channel_byte(255), 255);
}

#[test]
fn a_channel_out_of_range_is_clamped() {
    assert_eq!(channel_byte(-1), 0);
    assert_eq!(channel_byte(i64::MIN), 0);
    assert_eq!(channel_byte(256), 255);
    assert_eq!(channel_byte(100_000), 255);
    assert_eq!(channel_byte(i64::MAX), 255);
}

#[test]
fn a_channel_byte_is_the_clamped_channel_times_255() {
    for (channel, byte) in [(0.3_f64, 76u8), (0.0, 0), (1.0, 255), (0.5, 127), (1.7, 255), (-0.2, 0), (f64::NAN, 0), (f64::INFINITY, 255)] {
        assert_eq!(channel_byte((channel * 255.0) as i64), byte);
        assert_eq!(channel_byte((channel * 255.0) as i64), (channel * 255.0) as u8);
    }
}

#[test]
fn a_colour_is_made_channel_by_channel() {
    assert_eq!(Rgb::from_scaled(76, 300, -4), Rgb { r: 76, g: 255, b: 0 });
    assert_eq!(Rgb::from_scaled(0, 128, 255), Rgb { r: 0, g: 128, b: 255 });
}

#[test]
fn all_planes_are_equal() {
    assert_eq!(Plane::new(), Plane {});
    assert_eq!(Plane::new(), Plane::new());
}
