use tinyraytracer::image::{channel_byte, header_bytes, ppm_bytes};
use tinyraytracer::vec3::Vec3;

#[test]
fn channel_clamps_high_values_to_255() {
    // 1.5 in fixed point
    assert_eq!(channel_byte(98304), 255);
    assert_eq!(channel_byte(65536), 255);
    assert_eq!(channel_byte(i64::MAX), 255);
}

#[test]
fn channel_clamps_low_values_to_0() {
    // -0.3 in fixed point
    assert_eq!(channel_byte(-19661), 0);
    assert_eq!(channel_byte(0), 0);
    assert_eq!(channel_byte(i64::MIN), 0);
}

#[test]
fn channel_scales_and_truncates() {
    // 0.5 * 255 = 127.5, truncated to 127
    assert_eq!(channel_byte(32768), 127);
    // 1.0 - 1/65536 gives 254.996..., truncated to 254
    assert_eq!(channel_byte(65535), 254);
    assert_eq!(channel_byte(1), 0);
}

#[test]
fn header_is_ascii_p6_with_dimensions() {
    assert_eq!(header_bytes(1024, 768), b"P6\n1024 768\n255\n".to_vec());
    assert_eq!(header_bytes(2, 2), b"P6\n2 2\n255\n".to_vec());
    assert_eq!(header_bytes(10, 100), b"P6\n10 100\n255\n".to_vec());
}

#[test]
fn ppm_length_is_header_plus_three_bytes_per_pixel() {
    for (w, h) in [(1usize, 1usize), (2, 2), (7, 3), (16, 9)] {
        let fb = vec![Vec3::new(0, 0, 0); w * h];
        let bytes = ppm_bytes(&fb, w, h);
        let header = header_bytes(w, h);
        assert_eq!(bytes.len(), header.len() + w * h * 3);
    }
}

#[test]
fn ppm_body_is_rgb_in_raster_order() {
    let fb = vec![
        Vec3::new(0, 32768, 65536),
        Vec3::new(98304, -5, 16384),
    ];
    let bytes = ppm_bytes(&fb, 2, 1);
    let header = header_bytes(2, 1);
    assert_eq!(&bytes[..header.len()], &header[..]);
    assert_eq!(&bytes[header.len()..], &[0, 127, 255, 255, 0, 63]);
}
