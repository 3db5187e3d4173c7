use raytracer::geometry::{pixel, ray_hits_sphere};
use raytracer::settings::{MissColor, RenderSettings};
use raytracer::texture::RenderTexture;

const WHITE: [u8; 4] = [255, 255, 255, 255];
const BLACK: [u8; 4] = [0, 0, 0, 255];

fn tint_settings() -> RenderSettings {
    RenderSettings { miss_color: MissColor::DirectionTint }
}

#[test]
fn default_settings_colour_misses_black() {
    assert_eq!(RenderSettings::new().miss_color, MissColor::Black);
}

#[test]
fn new_texture_is_opaque_white() {
    let t = RenderTexture::new(3, 2);
    assert_eq!(t.width(), 3);
    assert_eq!(t.height(), 2);
    assert_eq!(t.data().len(), 24);
    assert!(t.data().iter().all(|&b| b == 255));
}

#[test]
fn resize_sets_dimensions_and_length() {
    let mut t = RenderTexture::new(5, 4);
    for &(w, h) in &[(8u32, 6u32), (1, 1), (0, 7), (7, 0), (0, 0), (13, 11), (2, 9)] {
        t.resize(w, h);
        assert_eq!(t.width(), w);
        assert_eq!(t.height(), h);
        assert_eq!(t.data().len(), 4 * (w as usize) * (h as usize));
    }
}

#[test]
fn resize_twice_equals_resize_once() {
    let settings = RenderSettings::new();
    let mut once = RenderTexture::new(6, 5);
    once.render(&settings);
    let mut twice = RenderTexture::new(6, 5);
    twice.render(&settings);
    once.resize(9, 3);
    twice.resize(9, 3);
    twice.resize(9, 3);
    assert_eq!(once.width(), twice.width());
    assert_eq!(once.height(), twice.height());
    assert_eq!(once.data(), twice.data());
}

#[test]
fn resize_to_same_size_changes_nothing() {
    let mut t = RenderTexture::new(10, 10);
    t.render(&RenderSettings::new());
    let before = t.data().to_vec();
    t.resize(10, 10);
    assert_eq!(t.data(), &before[..]);
}

#[test]
fn resize_grow_fills_new_bytes_white() {
    let mut t = RenderTexture::new(2, 2);
    t.render(&RenderSettings::new());
    assert_eq!(&t.data()[..12], &[0, 0, 0, 255, 0, 0, 0, 255, 0, 0, 0, 255]);
    t.resize(4, 4);
    assert_eq!(t.data().len(), 64);
    assert!(t.data()[16..].iter().all(|&b| b == 255));
    for y in 0..4 {
        for x in 0..4 {
            assert_eq!(t.pixel_at(x, y), WHITE, "pixel ({}, {})", x, y);
        }
    }
}

#[test]
fn resize_shrink_keeps_no_old_pixel() {
    let mut t = RenderTexture::new(4, 4);
    t.render(&RenderSettings::new());
    assert_eq!(t.pixel_at(0, 0), BLACK);
    t.resize(3, 1);
    assert_eq!(t.data().len(), 12);
    assert!(t.data().iter().all(|&b| b == 255));
}

#[test]
fn resize_same_pixel_count_whitens() {
    let mut t = RenderTexture::new(8, 2);
    t.render(&RenderSettings::new());
    t.resize(4, 4);
    assert!(t.data().iter().all(|&b| b == 255));
}

#[test]
fn render_leaves_every_pixel_opaque() {
    for settings in [RenderSettings::new(), tint_settings()] {
        let mut t = RenderTexture::new(17, 9);
        t.render(&settings);
        assert_eq!(t.data().len(), 4 * 17 * 9);
        for (i, &b) in t.data().iter().enumerate() {
            if i % 4 == 3 {
                assert_eq!(b, 255);
            }
        }
    }
}

#[test]
fn render_centre_pixel_hits() {
    let mut t = RenderTexture::new(100, 100);
    t.render(&RenderSettings::new());
    assert_eq!(t.pixel_at(50, 50), WHITE);
    let offset = 4 * (50 * 100 + 50);
    assert_eq!(&t.data()[offset..offset + 4], &WHITE);
}

#[test]
fn render_corner_pixel_misses() {
    let mut t = RenderTexture::new(100, 100);
    t.render(&RenderSettings::new());
    assert_eq!(t.pixel_at(0, 0), BLACK);
    assert_eq!(&t.data()[..4], &BLACK);
}

#[test]
fn render_square_pattern_is_centred_disc() {
    let n: u32 = 64;
    let mut t = RenderTexture::new(n, n);
    t.render(&RenderSettings::new());
    for y in 0..n {
        for x in 0..n {
            let dx = 2 * x as i64 - n as i64;
            let dy = 2 * y as i64 - n as i64;
            let inside = 15 * (dx * dx + dy * dy) <= (n as i64) * (n as i64);
            let expected = if inside { WHITE } else { BLACK };
            assert_eq!(t.pixel_at(x, y), expected, "pixel ({}, {})", x, y);
        }
    }
}

#[test]
fn render_square_pattern_survives_quarter_turn() {
    let n: u32 = 48;
    let mut t = RenderTexture::new(n, n);
    t.render(&RenderSettings::new());
    let mut hits = 0;
    for y in 1..n {
        for x in 0..n {
            let here = t.pixel_at(x, y);
            if here == WHITE {
                hits += 1;
            }
            assert_eq!(here, t.pixel_at(n - y, x), "pixel ({}, {})", x, y);
        }
    }
    assert!(hits > 0);
}

#[test]
fn render_square_pattern_swap_and_mirror() {
    let n: u32 = 40;
    let mut t = RenderTexture::new(n, n);
    t.render(&RenderSettings::new());
    for y in 1..n {
        for x in 1..n {
            let here = t.pixel_at(x, y);
            assert_eq!(here, t.pixel_at(y, x));
            assert_eq!(here, t.pixel_at(n - x, y));
            assert_eq!(here, t.pixel_at(x, n - y));
        }
    }
}

#[test]
fn render_wide_image_keeps_sphere_round() {
    let mut t = RenderTexture::new(200, 100);
    t.render(&RenderSettings::new());
    assert_eq!(t.pixel_at(100, 50), WHITE);
    assert_eq!(t.pixel_at(50, 50), BLACK);
    for k in 0..50 {
        assert_eq!(t.pixel_at(100 + k, 50), t.pixel_at(100, 50 + k), "offset {}", k);
    }
}

#[test]
fn render_zero_size_writes_nothing() {
    let mut t = RenderTexture::new(8, 8);
    t.resize(0, 0);
    t.render(&RenderSettings::new());
    assert_eq!(t.width(), 0);
    assert_eq!(t.height(), 0);
    assert!(t.data().is_empty());
}

#[test]
fn render_zero_height_writes_nothing() {
    let mut t = RenderTexture::new(8, 8);
    t.resize(8, 0);
    t.render(&tint_settings());
    assert!(t.data().is_empty());
}

#[test]
fn hit_test_boundary() {
    assert!(ray_hits_sphere(50, 50, 100, 100));
    assert!(!ray_hits_sphere(0, 0, 100, 100));
    assert!(ray_hits_sphere(62, 50, 100, 100));
    assert!(!ray_hits_sphere(63, 50, 100, 100));
    assert!(ray_hits_sphere(50, 62, 100, 100));
    assert!(!ray_hits_sphere(50, 63, 100, 100));
    assert!(!ray_hits_sphere(0, 0, 1, 1));
}

#[test]
fn hit_test_extreme_dimensions() {
    assert!(!ray_hits_sphere(0, 0, u32::MAX, 1));
    assert!(ray_hits_sphere(u32::MAX / 2, u32::MAX / 2, u32::MAX, u32::MAX));
    assert!(!ray_hits_sphere(0, u32::MAX - 1, u32::MAX, u32::MAX));
}

#[test]
fn pixel_colours() {
    assert_eq!(pixel(50, 50, 100, 100, MissColor::Black), WHITE);
    assert_eq!(pixel(50, 50, 100, 100, MissColor::DirectionTint), WHITE);
    assert_eq!(pixel(0, 0, 100, 100, MissColor::Black), BLACK);
    assert_eq!(pixel(99, 0, 100, 100, MissColor::Black), BLACK);
}

#[test]
fn tint_uses_ray_direction() {
    assert_eq!(pixel(0, 0, 100, 100, MissColor::DirectionTint), [0, 0, 0, 255]);
    assert_eq!(pixel(99, 0, 100, 100, MissColor::DirectionTint), [145, 0, 0, 255]);
    assert_eq!(pixel(0, 99, 100, 100, MissColor::DirectionTint), [0, 145, 0, 255]);
    assert_eq!(pixel(99, 99, 100, 100, MissColor::DirectionTint), [146, 146, 0, 255]);
    // ndc (0.5, 0): direction (1, 0, -2) / sqrt(5), 255 / sqrt(5) = 114.04
    assert_eq!(pixel(75, 50, 100, 100, MissColor::DirectionTint), [114, 0, 0, 255]);
}

#[test]
fn tint_render_matches_pixel() {
    let mut t = RenderTexture::new(30, 20);
    t.render(&tint_settings());
    for y in 0..20 {
        for x in 0..30 {
            assert_eq!(t.pixel_at(x, y), pixel(x, y, 30, 20, MissColor::DirectionTint));
        }
    }
    assert_eq!(t.pixel_at(29, 10), pixel(29, 10, 30, 20, MissColor::DirectionTint));
    assert_ne!(t.pixel_at(29, 10), BLACK);
}
