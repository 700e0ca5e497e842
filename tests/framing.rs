use fweh::background::{
    create_background, create_gradient_background, interpolate_color, parse_background, BackgroundType,
};
use fweh::color::{named_color, parse_color, parse_gradient};
use fweh::error::{ColorError, FramerError};
use fweh::layout::{
    calculate_aspect_ratio, calculate_padding, find_only, gcd, parse_ratio, parse_u32, AspectRatio, Point,
};
use fweh::pipeline::{compose_image, ProcessingOptions};
use fweh::pixels::{blend_color, Color, PixelBuffer};
use fweh::rounding::{corner_ops, round, round_corners};
use fweh::shadow::{add_drop_shadow, box_blur, gaussian_blur, ShadowOptions};

fn rgba(r: u8, g: u8, b: u8, a: u8) -> Color {
    Color { r, g, b, a }
}

fn solid(w: u32, h: u32, c: Color) -> PixelBuffer {
    PixelBuffer::filled(w, h, c)
}

fn alpha(img: &PixelBuffer, x: u32, y: u32) -> u8 {
    img.get(x, y, 3)
}

fn options(scale: u32, roundness: u32, background: BackgroundType) -> ProcessingOptions {
    ProcessingOptions {
        scale,
        roundness,
        offset: Point::new(0, 0),
        shadow: None,
        background,
        ratio: None,
    }
}

#[test]
fn hex_colors_resolve() {
    assert_eq!(parse_color("#FF8000"), Ok(rgba(255, 128, 0, 255)));
    assert_eq!(parse_color("#ff800080"), Ok(rgba(255, 128, 0, 128)));
    assert_eq!(parse_color("#f80"), Ok(rgba(255, 136, 0, 255)));
}

#[test]
fn only_one_hash_is_accepted() {
    assert_eq!(parse_color("##000"), Err(ColorError::InvalidHex));
    assert_eq!(parse_color("##ff0000"), Err(ColorError::InvalidHex));
}

#[test]
fn malformed_hex_is_rejected() {
    assert_eq!(parse_color("#12"), Err(ColorError::InvalidHex));
    assert_eq!(parse_color("#12345g"), Err(ColorError::InvalidHex));
    assert_eq!(parse_color("#"), Err(ColorError::InvalidHex));
    assert_eq!(parse_color("#+f0000"), Err(ColorError::InvalidHex));
}

#[test]
fn names_resolve_in_any_case() {
    assert_eq!(parse_color("RED"), Ok(rgba(255, 0, 0, 255)));
    assert_eq!(parse_color("Magenta"), Ok(rgba(255, 0, 255, 255)));
    assert_eq!(parse_color("transparent"), Ok(rgba(0, 0, 0, 0)));
    assert_eq!(named_color("cyan"), Some(rgba(0, 255, 255, 255)));
    assert_eq!(named_color("Cyan"), None);
}

#[test]
fn unknown_color_is_an_error() {
    assert_eq!(parse_color("not-a-color"), Err(ColorError::UnknownName));
    assert_eq!(parse_color(""), Err(ColorError::UnknownName));
}

#[test]
fn gradient_stops_split_on_dash() {
    let stops = parse_gradient("red-#00f-White").unwrap();
    assert_eq!(stops, vec![rgba(255, 0, 0, 255), rgba(0, 0, 255, 255), rgba(255, 255, 255, 255)]);
    assert_eq!(parse_gradient("red"), Ok(vec![rgba(255, 0, 0, 255)]));
    assert_eq!(parse_gradient("red-nope"), Err(ColorError::UnknownName));
    assert_eq!(parse_gradient("red-"), Err(ColorError::UnknownName));
}

#[test]
fn aspect_ratio_is_reduced() {
    assert_eq!(calculate_aspect_ratio(1920, 1080), (16, 9));
    assert_eq!(calculate_aspect_ratio(100, 100), (1, 1));
    assert_eq!(calculate_aspect_ratio(0, 5), (0, 1));
    assert_eq!(calculate_aspect_ratio(7, 3), (7, 3));
}

#[test]
fn padding_for_wider_target() {
    let r = calculate_padding(100, 100, AspectRatio { width: 16, height: 9 }, 11000);
    assert_eq!(r, Some((195, 110, 42, 43, 0, 0)));
}

#[test]
fn padding_for_taller_target() {
    let r = calculate_padding(100, 50, AspectRatio { width: 1, height: 1 }, 10000);
    assert_eq!(r, Some((100, 100, 0, 0, 25, 25)));
    let odd = calculate_padding(100, 50, AspectRatio { width: 100, height: 101 }, 10000);
    assert_eq!(odd, Some((100, 101, 0, 0, 25, 26)));
}

#[test]
fn padding_keeps_shape_at_own_ratio() {
    let r = calculate_padding(300, 200, AspectRatio { width: 3, height: 2 }, 10000);
    assert_eq!(r, Some((300, 200, 0, 0, 0, 0)));
}

#[test]
fn padding_reports_overflow() {
    let r = calculate_padding(u32::MAX, 1, AspectRatio { width: 1, height: 1 }, 20000);
    assert_eq!(r, None);
}

#[test]
fn point_conversions() {
    let p = Point::new(-3, 7);
    assert_eq!(p.to_i32(), (-3, 7));
    assert_eq!(p.to_u32(), (0, 7));
}

#[test]
fn blend_color_mixes_by_alpha() {
    let a = rgba(0, 100, 255, 255);
    let b = rgba(255, 200, 0, 0);
    assert_eq!(blend_color(a, b, 0), a);
    assert_eq!(blend_color(a, b, 255), b);
    assert_eq!(blend_color(a, b, 128), rgba(128, 150, 127, 127));
}

#[test]
fn interpolation_rounds_to_nearest() {
    let c = interpolate_color(rgba(0, 0, 0, 0), rgba(255, 255, 255, 255), 1, 2);
    assert_eq!(c, rgba(128, 128, 128, 128));
    let d = interpolate_color(rgba(255, 0, 0, 255), rgba(0, 0, 255, 255), 1, 4);
    assert_eq!(d, rgba(191, 0, 64, 255));
    let full = interpolate_color(rgba(255, 0, 0, 255), rgba(0, 0, 255, 0), 7, 7);
    assert_eq!(full, rgba(0, 0, 255, 0));
    let none = interpolate_color(rgba(255, 0, 0, 255), rgba(0, 0, 255, 0), 0, 7);
    assert_eq!(none, rgba(255, 0, 0, 255));
}

#[test]
fn zero_roundness_is_identity() {
    let mut img = solid(7, 5, rgba(10, 20, 30, 200));
    img.set_pixel(3, 2, rgba(1, 2, 3, 4));
    let out = round_corners(&img, 0);
    assert_eq!(out.width, 7);
    assert_eq!(out.height, 5);
    assert_eq!(out.data, img.data);
    let tiny = round_corners(&img, 1000);
    assert_eq!(tiny.data, img.data);
}

#[test]
fn rounding_clears_corners_and_keeps_center() {
    let img = solid(40, 30, rgba(255, 0, 0, 255));
    let out = round_corners(&img, 2000);
    assert_eq!(alpha(&out, 0, 0), 0);
    assert_eq!(alpha(&out, 39, 0), 0);
    assert_eq!(alpha(&out, 0, 29), 0);
    assert_eq!(alpha(&out, 39, 29), 0);
    assert_eq!(alpha(&out, 20, 15), 255);
    assert_eq!(alpha(&out, 20, 0), 255);
    assert_eq!(out.get(0, 0, 0), 255);
}

#[test]
fn rounded_corners_mirror_each_other() {
    let img = solid(37, 23, rgba(0, 255, 0, 255));
    let out = round_corners(&img, 4000);
    for y in 0..23u32 {
        for x in 0..37u32 {
            let a = alpha(&out, x, y);
            assert_eq!(a, alpha(&out, 36 - x, y));
            assert_eq!(a, alpha(&out, x, 22 - y));
            assert_eq!(a, alpha(&out, 36 - x, 22 - y));
        }
    }
}

#[test]
fn rounded_corner_is_symmetric_across_its_diagonal() {
    let img = solid(30, 40, rgba(0, 0, 255, 255));
    let out = round_corners(&img, 5000);
    for y in 0..15u32 {
        for x in 0..15u32 {
            assert_eq!(alpha(&out, x, y), alpha(&out, y, x));
            assert_eq!(alpha(&out, 29 - x, 39 - y), alpha(&out, 29 - y, 39 - x));
        }
    }
}

#[test]
fn rounding_only_lowers_alpha() {
    let img = solid(30, 30, rgba(9, 9, 9, 100));
    let out = round_corners(&img, 3000);
    for y in 0..30u32 {
        for x in 0..30u32 {
            assert!(alpha(&out, x, y) <= 100);
            assert_eq!(out.get(x, y, 0), 9);
        }
    }
}

#[test]
fn half_radius_leaves_an_inscribed_circle() {
    let img = solid(100, 100, rgba(255, 0, 0, 255));
    let out = round_corners(&img, 10000);
    for y in 0..100u32 {
        for x in 0..100u32 {
            let dx = x as f64 + 0.5 - 50.0;
            let dy = y as f64 + 0.5 - 50.0;
            let d = (dx * dx + dy * dy).sqrt();
            if d > 51.0 {
                assert_eq!(alpha(&out, x, y), 0, "outside at {} {}", x, y);
            }
            if d < 49.0 {
                assert_eq!(alpha(&out, x, y), 255, "inside at {} {}", x, y);
            }
        }
    }
}

#[test]
fn corner_ops_stay_in_the_corner() {
    let ops = corner_ops(9);
    assert!(!ops.is_empty());
    for (i, j, a) in ops {
        assert!(1 <= i && i <= 9 && 1 <= j && j <= 9 && a <= 256);
    }
}

#[test]
fn round_with_mixed_radii() {
    let mut img = solid(20, 20, rgba(0, 0, 0, 255));
    round(&mut img, (8, 0, 4, 0));
    assert_eq!(alpha(&img, 0, 0), 0);
    assert_eq!(alpha(&img, 19, 0), 255);
    assert_eq!(alpha(&img, 19, 19), 0);
    assert_eq!(alpha(&img, 0, 19), 255);
}

#[test]
fn box_blur_averages_neighbours() {
    let mut img = solid(3, 1, rgba(0, 0, 0, 0));
    img.set_pixel(1, 0, rgba(90, 90, 90, 90));
    let out = box_blur(&img);
    // The tap before the first row or column reads that row or column again.
    assert_eq!(out.get_pixel(0, 0), rgba(30, 30, 30, 30));
    assert_eq!(out.get_pixel(1, 0), rgba(30, 30, 30, 30));
    assert_eq!(out.get_pixel(2, 0), rgba(45, 45, 45, 45));
}

#[test]
fn gaussian_blur_runs_half_radius_passes() {
    let mut img = solid(5, 5, rgba(0, 0, 0, 0));
    img.set_pixel(2, 2, rgba(0, 0, 0, 255));
    let once = box_blur(&img);
    let twice = box_blur(&once);
    assert_eq!(gaussian_blur(&img, 0).data, img.data);
    assert_eq!(gaussian_blur(&img, 1).data, once.data);
    assert_eq!(gaussian_blur(&img, 2).data, once.data);
    assert_eq!(gaussian_blur(&img, 3).data, twice.data);
}

fn shadow(x: i32, y: i32, color: &str, radius: u32, opacity: u32) -> ShadowOptions {
    ShadowOptions { offset: Point::new(x, y), color: color.to_string(), radius, opacity }
}

#[test]
fn shadow_canvas_grows_by_margin_and_offset() {
    let img = solid(20, 10, rgba(255, 255, 255, 255));
    for (ox, oy) in [(10, -5), (-7, 3), (0, 0), (-4, -4)] {
        let out = add_drop_shadow(&img, &shadow(ox, oy, "black", 4, 1000)).unwrap();
        assert_eq!(out.width, 20 + 8 + ox.unsigned_abs());
        assert_eq!(out.height, 10 + 8 + oy.unsigned_abs());
    }
}

#[test]
fn shadow_sits_under_opaque_image() {
    let img = solid(4, 4, rgba(200, 0, 0, 255));
    let out = add_drop_shadow(&img, &shadow(3, 2, "#0000ff", 0, 500)).unwrap();
    assert_eq!(out.width, 7);
    assert_eq!(out.height, 6);
    assert_eq!(out.get_pixel(0, 0), rgba(200, 0, 0, 255));
    assert_eq!(out.get_pixel(6, 5), rgba(0, 0, 255, 127));
    assert_eq!(out.get_pixel(6, 0), rgba(0, 0, 0, 0));
}

#[test]
fn negative_offset_moves_shadow_up_and_left() {
    let img = solid(4, 4, rgba(200, 0, 0, 255));
    let out = add_drop_shadow(&img, &shadow(-3, -2, "#0000ff", 0, 1000)).unwrap();
    assert_eq!(out.width, 7);
    assert_eq!(out.height, 6);
    assert_eq!(out.get_pixel(0, 0), rgba(0, 0, 255, 255));
    assert_eq!(out.get_pixel(6, 5), rgba(200, 0, 0, 255));
    assert_eq!(out.get_pixel(3, 2), rgba(200, 0, 0, 255));
    assert_eq!(out.get_pixel(6, 0), rgba(0, 0, 0, 0));
    assert_eq!(out.get_pixel(0, 5), rgba(0, 0, 0, 0));
}

#[test]
fn shadow_opacity_is_capped() {
    let img = solid(2, 2, rgba(0, 0, 0, 255));
    let out = add_drop_shadow(&img, &shadow(2, 0, "white", 0, 5000)).unwrap();
    assert_eq!(out.get_pixel(3, 0), rgba(255, 255, 255, 255));
}

#[test]
fn shadow_with_bad_color_fails() {
    let img = solid(2, 2, rgba(0, 0, 0, 255));
    let r = add_drop_shadow(&img, &shadow(1, 1, "not-a-color", 2, 1000));
    assert!(matches!(r, Err(FramerError::ShadowError(_))));
}

#[test]
fn two_stop_gradient_runs_red_to_blue() {
    let h = 600u32;
    let img = create_gradient_background(3, h, "red-blue").unwrap();
    assert_eq!(img.get_pixel(0, 0), rgba(255, 0, 0, 255));
    assert_eq!(img.get_pixel(2, h - 1), rgba(0, 0, 255, 255));
    for y in 1..h {
        assert!(img.get(1, y, 0) <= img.get(1, y - 1, 0));
        assert!(img.get(1, y, 2) >= img.get(1, y - 1, 2));
        assert_eq!(img.get_pixel(0, y), img.get_pixel(2, y));
    }
}

#[test]
fn short_gradient_ends_near_last_stop() {
    let img = create_gradient_background(1, 4, "red-blue").unwrap();
    assert_eq!(img.get_pixel(0, 1), rgba(191, 0, 64, 255));
    assert_eq!(img.get_pixel(0, 3), rgba(64, 0, 191, 255));
}

#[test]
fn gradient_needs_two_stops() {
    let r = create_gradient_background(2, 2, "red");
    assert!(matches!(r, Err(FramerError::BackgroundError(_))));
    let bad = create_gradient_background(2, 2, "red-bleu");
    assert!(matches!(bad, Err(FramerError::Color(ColorError::UnknownName))));
}

#[test]
fn color_background_fills_canvas() {
    let bg = create_background(3, 2, &BackgroundType::Color("#102030".to_string()), None).unwrap();
    assert_eq!((bg.width, bg.height), (3, 2));
    for y in 0..2 {
        for x in 0..3 {
            assert_eq!(bg.get_pixel(x, y), rgba(16, 32, 48, 255));
        }
    }
    let bad = create_background(3, 2, &BackgroundType::Color("not-a-color".to_string()), None);
    assert!(matches!(bad, Err(FramerError::Color(ColorError::UnknownName))));
}

#[test]
fn picture_background_is_resized_to_fill() {
    let picture = solid(10, 10, rgba(0, 128, 0, 255));
    let bg = create_background(20, 5, &BackgroundType::Image("p.png".to_string()), Some(&picture)).unwrap();
    assert_eq!((bg.width, bg.height), (20, 5));
    assert_eq!(bg.data.len(), 20 * 5 * 4);
    let wide = create_background(7, 30, &BackgroundType::Image("p.png".to_string()), Some(&picture)).unwrap();
    assert_eq!((wide.width, wide.height), (7, 30));
    let missing = create_background(20, 5, &BackgroundType::Image("p.png".to_string()), None);
    assert!(matches!(missing, Err(FramerError::BackgroundError(_))));
}

#[test]
fn framing_red_square_with_round_corners() {
    let input = solid(100, 100, rgba(255, 0, 0, 255));
    let opts = options(10000, 5000, BackgroundType::Color("black".to_string()));
    let out = compose_image(&input, &opts, None).unwrap();
    assert_eq!((out.width, out.height), (100, 100));
    assert_eq!(out.get_pixel(0, 0), rgba(0, 0, 0, 255));
    assert_eq!(out.get_pixel(99, 99), rgba(0, 0, 0, 255));
    assert_eq!(out.get_pixel(50, 50), rgba(255, 0, 0, 255));
    assert_eq!(out.get_pixel(50, 0), rgba(255, 0, 0, 255));
    assert_eq!(out.get_pixel(0, 50), rgba(255, 0, 0, 255));
    for y in 0..100u32 {
        for x in 0..100u32 {
            let dx = x as f64 + 0.5 - 50.0;
            let dy = y as f64 + 0.5 - 50.0;
            let d = (dx * dx + dy * dy).sqrt();
            let p = out.get_pixel(x, y);
            if d > 51.0 {
                assert_eq!(p, rgba(0, 0, 0, 255), "outside at {} {}", x, y);
            }
            if d < 49.0 {
                assert_eq!(p, rgba(255, 0, 0, 255), "inside at {} {}", x, y);
            }
        }
    }
}

#[test]
fn plain_framing_reproduces_input() {
    let mut input = solid(6, 4, rgba(1, 2, 3, 255));
    input.set_pixel(5, 3, rgba(200, 100, 50, 255));
    let opts = options(10000, 0, BackgroundType::Gradient("white-black".to_string()));
    let out = compose_image(&input, &opts, None).unwrap();
    assert_eq!((out.width, out.height), (6, 4));
    assert_eq!(out.data, input.data);
}

#[test]
fn framing_pads_and_centers() {
    let input = solid(10, 10, rgba(255, 255, 255, 255));
    let mut opts = options(12000, 0, BackgroundType::Color("black".to_string()));
    opts.ratio = Some(AspectRatio { width: 2, height: 1 });
    let out = compose_image(&input, &opts, None).unwrap();
    assert_eq!((out.width, out.height), (24, 12));
    assert_eq!(out.get_pixel(6, 0), rgba(0, 0, 0, 255));
    assert_eq!(out.get_pixel(7, 1), rgba(255, 255, 255, 255));
    assert_eq!(out.get_pixel(16, 10), rgba(255, 255, 255, 255));
    assert_eq!(out.get_pixel(17, 10), rgba(0, 0, 0, 255));
}

#[test]
fn framing_offset_moves_image() {
    let input = solid(4, 4, rgba(255, 255, 255, 255));
    let mut opts = options(10000, 0, BackgroundType::Color("black".to_string()));
    opts.offset = Point::new(2, -1);
    let out = compose_image(&input, &opts, None).unwrap();
    assert_eq!(out.get_pixel(1, 0), rgba(0, 0, 0, 255));
    assert_eq!(out.get_pixel(2, 0), rgba(255, 255, 255, 255));
    assert_eq!(out.get_pixel(3, 3), rgba(0, 0, 0, 255));
}

#[test]
fn framing_with_shadow() {
    let input = solid(10, 10, rgba(255, 255, 255, 255));
    let mut opts = options(20000, 0, BackgroundType::Color("#808080".to_string()));
    opts.shadow = Some(shadow(3, 3, "black", 2, 1000));
    let out = compose_image(&input, &opts, None).unwrap();
    assert_eq!((out.width, out.height), (20, 20));
    assert_eq!(out.get_pixel(8, 8), rgba(255, 255, 255, 255));
    assert_eq!(out.get_pixel(16, 16), rgba(255, 255, 255, 255));
    assert_ne!(out.get_pixel(18, 18), rgba(128, 128, 128, 255));
    assert_eq!(out.get_pixel(1, 1), rgba(128, 128, 128, 255));
}

#[test]
fn framing_with_bad_color_fails() {
    let input = solid(4, 4, rgba(255, 255, 255, 255));
    let opts = options(11000, 0, BackgroundType::Color("not-a-color".to_string()));
    assert!(matches!(compose_image(&input, &opts, None), Err(FramerError::Color(_))));
    let mut with_shadow = options(11000, 0, BackgroundType::Color("black".to_string()));
    with_shadow.shadow = Some(shadow(1, 1, "not-a-color", 1, 1000));
    assert!(matches!(compose_image(&input, &with_shadow, None), Err(FramerError::ShadowError(_))));
}

#[test]
fn framing_rejects_degenerate_input() {
    let empty = solid(0, 3, rgba(0, 0, 0, 0));
    let opts = options(11000, 0, BackgroundType::Color("black".to_string()));
    assert!(matches!(compose_image(&empty, &opts, None), Err(FramerError::InvalidParameter(_))));
    let input = solid(3, 3, rgba(0, 0, 0, 0));
    let mut flat = options(11000, 0, BackgroundType::Color("black".to_string()));
    flat.ratio = Some(AspectRatio { width: 4, height: 0 });
    assert!(matches!(compose_image(&input, &flat, None), Err(FramerError::InvalidParameter(_))));
}

#[test]
fn translucent_pixels_are_blended_over_background() {
    let input = solid(2, 2, rgba(255, 255, 255, 128));
    let opts = options(10000, 0, BackgroundType::Color("black".to_string()));
    let out = compose_image(&input, &opts, None).unwrap();
    let p = out.get_pixel(0, 0);
    assert!(p.a >= 254);
    assert!(p.r > 100 && p.r < 160);
}

#[test]
fn gcd_of_pairs() {
    assert_eq!(gcd(12, 18), 6);
    assert_eq!(gcd(7, 0), 7);
    assert_eq!(gcd(0, 9), 9);
}

#[test]
fn u32_parsing_follows_str_parse() {
    for s in ["0", "42", "+7", "4294967295", "4294967296", "", "+", "-1", "1 ", "12a", "007"] {
        assert_eq!(parse_u32(s), s.parse::<u32>().ok(), "{:?}", s);
    }
}

#[test]
fn ratio_strings() {
    assert_eq!(parse_ratio("16:9"), Some(AspectRatio { width: 16, height: 9 }));
    assert_eq!(parse_ratio("4:0"), None);
    assert_eq!(parse_ratio("0:9"), None);
    assert_eq!(parse_ratio("16:9:1"), None);
    assert_eq!(parse_ratio("16x9"), None);
    assert_eq!(parse_ratio(":9"), None);
    assert_eq!(find_only("a:b", ':'), Some(1));
    assert_eq!(find_only("a::b", ':'), None);
}

#[test]
fn background_strings() {
    assert!(matches!(parse_background("colr:black"), Some(BackgroundType::Color(c)) if c == "black"));
    assert!(matches!(parse_background("grad:blue-red"), Some(BackgroundType::Gradient(g)) if g == "blue-red"));
    assert!(matches!(parse_background("imag:bg.png"), Some(BackgroundType::Image(p)) if p == "bg.png"));
    assert!(parse_background("imag:C:/bg.png").is_none());
    assert!(parse_background("fill:red").is_none());
    assert!(parse_background("black").is_none());
}

#[test]
fn framing_over_picture_keeps_canvas_size() {
    let input = solid(6, 4, rgba(9, 9, 9, 255));
    let picture = solid(3, 3, rgba(0, 200, 0, 255));
    let opts = options(20000, 0, BackgroundType::Image("p.png".to_string()));
    let out = compose_image(&input, &opts, Some(&picture)).unwrap();
    assert_eq!((out.width, out.height), (12, 8));
    assert_eq!(out.get_pixel(3, 2), rgba(9, 9, 9, 255));
}
