use base64::Engine as _;
use viewstage::canvas::{draw_line_on_canvas, get_pixel, new_canvas};
use viewstage::codec::{compact_strokes, decode_base64_image};
use viewstage::color::parse_color;
use viewstage::compose::composite_strokes;
use viewstage::model::{Color, Stroke, StrokeKind, StrokePoint};

fn seg(fx: i32, fy: i32, tx: i32, ty: i32) -> StrokePoint {
    StrokePoint { from_x: fx, from_y: fy, to_x: tx, to_y: ty }
}

fn red_stroke(points: Vec<StrokePoint>, width: u32) -> Stroke {
    Stroke {
        kind: StrokeKind::Draw,
        points,
        color: Some("#ff0000".to_string()),
        line_width: Some(width),
        eraser_size: None,
    }
}

#[test]
fn parse_color_hex_and_fallback() {
    assert_eq!(parse_color("#ff0000"), Color { r: 255, g: 0, b: 0, a: 255 });
    assert_eq!(parse_color("#3498db"), Color { r: 52, g: 152, b: 219, a: 255 });
    assert_eq!(parse_color("not a color"), Color { r: 52, g: 152, b: 219, a: 255 });
    // a bad component falls back component-wise
    assert_eq!(parse_color("#zz0010"), Color { r: 52, g: 0, b: 16, a: 255 });
}

#[test]
fn opaque_draw_stamps_exact_red() {
    let strokes = vec![red_stroke(vec![seg(5, 10, 15, 10)], 4)];
    let canvas = composite_strokes(None, &strokes, 20, 20);
    // on the stamped path: exactly opaque red
    assert_eq!(get_pixel(&canvas, 10, 10), Color { r: 255, g: 0, b: 0, a: 255 });
    assert_eq!(get_pixel(&canvas, 5, 10), Color { r: 255, g: 0, b: 0, a: 255 });
    // within the disc radius (width 4 -> radius 2)
    assert_eq!(get_pixel(&canvas, 10, 12), Color { r: 255, g: 0, b: 0, a: 255 });
    // beyond the disc radius and far away: untouched
    assert_eq!(get_pixel(&canvas, 10, 13), Color { r: 0, g: 0, b: 0, a: 0 });
    assert_eq!(get_pixel(&canvas, 0, 0), Color { r: 0, g: 0, b: 0, a: 0 });
}

#[test]
fn erase_zeroes_alpha_and_keeps_rgb() {
    let draw = red_stroke(vec![seg(0, 10, 19, 10)], 4);
    let erase = Stroke {
        kind: StrokeKind::Erase,
        points: vec![seg(10, 8, 10, 12)],
        color: None,
        line_width: None,
        eraser_size: Some(4),
    };
    let canvas = composite_strokes(None, &vec![draw, erase], 20, 20);
    // erased region: alpha removed, color channels untouched
    assert_eq!(get_pixel(&canvas, 10, 10), Color { r: 255, g: 0, b: 0, a: 0 });
    // outside the eraser's discs the draw stroke is intact
    assert_eq!(get_pixel(&canvas, 2, 10), Color { r: 255, g: 0, b: 0, a: 255 });
    // pixels neither stroke stamped stay transparent black
    assert_eq!(get_pixel(&canvas, 0, 0), Color { r: 0, g: 0, b: 0, a: 0 });
}

#[test]
fn compact_strokes_produces_decodable_png() {
    let strokes = vec![red_stroke(vec![seg(1, 4, 6, 4)], 2)];
    let url = compact_strokes(None, &strokes, 8, 8).unwrap();
    let payload = url.strip_prefix("data:image/png;base64,").unwrap();
    let bytes = base64::engine::general_purpose::STANDARD.decode(payload).unwrap();
    let img = image::load_from_memory(&bytes).unwrap().to_rgba8();
    assert_eq!(img.width(), 8);
    assert_eq!(img.height(), 8);
    assert_eq!(img.get_pixel(3, 4).0, [255, 0, 0, 255]);
    assert_eq!(img.get_pixel(0, 0).0, [0, 0, 0, 0]);
}

#[test]
fn compact_strokes_copies_base_image() {
    // build a 2x2 all-green PNG as the base layer
    let mut base = image::RgbaImage::new(2, 2);
    for p in base.pixels_mut() {
        *p = image::Rgba([0, 200, 0, 255]);
    }
    let mut png: Vec<u8> = Vec::new();
    image::DynamicImage::ImageRgba8(base)
        .write_to(&mut std::io::Cursor::new(&mut png), image::ImageFormat::Png)
        .unwrap();
    let data_url = format!(
        "data:image/png;base64,{}",
        base64::engine::general_purpose::STANDARD.encode(&png)
    );
    let url = compact_strokes(Some(&data_url), &Vec::new(), 4, 4).unwrap();
    let payload = url.strip_prefix("data:image/png;base64,").unwrap();
    let bytes = base64::engine::general_purpose::STANDARD.decode(payload).unwrap();
    let img = image::load_from_memory(&bytes).unwrap().to_rgba8();
    // base pixels are copied where the base covers the canvas
    assert_eq!(img.get_pixel(0, 0).0, [0, 200, 0, 255]);
    assert_eq!(img.get_pixel(1, 1).0, [0, 200, 0, 255]);
    // beyond the base image the canvas stays transparent
    assert_eq!(img.get_pixel(3, 3).0, [0, 0, 0, 0]);
}

#[test]
fn compact_strokes_ignores_undecodable_base() {
    let url = compact_strokes(Some(&"data:image;base64,@@@".to_string()), &Vec::new(), 2, 2)
        .unwrap();
    assert!(url.starts_with("data:image/png;base64,"));
}

#[test]
fn decode_base64_image_rejects_bad_input() {
    assert!(decode_base64_image("data:image/png;base64,@@@").is_err());
    // a data URL without a comma has no payload
    assert!(decode_base64_image("data:image/png").is_err());
    // bytes that are valid base64 but no image
    assert!(decode_base64_image("aGVsbG8=").is_err());
}

#[test]
fn decode_base64_image_round_trip() {
    let mut img = image::RgbaImage::new(3, 2);
    img.put_pixel(2, 1, image::Rgba([1, 2, 3, 4]));
    let mut png: Vec<u8> = Vec::new();
    image::DynamicImage::ImageRgba8(img)
        .write_to(&mut std::io::Cursor::new(&mut png), image::ImageFormat::Png)
        .unwrap();
    let b64 = base64::engine::general_purpose::STANDARD.encode(&png);
    let (w, h, data) = decode_base64_image(&b64).unwrap();
    assert_eq!((w, h), (3, 2));
    assert_eq!(data.len(), 24);
    assert_eq!(&data[4 * (1 * 3 + 2)..4 * (1 * 3 + 2) + 4], &[1, 2, 3, 4]);
}

#[test]
fn translucent_draw_blends_rgb_and_keeps_alpha() {
    let mut canvas = new_canvas(10, 10);
    // a zero-length, zero-width segment stamps its pixel exactly once:
    // each channel becomes (255 * 128 + 0 * 127) / 255 = 128, and the
    // destination alpha is left as it was
    draw_line_on_canvas(&mut canvas, 5, 5, 5, 5, Color { r: 255, g: 255, b: 255, a: 128 }, 0);
    assert_eq!(get_pixel(&canvas, 5, 5), Color { r: 128, g: 128, b: 128, a: 0 });
    assert_eq!(get_pixel(&canvas, 5, 6), Color { r: 0, g: 0, b: 0, a: 0 });
}
