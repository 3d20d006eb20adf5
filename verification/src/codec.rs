//! Encoding edges of the compositor: base64 and PNG, called through
//! trusted wrappers, and the data-URL framing handled by verified code.

use vstd::prelude::*;
use base64::Engine as _;
use crate::canvas::{Canvas, canvas_wf};
use crate::compose::{composite_post, composite_strokes};
use crate::model::Stroke;

verus! {

/// What base64 (standard alphabet, padded) decodes a string to, when it
/// decodes at all.  A pure function of the characters alone.
pub uninterp spec fn b64_decode_of(s: Seq<char>) -> Option<Seq<u8>>;

/// What base64 (standard alphabet, padded) encodes a byte string to.  A
/// pure function of the bytes alone.
pub uninterp spec fn b64_encode_of(b: Seq<u8>) -> Seq<char>;

/// The raster an image decoder extracts from an encoded image: width,
/// height and RGBA bytes.  A pure function of the input bytes alone.
pub uninterp spec fn image_rgba_of(b: Seq<u8>) -> Option<(u32, u32, Seq<u8>)>;

/// The PNG encoding of an RGBA raster.  A pure function of the dimensions
/// and bytes alone.
pub uninterp spec fn png_bytes_of(width: u32, height: u32, data: Seq<u8>) -> Seq<u8>;

/// Relies on base64's `Engine::decode` with the standard padded engine:
/// deterministic in the input string.
#[verifier::external_body]
fn b64_decode(s: &str) -> (r: Result<Vec<u8>, String>)
    ensures
        r matches Ok(v) ==> b64_decode_of(s@) == Some(v@),
        r is Err ==> b64_decode_of(s@) is None,
{
    base64::engine::general_purpose::STANDARD.decode(s).map_err(
        |e| format!("Failed to decode base64: {}", e),
    )
}

/// Relies on base64's `Engine::encode` with the standard padded engine:
/// deterministic in the input bytes.
#[verifier::external_body]
fn b64_encode(b: &Vec<u8>) -> (r: String)
    ensures
        r@ == b64_encode_of(b@),
{
    base64::engine::general_purpose::STANDARD.encode(b)
}

/// Relies on image's `load_from_memory` and `DynamicImage::to_rgba8`: the
/// decoded raster is a function of the bytes alone, and `to_rgba8` yields
/// exactly width * height four-byte pixels.
#[verifier::external_body]
fn decode_image_bytes(bytes: &Vec<u8>) -> (r: Result<(u32, u32, Vec<u8>), String>)
    ensures
        r matches Ok(t) ==> image_rgba_of(bytes@) == Some((t.0, t.1, t.2@)) && t.2@.len() == 4 * (
        t.0 as int) * (t.1 as int) && 4 * (t.0 as int) * (t.1 as int) <= usize::MAX as int,
        r is Err ==> image_rgba_of(bytes@) is None,
{
    match image::load_from_memory(bytes.as_slice()) {
        Ok(img) => {
            let rgba = img.to_rgba8();
            let (w, h) = (rgba.width(), rgba.height());
            Ok((w, h, rgba.into_raw()))
        },
        Err(e) => Err(format!("Failed to load image: {}", e)),
    }
}

/// Relies on image's `RgbaImage::from_raw` and `DynamicImage::write_to`
/// with the PNG format: on a buffer of exactly width * height four-byte
/// pixels the encoding is a function of the raster alone, and writing into
/// a memory buffer fails only for an empty dimension.  The exact-length
/// precondition keeps out buffers the encoder would reject with a panic
/// rather than an error.
#[verifier::external_body]
fn encode_png(width: u32, height: u32, data: &Vec<u8>) -> (r: Result<Vec<u8>, String>)
    requires
        data@.len() == 4 * (width as int) * (height as int),
    ensures
        r matches Ok(v) ==> v@ == png_bytes_of(width, height, data@),
        (width > 0 && height > 0) ==> r is Ok,
{
    let buf = match image::RgbaImage::from_raw(width, height, data.clone()) {
        Some(b) => b,
        None => {
            return Err("Canvas buffer does not match its dimensions".to_string());
        },
    };
    let mut out = Vec::new();
    image::DynamicImage::ImageRgba8(buf).write_to(
        &mut std::io::Cursor::new(&mut out),
        image::ImageFormat::Png,
    ).map_err(|e| format!("Failed to encode compacted image: {}", e))?;
    Ok(out)
}

/// Does the string start with "data:image"?
pub open spec fn has_data_image_prefix(s: Seq<char>) -> bool {
    &&& s.len() >= 10
    &&& s[0] == 'd'
    &&& s[1] == 'a'
    &&& s[2] == 't'
    &&& s[3] == 'a'
    &&& s[4] == ':'
    &&& s[5] == 'i'
    &&& s[6] == 'm'
    &&& s[7] == 'a'
    &&& s[8] == 'g'
    &&& s[9] == 'e'
}

/// The index of the first comma at or after position i, or the length when
/// there is none.
pub open spec fn comma_from(s: Seq<char>, i: int) -> int
    decreases s.len() - i,
{
    if i < 0 || i >= s.len() {
        s.len() as int
    } else if s[i] == ',' {
        i
    } else {
        comma_from(s, i + 1)
    }
}

/// The base64 payload of a possible data URL: everything after the first
/// comma for a "data:image" URL (none when no comma follows), otherwise
/// the whole string.
pub open spec fn data_url_payload(s: Seq<char>) -> Option<Seq<char>> {
    if has_data_image_prefix(s) {
        let c = comma_from(s, 0);
        if c >= s.len() {
            None
        } else {
            Some(s.subrange(c + 1, s.len() as int))
        }
    } else {
        Some(s)
    }
}

/// The raster a data-URL (or bare base64) string decodes to, if every
/// stage succeeds.
pub open spec fn img_of_data_url(s: Seq<char>) -> Option<(u32, u32, Seq<u8>)> {
    match data_url_payload(s) {
        None => None,
        Some(p) => match b64_decode_of(p) {
            None => None,
            Some(bytes) => image_rgba_of(bytes),
        },
    }
}

/// The base64 payload of the string, as a slice.
fn extract_payload<'a>(s: &'a str) -> (r: Option<&'a str>)
    ensures
        match data_url_payload(s@) {
            Some(p) => r matches Some(t) && t@ == p,
            None => r is None,
        },
{
    let n = s.unicode_len();
    let prefixed = n >= 10 && s.get_char(0) == 'd' && s.get_char(1) == 'a' && s.get_char(2) == 't'
        && s.get_char(3) == 'a' && s.get_char(4) == ':' && s.get_char(5) == 'i' && s.get_char(6)
        == 'm' && s.get_char(7) == 'a' && s.get_char(8) == 'g' && s.get_char(9) == 'e';
    if !prefixed {
        return Some(s);
    }
    let mut i: usize = 0;
    while i < n
        invariant
            i <= n,
            n == s@.len(),
            has_data_image_prefix(s@),
            comma_from(s@, 0) == comma_from(s@, i as int),
        decreases n - i,
    {
        if s.get_char(i) == ',' {
            assert(comma_from(s@, i as int) == i as int);
            let p = s.substring_char(i + 1, n);
            return Some(p);
        }
        i += 1;
    }
    assert(comma_from(s@, 0) == s@.len());
    None
}

/// Decode a data-URL (or bare base64) string into an RGBA raster.
/// Succeeds exactly when the payload exists, is valid base64, and decodes
/// as an image.
pub fn decode_base64_image(image_data: &str) -> (r: Result<(u32, u32, Vec<u8>), String>)
    ensures
        r matches Ok(t) ==> img_of_data_url(image_data@) == Some((t.0, t.1, t.2@)) && t.2@.len()
            == 4 * (t.0 as int) * (t.1 as int) && 4 * (t.0 as int) * (t.1 as int)
            <= usize::MAX as int,
        r is Err ==> img_of_data_url(image_data@) is None,
{
    let payload = match extract_payload(image_data) {
        Some(p) => p,
        None => {
            return Err("Invalid base64 image data".to_string());
        },
    };
    let bytes = match b64_decode(payload) {
        Ok(b) => b,
        Err(e) => {
            return Err(e);
        },
    };
    decode_image_bytes(&bytes)
}

/// Does the base canvas stand for what the optional base-image string
/// decodes to?
pub open spec fn base_matches(base_v: Option<Canvas>, base_image: Option<Seq<char>>) -> bool {
    match base_image {
        None => base_v is None,
        Some(s) => match img_of_data_url(s) {
            None => base_v is None,
            Some(t) => base_v matches Some(b) && b.width as int == t.0 as int && b.height as int
                == t.1 as int && b.data@ == t.2,
        },
    }
}

/// Flatten a stroke list (over an optional base image, given as a data
/// URL) into a PNG data URL.
///
/// The composited raster satisfies [`composite_post`] against the decoded
/// base layer (an undecodable base image is ignored, as is one that is no
/// image); the returned string is its PNG, base64-encoded under the
/// "data:image/png;base64," scheme.  Success is owed whenever the canvas
/// has a positive extent; only a PNG encode of an empty canvas can fail.
pub fn compact_strokes(
    base_image: Option<&String>,
    strokes: &Vec<Stroke>,
    canvas_width: u32,
    canvas_height: u32,
) -> (r: Result<String, String>)
    requires
        4 * (canvas_width as int) * (canvas_height as int) <= usize::MAX as int,
    ensures
        (canvas_width > 0 && canvas_height > 0) ==> r is Ok,
        r matches Ok(s) ==> exists|c: Canvas, base_v: Option<Canvas>|
            {
                &&& canvas_wf(c)
                &&& c.width as int == canvas_width as int
                &&& c.height as int == canvas_height as int
                &&& base_matches(base_v, match base_image {
                    Some(b) => Some(b@),
                    None => None,
                })
                &&& #[trigger] composite_post(c, base_v, strokes@)
                &&& s@ == "data:image/png;base64,"@ + b64_encode_of(
                    png_bytes_of(canvas_width, canvas_height, c.data@),
                )
            },
{
    let base_canvas: Option<Canvas> = match base_image {
        Some(s) => match decode_base64_image(s.as_str()) {
            Ok((w0, h0, data)) => Some(Canvas { width: w0 as usize, height: h0 as usize, data }),
            Err(_) => None,
        },
        None => None,
    };
    proof {
        match &base_canvas {
            Some(b) => {
                assert(canvas_wf(*b));
            },
            None => {},
        }
    }
    let width: usize = canvas_width as usize;
    let height: usize = canvas_height as usize;
    let comp = composite_strokes(
        match &base_canvas {
            Some(b) => Some(b),
            None => None,
        },
        strokes,
        width,
        height,
    );
    let png = match encode_png(canvas_width, canvas_height, &comp.data) {
        Ok(p) => p,
        Err(e) => {
            return Err(e);
        },
    };
    let b64 = b64_encode(&png);
    let mut out = String::new();
    out.append("data:image/png;base64,");
    out.append(b64.as_str());
    proof {
        let ghost base_img_v: Option<Seq<char>> = match base_image {
            Some(b) => Some(b@),
            None => None,
        };
        assert(base_matches(base_canvas, base_img_v));
        assert(composite_post(comp, base_canvas, strokes@));
        assert(out@ == "data:image/png;base64,"@ + b64_encode_of(
            png_bytes_of(canvas_width, canvas_height, comp.data@),
        ));
    }
    Ok(out)
}

} // verus!
