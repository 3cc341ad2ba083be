use vstd::prelude::*;
use vstd::string::StringExecFns;

use crate::canvas::{valid_size, CanvasContext, MAX_ROW_BYTES};

verus! {

/// The PNG file that tiny-skia writes for a premultiplied RGBA buffer of
/// `width` x `height` pixels.
pub uninterp spec fn png_of(width: u32, height: u32, data: Seq<u8>) -> Seq<u8>;

/// The padded standard base64 text of `data`.
pub uninterp spec fn base64_of(data: Seq<u8>) -> Seq<char>;

/// A character of the standard base64 alphabet, or the padding `=`.
pub open spec fn is_base64_char(c: char) -> bool {
    ('A' <= c <= 'Z') || ('a' <= c <= 'z') || ('0' <= c <= '9') || c == '+' || c == '/' || c == '='
}

/// What comes before the payload of an exported surface.
pub open spec fn data_url_prefix() -> Seq<char> {
    "data:image/png;base64,"@
}

/// The data URL that a surface exports to: the prefix, then the base64 text
/// of its PNG.
pub open spec fn data_url_of(c: CanvasContext) -> Seq<char> {
    data_url_prefix() + base64_of(png_of(c.spec_width() as u32, c.spec_height() as u32, c.spec_pixels()))
}

/// Relies on tiny_skia::IntSize::from_wh, which refuses only a zero side;
/// Pixmap::from_vec, which takes a premultiplied RGBA buffer whose length
/// matches its size and whose rows fit in `i32`; and Pixmap::encode_png,
/// which writes it, demultiplied to straight alpha, as an 8-bit RGBA PNG
/// that opens with the 8-byte PNG signature. The png encoder fails only on a
/// zero side or a buffer of the wrong length, which `requires` rules out.
#[verifier::external_body]
fn encode_png(width: u32, height: u32, data: &Vec<u8>) -> (r: Option<Vec<u8>>)
    requires
        valid_size(width as int, height as int),
        exportable(width as int),
        data@.len() == width * height * 4,
    ensures
        r is Some,
        r matches Some(v) ==> v@ == png_of(width, height, data@) && v@.len() >= 8,
{
    let size = tiny_skia::IntSize::from_wh(width, height)?;
    let pixmap = tiny_skia::Pixmap::from_vec(data.clone(), size)?;
    pixmap.encode_png().ok()
}

/// Relies on base64::Engine::encode with the STANDARD engine: the standard
/// alphabet, padded with at most two `=` at the end to a multiple of four
/// characters.
#[verifier::external_body]
fn encode_base64(data: &Vec<u8>) -> (r: String)
    ensures
        r@ == base64_of(data@),
        r@.len() == 4 * ((data@.len() + 2) / 3),
        forall|i: int| 0 <= i < r@.len() ==> is_base64_char(#[trigger] r@[i]),
        forall|i: int| 0 <= i < r@.len() && #[trigger] r@[i] == '=' ==> i >= r@.len() - 2,
        forall|i: int, j: int| 0 <= i < j < r@.len() && #[trigger] r@[i] == '=' ==> #[trigger] r@[j] == '=',
{
    base64::Engine::encode(&base64::engine::general_purpose::STANDARD, data)
}

/// `s` is a data URL whose payload is non-empty padded standard base64: the
/// prefix, then a multiple of four alphabet characters with `=` at most in
/// the last two places.
pub open spec fn is_base64_data_url(s: Seq<char>) -> bool {
    let pre = data_url_prefix().len() as int;
    &&& s.len() > pre
    &&& s.take(pre) == data_url_prefix()
    &&& (s.len() - pre) % 4 == 0
    &&& forall|i: int| pre <= i < s.len() ==> is_base64_char(#[trigger] s[i])
    &&& forall|i: int| pre <= i < s.len() && #[trigger] s[i] == '=' ==> i >= s.len() - 2
    &&& forall|i: int, j: int| pre <= i < j < s.len() && #[trigger] s[i] == '=' ==> #[trigger] s[j] == '='
}

/// Whether a surface `width` pixels wide fits the PNG encoder's rows.
pub open spec fn exportable(width: int) -> bool {
    width * 4 <= MAX_ROW_BYTES
}

/// Why a surface could not be exported.
#[derive(Clone, Copy, Debug, PartialEq, Eq, Structural)]
pub enum ExportError {
    /// A row of the surface is longer than the PNG encoder's pixmaps allow.
    TooWide { width: u32 },
}

/// The surface as a `data:image/png;base64,` URL of its PNG, in straight
/// alpha; `TooWide` exactly where its rows are too long for the encoder.
pub fn to_data_url(ctx: &CanvasContext) -> (r: Result<String, ExportError>)
    requires
        ctx.wf(),
    ensures
        r is Ok <==> exportable(ctx.spec_width()),
        r matches Ok(s) ==> s@ == data_url_of(*ctx) && is_base64_data_url(s@),
        r matches Err(e) ==> e == (ExportError::TooWide { width: ctx.spec_width() as u32 }),
{
    let width = ctx.width();
    if width as u64 * 4 > MAX_ROW_BYTES {
        return Err(ExportError::TooWide { width });
    }
    let png = encode_png(width, ctx.height(), ctx.data()).unwrap();
    let payload = encode_base64(&png);
    let mut s = String::from_str("data:image/png;base64,");
    s.append(payload.as_str());
    proof {
        let pre = data_url_prefix();
        assert(s@.take(pre.len() as int) =~= pre);
        assert forall|i: int| pre.len() <= i < s@.len() implies is_base64_char(#[trigger] s@[i]) by {
            assert(s@[i] == payload@[i - pre.len()]);
        }
        assert forall|i: int| pre.len() <= i < s@.len() && #[trigger] s@[i] == '=' implies i >= s@.len() - 2 by {
            assert(s@[i] == payload@[i - pre.len()]);
        }
        assert forall|i: int, j: int| pre.len() <= i < j < s@.len() && #[trigger] s@[i] == '=' implies #[trigger] s@[j]
            == '=' by {
            assert(s@[i] == payload@[i - pre.len()]);
            assert(s@[j] == payload@[j - pre.len()]);
        }
    }
    Ok(s)
}

} // verus!
