//! Importing a PNG as a cut's image asset: the header's size caps are
//! enforced before any pixel-sized allocation, palette and sub-8-bit
//! images arrive expanded to 8-bit channels, 16-bit files are refused, and
//! every supported colour type is normalized to straight RGBA8. Decoding
//! is the png crate's; converting RGBA8 to premultiplied half-float tiles
//! is floating-point work done by the caller.

use vstd::prelude::*;
use crate::model::{MAX_IMAGE_DIM, MAX_IMAGE_PIXELS};
use crate::text::{decimal, decimal_spec, push_char};

verus! {

/// A colour type.
#[derive(Debug, Clone, Copy, PartialEq, Eq, Structural)]
pub enum PngColor {
    Grayscale,
    Rgb,
    Indexed,
    GrayscaleAlpha,
    Rgba,
}

/// A bit depth.
#[derive(Debug, Clone, Copy, PartialEq, Eq, Structural)]
pub enum PngDepth {
    One,
    Two,
    Four,
    Eight,
    Sixteen,
}

/// A decoded frame: its size, the png crate's colour type and bit depth
/// codes, and its packed rows.
pub struct PngFrame {
    pub width: u32,
    pub height: u32,
    pub color_code: u8,
    pub depth_code: u8,
    pub data: Vec<u8>,
}

/// The frame's abstract value.
pub struct PngFrameView {
    pub width: u32,
    pub height: u32,
    pub color_code: u8,
    pub depth_code: u8,
    pub data: Seq<u8>,
}

impl PngFrame {
    pub open spec fn view(&self) -> PngFrameView {
        PngFrameView {
            width: self.width,
            height: self.height,
            color_code: self.color_code,
            depth_code: self.depth_code,
            data: self.data@,
        }
    }
}

/// The colour type a png crate colour code stands for.
pub open spec fn color_of(code: u8) -> PngColor {
    if code == 0 {
        PngColor::Grayscale
    } else if code == 2 {
        PngColor::Rgb
    } else if code == 3 {
        PngColor::Indexed
    } else if code == 4 {
        PngColor::GrayscaleAlpha
    } else {
        PngColor::Rgba
    }
}

/// The depth a png crate bit-depth code (its bit count) stands for.
pub open spec fn depth_of(code: u8) -> PngDepth {
    if code == 1 {
        PngDepth::One
    } else if code == 2 {
        PngDepth::Two
    } else if code == 4 {
        PngDepth::Four
    } else if code == 8 {
        PngDepth::Eight
    } else {
        PngDepth::Sixteen
    }
}

/// Samples per pixel of a colour type.
pub open spec fn samples(c: PngColor) -> nat {
    match c {
        PngColor::Grayscale => 1,
        PngColor::Rgb => 3,
        PngColor::Indexed => 1,
        PngColor::GrayscaleAlpha => 2,
        PngColor::Rgba => 4,
    }
}

/// The image size the png crate reads from a PNG's header (with palette
/// and sub-8-bit expansion requested), or its error message.
pub uninterp spec fn png_header_spec(bytes: Seq<u8>) -> Result<(u32, u32), Seq<char>>;

/// The first frame the png crate decodes from a PNG (with expansion
/// requested), or its error message.
pub uninterp spec fn png_frame_spec(bytes: Seq<u8>) -> Result<PngFrameView, Seq<char>>;

/// `png::Decoder::read_info` with `Transformations::EXPAND`: the header's
/// width and height, or the decoder's error as "png: <error>". A function
/// of the bytes.
#[verifier::external_body]
fn png_header(bytes: &[u8]) -> (r: Result<(u32, u32), String>)
    ensures
        match r {
            Ok(wh) => png_header_spec(bytes@) == Ok::<(u32, u32), Seq<char>>(wh),
            Err(e) => png_header_spec(bytes@) == Err::<(u32, u32), Seq<char>>(e@),
        },
{
    let mut decoder = png::Decoder::new(std::io::Cursor::new(bytes));
    decoder.set_transformations(png::Transformations::EXPAND);
    match decoder.read_info() {
        Ok(reader) => Ok((reader.info().width, reader.info().height)),
        Err(e) => Err(format!("png: {e}")),
    }
}

/// `png::Reader::next_frame` after `read_info` with
/// `Transformations::EXPAND`, into a buffer of `output_buffer_size` bytes:
/// the frame's size, its colour type and bit depth as the crate's enum
/// discriminants (colour 0, 2, 3, 4 or 6; depth 1, 2, 4, 8 or 16), and the
/// buffer's first `buffer_size()` bytes; or the decoder's error as
/// "png: <error>". A function of the bytes. At depth 8 a row is
/// `width * samples` bytes (the crate's `raw_row_length_from_width`), so
/// the data holds `width * height * samples` bytes.
#[verifier::external_body]
fn png_frame(bytes: &[u8]) -> (r: Result<PngFrame, String>)
    ensures
        match r {
            Ok(f) => png_frame_spec(bytes@) == Ok::<PngFrameView, Seq<char>>(f@)
                && (f.color_code == 0 || f.color_code == 2 || f.color_code == 3 || f.color_code == 4 || f.color_code == 6)
                && (f.depth_code == 1 || f.depth_code == 2 || f.depth_code == 4 || f.depth_code == 8 || f.depth_code == 16)
                && (f.depth_code == 8 ==> f.data@.len() == f.width as nat * f.height as nat * samples(color_of(f.color_code))),
            Err(e) => png_frame_spec(bytes@) == Err::<PngFrameView, Seq<char>>(e@),
        },
{
    let mut decoder = png::Decoder::new(std::io::Cursor::new(bytes));
    decoder.set_transformations(png::Transformations::EXPAND);
    let mut reader = decoder.read_info().map_err(|e| format!("png: {e}"))?;
    let mut buf = vec![0u8; reader.output_buffer_size()];
    let info = reader.next_frame(&mut buf).map_err(|e| format!("png: {e}"))?;
    buf.truncate(info.buffer_size());
    let (color_code, depth_code) = (info.color_type as u8, info.bit_depth as u8);
    Ok(PngFrame { width: info.width, height: info.height, color_code, depth_code, data: buf })
}

/// Straight RGBA8 of `n` pixels of a frame's data in colour type `c`:
/// grey replicates into red, green and blue; a missing alpha is opaque.
pub open spec fn rgba_spec(c: PngColor, data: Seq<u8>, n: nat) -> Seq<u8> {
    Seq::new(4 * n, |i: int| {
        let (p, k) = (i / 4, i % 4);
        match c {
            PngColor::Rgba => data[i],
            PngColor::Rgb => if k < 3 { data[3 * p + k] } else { 255u8 },
            PngColor::GrayscaleAlpha => if k < 3 { data[2 * p] } else { data[2 * p + 1] },
            _ => if k < 3 { data[p] } else { 255u8 },
        }
    })
}

/// The refusal of a header larger than the caps.
pub open spec fn too_large_msg(w: u32, h: u32) -> Seq<char> {
    "png: too large ("@ + decimal_spec(w as nat) + "×"@ + decimal_spec(h as nat)
        + "; max 16384 per side, 67108864 pixels total)"@
}

pub open spec fn depth_name(d: PngDepth) -> Seq<char> {
    match d {
        PngDepth::One => "One"@,
        PngDepth::Two => "Two"@,
        PngDepth::Four => "Four"@,
        PngDepth::Eight => "Eight"@,
        PngDepth::Sixteen => "Sixteen"@,
    }
}

/// What a PNG imports as: its size and straight RGBA8 pixels, or why not.
pub open spec fn decode_spec(bytes: Seq<u8>) -> Result<(u32, u32, Seq<u8>), Seq<char>> {
    match png_header_spec(bytes) {
        Err(e) => Err(e),
        Ok((w, h)) => if w == 0 || h == 0 {
            Err("png: empty image"@)
        } else if w > MAX_IMAGE_DIM || h > MAX_IMAGE_DIM || w as nat * h as nat > MAX_IMAGE_PIXELS {
            Err(too_large_msg(w, h))
        } else {
            match png_frame_spec(bytes) {
                Err(e) => Err(e),
                Ok(f) => if f.depth_code != 8 {
                    Err("png: unsupported bit depth "@ + depth_name(depth_of(f.depth_code)))
                } else if color_of(f.color_code) == PngColor::Indexed {
                    Err("png: unsupported color type Indexed"@)
                } else {
                    Ok((f.width, f.height, rgba_spec(color_of(f.color_code), f.data, f.width as nat * f.height as nat)))
                },
            }
        },
    }
}

fn append_decimal(s: &mut String, n: u64)
    ensures
        final(s)@ == old(s)@ + decimal_spec(n as nat),
{
    let ds = decimal(n);
    let ghost head = s@;
    let mut i: usize = 0;
    while i < ds.len()
        invariant
            i <= ds@.len(),
            s@ == head + ds@.take(i as int),
        decreases ds@.len() - i,
    {
        push_char(s, ds[i]);
        i = i + 1;
        assert(s@ =~= head + ds@.take(i as int));
    }
    assert(ds@.take(i as int) =~= ds@);
}

/// Normalize `n` pixels of frame data to straight RGBA8.
fn to_rgba(c: PngColor, data: &Vec<u8>, n: usize) -> (out: Vec<u8>)
    requires
        c != PngColor::Indexed,
        data@.len() == n * samples(c),
    ensures
        out@ == rgba_spec(c, data@, n as nat),
{
    let dl = data.len();
    let mut out: Vec<u8> = Vec::new();
    let mut p: usize = 0;
    while p < n
        invariant
            c != PngColor::Indexed,
            data@.len() == n * samples(c),
            data@.len() <= usize::MAX,
            p <= n,
            out@ == rgba_spec(c, data@, n as nat).take(4 * p),
        decreases n - p,
    {
        let ghost spec = rgba_spec(c, data@, n as nat);
        let (r, g, b, a) = match c {
            PngColor::Rgba => (data[4 * p], data[4 * p + 1], data[4 * p + 2], data[4 * p + 3]),
            PngColor::Rgb => (data[3 * p], data[3 * p + 1], data[3 * p + 2], 255u8),
            PngColor::GrayscaleAlpha => (data[2 * p], data[2 * p], data[2 * p], data[2 * p + 1]),
            _ => (data[p], data[p], data[p], 255u8),
        };
        out.push(r);
        out.push(g);
        out.push(b);
        out.push(a);
        proof {
            assert(spec[4 * p as int] == r);
            assert(spec[4 * p + 1] == g);
            assert(spec[4 * p + 2] == b);
            assert(spec[4 * p + 3] == a);
        }
        p = p + 1;
        assert(out@ =~= rgba_spec(c, data@, n as nat).take(4 * p));
    }
    out
}

/// Decode a PNG into its size and straight RGBA8 pixels. Every failure is
/// an `Err` with the message the import reports.
pub fn decode_png(bytes: &Vec<u8>) -> (r: Result<(u32, u32, Vec<u8>), String>)
    ensures
        match r {
            Ok((w, h, px)) => decode_spec(bytes@) == Ok::<(u32, u32, Seq<u8>), Seq<char>>((w, h, px@)),
            Err(e) => decode_spec(bytes@) == Err::<(u32, u32, Seq<u8>), Seq<char>>(e@),
        },
{
    let (w, h) = match png_header(bytes.as_slice()) {
        Ok(wh) => wh,
        Err(e) => return Err(e),
    };
    if w == 0 || h == 0 {
        return Err(String::from_str("png: empty image"));
    }
    let over = if w > MAX_IMAGE_DIM || h > MAX_IMAGE_DIM {
        true
    } else {
        assert((w as u64) * (h as u64) <= 16384 * 16384) by (nonlinear_arith)
            requires
                w <= 16384,
                h <= 16384;
        (w as u64) * (h as u64) > MAX_IMAGE_PIXELS
    };
    if over {
        let mut msg = String::from_str("png: too large (");
        append_decimal(&mut msg, w as u64);
        msg = msg.concat("×");
        append_decimal(&mut msg, h as u64);
        msg = msg.concat("; max 16384 per side, 67108864 pixels total)");
        return Err(msg);
    }
    let frame = match png_frame(bytes.as_slice()) {
        Ok(f) => f,
        Err(e) => return Err(e),
    };
    if frame.depth_code != 8 {
        let name = match frame.depth_code {
            1 => "One",
            2 => "Two",
            4 => "Four",
            8 => "Eight",
            _ => "Sixteen",
        };
        return Err(String::from_str("png: unsupported bit depth ").concat(name));
    }
    let color = match frame.color_code {
        0 => PngColor::Grayscale,
        2 => PngColor::Rgb,
        3 => PngColor::Indexed,
        4 => PngColor::GrayscaleAlpha,
        _ => PngColor::Rgba,
    };
    if color == PngColor::Indexed {
        return Err(String::from_str("png: unsupported color type Indexed"));
    }
    let fw = frame.width;
    let fh = frame.height;
    let len = frame.data.len();
    proof {
        // The data holds every sample of every pixel, so the pixel count fits.
        assert(fw as nat * fh as nat <= fw as nat * fh as nat * samples(color)) by (nonlinear_arith)
            requires
                samples(color) >= 1;
    }
    let n = (fw as usize) * (fh as usize);
    let rgba = to_rgba(color, &frame.data, n);
    Ok((fw, fh, rgba))
}

} // verus!
