//! PNG framing of a [`Pixmap`]: straight-alpha RGBA rows are handed to the
//! `png` crate for encoding, and decoded frames (palette, grayscale and 16-bit
//! channels already widened to 8-bit samples) are premultiplied into a pixmap.

use vstd::prelude::*;

use crate::color::{is_valid_premultiplied, lemma_premultiply_demultiply_roundtrip, premultiply_spec, ColorU8};
use crate::pixmap::{all_valid_premultiplied, component, pixels_seq, px, rgba_len, straight_rgba_spec, Pixmap};

verus! {

#[verifier::external_type_specification]
#[verifier::external_body]
pub struct ExPngEncodingError(png::EncodingError);

#[verifier::external_type_specification]
#[verifier::external_body]
pub struct ExPngDecodingError(png::DecodingError);

/// The sample layout of a decoded PNG frame (8 bits per sample).
#[derive(Copy, Clone, Debug, PartialEq, Eq, Structural)]
pub enum ChannelLayout {
    /// One gray sample per pixel.
    Gray,
    /// A gray sample, then an alpha sample.
    GrayAlpha,
    /// Red, green and blue samples.
    Rgb,
    /// Red, green, blue and alpha samples.
    Rgba,
    /// One palette index per pixel.
    Indexed,
}

/// A decoded PNG frame: dimensions, sample layout and the packed rows of
/// straight-alpha 8-bit samples.
pub struct DecodedFrame {
    pub width: u32,
    pub height: u32,
    pub layout: ChannelLayout,
    pub data: Vec<u8>,
}

/// Why a PNG could not be written or read.
#[derive(Debug)]
pub enum PngError {
    /// The encoder refused the image or its writer failed.
    Encode(png::EncodingError),
    /// The bytes are not a valid PNG or the decoder's limits were exceeded.
    Decode(png::DecodingError),
    /// The PNG has a zero dimension or does not fit in memory as RGBA.
    ZeroSize,
    /// The frame still holds palette indices.
    NotExpanded,
    /// The frame holds fewer samples than its dimensions require.
    Truncated,
    /// The decoded frame would hold more bytes than fit in memory.
    TooLarge,
}

/// The bytes of the 8-bit RGBA PNG that the `png` crate writes for a
/// `width × height` image with straight-alpha rows `rgba`; `None` when it
/// refuses them.
pub uninterp spec fn png_encoding(width: u32, height: u32, rgba: Seq<u8>) -> Option<Seq<u8>>;

/// The first frame that the `png` crate decodes from `bytes`, with palette,
/// low-depth gray and transparency chunks expanded and 16-bit samples
/// stripped to 8 bits, into a buffer of the whole output size: the frame's
/// own width, height and sample layout (its `OutputInfo`, which for an
/// animated PNG may be smaller than the image) and its rows; `None` when it
/// reports an error.
pub uninterp spec fn png_decoding(bytes: Seq<u8>) -> Option<(u32, u32, ChannelLayout, Seq<u8>)>;

/// The eight bytes that open every PNG file.
pub open spec fn png_signature() -> Seq<u8> {
    seq![137u8, 80u8, 78u8, 71u8, 13u8, 10u8, 26u8, 10u8]
}

/// Whether one RGBA row of a `width`-pixel image fits the `png` decoder's
/// default allocation limit (64 MiB), with room for the few bytes of the
/// header chunk it also counts against that limit.
pub open spec fn decoder_row_fits(width: u32) -> bool {
    width as int * 4 + 64 <= 0x400_0000
}

/// Encodes straight-alpha RGBA rows with `png::Encoder` (color type RGBA,
/// depth 8) into an in-memory buffer, finishing the stream.
///
/// Claimed of the crate: the result is the named encoding of the arguments;
/// for non-zero dimensions and rows of the right length it succeeds
/// (`Writer::init` refuses only a zero dimension, `write_image_data` only a
/// wrong data length, and every write goes to memory); and a successful
/// result starts with the PNG signature, which `Writer::init` writes first.
/// The rows must have exactly the RGBA length of the image: the encoder
/// multiplies the row length by the height without a check.
#[verifier::external_body]
fn encode_rgba8(width: u32, height: u32, rgba: &[u8]) -> (r: Result<Vec<u8>, png::EncodingError>)
    requires
        rgba@.len() == rgba_len(width, height),
    ensures
        r is Ok <==> png_encoding(width, height, rgba@) is Some,
        width > 0 && height > 0 ==> r is Ok,
        r matches Ok(bytes) ==> png_encoding(width, height, rgba@) == Some(bytes@),
        r matches Ok(bytes) ==> bytes@.len() >= 8 && bytes@.take(8) == png_signature(),
{
    let mut out: Vec<u8> = Vec::new();
    let mut encoder = png::Encoder::new(&mut out, width, height);
    encoder.set_color(png::ColorType::Rgba);
    encoder.set_depth(png::BitDepth::Eight);
    let mut writer = encoder.write_header()?;
    writer.write_image_data(rgba)?;
    writer.finish()?;
    Ok(out)
}

/// The dimensions and sample layout that the `png` crate reports for the
/// decoded output of `bytes` once it has read every chunk before the image
/// data (palette, low-depth gray and `tRNS` expanded, 16-bit samples stripped
/// to 8 bits); `None` when it reports an error while reading them.
pub uninterp spec fn png_header(bytes: Seq<u8>) -> Option<(u32, u32, ChannelLayout)>;

/// Reads a PNG up to its image data with `png::Decoder::read_info`, asking
/// for palettes, low-depth gray and `tRNS` to be expanded and 16-bit samples
/// stripped to 8 bits, and reports the output dimensions (`Info::size`) and
/// layout (`Reader::output_color_type`). Nothing is allocated for the image.
///
/// Claimed of the crate: the result is the named header, and PNG is
/// lossless: bytes that the encoder above produced for RGBA rows of the
/// right length report those dimensions and RGBA samples, as long as one
/// decoded row fits the decoder's default memory limit (see
/// [`decoder_row_fits`]). Nothing is claimed of wider images.
#[verifier::external_body]
fn png_read_header(bytes: &[u8]) -> (r: Result<(u32, u32, ChannelLayout), png::DecodingError>)
    ensures
        r is Ok <==> png_header(bytes@) is Some,
        r matches Ok(h) ==> png_header(bytes@) == Some(h),
        r matches Ok(hd) ==> forall|w: u32, h: u32, d: Seq<u8>|
            #![trigger png_encoding(w, h, d)]
            png_encoding(w, h, d) == Some(bytes@) && d.len() == rgba_len(w, h) && decoder_row_fits(w)
                ==> hd == (w, h, ChannelLayout::Rgba),
        r is Err ==> forall|w: u32, h: u32, d: Seq<u8>|
            #![trigger png_encoding(w, h, d)]
            !(png_encoding(w, h, d) == Some(bytes@) && d.len() == rgba_len(w, h) && decoder_row_fits(w)),
{
    let mut decoder = png::Decoder::new(bytes);
    decoder.set_transformations(png::Transformations::EXPAND | png::Transformations::STRIP_16);
    let reader = decoder.read_info()?;
    let (width, height) = reader.info().size();
    let layout = match reader.output_color_type().0 {
        png::ColorType::Grayscale => ChannelLayout::Gray,
        png::ColorType::GrayscaleAlpha => ChannelLayout::GrayAlpha,
        png::ColorType::Rgb => ChannelLayout::Rgb,
        png::ColorType::Rgba => ChannelLayout::Rgba,
        png::ColorType::Indexed => ChannelLayout::Indexed,
    };
    Ok((width, height, layout))
}

/// Decodes the first frame of a PNG (`read_info` with the same
/// transformations, then `Reader::next_frame`) into a buffer of `size`
/// bytes, the whole output (every output sample is 8 bits after those
/// transformations), and reports the frame's `OutputInfo`: its width, height
/// and layout, with its `buffer_size` bytes kept. The caller has checked
/// that the size fits in `usize`: the crate's own `output_buffer_size`
/// multiplies without a check.
///
/// Claimed of the crate: the result is the named decoding of the bytes, and
/// an image that the encoder above produced decodes to its own dimensions,
/// RGBA samples and the very rows it was given (under the same row limit as
/// [`png_read_header`]).
#[verifier::external_body]
fn png_read_frame(bytes: &[u8], size: usize) -> (r: Result<(u32, u32, ChannelLayout, Vec<u8>), png::DecodingError>)
    requires
        png_header(bytes@) matches Some((w, h, l)) && size == w as int * h as int * samples(l),
    ensures
        r is Ok <==> png_decoding(bytes@) is Some,
        r matches Ok(f) ==> png_decoding(bytes@) == Some((f.0, f.1, f.2, f.3@)),
        r matches Ok(f) ==> forall|w: u32, h: u32, d: Seq<u8>|
            #![trigger png_encoding(w, h, d)]
            png_encoding(w, h, d) == Some(bytes@) && d.len() == rgba_len(w, h) && decoder_row_fits(w)
                ==> f.0 == w && f.1 == h && f.2 == ChannelLayout::Rgba && f.3@ == d,
        r is Err ==> forall|w: u32, h: u32, d: Seq<u8>|
            #![trigger png_encoding(w, h, d)]
            !(png_encoding(w, h, d) == Some(bytes@) && d.len() == rgba_len(w, h) && decoder_row_fits(w)),
{
    let mut decoder = png::Decoder::new(bytes);
    decoder.set_transformations(png::Transformations::EXPAND | png::Transformations::STRIP_16);
    let mut reader = decoder.read_info()?;
    let mut buf = vec![0u8; size];
    let info = reader.next_frame(&mut buf)?;
    buf.truncate(info.buffer_size());
    let layout = match info.color_type {
        png::ColorType::Grayscale => ChannelLayout::Gray,
        png::ColorType::GrayscaleAlpha => ChannelLayout::GrayAlpha,
        png::ColorType::Rgb => ChannelLayout::Rgb,
        png::ColorType::Rgba => ChannelLayout::Rgba,
        png::ColorType::Indexed => ChannelLayout::Indexed,
    };
    Ok((info.width, info.height, layout, buf))
}

/// Bytes per decoded pixel of a layout (every sample is 8 bits).
fn samples_of(layout: ChannelLayout) -> (n: usize)
    ensures
        n == samples(layout),
{
    match layout {
        ChannelLayout::Gray => 1,
        ChannelLayout::GrayAlpha => 2,
        ChannelLayout::Rgb => 3,
        ChannelLayout::Rgba => 4,
        ChannelLayout::Indexed => 1,
    }
}

/// Whether the whole decoded output of a `width × height` frame fits in
/// memory: its byte count fits in `usize`.
pub open spec fn output_fits(width: u32, height: u32, layout: ChannelLayout) -> bool {
    width as int * height as int * samples(layout) <= usize::MAX
}

/// Samples per pixel of a layout.
pub open spec fn samples(layout: ChannelLayout) -> int {
    match layout {
        ChannelLayout::Gray => 1,
        ChannelLayout::GrayAlpha => 2,
        ChannelLayout::Rgb => 3,
        ChannelLayout::Rgba => 4,
        ChannelLayout::Indexed => 1,
    }
}

/// Whether the frame's samples cover every pixel its dimensions call for
/// (gray frames are read as far as their samples go).
pub open spec fn frame_long_enough(width: u32, height: u32, layout: ChannelLayout, data: Seq<u8>) -> bool {
    layout == ChannelLayout::Gray || data.len() >= width as int * height as int * samples(layout)
}

/// The premultiplied pixel `k` of a decoded frame: the straight sample is
/// premultiplied; a gray pixel past the end of the samples stays transparent.
pub open spec fn decoded_pixel(layout: ChannelLayout, d: Seq<u8>, k: int) -> (u8, u8, u8, u8) {
    match layout {
        ChannelLayout::Rgba => premultiply_spec(px(d, k)),
        ChannelLayout::Rgb => premultiply_spec((d[3 * k], d[3 * k + 1], d[3 * k + 2], 255u8)),
        ChannelLayout::GrayAlpha => premultiply_spec((d[2 * k], d[2 * k], d[2 * k], d[2 * k + 1])),
        _ => if k < d.len() {
            premultiply_spec((d[k], d[k], d[k], 255u8))
        } else {
            (0u8, 0u8, 0u8, 0u8)
        },
    }
}

/// The RGBA bytes of the pixmap that a decoded frame becomes.
pub open spec fn decoded_rgba(width: u32, height: u32, layout: ChannelLayout, d: Seq<u8>) -> Seq<u8> {
    pixels_seq((width as int * height as int) as nat, |k: int| decoded_pixel(layout, d, k))
}

/// Whether a `width × height` pixmap can exist.
pub open spec fn pixmap_size_ok(width: u32, height: u32) -> bool {
    width > 0 && height > 0 && rgba_len(width, height) <= usize::MAX
}

impl Pixmap {
    /// Encodes the image as an 8-bit RGBA PNG with straight alpha, appending the
    /// bytes to `out`; on an error `out` is left as it was.
    pub fn encode_png(&self, out: &mut Vec<u8>) -> (r: Result<(), PngError>)
        requires
            self.wf(),
        ensures
            r is Ok,
            png_encoding(self@.0, self@.1, straight_rgba_spec(self@.2)) is Some,
            final(out)@.len() >= old(out)@.len() + 8,
            final(out)@.subrange(old(out)@.len() as int, old(out)@.len() + 8int) == png_signature(),
            r is Ok ==> final(out)@ == old(out)@ + png_encoding(
                self@.0,
                self@.1,
                straight_rgba_spec(self@.2),
            )->Some_0,
            r is Err ==> final(out)@ == old(out)@,
    {
        let straight = self.to_straight_rgba();
        proof {
            lemma_straight_rgba_len(self@.2);
        }
        match encode_rgba8(self.width(), self.height(), straight.as_slice()) {
            Ok(bytes) => {
                let mut bytes = bytes;
                out.append(&mut bytes);
                Ok(())
            },
            Err(e) => Err(PngError::Encode(e)),
        }
    }

    /// Premultiplies a decoded frame whose size and samples were checked.
    fn convert_frame(frame: &DecodedFrame) -> (r: Result<Pixmap, PngError>)
        requires
            frame_long_enough(frame.width, frame.height, frame.layout, frame.data@),
        ensures
            !pixmap_size_ok(frame.width, frame.height) ==> r matches Err(PngError::ZeroSize),
            pixmap_size_ok(frame.width, frame.height) && frame.layout == ChannelLayout::Indexed
                ==> r matches Err(PngError::NotExpanded),
            pixmap_size_ok(frame.width, frame.height) && frame.layout != ChannelLayout::Indexed ==> (r matches Ok(p)
                && p.wf() && p@ == (frame.width, frame.height, decoded_rgba(
                frame.width,
                frame.height,
                frame.layout,
                frame.data@,
            ))),
    {
        let mut pixmap = match Pixmap::new(frame.width, frame.height) {
            Some(p) => p,
            None => return Err(PngError::ZeroSize),
        };
        if frame.layout == ChannelLayout::Indexed {
            return Err(PngError::NotExpanded);
        }
        let ghost w = frame.width as int;
        let ghost h = frame.height as int;
        let total = pixmap.data().len();
        let n = frame.width as usize * frame.height as usize;
        let src = &frame.data;
        let layout = frame.layout;
        let dst = pixmap.data_mut();
        let mut i: usize = 0;
        while i < n
            invariant
                n == w * h,
                w == frame.width as int,
                h == frame.height as int,
                total == 4 * n,
                dst@.len() == 4 * n,
                layout == frame.layout,
                layout != ChannelLayout::Indexed,
                src@ == frame.data@,
                frame_long_enough(frame.width, frame.height, layout, src@),
                0 <= i <= n,
                forall|t: int|
                    0 <= t < 4 * i ==> #[trigger] dst@[t] == component(
                        decoded_pixel(layout, src@, t / 4),
                        t % 4,
                    ),
                forall|t: int| 4 * i <= t < 4 * n ==> #[trigger] dst@[t] == 0u8,
            decreases n - i,
        {
            let (r, g, b, a) = match layout {
                ChannelLayout::Rgba => {
                    let s = i * 4;
                    assert(s + 3 < src@.len()) by (nonlinear_arith)
                        requires
                            s == i * 4,
                            i < n,
                            src@.len() >= w * h * samples(layout),
                            samples(layout) == 4,
                            n == w * h,
                    ;
                    (src[s], src[s + 1], src[s + 2], src[s + 3])
                },
                ChannelLayout::Rgb => {
                    let s = i * 3;
                    assert(s + 2 < src@.len()) by (nonlinear_arith)
                        requires
                            s == i * 3,
                            i < n,
                            src@.len() >= w * h * samples(layout),
                            samples(layout) == 3,
                            n == w * h,
                    ;
                    (src[s], src[s + 1], src[s + 2], 255u8)
                },
                ChannelLayout::GrayAlpha => {
                    let s = i * 2;
                    assert(s + 1 < src@.len()) by (nonlinear_arith)
                        requires
                            s == i * 2,
                            i < n,
                            src@.len() >= w * h * samples(layout),
                            samples(layout) == 2,
                            n == w * h,
                    ;
                    (src[s], src[s], src[s], src[s + 1])
                },
                _ => {
                    if i < src.len() {
                        (src[i], src[i], src[i], 255u8)
                    } else {
                        (0u8, 0u8, 0u8, 0u8)
                    }
                },
            };
            let p = if layout == ChannelLayout::Gray && i >= src.len() {
                crate::color::PremultipliedColorU8::transparent()
            } else {
                ColorU8::from_rgba(r, g, b, a).premultiply()
            };
            let di = i * 4;
            dst[di] = p.red();
            dst[di + 1] = p.green();
            dst[di + 2] = p.blue();
            dst[di + 3] = p.alpha();
            assert forall|t: int| 0 <= t < 4 * (i + 1) implies #[trigger] dst@[t] == component(
                decoded_pixel(layout, src@, t / 4),
                t % 4,
            ) by {
                if t >= 4 * i {
                    assert(t / 4 == i as int);
                }
            }
            i += 1;
        }
        assert(pixmap@.2 =~= decoded_rgba(frame.width, frame.height, frame.layout, frame.data@));
        Ok(pixmap)
    }

    /// Premultiplies a decoded straight-alpha frame into a pixmap.
    ///
    /// `ZeroSize` when the dimensions admit no pixmap, then `NotExpanded` for a
    /// palette frame, then `Truncated` when the samples do not cover every
    /// pixel; otherwise every pixel is the frame's pixel multiplied by its
    /// alpha.
    pub fn from_decoded_frame(frame: &DecodedFrame) -> (r: Result<Pixmap, PngError>)
        ensures
            !pixmap_size_ok(frame.width, frame.height) ==> r is Err && r->Err_0 is ZeroSize,
            pixmap_size_ok(frame.width, frame.height) && frame.layout == ChannelLayout::Indexed
                ==> r is Err && r->Err_0 is NotExpanded,
            pixmap_size_ok(frame.width, frame.height) && frame.layout != ChannelLayout::Indexed
                && !frame_long_enough(frame.width, frame.height, frame.layout, frame.data@) ==> r is Err
                && r->Err_0 is Truncated,
            pixmap_size_ok(frame.width, frame.height) && frame.layout != ChannelLayout::Indexed
                && frame_long_enough(frame.width, frame.height, frame.layout, frame.data@) ==> r is Ok
                && r->Ok_0.wf() && r->Ok_0@ == (frame.width, frame.height, decoded_rgba(
                frame.width,
                frame.height,
                frame.layout,
                frame.data@,
            )),
    {
        if frame.width == 0 || frame.height == 0 {
            return Err(PngError::ZeroSize);
        }
        let wh = match (frame.width as usize).checked_mul(frame.height as usize) {
            Some(v) => v,
            None => {
                proof {
                    assert(rgba_len(frame.width, frame.height) > usize::MAX) by (nonlinear_arith)
                        requires
                            frame.width as int * frame.height as int > usize::MAX,
                    ;
                }
                return Err(PngError::ZeroSize);
            },
        };
        if wh > usize::MAX / 4 {
            return Err(PngError::ZeroSize);
        }
        if frame.layout == ChannelLayout::Indexed {
            return Err(PngError::NotExpanded);
        }
        let need: usize = match frame.layout {
            ChannelLayout::Gray => 0,
            ChannelLayout::GrayAlpha => wh * 2,
            ChannelLayout::Rgb => wh * 3,
            _ => wh * 4,
        };
        if frame.data.len() < need {
            return Err(PngError::Truncated);
        }
        Pixmap::convert_frame(frame)
    }

    /// Decodes a PNG into a premultiplied pixmap. Palette, grayscale and 16-bit
    /// images are widened to 8-bit RGBA first.
    ///
    /// Decoding the bytes that [`encode_png`](Pixmap::encode_png) produced gives
    /// back the very same pixmap, for any pixmap whose pixels are valid
    /// premultiplied colors and whose rows fit the decoder's memory limit.
    pub fn decode_png(data: &[u8]) -> (r: Result<Pixmap, PngError>)
        ensures
            png_header(data@) is None ==> r is Err && r->Err_0 is Decode,
            png_header(data@) matches Some((w, h, l)) && !output_fits(w, h, l) ==> r is Err
                && r->Err_0 is TooLarge,
            png_header(data@) matches Some((w, h, l)) && output_fits(w, h, l) && png_decoding(
                data@,
            ) is None ==> r is Err && r->Err_0 is Decode,
            png_header(data@) matches Some((hw, hh, hl)) && output_fits(hw, hh, hl) && png_decoding(data@) is Some
                ==> ({
                let (w, h, l, d) = png_decoding(data@)->Some_0;
                &&& !pixmap_size_ok(w, h) ==> r is Err && r->Err_0 is ZeroSize
                &&& pixmap_size_ok(w, h) && l == ChannelLayout::Indexed ==> r is Err && r->Err_0 is NotExpanded
                &&& pixmap_size_ok(w, h) && l != ChannelLayout::Indexed && !frame_long_enough(w, h, l, d)
                    ==> r is Err && r->Err_0 is Truncated
                &&& pixmap_size_ok(w, h) && l != ChannelLayout::Indexed && frame_long_enough(w, h, l, d) ==> r is Ok
                    && r->Ok_0.wf() && r->Ok_0@ == (w, h, decoded_rgba(w, h, l, d))
            }),
            forall|p: Pixmap|
                #![trigger png_encoding(p@.0, p@.1, straight_rgba_spec(p@.2))]
                p.wf() && all_valid_premultiplied(p@.2) && decoder_row_fits(p@.0) && png_encoding(
                    p@.0,
                    p@.1,
                    straight_rgba_spec(p@.2),
                ) == Some(data@) ==> r is Ok && r->Ok_0@ == p@,
    {
        let (width, height, layout) = match png_read_header(data) {
            Ok(h) => h,
            Err(e) => return Err(PngError::Decode(e)),
        };
        let size = match (width as usize).checked_mul(height as usize) {
            Some(wh) => match wh.checked_mul(samples_of(layout)) {
                Some(n) => n,
                None => return Err(PngError::TooLarge),
            },
            None => {
                proof {
                    assert(width as int * height as int * samples(layout) > usize::MAX) by (nonlinear_arith)
                        requires
                            width as int * height as int > usize::MAX,
                            samples(layout) >= 1,
                    ;
                }
                return Err(PngError::TooLarge);
            },
        };
        let (fw, fh, fl, rows) = match png_read_frame(data, size) {
            Ok(f) => f,
            Err(e) => return Err(PngError::Decode(e)),
        };
        let frame = DecodedFrame { width: fw, height: fh, layout: fl, data: rows };
        proof {
            assert forall|p: Pixmap|
                #![trigger png_encoding(p@.0, p@.1, straight_rgba_spec(p@.2))]
                p.wf() && all_valid_premultiplied(p@.2) && decoder_row_fits(p@.0) && png_encoding(
                    p@.0,
                    p@.1,
                    straight_rgba_spec(p@.2),
                ) == Some(data@) implies frame.width == p@.0 && frame.height == p@.1
                && frame.layout == ChannelLayout::Rgba && decoded_rgba(
                    frame.width,
                    frame.height,
                    frame.layout,
                    frame.data@,
                ) == p@.2 by {
                lemma_straight_rgba_len(p@.2);
                lemma_decode_straight_roundtrip(p@.0, p@.1, p@.2);
            }
        }
        Pixmap::from_decoded_frame(&frame)
    }
}

proof fn lemma_straight_rgba_len(data: Seq<u8>)
    requires
        data.len() % 4 == 0,
    ensures
        straight_rgba_spec(data).len() == data.len(),
{
}

/// Unfolding a pixmap of valid premultiplied colors into straight RGBA rows and
/// premultiplying those rows again gives back the very same bytes.
pub proof fn lemma_decode_straight_roundtrip(width: u32, height: u32, data: Seq<u8>)
    requires
        data.len() == rgba_len(width, height),
        all_valid_premultiplied(data),
    ensures
        decoded_rgba(width, height, ChannelLayout::Rgba, straight_rgba_spec(data)) == data,
{
    let n = width as int * height as int;
    let s = straight_rgba_spec(data);
    let out = decoded_rgba(width, height, ChannelLayout::Rgba, s);
    assert(data.len() / 4 == n);
    assert forall|t: int| 0 <= t < data.len() implies #[trigger] out[t] == data[t] by {
        let k = t / 4;
        assert(0 <= k < n);
        assert(px(s, k) == crate::color::demultiply_spec(px(data, k))) by {
            assert(s[4 * k] == component(crate::color::demultiply_spec(px(data, (4 * k) / 4)), (4 * k) % 4));
            assert(s[4 * k + 1] == component(crate::color::demultiply_spec(px(data, (4 * k + 1) / 4)), (4 * k + 1) % 4));
            assert(s[4 * k + 2] == component(crate::color::demultiply_spec(px(data, (4 * k + 2) / 4)), (4 * k + 2) % 4));
            assert(s[4 * k + 3] == component(crate::color::demultiply_spec(px(data, (4 * k + 3) / 4)), (4 * k + 3) % 4));
        }
        assert(is_valid_premultiplied(px(data, k)));
        lemma_premultiply_demultiply_roundtrip(px(data, k));
        assert(t == 4 * k + t % 4);
    }
    assert(out =~= data);
}

} // verus!
