//! Palettes and the bytes of an animated GIF.
use vstd::prelude::*;

verus! {

#[verifier::external_type_specification]
#[verifier::external_body]
pub struct ExNeuQuant(color_quant::NeuQuant);

#[verifier::external_type_specification]
#[verifier::external_body]
pub struct ExEncodingError(gif::EncodingError);

/// The colors of a palette, four bytes each, with opacity.
pub uninterp spec fn palette_rgba(palette: color_quant::NeuQuant) -> Seq<u8>;

/// The colors that `NeuQuant::new` finds for a sample of pixels.
pub uninterp spec fn trained_palette(samplefac: i32, colors: usize, pixels: Seq<u8>) -> Seq<u8>;

/// The color that `NeuQuant::index_of` finds for a pixel.
pub uninterp spec fn nearest_color(palette: Seq<u8>, pixel: Seq<u8>) -> usize;

/// `NeuQuant::new` trains a palette of so many colors on a sample of pixels. The colors depend
/// on the arguments alone. They are claimed only for the documented range of sampling factors,
/// and for 64 to 256 colors.
pub assume_specification[ color_quant::NeuQuant::new ](
    samplefac: i32,
    colors: usize,
    pixels: &[u8],
) -> (palette: color_quant::NeuQuant)
    requires
        1 <= samplefac <= 30,
        64 <= colors <= 256,
    ensures
        palette_rgba(palette) == trained_palette(samplefac, colors, pixels@),
        palette_rgba(palette).len() == 4 * colors,
;

/// `NeuQuant::index_of` finds the number of a color that matches a pixel of four bytes best.
/// The number depends on the colors of the palette and on the pixel alone, and is that of a
/// color of the palette. The function panics on a pixel of another length.
pub assume_specification[ color_quant::NeuQuant::index_of ](
    palette: &color_quant::NeuQuant,
    pixel: &[u8],
) -> (index: usize)
    requires
        pixel@.len() == 4,
    ensures
        index == nearest_color(palette_rgba(*palette), pixel@),
        index < palette_rgba(*palette).len() / 4,
;

/// The colors of a palette, three bytes each.
pub open spec fn opaque_colors(rgba: Seq<u8>) -> Seq<u8> {
    Seq::new(rgba.len() / 4 * 3, |i: int| rgba[i / 3 * 4 + i % 3])
}

/// `NeuQuant::color_map_rgb` lists the colors of a palette without their opacity.
pub assume_specification[ color_quant::NeuQuant::color_map_rgb ](
    palette: &color_quant::NeuQuant,
) -> (rgb: Vec<u8>)
    ensures
        rgb@ == opaque_colors(palette_rgba(*palette)),
;

/// A GIF that is being written into memory.
#[verifier::external_body]
pub struct GifEncoder {
    inner: gif::Encoder<Vec<u8>>,
}

/// What was written so far.
pub uninterp spec fn gif_bytes(encoder: GifEncoder) -> Seq<u8>;

/// What `Encoder::write_frame` writes for a frame of color numbers.
pub uninterp spec fn gif_frame(width: u16, height: u16, pixels: Seq<u8>, delay: u16) -> Seq<u8>;

/// The low byte and the high byte of a number.
pub open spec fn low_high(n: u16) -> Seq<u8> {
    seq![(n % 256) as u8, (n / 256) as u8]
}

/// What a GIF with a palette of 256 colors starts with: the letters `GIF89a`, its size, the
/// size of the palette, no background, no aspect ratio, and the palette.
pub open spec fn gif_header(width: u16, height: u16, palette: Seq<u8>) -> Seq<u8> {
    seq![0x47u8, 0x49u8, 0x46u8, 0x38u8, 0x39u8, 0x61u8] + low_high(width) + low_high(height)
        + seq![0xf7u8, 0u8, 0u8] + palette
}

/// What tells a viewer to start over forever: an application extension with the name
/// `NETSCAPE2.0` and the count zero.
pub open spec fn repeat_forever() -> Seq<u8> {
    seq![
        0x21u8,
        0xffu8,
        11u8,
        0x4eu8,
        0x45u8,
        0x54u8,
        0x53u8,
        0x43u8,
        0x41u8,
        0x50u8,
        0x45u8,
        0x32u8,
        0x2eu8,
        0x30u8,
        3u8,
        1u8,
        0u8,
        0u8,
        0u8,
    ]
}

/// Starts a GIF with `Encoder::new`, which writes the header and a palette of 256 colors. It
/// fails only on larger palettes, since writing into memory does not.
#[verifier::external_body]
pub(crate) fn gif_start(width: u16, height: u16, palette: &[u8]) -> (result: Result<
    GifEncoder,
    gif::EncodingError,
>)
    requires
        palette@.len() == 768,
    ensures
        result is Ok,
        gif_bytes(result->Ok_0) == gif_header(width, height, palette@),
{
    match gif::Encoder::new(vec![], width, height, palette) {
        Ok(inner) => Ok(GifEncoder { inner }),
        Err(error) => Err(error),
    }
}

/// Makes a GIF start over forever with `Encoder::set_repeat`, which writes an extension.
/// Writing into memory does not fail.
#[verifier::external_body]
pub(crate) fn gif_set_repeat(encoder: &mut GifEncoder) -> (result: Result<(), gif::EncodingError>)
    ensures
        result is Ok,
        gif_bytes(*final(encoder)) == gif_bytes(*old(encoder)) + repeat_forever(),
{
    encoder.inner.set_repeat(gif::Repeat::Infinite)
}

/// Adds a frame of color numbers of the palette with `Encoder::write_frame`, which writes
/// bytes that depend on the frame alone. It may run out of memory; what it has written then is
/// not claimed. `Frame::from_indexed_pixels` panics if there are too many or too few pixels.
#[verifier::external_body]
pub(crate) fn gif_write_frame(
    encoder: &mut GifEncoder,
    width: u16,
    height: u16,
    pixels: Vec<u8>,
    delay: u16,
) -> (result: Result<(), gif::EncodingError>)
    requires
        width * height == pixels.len(),
    ensures
        result is Ok ==> gif_bytes(*final(encoder)) == gif_bytes(*old(encoder)) + gif_frame(
            width,
            height,
            pixels@,
            delay,
        ),
{
    let mut frame = gif::Frame::from_indexed_pixels(width, height, pixels, None);
    frame.delay = delay;
    encoder.inner.write_frame(&frame)
}

/// How many bytes were written so far, by `Encoder::get_ref`, which gives the buffer. A buffer
/// in memory holds at most `isize::MAX` bytes.
#[verifier::external_body]
pub(crate) fn gif_len(encoder: &GifEncoder) -> (len: usize)
    ensures
        len == gif_bytes(*encoder).len(),
        len <= isize::MAX,
{
    encoder.inner.get_ref().len()
}

/// Ends a GIF with `Encoder::into_inner`, which writes a trailing byte and gives the buffer.
/// Writing into memory does not fail.
#[verifier::external_body]
pub(crate) fn gif_finish(encoder: GifEncoder) -> (data: Option<Vec<u8>>)
    ensures
        data is Some,
        data->Some_0@ == gif_bytes(encoder).push(0x3b),
{
    encoder.inner.into_inner().ok()
}

/// `Display` of an encoding error; nothing is claimed of the words.
#[verifier::external_body]
pub(crate) fn encoding_error_text(error: &gif::EncodingError) -> (words: String) {
    error.to_string()
}

} // verus!
