//! Pictures of red, green and blue bytes.
use crate::cost::MAX_SIDELEN;
use vstd::prelude::*;

verus! {

#[verifier::external_type_specification]
#[verifier::external_body]
pub struct ExImageError(image::ImageError);

/// A picture: three bytes per pixel, row by row.
pub struct SourceImg {
    pub width: u32,
    pub height: u32,
    pub data: Vec<u8>,
}

/// What a picture holds.
pub struct ImgView {
    pub width: u32,
    pub height: u32,
    pub data: Seq<u8>,
}

impl View for SourceImg {
    type V = ImgView;

    open spec fn view(&self) -> ImgView {
        ImgView { width: self.width, height: self.height, data: self.data@ }
    }
}

impl ImgView {
    /// There are three bytes for each pixel.
    pub open spec fn wf(self) -> bool {
        self.data.len() == self.width * self.height * 3
    }

    pub open spec fn pixel(self, index: int) -> (u8, u8, u8) {
        (self.data[index * 3], self.data[index * 3 + 1], self.data[index * 3 + 2])
    }

    /// The pixels, row by row.
    pub open spec fn pixels(self) -> Seq<(u8, u8, u8)> {
        Seq::new((self.width * self.height) as nat, |i: int| self.pixel(i))
    }
}

/// The bytes of pixels, three for each.
pub open spec fn bytes_of(pixels: Seq<(u8, u8, u8)>) -> Seq<u8> {
    Seq::new(
        pixels.len() * 3,
        |i: int|
            if i % 3 == 0 {
                pixels[i / 3].0
            } else if i % 3 == 1 {
                pixels[i / 3].1
            } else {
                pixels[i / 3].2
            },
    )
}

/// The bytes of pixels that carry an opacity, without it.
pub open spec fn without_alpha(rgba: Seq<u8>) -> Seq<u8> {
    Seq::new(rgba.len() / 4 * 3, |i: int| rgba[i / 3 * 4 + i % 3])
}

/// A square part of a picture, with its top left corner at (`x`, `y`).
#[derive(Clone, Copy, PartialEq, Eq, Structural, Debug)]
pub struct CropWindow {
    pub x: u32,
    pub y: u32,
    pub side: u32,
}

impl CropWindow {
    /// The window holds at least one pixel and lies inside a picture of these dimensions.
    pub open spec fn inside(self, width: u32, height: u32) -> bool {
        &&& 1 <= self.side
        &&& self.x + self.side <= width
        &&& self.y + self.side <= height
    }

    pub fn is_inside(&self, width: u32, height: u32) -> (inside: bool)
        ensures
            inside == self.inside(width, height),
    {
        self.side >= 1 && self.x as u64 + self.side as u64 <= width as u64 && self.y as u64
            + self.side as u64 <= height as u64
    }
}

/// The part of a picture that a window shows.
pub open spec fn cropped(img: ImgView, window: CropWindow) -> ImgView {
    ImgView {
        width: window.side,
        height: window.side,
        data: Seq::new(
            (window.side * window.side * 3) as nat,
            |i: int|
                img.data[((window.y + i / 3 / (window.side as int)) * img.width + window.x + i / 3
                    % (window.side as int)) * 3 + i % 3],
        ),
    }
}

/// Whether `resized` is what Lanczos resampling with window 3 may make of a picture. The
/// resampling weights are floating-point sines, whose last digits may vary, so that more
/// than one result is possible.
pub uninterp spec fn lanczos3_gives(
    width: u32,
    height: u32,
    data: Seq<u8>,
    side: u32,
    resized: Seq<u8>,
) -> bool;

/// Whether decoding the bytes of an encoded picture may give this outcome: its width, its height
/// and its bytes, or `None` if it fails. Decoders can be added and replaced while a program runs,
/// so that more than one outcome is possible.
pub uninterp spec fn decoding_gives(
    encoded: Seq<u8>,
    outcome: Option<(u32, u32, Seq<u8>)>,
) -> bool;

/// Whether `fitted` is the part of a picture that a window shows, brought to `side` cells
/// per side: taken as it is if it has that size, resampled if not.
pub open spec fn fits_as(img: ImgView, window: CropWindow, side: u32, fitted: ImgView) -> bool {
    let part = cropped(img, window);
    &&& fitted.width == side
    &&& fitted.height == side
    &&& fitted.wf()
    &&& if window.side == side {
        fitted == part
    } else {
        lanczos3_gives(part.width, part.height, part.data, side, fitted.data)
    }
}

/// Cuts out a part of a picture, with `imageops::crop_imm` and `SubImage::to_image`: inside
/// the picture, the result has the dimensions of the window and each pixel comes from the
/// same place of the window.
#[verifier::external_body]
fn crop(img: &SourceImg, window: &CropWindow) -> (part: SourceImg)
    requires
        img@.wf(),
        window.inside(img.width, img.height),
    ensures
        part@ == cropped(img@, *window),
{
    let whole = image::RgbImage::from_raw(img.width, img.height, img.data.clone()).unwrap();
    let part = image::imageops::crop_imm(&whole, window.x, window.y, window.side, window.side)
        .to_image();
    SourceImg { width: part.width(), height: part.height(), data: part.into_raw() }
}

/// Whether resampling a square picture stays within the memory of the machine: the result has
/// three bytes per pixel, and what lies half way 16.
pub open spec fn resizable(from: u32, to: u32) -> bool {
    from * to * 16 <= isize::MAX && to * to * 3 <= isize::MAX
}

/// Resamples a square picture with `imageops::resize` and the Lanczos3 filter: the result
/// has the asked dimensions and three bytes per pixel. What its bytes are is given a name.
/// The function panics if its buffers would not fit.
#[verifier::external_body]
fn resize(img: &SourceImg, side: u32) -> (resized: SourceImg)
    requires
        img@.wf(),
        1 <= img.width == img.height,
        resizable(img.width, side),
    ensures
        resized.width == side,
        resized.height == side,
        resized@.wf(),
        lanczos3_gives(img.width, img.height, img.data@, side, resized.data@),
{
    let whole = image::RgbImage::from_raw(img.width, img.height, img.data.clone()).unwrap();
    let filter = image::imageops::FilterType::Lanczos3;
    let resized = image::imageops::resize(&whole, side, side, filter);
    SourceImg { width: resized.width(), height: resized.height(), data: resized.into_raw() }
}

/// Decodes a picture with `image::load_from_memory` and `DynamicImage::to_rgb8`: the result
/// has three bytes per pixel. That it is an outcome of decoding these bytes is given a name.
#[verifier::external_body]
pub(crate) fn decode_rgb(encoded: &Vec<u8>) -> (result: Result<SourceImg, image::ImageError>)
    ensures
        match result {
            Ok(img) => img@.wf() && decoding_gives(
                encoded@,
                Some((img.width, img.height, img.data@)),
            ),
            Err(_) => decoding_gives(encoded@, None),
        },
{
    let img = image::load_from_memory(encoded)?.to_rgb8();
    Ok(SourceImg { width: img.width(), height: img.height(), data: img.into_raw() })
}

/// The words of a decoding error, with its `Display`.
#[verifier::external_body]
pub(crate) fn image_error_text(error: &image::ImageError) -> (words: String) {
    format!("{error}")
}

/// At supported resolutions, every part of a picture can be resampled.
proof fn lemma_resizable(img: &SourceImg, window: CropWindow, side: u32)
    requires
        img@.wf(),
        window.inside(img.width, img.height),
        side <= MAX_SIDELEN,
    ensures
        resizable(window.side, side),
{
    let from = window.side as int;
    let bytes = img.data.len() as int;
    assert(from * from * 3 <= bytes) by (nonlinear_arith)
        requires
            bytes == img.width * img.height * 3,
            0 <= from <= img.width,
            0 <= from <= img.height,
    ;
    assert(bytes <= usize::MAX);
    assert(from * side * 16 <= isize::MAX) by (nonlinear_arith)
        requires
            0 <= side <= 256,
            0 <= from <= 0xffff_ffff,
            from * from * 3 <= usize::MAX,
            usize::MAX == 0xffff_ffff || usize::MAX == 0xffff_ffff_ffff_ffff,
            usize::MAX == 0xffff_ffff ==> isize::MAX == 0x7fff_ffff,
            usize::MAX == 0xffff_ffff_ffff_ffff ==> isize::MAX == 0x7fff_ffff_ffff_ffff,
    {
        if usize::MAX == 0xffff_ffff {
            assert(from <= 40000);
        }
    }
    assert(side * side * 3 <= 256 * 256 * 3) by (nonlinear_arith)
        requires
            0 <= side <= 256,
    ;
}

impl CropWindow {
    /// Whether a part of a picture can be brought to `sidelen` cells per side: always at
    /// supported resolutions, and otherwise as far as memory goes.
    pub open spec fn can_be_brought_to(self, sidelen: u32) -> bool {
        sidelen <= MAX_SIDELEN || self.side == sidelen || resizable(self.side, sidelen)
    }

    /// Cuts the window out of a picture and brings it to `sidelen` cells per side.
    pub fn apply(&self, img: &SourceImg, sidelen: u32) -> (fitted: SourceImg)
        requires
            img@.wf(),
            self.inside(img.width, img.height),
            self.can_be_brought_to(sidelen),
        ensures
            fits_as(img@, *self, sidelen, fitted@),
    {
        let part = crop(img, self);
        proof {
            assert(self.side * self.side * 3 >= 0) by (nonlinear_arith);
            if sidelen <= MAX_SIDELEN {
                lemma_resizable(img, *self, sidelen);
            }
        }
        if self.side == sidelen {
            part
        } else {
            resize(&part, sidelen)
        }
    }
}

impl SourceImg {
    /// The pixels, row by row.
    pub fn pixels(&self) -> (pixels: Vec<(u8, u8, u8)>)
        requires
            self@.wf(),
        ensures
            pixels@ == self@.pixels(),
    {
        let count: usize = self.data.len() / 3;
        let mut pixels: Vec<(u8, u8, u8)> = Vec::with_capacity(count);
        for i in 0..count
            invariant
                self@.wf(),
                count == self.width * self.height,
                count * 3 == self.data.len(),
                pixels.len() == i,
                forall|j: int| 0 <= j < i ==> #[trigger] pixels[j] == self@.pixel(j),
        {
            pixels.push((self.data[i * 3], self.data[i * 3 + 1], self.data[i * 3 + 2]));
        }
        assert(pixels@ =~= self@.pixels());
        pixels
    }

    /// The color at a place of the picture.
    pub fn get_pixel(&self, x: u32, y: u32) -> (rgb: [u8; 3])
        requires
            self@.wf(),
            x < self.width,
            y < self.height,
        ensures
            rgb@ == seq![
                self@.pixel(y * self.width + x).0,
                self@.pixel(y * self.width + x).1,
                self@.pixel(y * self.width + x).2,
            ],
    {
        proof {
            assert(0 <= y * self.width + x < self.width * self.height) by (nonlinear_arith)
                requires
                    0 <= x < self.width,
                    0 <= y < self.height,
            ;
            assert(0 <= y * self.width) by (nonlinear_arith)
                requires
                    0 <= y,
                    0 <= self.width,
            ;
            assert(self.data.len() <= usize::MAX);
        }
        let index: usize = y as usize * self.width as usize + x as usize;
        [self.data[index * 3], self.data[index * 3 + 1], self.data[index * 3 + 2]]
    }
}

/// The red byte of each pixel, as a weight.
pub open spec fn red_weights(img: ImgView) -> Seq<i64> {
    Seq::new((img.width * img.height) as nat, |i: int| img.pixel(i).0 as i64)
}

/// Reads cell weights off the red channel of a picture.
pub fn load_weights(source: SourceImg) -> (weights: Vec<i64>)
    requires
        source@.wf(),
    ensures
        weights@ == red_weights(source@),
        forall|i: int| 0 <= i < weights.len() ==> 0 <= #[trigger] weights[i] <= 255,
{
    let count: usize = source.data.len() / 3;
    let mut weights: Vec<i64> = Vec::with_capacity(count);
    for i in 0..count
        invariant
            source@.wf(),
            count == source.width * source.height,
            count * 3 == source.data.len(),
            weights.len() == i,
            forall|j: int| 0 <= j < i ==> #[trigger] weights[j] == source@.pixel(j).0 as i64,
    {
        weights.push(source.data[i * 3] as i64);
    }
    assert(weights@ =~= red_weights(source@));
    weights
}

/// The bytes of pixels, three for each.
pub fn flatten(pixels: &Vec<(u8, u8, u8)>) -> (bytes: Vec<u8>)
    requires
        pixels.len() * 3 <= usize::MAX,
    ensures
        bytes@ == bytes_of(pixels@),
{
    let mut bytes: Vec<u8> = Vec::with_capacity(pixels.len() * 3);
    for i in 0..pixels.len()
        invariant
            bytes@ == bytes_of(pixels@.take(i as int)),
    {
        let (r, g, b) = pixels[i];
        bytes.push(r);
        bytes.push(g);
        bytes.push(b);
        assert(bytes@ =~= bytes_of(pixels@.take(i + 1)));
    }
    assert(pixels@.take(pixels.len() as int) =~= pixels@);
    bytes
}

/// Drops the opacity of each pixel.
pub fn drop_alpha(rgba: &Vec<u8>) -> (rgb: Vec<u8>)
    requires
        rgba.len() % 4 == 0,
    ensures
        rgb@ == without_alpha(rgba@),
{
    let count: usize = rgba.len() / 4;
    let mut rgb: Vec<u8> = Vec::with_capacity(count * 3);
    for i in 0..count
        invariant
            count * 4 == rgba.len(),
            rgb@ == without_alpha(rgba@.take(i * 4)),
    {
        rgb.push(rgba[i * 4]);
        rgb.push(rgba[i * 4 + 1]);
        rgb.push(rgba[i * 4 + 2]);
        assert(rgb@ =~= without_alpha(rgba@.take((i + 1) * 4)));
    }
    assert(rgba@.take(count * 4) =~= rgba@);
    rgb
}

/// The color at a place of a cut-out is the color at that place of the picture, counted from the
/// corner of the window.
pub proof fn windows_show_their_part(img: ImgView, window: CropWindow, x: int, y: int)
    requires
        img.wf(),
        window.inside(img.width, img.height),
        0 <= x < window.side,
        0 <= y < window.side,
    ensures
        cropped(img, window).width == window.side,
        cropped(img, window).height == window.side,
        cropped(img, window).data.len() == 3 * (window.side * window.side),
        cropped(img, window).pixel(y * window.side + x) == img.pixel(
            (window.y + y) * img.width + (window.x + x),
        ),
{
    let side = window.side as int;
    crate::genetic::lemma_index_of_cell(x, y, side);
    let part = cropped(img, window);
    let at = y * side + x;
    assert(side * side * 3 == 3 * (side * side));
    assert forall|k: int| 0 <= k < 3 implies #[trigger] part.data[at * 3 + k] == img.data[((window.y
        + y) * img.width + (window.x + x)) * 3 + k] by {
        let i = at * 3 + k;
        assert(i / 3 == at && i % 3 == k);
        assert(0 <= i < side * side * 3);
    }
    assert(part.data[at * 3 + 0] == img.data[((window.y + y) * img.width + (window.x + x)) * 3 + 0]);
}

/// A window of the asked size is taken as it is.
pub proof fn windows_of_the_asked_size_are_taken_as_they_are(
    img: ImgView,
    window: CropWindow,
    side: u32,
    fitted: ImgView,
    x: int,
    y: int,
)
    requires
        img.wf(),
        window.inside(img.width, img.height),
        window.side == side,
        fits_as(img, window, side, fitted),
        0 <= x < side,
        0 <= y < side,
    ensures
        fitted.width == side,
        fitted.height == side,
        fitted.pixels().len() == side * side,
        fitted.pixels()[y * side + x] == img.pixel((window.y + y) * img.width + (window.x + x)),
{
    windows_show_their_part(img, window, x, y);
    crate::genetic::lemma_index_of_cell(x, y, side as int);
}

/// The weight of a cell is the red byte of its pixel.
pub proof fn weights_are_red_bytes(img: ImgView, pixel: int)
    requires
        0 <= pixel < img.width * img.height,
    ensures
        red_weights(img).len() == img.width * img.height,
        red_weights(img)[pixel] == img.data[3 * pixel],
{
}

/// The bytes of pixels are their channels, one after the other.
pub proof fn pixels_are_three_bytes(pixels: Seq<(u8, u8, u8)>, pixel: int)
    requires
        0 <= pixel < pixels.len(),
    ensures
        bytes_of(pixels).len() == 3 * pixels.len(),
        bytes_of(pixels)[3 * pixel] == pixels[pixel].0,
        bytes_of(pixels)[3 * pixel + 1] == pixels[pixel].1,
        bytes_of(pixels)[3 * pixel + 2] == pixels[pixel].2,
{
}

/// A window of another size is resampled to the asked one.
pub proof fn other_windows_are_resampled(img: ImgView, window: CropWindow, side: u32, fitted: ImgView)
    requires
        window.side != side,
        fits_as(img, window, side, fitted),
    ensures
        lanczos3_gives(window.side, window.side, cropped(img, window).data, side, fitted.data),
        fitted.width == side,
        fitted.height == side,
        fitted.data.len() == 3 * (side * side),
{
    assert(side * side * 3 == 3 * (side * side)) by (nonlinear_arith);
}

} // verus!
