//! How a picture is to be processed.
use crate::buffers::{copy_of, filled};
use crate::cost;
use crate::cost::MAX_SIDELEN;
use crate::errors::ProcessError;
use crate::images;
use crate::images::{CropWindow, ImgView, SourceImg};
use vstd::prelude::*;
use vstd::string::*;

verus! {

#[verifier::external_type_specification]
#[verifier::external_body]
pub struct ExUuid(uuid::Uuid);

/// `Uuid::new_v4` draws an identifier at random; nothing is claimed of it.
pub assume_specification[ uuid::Uuid::new_v4 ]() -> uuid::Uuid;

/// A resolution is at least 1 and at most 256 cells per side.
pub open spec fn valid_sidelen(sidelen: u32) -> bool {
    1 <= sidelen <= MAX_SIDELEN
}

pub fn validate_sidelen(sidelen: u32) -> (result: Result<(), ProcessError>)
    ensures
        match result {
            Ok(_) => valid_sidelen(sidelen),
            Err(error) => !valid_sidelen(sidelen) && error == ProcessError::Resolution(sidelen),
        },
{
    if 1 <= sidelen && sidelen <= MAX_SIDELEN {
        Ok(())
    } else {
        Err(ProcessError::Resolution(sidelen))
    }
}

/// `value * (128 / side)²`, rounded to the nearest integer, but at least one: what an
/// importance set for 128 cells per side amounts to for `side` cells. Nothing if there is no
/// importance or no cell.
pub open spec fn scaled_importance(value: int, side: int) -> int {
    if value <= 0 || side == 0 {
        0
    } else {
        let rounded = (value * 128 * 128 + side * side / 2) / (side * side);
        if rounded < 1 {
            1
        } else if rounded > i64::MAX {
            i64::MAX as int
        } else {
            rounded
        }
    }
}

/// Brings an importance that does not depend on the resolution to the scale of one.
pub fn normalized_proximity_importance(value: i64, sidelen: u32) -> (importance: i64)
    ensures
        importance == scaled_importance(value as int, sidelen as int),
{
    if value <= 0 || sidelen == 0 {
        return 0;
    }
    let side: i128 = sidelen as i128;
    proof {
        assert(1 <= side * side <= 0x1_0000_0000 * 0x1_0000_0000) by (nonlinear_arith)
            requires
                1 <= side <= 0x1_0000_0000,
        ;
    }
    let numerator: i128 = value as i128 * 128 * 128;
    let rounded: i128 = (numerator + side * side / 2) / (side * side);
    proof {
        let n = numerator + side * side / 2;
        let d = side * side;
        assert(0 <= n / d <= n) by (nonlinear_arith)
            requires
                0 <= n,
                1 <= d,
        ;
    }
    if rounded < 1 {
        1
    } else if rounded > i64::MAX as i128 {
        i64::MAX
    } else {
        rounded as i64
    }
}

/// Up to rounding, the importance at a resolution times the number of its cells is the same
/// for all resolutions.
pub proof fn importance_times_cells_is_constant(value: int, side: int)
    requires
        0 < value <= i64::MAX,
        1 <= side,
        1 < scaled_importance(value, side) < i64::MAX,
    ensures
        -(side * side) <= 2 * (scaled_importance(value, side) * (side * side) - value * 128 * 128)
            <= side * side,
{
    let n = value * 128 * 128;
    let d = side * side;
    let r = (n + d / 2) / d;
    assert(d >= 1) by (nonlinear_arith)
        requires
            side >= 1,
            d == side * side,
    ;
    assert(r * d <= n + d / 2 < r * d + d) by (nonlinear_arith)
        requires
            d >= 1,
            r == (n + d / 2) / d,
    ;
}

/// More importance never weighs less.
pub proof fn importance_never_falls_as_it_is_raised(lower: int, higher: int, side: int)
    requires
        lower <= higher <= i64::MAX,
        0 <= side,
    ensures
        scaled_importance(lower, side) <= scaled_importance(higher, side),
{
    if 0 < lower && 0 < side {
        let d = side * side;
        assert((lower * 128 * 128 + d / 2) / d <= (higher * 128 * 128 + d / 2) / d)
            by (nonlinear_arith)
            requires
                lower <= higher,
                d == side * side,
                side > 0,
        {
            assert(d > 0);
            let a = lower * 128 * 128 + d / 2;
            let b = higher * 128 * 128 + d / 2;
            assert(a <= b);
            vstd::arithmetic::div_mod::lemma_div_is_ordered(a, b, d);
        }
    }
}

/// Where no rounding takes place, `factor` times the distance on an image with `factor` times
/// the cells per side weighs as much as the distance itself.
pub proof fn spatial_penalty_is_resolution_independent(
    value: int,
    side: int,
    factor: int,
    a: (u16, u16),
    b: (u16, u16),
    scaled_a: (u16, u16),
    scaled_b: (u16, u16),
)
    requires
        0 < value,
        1 <= side,
        1 <= factor,
        value * 128 * 128 <= i64::MAX,
        (value * 128 * 128) % ((factor * side) * (factor * side)) == 0,
        scaled_a.0 == factor * a.0,
        scaled_a.1 == factor * a.1,
        scaled_b.0 == factor * b.0,
        scaled_b.1 == factor * b.1,
    ensures
        cost::spatial_distance(a, b) * scaled_importance(value, side) == cost::spatial_distance(
            scaled_a,
            scaled_b,
        ) * scaled_importance(value, factor * side),
{
    let n = value * 128 * 128;
    let wide = (factor * side) * (factor * side);
    let narrow = side * side;
    let f = factor * factor;
    let q = n / wide;
    assert(wide == f * narrow) by (nonlinear_arith)
        requires
            wide == (factor * side) * (factor * side),
            f == factor * factor,
            narrow == side * side,
    ;
    assert(narrow >= 1 && f >= 1 && wide >= 1) by (nonlinear_arith)
        requires
            side >= 1,
            factor >= 1,
            narrow == side * side,
            f == factor * factor,
            wide == f * narrow,
    ;
    assert(n == q * wide) by (nonlinear_arith)
        requires
            n % wide == 0,
            q == n / wide,
            wide >= 1,
    ;
    assert(n == (q * f) * narrow) by (nonlinear_arith)
        requires
            n == q * wide,
            wide == f * narrow,
    ;
    lemma_exact_quotient(q, wide);
    lemma_exact_quotient(q * f, narrow);
    assert(1 <= q && 1 <= q * f && q <= n && q * f <= n) by (nonlinear_arith)
        requires
            n == q * wide,
            n == (q * f) * narrow,
            n >= 1,
            wide >= 1,
            narrow >= 1,
            f >= 1,
    ;
    let (dx, dy) = (a.0 - b.0, a.1 - b.1);
    assert(factor * side >= 1) by (nonlinear_arith)
        requires
            factor >= 1,
            side >= 1,
    ;
    assert(scaled_a.0 - scaled_b.0 == factor * dx && scaled_a.1 - scaled_b.1 == factor * dy)
        by (nonlinear_arith)
        requires
            scaled_a.0 == factor * a.0,
            scaled_b.0 == factor * b.0,
            scaled_a.1 == factor * a.1,
            scaled_b.1 == factor * b.1,
            dx == a.0 - b.0,
            dy == a.1 - b.1,
    ;
    let near = cost::spatial_distance(a, b);
    let far = cost::spatial_distance(scaled_a, scaled_b);
    assert(far == f * near) by (nonlinear_arith)
        requires
            far == (factor * dx) * (factor * dx) + (factor * dy) * (factor * dy),
            near == dx * dx + dy * dy,
            f == factor * factor,
    ;
    assert(near * (q * f) == far * q) by (nonlinear_arith)
        requires
            far == f * near,
    ;
}

proof fn lemma_exact_quotient(q: int, d: int)
    requires
        d >= 1,
    ensures
        (q * d + d / 2) / d == q,
{
    assert((q * d + d / 2) / d == q) by (nonlinear_arith)
        requires
            d >= 1,
            0 <= d / 2 < d,
    ;
}

/// The picture that raw bytes make: three bytes per pixel, or four with an opacity that is
/// dropped.
pub open spec fn raw_picture(width: u32, height: u32, data: Seq<u8>) -> Result<
    ImgView,
    ProcessError,
> {
    let pixels = width * height;
    if width == 0 || height == 0 {
        Err(ProcessError::ZeroDimensions)
    } else if pixels > usize::MAX {
        Err(ProcessError::DimensionsTooLarge)
    } else if pixels * 3 > usize::MAX {
        Err(ProcessError::RgbTooLarge)
    } else if pixels * 4 > usize::MAX {
        Err(ProcessError::RgbaTooLarge)
    } else if data.len() == pixels * 3 {
        Ok(ImgView { width, height, data })
    } else if data.len() == pixels * 4 {
        Ok(ImgView { width, height, data: images::without_alpha(data) })
    } else {
        Err(
            ProcessError::ByteLength {
                rgb: (pixels * 3) as usize,
                rgba: (pixels * 4) as usize,
                got: data.len() as usize,
            },
        )
    }
}

/// Decodes raw bytes, with or without opacity.
pub fn rgb_image_from_raw(width: u32, height: u32, data: Vec<u8>) -> (result: Result<
    SourceImg,
    ProcessError,
>)
    ensures
        match result {
            Ok(img) => img@.wf() && raw_picture(width, height, data@) == Ok::<ImgView, ProcessError>(
                img@,
            ),
            Err(error) => raw_picture(width, height, data@) == Err::<ImgView, ProcessError>(error),
        },
{
    if width == 0 || height == 0 {
        return Err(ProcessError::ZeroDimensions);
    }
    let pixels: usize = match (width as usize).checked_mul(height as usize) {
        Some(pixels) => pixels,
        None => {
            return Err(ProcessError::DimensionsTooLarge);
        },
    };
    let rgb: usize = match pixels.checked_mul(3) {
        Some(rgb) => rgb,
        None => {
            return Err(ProcessError::RgbTooLarge);
        },
    };
    let rgba: usize = match pixels.checked_mul(4) {
        Some(rgba) => rgba,
        None => {
            return Err(ProcessError::RgbaTooLarge);
        },
    };
    if data.len() == rgb {
        return Ok(SourceImg { width, height, data });
    }
    if data.len() == rgba {
        return Ok(SourceImg { width, height, data: images::drop_alpha(&data) });
    }
    Err(ProcessError::ByteLength { rgb, rgba, got: data.len() })
}

/// The bytes of pixels, as presets store them, are read back as the same pixels.
pub proof fn stored_pixels_are_read_back(width: u32, height: u32, pixels: Seq<(u8, u8, u8)>)
    requires
        1 <= width,
        1 <= height,
        pixels.len() == width * height,
        pixels.len() * 4 <= usize::MAX,
    ensures
        raw_picture(width, height, images::bytes_of(pixels)) matches Ok(img) && img.wf()
            && img.pixels() == pixels,
{
    let img = ImgView { width, height, data: images::bytes_of(pixels) };
    assert(img.pixels() =~= pixels);
}

/// Pixels with an opacity are read as if the opacity had not been there.
pub proof fn opacity_is_ignored(width: u32, height: u32, rgba: Seq<u8>)
    requires
        1 <= width,
        1 <= height,
        width * height * 4 <= usize::MAX,
        rgba.len() == width * height * 4,
    ensures
        raw_picture(width, height, rgba) == raw_picture(
            width,
            height,
            images::without_alpha(rgba),
        ),
        raw_picture(width, height, rgba) is Ok,
{
    let pixels = width * height;
    assert(pixels >= 1) by (nonlinear_arith)
        requires
            pixels == width * height,
            width >= 1,
            height >= 1,
    ;
}

/// Where a picture is cropped: the bit patterns of three single-precision numbers, the
/// position from left to right, the position from top to bottom, and the scale.
#[derive(Clone, Copy, PartialEq, Eq, Structural, Debug)]
pub struct CropScale {
    pub x: u32,
    pub y: u32,
    pub scale: u32,
}

impl CropScale {
    /// The centre of the picture, as large as fits.
    pub fn identity() -> (crop: Self)
        ensures
            crop == (CropScale { x: 0, y: 0, scale: 0x3f80_0000 }),
    {
        CropScale { x: 0, y: 0, scale: 0x3f80_0000 }
    }
}

#[derive(Clone, Copy, PartialEq, Eq, Structural, Debug)]
pub enum Algorithm {
    Optimal,
    Genetic,
}

pub struct GenerationSettings {
    pub id: uuid::Uuid,
    pub name: String,
    pub proximity_importance: i64,
    pub algorithm: Algorithm,
    pub sidelen: u32,
    pub custom_target: Option<(u32, u32, Vec<u8>)>,
    pub target_crop_scale: CropScale,
    pub source_crop_scale: CropScale,
}

/// What settings hold.
pub struct SettingsView {
    pub id: uuid::Uuid,
    pub name: Seq<char>,
    pub proximity_importance: i64,
    pub algorithm: Algorithm,
    pub sidelen: u32,
    pub custom_target: Option<(u32, u32, Seq<u8>)>,
    pub target_crop_scale: CropScale,
    pub source_crop_scale: CropScale,
}

impl View for GenerationSettings {
    type V = SettingsView;

    open spec fn view(&self) -> SettingsView {
        SettingsView {
            id: self.id,
            name: self.name@,
            proximity_importance: self.proximity_importance,
            algorithm: self.algorithm,
            sidelen: self.sidelen,
            custom_target: match self.custom_target {
                Some((w, h, data)) => Some((w, h, data@)),
                None => None,
            },
            target_crop_scale: self.target_crop_scale,
            source_crop_scale: self.source_crop_scale,
        }
    }
}

/// The encoded pictures that come with the program: the portrait, and how much each of its
/// cells matters.
pub struct Portrait {
    pub target: Vec<u8>,
    pub weights: Vec<u8>,
}

/// The crop windows of the pictures that a job reads.
#[derive(Clone, Copy, PartialEq, Eq, Structural, Debug)]
pub struct CropWindows {
    pub source: CropWindow,
    pub target: CropWindow,
    pub weights: CropWindow,
}

/// Whether decoding may give this picture, or fail.
pub open spec fn decodes_to(encoded: Seq<u8>, picture: Option<ImgView>) -> bool {
    images::decoding_gives(
        encoded,
        match picture {
            Some(img) => Some((img.width, img.height, img.data)),
            None => None,
        },
    )
}

/// What became of the encoded pictures: the portrait, and the weights of its cells.
pub struct Decoded {
    pub bundled: Option<ImgView>,
    pub weights: Option<ImgView>,
}

/// What a picture holds, if there is one.
pub open spec fn what_it_holds(picture: Option<SourceImg>) -> Option<ImgView> {
    match picture {
        Some(img) => Some(img@),
        None => None,
    }
}

/// Whether there is a custom target that can be read.
pub open spec fn is_readable(custom: Option<(u32, u32, Seq<u8>)>) -> bool {
    custom matches Some((w, h, data)) && raw_picture(w, h, data) is Ok
}

/// Whether the portrait was decoded to this. It is not decoded if a custom target can be read.
pub open spec fn portrait_read(
    custom: Option<(u32, u32, Seq<u8>)>,
    encoded: Seq<u8>,
    bundled: Option<ImgView>,
) -> bool {
    is_readable(custom) || decodes_to(encoded, bundled)
}

/// Whether the encoded pictures were decoded to these. The weights are decoded only without a
/// custom target, once the target has been cropped.
pub open spec fn pictures_read(
    custom: Option<(u32, u32, Seq<u8>)>,
    target: Seq<u8>,
    weights: Seq<u8>,
    windows: CropWindows,
    decoded: Decoded,
) -> bool {
    let raw = raw_target(custom, decoded.bundled);
    &&& portrait_read(custom, target, decoded.bundled)
    &&& custom is None && windows.target.inside(raw.width, raw.height) ==> decodes_to(
        weights,
        decoded.weights,
    )
}

/// The target before it is cropped: the custom one if there is one and it can be read, else
/// the portrait, else a single black pixel.
pub open spec fn raw_target(
    custom: Option<(u32, u32, Seq<u8>)>,
    bundled: Option<ImgView>,
) -> ImgView {
    match custom {
        Some((w, h, data)) if raw_picture(w, h, data) is Ok => raw_picture(w, h, data)->Ok_0,
        _ => match bundled {
            Some(img) => img,
            None => ImgView { width: 1, height: 1, data: seq![0u8, 0u8, 0u8] },
        },
    }
}

/// What keeps pictures from being prepared.
pub enum PrepareFault {
    Resolution,
    SourceCrop,
    TargetCrop,
    WeightsUnreadable,
    WeightsCrop,
}

/// The error that reports a fault.
pub open spec fn reports(error: ProcessError, fault: PrepareFault, sidelen: u32) -> bool {
    match fault {
        PrepareFault::Resolution => error == ProcessError::Resolution(sidelen),
        PrepareFault::WeightsUnreadable => error is Decode,
        _ => error == ProcessError::CropOutside,
    }
}

/// The first thing that keeps the target from being prepared. The weights matter only
/// without a custom target.
pub open spec fn target_fault(
    custom: Option<(u32, u32, Seq<u8>)>,
    decoded: Decoded,
    windows: CropWindows,
) -> Option<PrepareFault> {
    let raw = raw_target(custom, decoded.bundled);
    if !windows.target.inside(raw.width, raw.height) {
        Some(PrepareFault::TargetCrop)
    } else if custom is Some {
        None
    } else {
        match decoded.weights {
            None => Some(PrepareFault::WeightsUnreadable),
            Some(img) => if windows.weights.inside(img.width, img.height) {
                None
            } else {
                Some(PrepareFault::WeightsCrop)
            },
        }
    }
}

/// Whether `fitted` and `cell_weights` are a target and its weights at the asked resolution:
/// uniform weights for a custom target, else those of the portrait.
pub open spec fn is_target(
    custom: Option<(u32, u32, Seq<u8>)>,
    decoded: Decoded,
    windows: CropWindows,
    sidelen: u32,
    fitted: ImgView,
    cell_weights: Seq<i64>,
) -> bool {
    &&& images::fits_as(raw_target(custom, decoded.bundled), windows.target, sidelen, fitted)
    &&& if custom is Some {
        cell_weights == Seq::new((sidelen * sidelen) as nat, |i: int| 255i64)
    } else {
        exists|img: ImgView| #[trigger]
            images::fits_as(decoded.weights->0, windows.weights, sidelen, img) && cell_weights
                == images::red_weights(img)
    }
}

/// The first thing that keeps the pictures of a job from being prepared, before anything is
/// decoded.
pub open spec fn early_fault(
    sidelen: u32,
    source: ImgView,
    windows: CropWindows,
) -> Option<PrepareFault> {
    if !valid_sidelen(sidelen) {
        Some(PrepareFault::Resolution)
    } else if !windows.source.inside(source.width, source.height) {
        Some(PrepareFault::SourceCrop)
    } else {
        None
    }
}

/// Whether these are the pixels of the source and of the target, and the weights of the
/// cells, at the asked resolution.
pub open spec fn is_prepared(
    sidelen: u32,
    source: ImgView,
    custom: Option<(u32, u32, Seq<u8>)>,
    decoded: Decoded,
    windows: CropWindows,
    source_pixels: Seq<(u8, u8, u8)>,
    target_pixels: Seq<(u8, u8, u8)>,
    cell_weights: Seq<i64>,
) -> bool {
    &&& exists|img: ImgView| #[trigger]
        images::fits_as(source, windows.source, sidelen, img) && source_pixels == img.pixels()
    &&& exists|img: ImgView| #[trigger]
        is_target(custom, decoded, windows, sidelen, img, cell_weights) && target_pixels
            == img.pixels()
}

impl Clone for GenerationSettings {
    fn clone(&self) -> (copied: Self)
        ensures
            copied@ == self@,
    {
        GenerationSettings {
            id: self.id,
            name: self.name.clone(),
            proximity_importance: self.proximity_importance,
            algorithm: self.algorithm,
            sidelen: self.sidelen,
            custom_target: match &self.custom_target {
                Some((w, h, data)) => Some((*w, *h, copy_of(data))),
                None => None,
            },
            target_crop_scale: self.target_crop_scale,
            source_crop_scale: self.source_crop_scale,
        }
    }
}

impl GenerationSettings {
    /// The settings that a new picture starts with.
    pub fn default(id: uuid::Uuid, name: String) -> (settings: Self)
        ensures
            settings@ == (SettingsView {
                id,
                name: name@,
                proximity_importance: 13,
                algorithm: Algorithm::Genetic,
                sidelen: 64,
                custom_target: None,
                target_crop_scale: CropScale { x: 0, y: 0, scale: 0x3f80_0000 },
                source_crop_scale: CropScale { x: 0, y: 0, scale: 0x3f80_0000 },
            }),
    {
        GenerationSettings {
            id,
            name,
            proximity_importance: 13,
            algorithm: Algorithm::Genetic,
            sidelen: 64,
            custom_target: None,
            target_crop_scale: CropScale::identity(),
            source_crop_scale: CropScale::identity(),
        }
    }

    /// The custom target, if there is one and it can be read.
    fn read_custom_target(&self) -> (target: Option<SourceImg>)
        ensures
            match target {
                Some(img) => img@.wf() && (self@.custom_target matches Some((w, h, data))
                    && raw_picture(w, h, data) == Ok::<ImgView, ProcessError>(img@)),
                None => self@.custom_target matches Some((w, h, data)) ==> raw_picture(
                    w,
                    h,
                    data,
                ) is Err,
            },
    {
        match &self.custom_target {
            Some((w, h, data)) => match rgb_image_from_raw(*w, *h, copy_of(data)) {
                Ok(img) => Some(img),
                Err(_) => None,
            },
            None => None,
        }
    }

    /// The target before it is cropped, given what the portrait decodes to.
    pub fn raw_target_from(&self, bundled: Option<SourceImg>) -> (target: SourceImg)
        requires
            bundled matches Some(img) ==> img@.wf(),
        ensures
            target@.wf(),
            target@ == raw_target(self@.custom_target, what_it_holds(bundled)),
    {
        match self.read_custom_target() {
            Some(img) => img,
            None => match bundled {
                Some(img) => img,
                None => {
                    let black = SourceImg { width: 1, height: 1, data: vec![0, 0, 0] };
                    assert(black.data@ =~= seq![0u8, 0u8, 0u8]);
                    assert(black.width * black.height == 1) by (nonlinear_arith)
                        requires
                            black.width == 1,
                            black.height == 1,
                    ;
                    black
                },
            },
        }
    }

    /// The target before it is cropped.
    pub fn get_raw_target(&self, portrait: &Portrait) -> (target: SourceImg)
        ensures
            target@.wf(),
            exists|bundled: Option<ImgView>| #[trigger]
                portrait_read(self@.custom_target, portrait.target@, bundled) && target@
                    == raw_target(self@.custom_target, bundled),
    {
        match self.read_custom_target() {
            Some(img) => {
                assert(portrait_read(self@.custom_target, portrait.target@, None));
                img
            },
            None => {
                let bundled: Option<SourceImg> = match images::decode_rgb(&portrait.target) {
                    Ok(img) => Some(img),
                    Err(_) => None,
                };
                assert(portrait_read(
                    self@.custom_target,
                    portrait.target@,
                    what_it_holds(bundled),
                ));
                self.raw_target_from(bundled)
            },
        }
    }

    /// The dimensions of the picture that holds the weights of the cells. It is not read with a
    /// custom target, and it may not be readable.
    pub fn weights_size(&self, portrait: &Portrait) -> (size: Option<(u32, u32)>)
        ensures
            if self@.custom_target is Some {
                size is None
            } else {
                exists|weights: Option<ImgView>| #[trigger]
                    decodes_to(portrait.weights@, weights) && match weights {
                        Some(img) => size == Some((img.width, img.height)),
                        None => size is None,
                    }
            },
    {
        if self.custom_target.is_some() {
            return None;
        }
        match images::decode_rgb(&portrait.weights) {
            Ok(img) => {
                assert(decodes_to(portrait.weights@, Some(img@)));
                Some((img.width, img.height))
            },
            Err(_) => {
                assert(decodes_to(portrait.weights@, None));
                None
            },
        }
    }

    /// Brings a target to the asked resolution, with the weights that a weight picture gives
    /// its cells, or uniform ones without a picture.
    pub fn fit_target(
        &self,
        raw: &SourceImg,
        weights: Option<SourceImg>,
        windows: &CropWindows,
    ) -> (result: Result<(SourceImg, Vec<i64>), ProcessError>)
        requires
            self.sidelen * self.sidelen <= u32::MAX,
            windows.target.can_be_brought_to(self.sidelen),
            windows.weights.can_be_brought_to(self.sidelen),
            raw@.wf(),
            weights matches Some(img) ==> img@.wf(),
        ensures
            match result {
                Ok((fitted, cell_weights)) => {
                    &&& windows.target.inside(raw.width, raw.height)
                    &&& images::fits_as(raw@, windows.target, self.sidelen, fitted@)
                    &&& match weights {
                        None => cell_weights@ == Seq::new(
                            (self.sidelen * self.sidelen) as nat,
                            |i: int| 255i64,
                        ),
                        Some(picture) => windows.weights.inside(picture.width, picture.height) && (
                        exists|img: ImgView| #[trigger]
                            images::fits_as(picture@, windows.weights, self.sidelen, img)
                                && cell_weights@ == images::red_weights(img)),
                    }
                },
                Err(error) => error == ProcessError::CropOutside && (!windows.target.inside(
                    raw.width,
                    raw.height,
                ) || (weights matches Some(picture) && !windows.weights.inside(
                    picture.width,
                    picture.height,
                ))),
            },
    {
        if !windows.target.is_inside(raw.width, raw.height) {
            return Err(ProcessError::CropOutside);
        }
        let fitted = windows.target.apply(raw, self.sidelen);
        match weights {
            None => {
                proof {
                    assert(0 <= self.sidelen * self.sidelen) by (nonlinear_arith);
                }
                let count: usize = (self.sidelen * self.sidelen) as usize;
                Ok((fitted, filled(255, count)))
            },
            Some(picture) => {
                if !windows.weights.is_inside(picture.width, picture.height) {
                    return Err(ProcessError::CropOutside);
                }
                let img = windows.weights.apply(&picture, self.sidelen);
                Ok((fitted, images::load_weights(img)))
            },
        }
    }

    /// The target at the asked resolution, and how much each of its cells matters.
    pub fn get_target(&self, portrait: &Portrait, windows: &CropWindows) -> (result: Result<
        (SourceImg, Vec<i64>),
        ProcessError,
    >)
        requires
            self.sidelen * self.sidelen <= u32::MAX,
            windows.target.can_be_brought_to(self.sidelen),
            windows.weights.can_be_brought_to(self.sidelen),
        ensures
            exists|decoded: Decoded| #[trigger]
                pictures_read(
                    self@.custom_target,
                    portrait.target@,
                    portrait.weights@,
                    *windows,
                    decoded,
                ) && match result {
                    Ok((fitted, cell_weights)) => target_fault(
                        self@.custom_target,
                        decoded,
                        *windows,
                    ) is None && is_target(
                        self@.custom_target,
                        decoded,
                        *windows,
                        self.sidelen,
                        fitted@,
                        cell_weights@,
                    ),
                    Err(error) => target_fault(self@.custom_target, decoded, *windows) matches Some(
                        fault,
                    ) && reports(error, fault, self.sidelen),
                },
    {
        let raw = self.get_raw_target(portrait);
        let ghost custom = self@.custom_target;
        let ghost bundled = choose|bundled: Option<ImgView>| #[trigger]
            portrait_read(custom, portrait.target@, bundled) && raw@ == raw_target(custom, bundled);
        if self.custom_target.is_some() {
            proof {
                let decoded = Decoded { bundled, weights: None };
                assert(pictures_read(
                    custom,
                    portrait.target@,
                    portrait.weights@,
                    *windows,
                    decoded,
                ));
            }
            return self.fit_target(&raw, None, windows);
        }
        if !windows.target.is_inside(raw.width, raw.height) {
            proof {
                let decoded = Decoded { bundled, weights: None };
                assert(pictures_read(
                    custom,
                    portrait.target@,
                    portrait.weights@,
                    *windows,
                    decoded,
                ));
            }
            return Err(ProcessError::CropOutside);
        }
        match images::decode_rgb(&portrait.weights) {
            Ok(picture) => {
                proof {
                    let decoded = Decoded { bundled, weights: Some(picture@) };
                    assert(pictures_read(
                        custom,
                        portrait.target@,
                        portrait.weights@,
                        *windows,
                        decoded,
                    ));
                }
                self.fit_target(&raw, Some(picture), windows)
            },
            Err(error) => {
                proof {
                    let decoded = Decoded { bundled, weights: None };
                    assert(pictures_read(
                        custom,
                        portrait.target@,
                        portrait.weights@,
                        *windows,
                        decoded,
                    ));
                }
                Err(ProcessError::Decode(error))
            },
        }
    }
}

/// The pixels of the source and of the target, and the weights of the cells, at the asked
/// resolution.
pub fn get_images(
    source: SourceImg,
    settings: &GenerationSettings,
    portrait: &Portrait,
    windows: &CropWindows,
) -> (result: Result<(Vec<(u8, u8, u8)>, Vec<(u8, u8, u8)>, Vec<i64>), ProcessError>)
    requires
        source@.wf(),
    ensures
        match early_fault(settings.sidelen, source@, *windows) {
            Some(fault) => result matches Err(error) && reports(error, fault, settings.sidelen),
            None => exists|decoded: Decoded| #[trigger]
                pictures_read(
                    settings@.custom_target,
                    portrait.target@,
                    portrait.weights@,
                    *windows,
                    decoded,
                ) && match result {
                    Ok((source_pixels, target_pixels, cell_weights)) => target_fault(
                        settings@.custom_target,
                        decoded,
                        *windows,
                    ) is None && is_prepared(
                        settings.sidelen,
                        source@,
                        settings@.custom_target,
                        decoded,
                        *windows,
                        source_pixels@,
                        target_pixels@,
                        cell_weights@,
                    ),
                    Err(error) => target_fault(
                        settings@.custom_target,
                        decoded,
                        *windows,
                    ) matches Some(fault) && reports(error, fault, settings.sidelen),
                },
        },
        result matches Ok((source_pixels, target_pixels, cell_weights)) ==> {
            &&& source_pixels.len() == settings.sidelen * settings.sidelen
            &&& target_pixels.len() == settings.sidelen * settings.sidelen
            &&& cell_weights.len() == settings.sidelen * settings.sidelen
            &&& forall|i: int|
                0 <= i < cell_weights.len() ==> 0 <= #[trigger] cell_weights[i] <= 255
        },
{
    match validate_sidelen(settings.sidelen) {
        Ok(_) => {},
        Err(error) => {
            return Err(error);
        },
    }
    if !windows.source.is_inside(source.width, source.height) {
        return Err(ProcessError::CropOutside);
    }
    proof {
        assert(settings.sidelen * settings.sidelen <= 256 * 256) by (nonlinear_arith)
            requires
                0 <= settings.sidelen <= 256,
        ;
    }
    let fitted = windows.source.apply(&source, settings.sidelen);
    let source_pixels = fitted.pixels();
    match settings.get_target(portrait, windows) {
        Ok((target, cell_weights)) => {
            let target_pixels = target.pixels();
            proof {
                let custom = settings@.custom_target;
                let decoded = choose|decoded: Decoded| #[trigger]
                    pictures_read(
                        custom,
                        portrait.target@,
                        portrait.weights@,
                        *windows,
                        decoded,
                    ) && target_fault(custom, decoded, *windows) is None && is_target(
                        custom,
                        decoded,
                        *windows,
                        settings.sidelen,
                        target@,
                        cell_weights@,
                    );
                assert(is_target(
                    custom,
                    decoded,
                    *windows,
                    settings.sidelen,
                    target@,
                    cell_weights@,
                ));
                if custom is None {
                    let img = choose|img: ImgView| #[trigger]
                        images::fits_as(
                            decoded.weights->0,
                            windows.weights,
                            settings.sidelen,
                            img,
                        ) && cell_weights@ == images::red_weights(img);
                    assert(cell_weights@ == images::red_weights(img));
                }
            }
            Ok((source_pixels, target_pixels, cell_weights))
        },
        Err(error) => Err(error),
    }
}

/// An importance for 128 cells per side is brought to `side` cells by the square of the quotient,
/// rounded to the nearest integer, but not below one and not above what fits 64 bits. No importance
/// stays none.
pub proof fn importance_is_scaled_and_rounded(value: int, side: int, scaled: int)
    requires
        1 <= side,
        scaled == scaled_importance(value, side),
    ensures
        value <= 0 ==> scaled == 0,
        value > 0 ==> 1 <= scaled <= i64::MAX,
        value > 0 && scaled < i64::MAX ==> 2 * (value * 16384) < (2 * scaled + 1) * (side * side),
        value > 0 && scaled > 1 ==> (2 * scaled - 1) * (side * side) <= 2 * (value * 16384),
{
    let n = value * 128 * 128;
    let d = side * side;
    assert(d >= 1) by (nonlinear_arith)
        requires
            side >= 1,
            d == side * side,
    ;
    if value > 0 {
        let r = (n + d / 2) / d;
        assert(r * d <= n + d / 2 < r * d + d) by (nonlinear_arith)
            requires
                d >= 1,
                r == (n + d / 2) / d,
        ;
        assert((2 * r + 1) * d == 2 * (r * d) + d && (2 * r - 1) * d == 2 * (r * d) - d)
            by (nonlinear_arith);
        if r < 1 {
            assert(r * d <= 0) by (nonlinear_arith)
                requires
                    r <= 0,
                    d >= 1,
            ;
            assert((2 * 1 + 1) * d == 3 * d);
        } else if r > i64::MAX {
            let top = i64::MAX as int;
            assert((2 * top - 1) * d <= (2 * r - 1) * d) by (nonlinear_arith)
                requires
                    top <= r,
                    d >= 1,
            ;
        }
    }
}

/// Resolutions from 1 to 256 are accepted, and no others.
pub proof fn resolutions_from_1_to_256(sidelen: u32)
    ensures
        valid_sidelen(sidelen) <==> 1 <= sidelen <= 256,
{
}

/// Raw bytes make a picture exactly if it has pixels and there are three or four bytes for each; the
/// color of a pixel is what its first three bytes say.
pub proof fn raw_bytes_are_pixels(width: u32, height: u32, data: Seq<u8>, pixel: int, bytes: int)
    requires
        1 <= width,
        1 <= height,
        width * height * 4 <= usize::MAX,
        bytes == 3 || bytes == 4,
        data.len() == width * height * bytes,
        0 <= pixel < width * height,
    ensures
        raw_picture(width, height, data) matches Ok(img) && img.width == width && img.height
            == height && img.data.len() == 3 * (width * height) && img.pixel(pixel) == (
            data[bytes * pixel],
            data[bytes * pixel + 1],
            data[bytes * pixel + 2],
        ) && img.pixels()[pixel] == (
            data[bytes * pixel],
            data[bytes * pixel + 1],
            data[bytes * pixel + 2],
        ) && img.pixels().len() == width * height,
{
    let n = width * height;
    assert(n * 3 == 3 * n && n * 4 == 4 * n);
    assert(n >= 1) by (nonlinear_arith)
        requires
            n == width * height,
            width >= 1,
            height >= 1,
    ;
}

/// Raw bytes of any other number, or without pixels, make no picture.
pub proof fn other_numbers_of_bytes_are_refused(width: u32, height: u32, data: Seq<u8>)
    requires
        data.len() != width * height * 3,
        data.len() != width * height * 4,
    ensures
        raw_picture(width, height, data) is Err,
{
}

} // verus!
