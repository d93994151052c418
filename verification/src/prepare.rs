//! From a picture and settings to the matrix that a job works on.
use crate::buffers::copy_of;
use crate::cost;
use crate::cost::ImgDiffWeights;
use crate::errors::ProcessError;
use crate::images;
use crate::images::{CropWindow, ImgView};
use crate::preset::{PictureView, UnprocessedPreset};
use crate::settings;
use crate::settings::{CropWindows, Decoded, GenerationSettings, Portrait, SettingsView};
use vstd::prelude::*;

verus! {

/// What a job is given, apart from a sink and a stop flag.
pub struct Request {
    pub picture: PictureView,
    pub settings: SettingsView,
    pub target: Seq<u8>,
    pub weights: Seq<u8>,
    pub windows: CropWindows,
}

/// The request that these arguments make.
pub open spec fn request(
    picture: UnprocessedPreset,
    settings: GenerationSettings,
    portrait: Portrait,
    windows: CropWindows,
) -> Request {
    Request {
        picture: picture@,
        settings: settings@,
        target: portrait.target@,
        weights: portrait.weights@,
        windows,
    }
}

impl Request {
    /// The spatial weight that the settings ask for.
    pub open spec fn spatial_weight(self) -> int {
        settings::scaled_importance(
            self.settings.proximity_importance as int,
            self.settings.sidelen as int,
        )
    }

    /// The request is not refused, as far as that can be told before anything is decoded: its
    /// source can be prepared, and so can a custom target that can be read.
    pub open spec fn may_be_prepared(self) -> bool {
        &&& self.passes_early()
        &&& settings::is_readable(self.settings.custom_target) ==> {
            let (width, height, _) = self.settings.custom_target->0;
            self.windows.target.inside(width, height)
        }
    }

    /// Where costs may be computed, they can be added and compared within 64 bits.
    pub open spec fn affordable(self) -> bool {
        self.may_be_prepared() ==> cost::costs_comparable(
            self.settings.sidelen as int,
            self.spatial_weight(),
        )
    }

    /// Whether the encoded pictures of the request were decoded to these.
    pub open spec fn read_as(self, decoded: Decoded) -> bool {
        settings::pictures_read(
            self.settings.custom_target,
            self.target,
            self.weights,
            self.windows,
            decoded,
        )
    }

    /// The error that the request is refused with before anything is decoded.
    pub open spec fn refused_early_with(self, error: ProcessError) -> bool {
        match settings::raw_picture(
            self.picture.width,
            self.picture.height,
            self.picture.source_img,
        ) {
            Err(raw_error) => error == raw_error,
            Ok(source) => settings::early_fault(
                self.settings.sidelen,
                source,
                self.windows,
            ) matches Some(fault) && settings::reports(error, fault, self.settings.sidelen),
        }
    }

    /// The request is not refused before anything is decoded.
    pub open spec fn passes_early(self) -> bool {
        settings::raw_picture(
            self.picture.width,
            self.picture.height,
            self.picture.source_img,
        ) matches Ok(source) && settings::early_fault(
            self.settings.sidelen,
            source,
            self.windows,
        ) is None
    }

    /// What keeps the target from being prepared, if the encoded pictures were decoded to these.
    pub open spec fn late_fault(self, decoded: Decoded) -> Option<settings::PrepareFault> {
        settings::target_fault(self.settings.custom_target, decoded, self.windows)
    }

    /// The pictures cannot be prepared, and this error says why.
    pub open spec fn refused_with(self, error: ProcessError) -> bool {
        ||| self.refused_early_with(error)
        ||| self.passes_early() && exists|decoded: Decoded| #[trigger]
            self.read_as(decoded) && (self.late_fault(decoded) matches Some(fault)
                && settings::reports(error, fault, self.settings.sidelen))
    }

    /// A matrix of the pictures, prepared from what the encoded ones were decoded to.
    pub open spec fn is_matrix_for(self, m: ImgDiffWeights, decoded: Decoded) -> bool {
        &&& m.wf()
        &&& !m.negated
        &&& m.sidelen == self.settings.sidelen
        &&& m.spatial_weight == self.spatial_weight()
        &&& settings::is_prepared(
            self.settings.sidelen,
            settings::raw_picture(
                self.picture.width,
                self.picture.height,
                self.picture.source_img,
            )->Ok_0,
            self.settings.custom_target,
            decoded,
            self.windows,
            m.source@,
            m.target@,
            m.weights@,
        )
    }

    /// The pictures can be prepared, and this is a matrix of them.
    pub open spec fn asks_for(self, m: ImgDiffWeights) -> bool {
        &&& self.passes_early()
        &&& exists|decoded: Decoded| #[trigger]
            self.read_as(decoded) && self.late_fault(decoded) is None && self.is_matrix_for(
                m,
                decoded,
            )
    }
}

/// What decoding and resampling made of the pictures of a request: what the encoded ones were
/// decoded to, and all of them at the asked resolution.
pub struct Made {
    pub decoded: Decoded,
    pub source: ImgView,
    pub target: ImgView,
    pub weights: ImgView,
}

impl Request {
    /// The matrix was prepared from what decoding and resampling made.
    pub open spec fn is_made_of(self, m: ImgDiffWeights, made: Made) -> bool {
        let sidelen = self.settings.sidelen;
        let source = settings::raw_picture(
            self.picture.width,
            self.picture.height,
            self.picture.source_img,
        )->Ok_0;
        let custom = self.settings.custom_target;
        let target = settings::raw_target(custom, made.decoded.bundled);
        &&& self.passes_early()
        &&& self.read_as(made.decoded)
        &&& self.late_fault(made.decoded) is None
        &&& m.wf()
        &&& !m.negated
        &&& m.sidelen == sidelen
        &&& m.spatial_weight == self.spatial_weight()
        &&& images::fits_as(source, self.windows.source, sidelen, made.source)
        &&& m.source@ == made.source.pixels()
        &&& images::fits_as(target, self.windows.target, sidelen, made.target)
        &&& m.target@ == made.target.pixels()
        &&& if custom is Some {
            m.weights@ == Seq::new((sidelen * sidelen) as nat, |i: int| 255i64)
        } else {
            &&& images::fits_as(
                made.decoded.weights->0,
                self.windows.weights,
                sidelen,
                made.weights,
            )
            &&& m.weights@ == images::red_weights(made.weights)
        }
    }

    /// Both requests are about the same pictures at the same resolution. Names, identifiers and
    /// the importance of proximity may differ.
    pub open spec fn is_about_the_same_as(self, other: Request) -> bool {
        &&& self.picture.width == other.picture.width
        &&& self.picture.height == other.picture.height
        &&& self.picture.source_img == other.picture.source_img
        &&& self.settings.sidelen == other.settings.sidelen
        &&& self.settings.custom_target == other.settings.custom_target
        &&& self.target == other.target
        &&& self.weights == other.weights
        &&& self.windows == other.windows
    }

    /// Nothing is decoded or resampled: there is a custom target that can be read, and the
    /// windows have the asked resolution.
    pub open spec fn is_self_contained(self) -> bool {
        &&& settings::is_readable(self.settings.custom_target)
        &&& self.windows.source.side == self.settings.sidelen
        &&& self.windows.target.side == self.settings.sidelen
    }

    /// Decoding and resampling made the same of two requests, or had nothing to do.
    pub open spec fn is_made_like(
        self,
        m: ImgDiffWeights,
        other: Request,
        other_m: ImgDiffWeights,
    ) -> bool {
        ||| self.is_self_contained()
        ||| exists|made: Made| #[trigger]
            self.is_made_of(m, made) && other.is_made_of(other_m, made)
    }
}

/// A request asks for exactly the matrices that come of decoding and resampling its pictures.
pub proof fn matrices_are_made_of_pictures(asked: Request, m: ImgDiffWeights)
    ensures
        asked.asks_for(m) <==> exists|made: Made| asked.is_made_of(m, made),
{
    let sidelen = asked.settings.sidelen;
    let custom = asked.settings.custom_target;
    let source = settings::raw_picture(
        asked.picture.width,
        asked.picture.height,
        asked.picture.source_img,
    )->Ok_0;
    if asked.asks_for(m) {
        let decoded = choose|decoded: Decoded| #[trigger]
            asked.read_as(decoded) && asked.late_fault(decoded) is None && asked.is_matrix_for(
                m,
                decoded,
            );
        let fitted_source = choose|img: ImgView| #[trigger]
            images::fits_as(source, asked.windows.source, sidelen, img) && m.source@
                == img.pixels();
        let fitted_target = choose|img: ImgView| #[trigger]
            settings::is_target(custom, decoded, asked.windows, sidelen, img, m.weights@)
                && m.target@ == img.pixels();
        let fitted_weights = choose|img: ImgView| #[trigger]
            images::fits_as(decoded.weights->0, asked.windows.weights, sidelen, img) && m.weights@
                == images::red_weights(img);
        let made = Made {
            decoded,
            source: fitted_source,
            target: fitted_target,
            weights: fitted_weights,
        };
        assert(asked.is_made_of(m, made));
    }
    if exists|made: Made| asked.is_made_of(m, made) {
        let made = choose|made: Made| asked.is_made_of(m, made);
        let decoded = made.decoded;
        assert(images::fits_as(source, asked.windows.source, sidelen, made.source));
        assert(settings::is_target(
            custom,
            decoded,
            asked.windows,
            sidelen,
            made.target,
            m.weights@,
        ));
        assert(asked.read_as(decoded));
        assert(asked.is_matrix_for(m, decoded));
    }
}

/// Requests about the same pictures, of which decoding and resampling made the same or which
/// leave them nothing to do, lead to the same pixels and weights; with the same importance of
/// proximity, to matrices that hold the same.
pub proof fn equal_requests_ask_for_equal_matrices(
    asked: Request,
    m: ImgDiffWeights,
    other_asked: Request,
    other: ImgDiffWeights,
)
    requires
        asked.is_about_the_same_as(other_asked),
        asked.asks_for(m),
        other_asked.asks_for(other),
        asked.is_made_like(m, other_asked, other),
    ensures
        m.source@ == other.source@,
        m.target@ == other.target@,
        m.weights@ == other.weights@,
        m.sidelen == other.sidelen,
        asked.settings.proximity_importance == other_asked.settings.proximity_importance
            ==> m.holds_the_same(other),
{
    matrices_are_made_of_pictures(asked, m);
    matrices_are_made_of_pictures(other_asked, other);
    if asked.is_self_contained() {
        let made = choose|made: Made| asked.is_made_of(m, made);
        let other_made = choose|made: Made| other_asked.is_made_of(other, made);
        assert(made.source == other_made.source);
        assert(made.target == other_made.target);
    } else {
        let made = choose|made: Made| #[trigger]
            asked.is_made_of(m, made) && other_asked.is_made_of(other, made);
    }
}

/// Requests about the same pictures that leave decoding and resampling nothing to do are both
/// granted, or both refused with the same error.
pub proof fn self_contained_requests_are_decided(asked: Request, other: Request)
    requires
        asked.is_about_the_same_as(other),
        asked.is_self_contained(),
    ensures
        forall|m: ImgDiffWeights, error: ProcessError| #[trigger]
            asked.asks_for(m) ==> !#[trigger] other.refused_with(error),
        forall|one: ProcessError, two: ProcessError| #[trigger]
            asked.refused_with(one) && #[trigger] other.refused_with(two) ==> one == two,
{
}

/// A request is either refused before anything is decoded, or decoding decides.
pub proof fn early_refusals_do_not_depend_on_decoding(asked: Request)
    ensures
        asked.passes_early() <==> !exists|error: ProcessError| asked.refused_early_with(error),
{
    match settings::raw_picture(
        asked.picture.width,
        asked.picture.height,
        asked.picture.source_img,
    ) {
        Err(error) => {
            assert(asked.refused_early_with(error));
        },
        Ok(source) => {
            let fault = settings::early_fault(asked.settings.sidelen, source, asked.windows);
            if fault is Some {
                let error = match fault->0 {
                    settings::PrepareFault::Resolution => ProcessError::Resolution(
                        asked.settings.sidelen,
                    ),
                    _ => ProcessError::CropOutside,
                };
                assert(asked.refused_early_with(error));
            }
        },
    }
}

/// With a custom target that can be read, what the encoded pictures are decoded to makes no
/// difference.
pub proof fn readable_targets_take_the_place_of_the_portrait(
    asked: Request,
    m: ImgDiffWeights,
    one: Decoded,
    other: Decoded,
)
    requires
        settings::is_readable(asked.settings.custom_target),
    ensures
        asked.read_as(one),
        asked.late_fault(one) == asked.late_fault(other),
        asked.is_matrix_for(m, one) == asked.is_matrix_for(m, other),
{
    let custom = asked.settings.custom_target;
    assert(settings::raw_target(custom, one.bundled) == settings::raw_target(
        custom,
        other.bundled,
    ));
    assert forall|img: ImgView|
        settings::is_target(custom, one, asked.windows, asked.settings.sidelen, img, m.weights@)
            == #[trigger] settings::is_target(
            custom,
            other,
            asked.windows,
            asked.settings.sidelen,
            img,
            m.weights@,
        ) by {}
    if asked.is_matrix_for(m, one) {
        let img = choose|img: ImgView| #[trigger]
            settings::is_target(
                custom,
                one,
                asked.windows,
                asked.settings.sidelen,
                img,
                m.weights@,
            ) && m.target@ == img.pixels();
        assert(settings::is_target(
            custom,
            other,
            asked.windows,
            asked.settings.sidelen,
            img,
            m.weights@,
        ));
    }
    if asked.is_matrix_for(m, other) {
        let img = choose|img: ImgView| #[trigger]
            settings::is_target(
                custom,
                other,
                asked.windows,
                asked.settings.sidelen,
                img,
                m.weights@,
            ) && m.target@ == img.pixels();
        assert(settings::is_target(
            custom,
            one,
            asked.windows,
            asked.settings.sidelen,
            img,
            m.weights@,
        ));
    }
}

/// Whether the costs that these settings lead to can be added and compared within 64 bits.
pub fn importance_fits(proximity_importance: i64, sidelen: u32) -> (fits: bool)
    requires
        settings::valid_sidelen(sidelen),
    ensures
        fits == cost::costs_comparable(
            sidelen as int,
            settings::scaled_importance(proximity_importance as int, sidelen as int),
        ),
{
    let weight: i64 = settings::normalized_proximity_importance(proximity_importance, sidelen);
    cost::are_costs_comparable(sidelen as usize, weight)
}

/// Tells whether costs can be added and compared within 64 bits where a job may compute them.
pub fn is_affordable(
    unprocessed: &UnprocessedPreset,
    settings: &GenerationSettings,
    portrait: &Portrait,
    windows: &CropWindows,
) -> (affordable: bool)
    ensures
        affordable == request(*unprocessed, *settings, *portrait, *windows).affordable(),
{
    match settings::validate_sidelen(settings.sidelen) {
        Ok(_) => {},
        Err(_) => {
            return true;
        },
    }
    match settings::rgb_image_from_raw(
        unprocessed.width,
        unprocessed.height,
        copy_of(&unprocessed.source_img),
    ) {
        Ok(source) => {
            if !windows.source.is_inside(source.width, source.height) {
                return true;
            }
        },
        Err(_) => {
            return true;
        },
    }
    match &settings.custom_target {
        Some((width, height, data)) => {
            match settings::rgb_image_from_raw(*width, *height, copy_of(data)) {
                Ok(_) => {
                    if !windows.target.is_inside(*width, *height) {
                        return true;
                    }
                },
                Err(_) => {},
            }
        },
        None => {},
    }
    importance_fits(settings.proximity_importance, settings.sidelen)
}

/// Prepares the pictures of a job.
pub fn prepare(
    unprocessed: &UnprocessedPreset,
    settings: &GenerationSettings,
    portrait: &Portrait,
    windows: &CropWindows,
) -> (result: Result<ImgDiffWeights, ProcessError>)
    requires
        request(*unprocessed, *settings, *portrait, *windows).affordable(),
    ensures
        match result {
            Ok(m) => request(*unprocessed, *settings, *portrait, *windows).asks_for(m),
            Err(error) => request(*unprocessed, *settings, *portrait, *windows).refused_with(error),
        },
{
    let ghost asked = request(*unprocessed, *settings, *portrait, *windows);
    let source = match settings::rgb_image_from_raw(
        unprocessed.width,
        unprocessed.height,
        copy_of(&unprocessed.source_img),
    ) {
        Ok(source) => source,
        Err(error) => {
            return Err(error);
        },
    };
    match settings::get_images(source, settings, portrait, windows) {
        Ok((source, target, weights)) => {
            let m = ImgDiffWeights {
                source,
                target,
                weights,
                sidelen: settings.sidelen as usize,
                spatial_weight: settings::normalized_proximity_importance(
                    settings.proximity_importance,
                    settings.sidelen,
                ),
                negated: false,
            };
            proof {
                let source = settings::raw_picture(
                    unprocessed.width,
                    unprocessed.height,
                    unprocessed.source_img@,
                )->Ok_0;
                let decoded = choose|decoded: Decoded| #[trigger]
                    settings::pictures_read(
                        settings@.custom_target,
                        portrait.target@,
                        portrait.weights@,
                        *windows,
                        decoded,
                    ) && settings::target_fault(settings@.custom_target, decoded, *windows) is None
                        && settings::is_prepared(
                        settings.sidelen,
                        source,
                        settings@.custom_target,
                        decoded,
                        *windows,
                        m.source@,
                        m.target@,
                        m.weights@,
                    );
                assert(asked.read_as(decoded));
                assert(asked.is_matrix_for(m, decoded));
            }
            Ok(m)
        },
        Err(error) => {
            proof {
                if asked.passes_early() {
                    let decoded = choose|decoded: Decoded| #[trigger]
                        settings::pictures_read(
                            settings@.custom_target,
                            portrait.target@,
                            portrait.weights@,
                            *windows,
                            decoded,
                        ) && (settings::target_fault(
                            settings@.custom_target,
                            decoded,
                            *windows,
                        ) matches Some(fault) && settings::reports(
                            error,
                            fault,
                            settings.sidelen,
                        ));
                    assert(asked.read_as(decoded));
                }
            }
            Err(error)
        },
    }
}

/// Where nothing is decoded or resampled, each cell of the matrix has the color of the source and of
/// the custom target at its place of the windows, and the full weight; the importance is that of the
/// settings at the resolution.
pub proof fn self_contained_matrices_hold_the_pictures(
    asked: Request,
    m: ImgDiffWeights,
    bytes: int,
    target_bytes: int,
    x: int,
    y: int,
)
    requires
        asked.asks_for(m),
        asked.is_self_contained(),
        bytes == 3 || bytes == 4,
        target_bytes == 3 || target_bytes == 4,
        asked.picture.source_img.len() == asked.picture.width * asked.picture.height * bytes,
        ({
            let (width, height, data) = asked.settings.custom_target->0;
            data.len() == width * height * target_bytes
        }),
        0 <= x < asked.settings.sidelen,
        0 <= y < asked.settings.sidelen,
    ensures
        ({
            let side = asked.settings.sidelen as int;
            let cell = y * side + x;
            let windows = asked.windows;
            let (width, height, data) = asked.settings.custom_target->0;
            let from = bytes * ((windows.source.y + y) * asked.picture.width + (windows.source.x
                + x));
            let to = target_bytes * ((windows.target.y + y) * width + (windows.target.x + x));
            let source = asked.picture.source_img;
            &&& m.sidelen == side
            &&& m.source[cell] == (source[from], source[from + 1], source[from + 2])
            &&& m.target[cell] == (data[to], data[to + 1], data[to + 2])
            &&& m.weights[cell] == 255
            &&& m.spatial_weight == settings::scaled_importance(
                asked.settings.proximity_importance as int,
                side,
            )
            &&& !m.negated
        }),
{
    matrices_are_made_of_pictures(asked, m);
    let made = choose|made: Made| asked.is_made_of(m, made);
    let side = asked.settings.sidelen as int;
    let (width, height, data) = asked.settings.custom_target->0;
    let picture = asked.picture;
    let source = settings::raw_picture(picture.width, picture.height, picture.source_img)->Ok_0;
    let target = settings::raw_picture(width, height, data)->Ok_0;
    let windows = asked.windows;
    crate::genetic::lemma_index_of_cell(x, y, side);
    lemma_raw_pixel(picture.width, picture.height, picture.source_img, bytes, windows.source, x, y);
    lemma_raw_pixel(width, height, data, target_bytes, windows.target, x, y);
    images::windows_of_the_asked_size_are_taken_as_they_are(
        source,
        windows.source,
        asked.settings.sidelen,
        made.source,
        x,
        y,
    );
    images::windows_of_the_asked_size_are_taken_as_they_are(
        target,
        windows.target,
        asked.settings.sidelen,
        made.target,
        x,
        y,
    );
}

proof fn lemma_raw_pixel(
    width: u32,
    height: u32,
    data: Seq<u8>,
    bytes: int,
    window: CropWindow,
    x: int,
    y: int,
)
    requires
        settings::raw_picture(width, height, data) is Ok,
        bytes == 3 || bytes == 4,
        data.len() == width * height * bytes,
        window.inside(width, height),
        0 <= x < window.side,
        0 <= y < window.side,
    ensures
        ({
            let img = settings::raw_picture(width, height, data)->Ok_0;
            let from = bytes * ((window.y + y) * width + (window.x + x));
            &&& img.wf()
            &&& img.width == width
            &&& img.height == height
            &&& img.pixel((window.y + y) * width + (window.x + x)) == (
                data[from],
                data[from + 1],
                data[from + 2],
            )
        }),
{
    let (u, v) = (window.x + x, window.y + y);
    let at = v * width + u;
    assert(0 <= at < width * height) by (nonlinear_arith)
        requires
            at == v * width + u,
            0 <= u < width,
            0 <= v < height,
    ;
    settings::raw_bytes_are_pixels(width, height, data, at, bytes);
}

/// A request passes the first tests exactly if its picture has pixels that fit the memory of the
/// machine, three or four bytes for each, a resolution from 1 to 256, and a window that lies inside the
/// picture.
pub proof fn requests_pass_the_first_tests(asked: Request)
    ensures
        ({
            let (width, height) = (asked.picture.width, asked.picture.height);
            let bytes = asked.picture.source_img.len();
            let window = asked.windows.source;
            asked.passes_early() <==> {
                &&& width > 0
                &&& height > 0
                &&& width * height * 4 <= usize::MAX
                &&& bytes == width * height * 3 || bytes == width * height * 4
                &&& 1 <= asked.settings.sidelen <= 256
                &&& window.side >= 1
                &&& window.x + window.side <= width
                &&& window.y + window.side <= height
            }
        }),
{
    let pixels = asked.picture.width * asked.picture.height;
    assert(pixels >= 0) by (nonlinear_arith)
        requires
            pixels == asked.picture.width * asked.picture.height,
    ;
}

/// Without a custom target that can be read, the portrait is decoded. Where it need not be resampled, each
/// cell of the matrix has the color of the portrait at its place of the window; a portrait that cannot be
/// read is a single black pixel. With a custom target all weights are full, and without one they are the
/// red bytes of the decoded weights.
pub proof fn matrices_hold_the_portrait(asked: Request, m: ImgDiffWeights, x: int, y: int) -> (pictures:
    (Option<ImgView>, ImgView))
    requires
        asked.asks_for(m),
        !settings::is_readable(asked.settings.custom_target),
        asked.windows.target.side == asked.settings.sidelen,
        asked.windows.weights.side == asked.settings.sidelen,
        0 <= x < asked.settings.sidelen,
        0 <= y < asked.settings.sidelen,
    ensures
        ({
            let (portrait, weights) = pictures;
            let side = asked.settings.sidelen as int;
            let cell = y * side + x;
            let (to, by) = (asked.windows.target, asked.windows.weights);
            &&& images::decoding_gives(
                asked.target,
                match portrait {
                    Some(img) => Some((img.width, img.height, img.data)),
                    None => None,
                },
            )
            &&& asked.settings.custom_target is None ==> images::decoding_gives(
                asked.weights,
                Some((weights.width, weights.height, weights.data)),
            )
            &&& m.target[cell] == match portrait {
                Some(img) => ({
                    let from = 3 * ((to.y + y) * img.width + (to.x + x));
                    (img.data[from], img.data[from + 1], img.data[from + 2])
                }),
                None => (0u8, 0u8, 0u8),
            }
            &&& asked.settings.custom_target is None ==> m.weights[cell] == weights.data[3 * ((by.y
                + y) * weights.width + (by.x + x))]
            &&& asked.settings.custom_target is Some ==> m.weights[cell] == 255
        }),
{
    matrices_are_made_of_pictures(asked, m);
    let made = choose|made: Made| asked.is_made_of(m, made);
    let side = asked.settings.sidelen;
    let custom = asked.settings.custom_target;
    let portrait = made.decoded.bundled;
    let weights = made.decoded.weights->0;
    let target = settings::raw_target(custom, portrait);
    crate::genetic::lemma_index_of_cell(x, y, side as int);
    let cell = y * side + x;
    lemma_window_pixel(target, asked.windows.target, side, x, y);
    lemma_window_pixel(weights, asked.windows.weights, side, x, y);
    assert(made.target == images::cropped(target, asked.windows.target));
    if custom is None {
        assert(made.weights == images::cropped(weights, asked.windows.weights));
    }
    if portrait is None {
        assert(asked.windows.target.side == 1 && asked.windows.target.x == 0
            && asked.windows.target.y == 0);
        assert((0 + 0) * 1 + (0 + 0) == 0);
    }
    (portrait, weights)
}

proof fn lemma_window_pixel(img: ImgView, window: CropWindow, side: u32, x: int, y: int)
    requires
        window.side == side,
        0 <= x < side,
        0 <= y < side,
    ensures
        ({
            let part = images::cropped(img, window);
            let from = 3 * ((window.y + y) * img.width + (window.x + x));
            &&& part.pixel(y * side + x) == (img.data[from], img.data[from + 1], img.data[from + 2])
            &&& part.width == side
            &&& part.height == side
        }),
{
    let s = side as int;
    crate::genetic::lemma_index_of_cell(x, y, s);
    let part = images::cropped(img, window);
    let at = y * s + x;
    let from = 3 * ((window.y + y) * img.width + (window.x + x));
    assert(s * s * 3 == 3 * (s * s));
    assert forall|k: int| 0 <= k < 3 implies #[trigger] part.data[at * 3 + k] == img.data[from + k] by {
        let i = at * 3 + k;
        assert(i / 3 == at && i % 3 == k);
        assert(0 <= i < s * s * 3);
    }
    assert(part.data[at * 3 + 0] == img.data[from + 0]);
}

/// A request can be afforded if its costs can be compared, and cannot if they cannot be and there is
/// nothing that it could be refused for: it passes the first tests, and has no custom target, one of
/// another length than its size asks for, or one that its window lies in.
pub proof fn requests_are_affordable_if_costs_compare(asked: Request)
    ensures
        ({
            let comparable = cost::costs_comparable(
                asked.settings.sidelen as int,
                asked.spatial_weight(),
            );
            let window = asked.windows.target;
            &&& comparable ==> asked.affordable()
            &&& !asked.passes_early() ==> asked.affordable()
            &&& !comparable && asked.passes_early() ==> match asked.settings.custom_target {
                None => !asked.affordable(),
                Some((width, height, data)) => {
                    let pixels = width * height;
                    &&& data.len() != pixels * 3 && data.len() != pixels * 4 ==> !asked.affordable()
                    &&& window.side >= 1 && window.x + window.side <= width && window.y + window.side
                        <= height ==> !asked.affordable()
                },
            }
        }),
{
}

} // verus!
