//! Recording the animation as a GIF.
use crate::gif_file;
use crate::gif_file::GifEncoder;
use crate::text;
use vstd::prelude::*;
use vstd::string::*;

verus! {

pub const GIF_FRAMERATE: u32 = 8;

pub const GIF_RESOLUTION: u32 = 400;

pub const GIF_MAX_FRAMES: u32 = 140;

pub const GIF_MIN_FRAMES: u32 = 100;

/// Ten megabytes.
pub const GIF_MAX_SIZE: usize = 10485760;

/// The animation is shown one and a half times as fast as it is recorded.
pub const GIF_SPEED_NUMERATOR: u32 = 3;

pub const GIF_SPEED_DENOMINATOR: u32 = 2;

pub const GIF_PALETTE_SAMPLEFAC: i32 = 1;

/// Rows of a picture that is read back from the graphics card start at multiples of this many
/// bytes.
pub const READBACK_ALIGNMENT: u32 = 256;

#[verifier::external_type_specification]
#[verifier::external_body]
pub struct ExPathBuf(std::path::PathBuf);

/// What becomes of a recording.
#[derive(Debug)]
pub enum GifStatus {
    Idle,
    Recording,
    Saving,
    Cancelled,
    Complete(std::path::PathBuf),
    Error(String),
}

impl GifStatus {
    pub fn is_recording(&self) -> (recording: bool)
        ensures
            recording == (self is Recording),
    {
        matches!(self, GifStatus::Recording)
    }

    pub fn not_recording(&self) -> (idle: bool)
        ensures
            idle == (self is Idle),
    {
        matches!(self, GifStatus::Idle)
    }
}

/// How an attempt to save a recording in the background ended.
pub enum GifSaveResult {
    Complete,
    Cancelled,
    Error(String),
}

/// What has come back from the graphics card of the picture that was asked for.
pub enum Readback {
    Pending,
    Mapped(Vec<u8>),
    Failed,
}

/// Why a recording cannot go on.
pub enum GifError {
    ReadbackFailed,
    NoEncoder,
    NoPalette,
    NoColors,
    Encoding(gif::EncodingError),
}

impl GifError {
    /// The error in words; those of an encoding error are the encoder's own.
    pub fn message(&self) -> (words: String)
        ensures
            match self {
                GifError::ReadbackFailed => words@
                    == "GPU readback failed while recording the GIF"@,
                GifError::NoEncoder => words@ == "No encoder"@,
                GifError::NoPalette => words@ == "No GIF palette"@,
                GifError::NoColors => words@ == "Cannot record a GIF without colors"@,
                GifError::Encoding(_) => true,
            },
    {
        match self {
            GifError::ReadbackFailed => "GPU readback failed while recording the GIF".to_owned(),
            GifError::NoEncoder => "No encoder".to_owned(),
            GifError::NoPalette => "No GIF palette".to_owned(),
            GifError::NoColors => "Cannot record a GIF without colors".to_owned(),
            GifError::Encoding(error) => gif_file::encoding_error_text(error),
        }
    }
}

/// How long each frame is shown, in hundredths of a second.
pub open spec fn frame_delay() -> int {
    100 * GIF_SPEED_DENOMINATOR / (GIF_FRAMERATE * GIF_SPEED_NUMERATOR) as int
}

/// How many bytes a row of a picture takes when it is read back.
pub open spec fn padded_row(width: int) -> int {
    (width * 4 + READBACK_ALIGNMENT - 1) / (READBACK_ALIGNMENT as int) * READBACK_ALIGNMENT
}

/// The bytes of a picture without what fills up its rows.
pub open spec fn without_padding(mapped: Seq<u8>, width: int, height: int) -> Seq<u8> {
    Seq::new(
        (width * 4 * height) as nat,
        |i: int| mapped[i / (width * 4) * padded_row(width) + i % (width * 4)],
    )
}

/// How a picture of the size of a recording is laid out when it is read back.
pub struct ReadbackLayout {
    pub bytes_per_row: u32,
    pub rows: u32,
    pub buffer_size: u64,
}

/// How a picture is laid out when it is read back; it must have the size of a recording.
pub fn readback_layout(width: u32, height: u32) -> (result: Result<ReadbackLayout, String>)
    ensures
        match result {
            Ok(layout) => {
                &&& width == GIF_RESOLUTION
                &&& height == GIF_RESOLUTION
                &&& layout.bytes_per_row == padded_row(width as int)
                &&& layout.rows == height
                &&& layout.buffer_size == padded_row(width as int) * height
            },
            Err(words) => {
                &&& width != GIF_RESOLUTION || height != GIF_RESOLUTION
                &&& words@ == "GIF readback size must be "@ + text::decimal(400) + "×"@
                    + text::decimal(400) + ", got "@ + text::decimal(width as nat) + "×"@
                    + text::decimal(height as nat)
            },
        },
{
    if width != GIF_RESOLUTION || height != GIF_RESOLUTION {
        let mut words = text::numbered("GIF readback size must be ", 400, "×");
        words.append(text::numbered("", 400, ", got ").as_str());
        words.append(text::numbered("", width as usize, "×").as_str());
        words.append(text::decimal_text(height as usize).as_str());
        proof {
            reveal_strlit("");
            assert(words@ =~= "GIF readback size must be "@ + text::decimal(400) + "×"@
                + text::decimal(400) + ", got "@ + text::decimal(width as nat) + "×"@
                + text::decimal(height as nat));
        }
        return Err(words);
    }
    let bytes_per_row: u32 = (width * 4 + READBACK_ALIGNMENT - 1) / READBACK_ALIGNMENT
        * READBACK_ALIGNMENT;
    assert(bytes_per_row == 1792);
    assert(bytes_per_row * height == 716800) by (nonlinear_arith)
        requires
            bytes_per_row == 1792,
            height == 400,
    ;
    Ok(
        ReadbackLayout {
            bytes_per_row,
            rows: height,
            buffer_size: bytes_per_row as u64 * GIF_RESOLUTION as u64,
        },
    )
}

/// Drops what fills up the rows of a picture of the size of a recording.
pub fn remove_padding(mapped: &Vec<u8>) -> (rgba: Vec<u8>)
    requires
        mapped.len() >= 1792 * 399 + 1600,
    ensures
        rgba@ == without_padding(mapped@, 400, 400),
        rgba.len() == 640000,
{
    let row: usize = GIF_RESOLUTION as usize * 4;
    let padded: usize = (row + READBACK_ALIGNMENT as usize - 1) / READBACK_ALIGNMENT as usize
        * READBACK_ALIGNMENT as usize;
    let mut rgba: Vec<u8> = Vec::with_capacity(640000);
    for y in 0..400usize
        invariant
            row == 1600,
            padded == 1792,
            mapped.len() >= 1792 * 399 + 1600,
            rgba.len() == y * 1600,
            forall|i: int|
                0 <= i < rgba.len() ==> #[trigger] rgba[i] == mapped[i / 1600 * 1792 + i % 1600],
    {
        for x in 0..row
            invariant
                y < 400,
                row == 1600,
                padded == 1792,
                mapped.len() >= 1792 * 399 + 1600,
                rgba.len() == y * 1600 + x,
                forall|i: int|
                    0 <= i < rgba.len() ==> #[trigger] rgba[i] == mapped[i / 1600 * 1792 + i
                        % 1600],
        {
            rgba.push(mapped[y * padded + x]);
        }
    }
    assert(rgba@ =~= without_padding(mapped@, 400, 400));
    rgba
}

/// What a status holds.
pub enum StatusView {
    Idle,
    Recording,
    Saving,
    Cancelled,
    Complete(std::path::PathBuf),
    Error(Seq<char>),
}

impl View for GifStatus {
    type V = StatusView;

    open spec fn view(&self) -> StatusView {
        match self {
            GifStatus::Idle => StatusView::Idle,
            GifStatus::Recording => StatusView::Recording,
            GifStatus::Saving => StatusView::Saving,
            GifStatus::Cancelled => StatusView::Cancelled,
            GifStatus::Complete(path) => StatusView::Complete(*path),
            GifStatus::Error(words) => StatusView::Error(words@),
        }
    }
}

/// What the result of saving in the background holds.
pub enum SaveResultView {
    Complete,
    Cancelled,
    Error(Seq<char>),
}

impl View for GifSaveResult {
    type V = SaveResultView;

    open spec fn view(&self) -> SaveResultView {
        match self {
            GifSaveResult::Complete => SaveResultView::Complete,
            GifSaveResult::Cancelled => SaveResultView::Cancelled,
            GifSaveResult::Error(words) => SaveResultView::Error(words@),
        }
    }
}

/// What becomes of a recording, given the results of saving that have come in. Only the first
/// one of this recording counts, and only while the recording is being saved.
pub open spec fn settled(
    status: StatusView,
    id: u32,
    results: Seq<(u32, SaveResultView)>,
) -> StatusView
    decreases results.len(),
{
    if results.len() == 0 {
        status
    } else if results.first().0 != id || status !is Saving {
        settled(status, id, results.drop_first())
    } else {
        match results.first().1 {
            SaveResultView::Complete => StatusView::Error("unexpected asynchronous save result"@),
            SaveResultView::Cancelled => StatusView::Cancelled,
            SaveResultView::Error(words) => StatusView::Error(words),
        }
    }
}

/// The number of the next recording.
pub open spec fn next_id(id: u32) -> u32 {
    if id == u32::MAX {
        0
    } else {
        (id + 1) as u32
    }
}

/// The bytes of colors, one after the other.
pub open spec fn color_bytes(colors: Seq<[u8; 4]>) -> Seq<u8> {
    Seq::new(colors.len() * 4, |i: int| colors[i / 4]@[i % 4])
}

/// The number of the nearest color of a palette for each pixel.
pub open spec fn color_numbers(palette: Seq<u8>, rgba: Seq<u8>) -> Seq<u8> {
    Seq::new(
        rgba.len() / 4,
        |i: int| gif_file::nearest_color(palette, rgba.subrange(i * 4, i * 4 + 4)) as u8,
    )
}

/// The animation with a palette that shows frames of color numbers, as it is written up to
/// its last frame.
pub open spec fn animation(palette: Seq<u8>, frames: Seq<Seq<u8>>) -> Seq<u8>
    decreases frames.len(),
{
    if frames.len() == 0 {
        gif_file::gif_header(400, 400, gif_file::opaque_colors(palette))
            + gif_file::repeat_forever()
    } else {
        animation(palette, frames.drop_last()) + gif_file::gif_frame(
            400,
            400,
            frames.last(),
            frame_delay() as u16,
        )
    }
}

/// The number of the nearest color of a palette for each pixel.
fn number_colors(palette: &color_quant::NeuQuant, rgba: &Vec<u8>) -> (numbers: Vec<u8>)
    ensures
        numbers@ == color_numbers(gif_file::palette_rgba(*palette), rgba@),
{
    let count: usize = rgba.len() / 4;
    let mut numbers: Vec<u8> = Vec::with_capacity(count);
    for i in 0..count
        invariant
            count == rgba.len() / 4,
            numbers.len() == i,
            forall|j: int|
                0 <= j < i ==> #[trigger] numbers[j] == color_numbers(
                    gif_file::palette_rgba(*palette),
                    rgba@,
                )[j],
    {
        let pixel: &[u8] = vstd::slice::slice_subrange(rgba.as_slice(), i * 4, i * 4 + 4);
        let index: usize = palette.index_of(pixel);
        numbers.push(index as u8);
    }
    assert(numbers@ =~= color_numbers(gif_file::palette_rgba(*palette), rgba@));
    numbers
}

/// The bytes of colors, one after the other.
fn flatten_colors(colors: &[[u8; 4]]) -> (bytes: Vec<u8>)
    requires
        colors.len() * 4 <= usize::MAX,
    ensures
        bytes@ == color_bytes(colors@),
{
    let mut bytes: Vec<u8> = Vec::with_capacity(colors.len() * 4);
    for i in 0..colors.len()
        invariant
            colors.len() * 4 <= usize::MAX,
            bytes.len() == i * 4,
            forall|j: int| 0 <= j < i * 4 ==> #[trigger] bytes[j] == color_bytes(colors@)[j],
    {
        let color: [u8; 4] = colors[i];
        bytes.push(color[0]);
        bytes.push(color[1]);
        bytes.push(color[2]);
        bytes.push(color[3]);
    }
    assert(bytes@ =~= color_bytes(colors@));
    bytes
}

/// Bytes as a list of numbers.
pub open spec fn listed(data: Seq<u8>) -> Seq<char>
    decreases data.len(),
{
    if data.len() == 0 {
        Seq::empty()
    } else if data.len() == 1 {
        text::decimal(data[0] as nat)
    } else {
        listed(data.drop_last()) + ", "@ + text::decimal(data.last() as nat)
    }
}

/// Whether words show a status. Which words stand for a path is not told.
pub open spec fn shows(words: Seq<char>, status: StatusView) -> bool {
    match status {
        StatusView::Idle => words == "None"@,
        StatusView::Recording => words == "Recording"@,
        StatusView::Saving => words == "Saving"@,
        StatusView::Cancelled => words == "Cancelled"@,
        StatusView::Complete(_) => exists|place: Seq<char>|
            words == #[trigger] enclosed("Complete("@, place),
        StatusView::Error(error) => words == enclosed("Error("@, text::quotation(error)),
    }
}

/// Words after an opening, with the bracket closed behind them.
pub open spec fn enclosed(opening: Seq<char>, words: Seq<char>) -> Seq<char> {
    opening + words + ")"@
}

/// Whether words report a recording that ended when it was not going on.
pub open spec fn is_report_of(words: Seq<char>, status: StatusView, data: Seq<u8>) -> bool {
    exists|shown: Seq<char>| #[trigger]
        shows(shown, status) && words == "Something weird happened: ("@ + shown + ", Ok(["@
            + listed(data) + "]))"@
}

fn list_bytes(data: &Vec<u8>) -> (words: String)
    ensures
        words@ == listed(data@),
{
    let mut words = String::new();
    assert(words@ =~= listed(data@.take(0)));
    for i in 0..data.len()
        invariant
            words@ == listed(data@.take(i as int)),
    {
        if i > 0 {
            words.append(", ");
        }
        words.append(text::decimal_text(data[i] as usize).as_str());
        proof {
            let longer = data@.take(i + 1);
            assert(longer.drop_last() =~= data@.take(i as int));
            assert(words@ =~= listed(longer));
        }
    }
    assert(data@.take(data@.len() as int) =~= data@);
    words
}

fn report_of(status: &GifStatus, data: &Vec<u8>) -> (words: String)
    ensures
        is_report_of(words@, status@, data@),
{
    let shown: String = match status {
        GifStatus::Idle => "None".to_owned(),
        GifStatus::Recording => "Recording".to_owned(),
        GifStatus::Saving => "Saving".to_owned(),
        GifStatus::Cancelled => "Cancelled".to_owned(),
        GifStatus::Complete(path) => {
            let place: String = text::quoted_path(path);
            let mut shown = "Complete(".to_owned();
            shown.append(place.as_str());
            shown.append(")");
            assert(shown@ == enclosed("Complete("@, place@));
            shown
        },
        GifStatus::Error(error) => {
            let mut shown = "Error(".to_owned();
            shown.append(text::quoted(error.as_str()).as_str());
            shown.append(")");
            shown
        },
    };
    let mut words = "Something weird happened: (".to_owned();
    words.append(shown.as_str());
    words.append(", Ok([");
    words.append(list_bytes(data).as_str());
    words.append("]))");
    assert(shows(shown@, status@));
    words
}

/// What a recording asks for when it is finished.
pub enum FinishStep {
    /// Nothing: the status says what has happened.
    Settled,
    /// To ask for a place and save the data there under this name.
    Save { file_name: String, data: Vec<u8> },
}

/// How an attempt to save a recording ended.
pub enum SaveOutcome {
    Written(std::path::PathBuf),
    Failed(String),
    Dismissed,
}

/// Records the animation.
pub struct GifRecorder {
    pub id: u32,
    pub status: GifStatus,
    pub encoder: Option<GifEncoder>,
    pub palette: Option<color_quant::NeuQuant>,
    pub frame_count: u32,
    /// A picture was asked for and has not come back.
    pub inflight: bool,
    /// No other frame fits.
    pub full: bool,
    /// The results of saving that have come in, first to last.
    pub save_results: Vec<(u32, GifSaveResult)>,
}

impl GifRecorder {
    /// The results of saving that have come in, first to last.
    pub open spec fn results(&self) -> Seq<(u32, SaveResultView)> {
        self.save_results@.map_values(|result: (u32, GifSaveResult)| (result.0, result.1@))
    }

    /// The recording is long enough: never before the shortest length, always at the greatest,
    /// and in between if no other frame fits.
    pub open spec fn is_long_enough(&self) -> bool {
        self.frame_count >= GIF_MAX_FRAMES || self.frame_count >= GIF_MIN_FRAMES && self.full
    }

    /// Nothing is being recorded.
    pub open spec fn is_blank(&self) -> bool {
        &&& self.encoder is None
        &&& self.palette is None
        &&& self.frame_count == 0
        &&& !self.inflight
        &&& !self.full
        &&& self.results() == Seq::<(u32, SaveResultView)>::empty()
    }

    pub fn new() -> (recorder: Self)
        ensures
            recorder.is_blank(),
            recorder.id == 0,
            recorder.status is Idle,
    {
        let recorder = GifRecorder {
            id: 0,
            status: GifStatus::Idle,
            encoder: None,
            palette: None,
            frame_count: 0,
            inflight: false,
            full: false,
            save_results: Vec::new(),
        };
        assert(recorder.results() =~= Seq::<(u32, SaveResultView)>::empty());
        recorder
    }

    pub fn is_recording(&self) -> (recording: bool)
        ensures
            recording == (self.status is Recording),
    {
        self.status.is_recording()
    }

    pub fn not_recording(&self) -> (idle: bool)
        ensures
            idle == (self.status is Idle),
    {
        self.status.not_recording()
    }

    pub fn no_inflight(&self) -> (none: bool)
        ensures
            none == !self.inflight,
    {
        !self.inflight
    }

    /// Remembers that a picture was asked for.
    pub fn begin_readback(&mut self)
        ensures
            *final(self) == (GifRecorder { inflight: true, ..*old(self) }),
    {
        self.inflight = true;
    }

    /// Takes the picture that was asked for, once it has come back.
    pub fn poll_inflight(&mut self, readback: &Readback) -> (result: Result<
        Option<Vec<u8>>,
        GifError,
    >)
        requires
            old(self).inflight ==> (readback matches Readback::Mapped(mapped) ==> mapped.len()
                >= 1792 * 399 + 1600),
        ensures
            match readback {
                Readback::Mapped(mapped) if old(self).inflight => {
                    &&& result matches Ok(Some(rgba)) && rgba@ == without_padding(mapped@, 400, 400)
                    &&& *final(self) == (GifRecorder { inflight: false, ..*old(self) })
                },
                Readback::Failed if old(self).inflight => {
                    &&& result matches Err(error) && error is ReadbackFailed
                    &&& *final(self) == (GifRecorder { inflight: false, ..*old(self) })
                },
                _ => {
                    &&& result matches Ok(rgba) && rgba is None
                    &&& *final(self) == *old(self)
                },
            },
            result matches Ok(Some(rgba)) ==> rgba.len() == 640000,
    {
        if !self.inflight {
            return Ok(None);
        }
        match readback {
            Readback::Pending => Ok(None),
            Readback::Mapped(mapped) => {
                let rgba = remove_padding(mapped);
                self.inflight = false;
                Ok(Some(rgba))
            },
            Readback::Failed => {
                self.inflight = false;
                Err(GifError::ReadbackFailed)
            },
        }
    }

    /// Adds the picture that was asked for to the recording, once it has come back. A frame
    /// for which there may be no room is left out, and the recording is full; that counts as
    /// the shortest recording.
    pub fn try_write_frame(&mut self, readback: &Readback) -> (result: Result<bool, GifError>)
        requires
            old(self).inflight ==> (readback matches Readback::Mapped(mapped) ==> mapped.len()
                >= 1792 * 399 + 1600),
        ensures
            match readback {
                Readback::Mapped(mapped) if old(self).inflight => {
                    let rgba = without_padding(mapped@, 400, 400);
                    let before = GifRecorder { inflight: false, ..*old(self) };
                    match (old(self).encoder, old(self).palette) {
                        (None, _) => {
                            &&& result matches Err(error) && error is NoEncoder
                            &&& *final(self) == before
                        },
                        (Some(_), None) => {
                            &&& result matches Err(error) && error is NoPalette
                            &&& *final(self) == before
                        },
                        (Some(encoder), Some(palette)) => if gif_file::gif_bytes(encoder).len()
                            + 160000 + 32 > GIF_MAX_SIZE {
                            &&& result matches Ok(handled) && handled
                            &&& *final(self) == (GifRecorder {
                                full: true,
                                frame_count: if before.frame_count < GIF_MIN_FRAMES {
                                    GIF_MIN_FRAMES
                                } else {
                                    before.frame_count
                                },
                                ..before
                            })
                            &&& final(self).is_long_enough()
                        } else {
                            let frame = gif_file::gif_frame(
                                400,
                                400,
                                color_numbers(gif_file::palette_rgba(palette), rgba),
                                frame_delay() as u16,
                            );
                            &&& *final(self) == (GifRecorder {
                                encoder: final(self).encoder,
                                ..before
                            })
                            &&& final(self).encoder is Some
                            &&& match result {
                                Ok(handled) => handled && gif_file::gif_bytes(
                                    final(self).encoder->0,
                                ) == gif_file::gif_bytes(encoder) + frame,
                                Err(error) => error is Encoding,
                            }
                        },
                    }
                },
                Readback::Failed if old(self).inflight => {
                    &&& result matches Err(error) && error is ReadbackFailed
                    &&& *final(self) == (GifRecorder { inflight: false, ..*old(self) })
                },
                _ => {
                    &&& result matches Ok(handled) && !handled
                    &&& *final(self) == *old(self)
                },
            },
    {
        let rgba: Vec<u8> = match self.poll_inflight(readback) {
            Ok(Some(rgba)) => rgba,
            Ok(None) => {
                return Ok(false);
            },
            Err(error) => {
                return Err(error);
            },
        };
        if self.encoder.is_none() {
            return Err(GifError::NoEncoder);
        }
        let pixels: Vec<u8> = match &self.palette {
            Some(palette) => number_colors(palette, &rgba),
            None => {
                return Err(GifError::NoPalette);
            },
        };
        match &mut self.encoder {
            Some(encoder) => {
                let frame_size: usize = gif_file::gif_len(encoder) + pixels.len() + 32;
                if frame_size > GIF_MAX_SIZE {
                    self.full = true;
                    if self.frame_count < GIF_MIN_FRAMES {
                        self.frame_count = GIF_MIN_FRAMES;
                    }
                    return Ok(true);
                }
                let delay: u32 = 100 * GIF_SPEED_DENOMINATOR / (GIF_FRAMERATE
                    * GIF_SPEED_NUMERATOR);
                match gif_file::gif_write_frame(
                    encoder,
                    GIF_RESOLUTION as u16,
                    GIF_RESOLUTION as u16,
                    pixels,
                    delay as u16,
                ) {
                    Ok(_) => Ok(true),
                    Err(error) => Err(GifError::Encoding(error)),
                }
            },
            None => Err(GifError::NoEncoder),
        }
    }

    /// Starts a recording whose palette suits these colors.
    pub fn init_encoder(&mut self, active_colors: &[[u8; 4]]) -> (result: Result<(), GifError>)
        requires
            active_colors.len() * 4 <= usize::MAX,
        ensures
            match result {
                Err(error) => {
                    &&& active_colors.len() == 0
                    &&& error is NoColors
                    &&& *final(self) == *old(self)
                },
                Ok(_) => {
                    let palette = gif_file::trained_palette(
                        GIF_PALETTE_SAMPLEFAC,
                        256,
                        color_bytes(active_colors@),
                    );
                    &&& active_colors.len() > 0
                    &&& final(self).id == next_id(old(self).id)
                    &&& final(self).status is Recording
                    &&& final(self).palette is Some
                    &&& gif_file::palette_rgba(final(self).palette->0) == palette
                    &&& final(self).encoder is Some
                    &&& gif_file::gif_bytes(final(self).encoder->0) == animation(
                        palette,
                        Seq::empty(),
                    )
                    &&& final(self).frame_count == 0
                    &&& !final(self).inflight
                    &&& !final(self).full
                    &&& final(self).results() == Seq::<(u32, SaveResultView)>::empty()
                },
            },
    {
        if active_colors.len() == 0 {
            return Err(GifError::NoColors);
        }
        self.id = self.id.wrapping_add(1);
        self.status = GifStatus::Idle;
        self.encoder = None;
        self.palette = None;
        self.full = false;
        self.inflight = false;
        self.save_results = Vec::new();
        assert(self.results() =~= Seq::<(u32, SaveResultView)>::empty());
        let colors = flatten_colors(active_colors);
        let palette = color_quant::NeuQuant::new(GIF_PALETTE_SAMPLEFAC, 256, colors.as_slice());
        let rgb = palette.color_map_rgb();
        let mut encoder = match gif_file::gif_start(
            GIF_RESOLUTION as u16,
            GIF_RESOLUTION as u16,
            rgb.as_slice(),
        ) {
            Ok(encoder) => encoder,
            Err(error) => {
                return Err(GifError::Encoding(error));
            },
        };
        self.palette = Some(palette);
        match gif_file::gif_set_repeat(&mut encoder) {
            Ok(_) => {},
            Err(error) => {
                return Err(GifError::Encoding(error));
            },
        }
        self.encoder = Some(encoder);
        self.frame_count = 0;
        self.status = GifStatus::Recording;
        Ok(())
    }

    /// Ends the recording. If there is one, it is to be saved.
    pub fn finish(&mut self, name: String) -> (step: FinishStep)
        ensures
            *final(self) == (GifRecorder {
                encoder: None,
                status: final(self).status,
                ..*old(self)
            }),
            match old(self).encoder {
                None => {
                    &&& step is Settled
                    &&& final(self).status@ == StatusView::Error(
                        "GIF encoder was not initialized"@,
                    )
                },
                Some(encoder) => {
                    let data = gif_file::gif_bytes(encoder).push(0x3b);
                    if old(self).status is Recording {
                        &&& step matches FinishStep::Save { file_name, data: saved }
                            && file_name@ == name@ + ".gif"@ && saved@ == data
                        &&& final(self).status is Recording
                    } else {
                        &&& step is Settled
                        &&& final(self).status@ matches StatusView::Error(words)
                            && is_report_of(words, old(self).status@, data)
                    }
                },
            },
    {
        let encoder = match self.encoder.take() {
            Some(encoder) => encoder,
            None => {
                self.status = GifStatus::Error("GIF encoder was not initialized".to_owned());
                return FinishStep::Settled;
            },
        };
        let data: Vec<u8> = match gif_file::gif_finish(encoder) {
            Some(data) => data,
            None => Vec::new(),
        };
        if self.status.is_recording() {
            let mut file_name = name;
            file_name.append(".gif");
            FinishStep::Save { file_name, data }
        } else {
            self.status = GifStatus::Error(report_of(&self.status, &data));
            FinishStep::Settled
        }
    }

    /// Notes how the attempt to save the recording ended. Whether it ended at all.
    pub fn saved(&mut self, outcome: SaveOutcome) -> (ended: bool)
        ensures
            *final(self) == (GifRecorder { status: final(self).status, ..*old(self) }),
            match outcome {
                SaveOutcome::Written(path) => ended && final(self).status@ == StatusView::Complete(
                    path,
                ),
                SaveOutcome::Failed(error) => ended && final(self).status@ == StatusView::Error(
                    "Unable to save GIF: "@ + error@,
                ),
                SaveOutcome::Dismissed => !ended && final(self).status == old(self).status,
            },
    {
        match outcome {
            SaveOutcome::Written(path) => {
                self.status = GifStatus::Complete(path);
                true
            },
            SaveOutcome::Failed(error) => {
                let mut words = "Unable to save GIF: ".to_owned();
                words.append(error.as_str());
                self.status = GifStatus::Error(words);
                true
            },
            SaveOutcome::Dismissed => false,
        }
    }

    /// Notes that saving a recording in the background has ended.
    pub fn report_save(&mut self, recording_id: u32, result: GifSaveResult)
        ensures
            *final(self) == (GifRecorder { save_results: final(self).save_results, ..*old(self) }),
            final(self).results() == old(self).results().push((recording_id, result@)),
    {
        self.save_results.push((recording_id, result));
        assert(self.results() =~= old(self).results().push((recording_id, result@)));
    }

    /// Notes that the recording is being saved in the background.
    pub fn begin_save(&mut self)
        ensures
            *final(self) == (GifRecorder { status: GifStatus::Saving, ..*old(self) }),
    {
        self.status = GifStatus::Saving;
    }

    /// Takes the results of saving that have come in.
    pub fn poll_save_result(&mut self)
        ensures
            *final(self) == (GifRecorder {
                status: final(self).status,
                save_results: final(self).save_results,
                ..*old(self)
            }),
            final(self).results() == Seq::<(u32, SaveResultView)>::empty(),
            final(self).status@ == settled(old(self).status@, old(self).id, old(self).results()),
    {
        let mut i: usize = 0;
        assert(self.results().skip(0) =~= self.results());
        while i < self.save_results.len()
            invariant
                i <= self.save_results.len(),
                *self == (GifRecorder { status: self.status, ..*old(self) }),
                settled(self.status@, self.id, self.results().skip(i as int)) == settled(
                    old(self).status@,
                    old(self).id,
                    old(self).results(),
                ),
            decreases self.save_results.len() - i,
        {
            let ghost rest = self.results().skip(i as int);
            proof {
                assert(rest.drop_first() =~= self.results().skip(i + 1));
                assert(rest.first() == (self.save_results[i as int].0, self.save_results[i as int].1@));
            }
            let saving: bool = matches!(self.status, GifStatus::Saving);
            if self.save_results[i].0 == self.id && saving {
                self.status = match &self.save_results[i].1 {
                    GifSaveResult::Complete => GifStatus::Error(
                        "unexpected asynchronous save result".to_owned(),
                    ),
                    GifSaveResult::Cancelled => GifStatus::Cancelled,
                    GifSaveResult::Error(error) => GifStatus::Error(error.clone()),
                };
                proof {
                    results_change_nothing_once_settled(self.status@, self.id, rest.drop_first());
                }
            }
            i = i + 1;
        }
        self.save_results = Vec::new();
        assert(self.results() =~= Seq::<(u32, SaveResultView)>::empty());
    }

    /// Drops the recording.
    pub fn stop(&mut self)
        ensures
            final(self).is_blank(),
            final(self).status is Idle,
            final(self).id == next_id(old(self).id),
    {
        self.status = GifStatus::Idle;
        self.encoder = None;
        self.palette = None;
        self.frame_count = 0;
        self.inflight = false;
        self.full = false;
        self.save_results = Vec::new();
        self.id = self.id.wrapping_add(1);
        assert(self.results() =~= Seq::<(u32, SaveResultView)>::empty());
    }

    /// Whether the recording is long enough.
    pub fn should_stop(&self) -> (stop: bool)
        ensures
            stop == self.is_long_enough(),
    {
        if self.frame_count < GIF_MIN_FRAMES {
            false
        } else if self.frame_count >= GIF_MAX_FRAMES {
            true
        } else {
            self.full
        }
    }

    /// A name for the file of a recording.
    pub fn get_name(&self, name: String, reverse: bool) -> (file_name: String)
        ensures
            file_name@ == (if reverse {
                "portraitify_reverse_"@
            } else {
                "portraitify_"@
            }) + safe_name(name@),
    {
        let chars = text::chars_of(name.as_str());
        let mut safe = String::new();
        let mut i: usize = 0;
        while i < chars.len() && i < 40
            invariant
                i <= chars.len(),
                i <= 40,
                chars@ == name@,
                safe@ == name@.take(i as int).map_values(|c: char| safe_char(c)),
            decreases chars.len() - i,
        {
            let c: char = chars[i];
            if c.is_alphanumeric() || c == '-' || c == '_' {
                safe.push(c);
            } else {
                safe.push('_');
            }
            i = i + 1;
            assert(safe@ =~= name@.take(i as int).map_values(|c: char| safe_char(c)));
        }
        if i == 0 {
            safe = "portrait".to_owned();
        }
        let mut file_name = if reverse {
            "portraitify_reverse_".to_owned()
        } else {
            "portraitify_".to_owned()
        };
        file_name.append(safe.as_str());
        file_name
    }
}

/// A character that a file name may hold, in place of any character.
pub open spec fn safe_char(c: char) -> char {
    if text::alphanumeric(c) || c == '-' || c == '_' {
        c
    } else {
        '_'
    }
}

/// The first forty characters of a name, made safe; a name of its own if there are none.
pub open spec fn safe_name(name: Seq<char>) -> Seq<char> {
    if name.len() == 0 {
        "portrait"@
    } else {
        name.take(if name.len() < 40 {
            name.len() as int
        } else {
            40
        }).map_values(|c: char| safe_char(c))
    }
}

/// What a frame adds to a recording makes it the animation with that frame at its end.
pub proof fn recordings_grow_frame_by_frame(
    palette: Seq<u8>,
    frames: Seq<Seq<u8>>,
    rgba: Seq<u8>,
)
    ensures
        animation(palette, frames.push(color_numbers(palette, rgba))) == animation(palette, frames)
            + gif_file::gif_frame(
            400,
            400,
            color_numbers(palette, rgba),
            frame_delay() as u16,
        ),
{
    let longer = frames.push(color_numbers(palette, rgba));
    assert(longer.drop_last() =~= frames);
}

/// Results of other recordings change nothing.
pub proof fn results_of_others_change_nothing(
    status: StatusView,
    id: u32,
    results: Seq<(u32, SaveResultView)>,
)
    requires
        forall|i: int| 0 <= i < results.len() ==> (#[trigger] results[i]).0 != id,
    ensures
        settled(status, id, results) == status,
    decreases results.len(),
{
    if results.len() > 0 {
        let rest = results.drop_first();
        assert forall|i: int| 0 <= i < rest.len() implies (#[trigger] rest[i]).0 != id by {
            assert(rest[i] == results[i + 1]);
        }
        results_of_others_change_nothing(status, id, rest);
    }
}

/// Results of saving change nothing once a recording is not being saved.
pub proof fn results_change_nothing_once_settled(
    status: StatusView,
    id: u32,
    results: Seq<(u32, SaveResultView)>,
)
    requires
        status !is Saving,
    ensures
        settled(status, id, results) == status,
    decreases results.len(),
{
    if results.len() > 0 {
        results_change_nothing_once_settled(status, id, results.drop_first());
    }
}

/// The part of a file name that comes from a name has one to forty characters, and they are
/// letters, numbers, hyphens and underscores: no separator, dot, space or control character.
pub proof fn file_names_are_safe(name: Seq<char>)
    ensures
        1 <= safe_name(name).len() <= 40,
        forall|i: int|
            0 <= i < safe_name(name).len() ==> ({
                let c = #[trigger] safe_name(name)[i];
                &&& text::alphanumeric(c) || c == '-' || c == '_'
                &&& c as u32 <= 127 ==> text::ascii_alphanumeric(c) || c == '-' || c == '_'
                &&& c != '/' && c != '\\' && c != '.' && c != ' ' && c != ':' && c as u32 >= 32
            }),
{
    reveal_strlit("portrait");
}

/// Rows start at multiples of 256 bytes, as near to each other as their four bytes per pixel allow, and
/// each frame is shown for eight hundredths of a second.
pub proof fn rows_are_padded_to_256_bytes(width: int)
    requires
        0 <= width,
    ensures
        padded_row(width) % 256 == 0,
        width * 4 <= padded_row(width) < width * 4 + 256,
        frame_delay() == 8,
{
    assert(GIF_FRAMERATE * GIF_SPEED_NUMERATOR == 24) by (nonlinear_arith)
        requires
            GIF_FRAMERATE == 8,
            GIF_SPEED_NUMERATOR == 3,
    ;
    assert(200int / 24 == 8);
}

/// Without what fills up the rows, each pixel has the four bytes that it had in its row.
pub proof fn pixels_keep_their_bytes(mapped: Seq<u8>, x: int, y: int, channel: int)
    requires
        0 <= x < 400,
        0 <= y < 400,
        0 <= channel < 4,
    ensures
        without_padding(mapped, 400, 400).len() == 640000,
        without_padding(mapped, 400, 400)[(y * 400 + x) * 4 + channel] == mapped[y * 1792 + x * 4
            + channel],
{
    let i = (y * 400 + x) * 4 + channel;
    assert(i / 1600 == y && i % 1600 == x * 4 + channel);
}

/// A recording is long enough with 140 frames, and with 100 if no other frame fits.
pub proof fn recordings_have_100_to_140_frames(recorder: GifRecorder)
    ensures
        recorder.is_long_enough() <==> recorder.frame_count >= 140 || (recorder.frame_count >= 100
            && recorder.full),
{
}

/// Each pixel of a frame is the number of the palette color nearest to its four bytes, and colors are
/// handed to the palette byte by byte.
pub proof fn frames_number_their_colors(
    palette: Seq<u8>,
    rgba: Seq<u8>,
    colors: Seq<[u8; 4]>,
    pixel: int,
    channel: int,
)
    requires
        0 <= channel < 4,
    ensures
        0 <= pixel < rgba.len() / 4 ==> color_numbers(palette, rgba)[pixel]
            == gif_file::nearest_color(
            palette,
            seq![
                rgba[4 * pixel],
                rgba[4 * pixel + 1],
                rgba[4 * pixel + 2],
                rgba[4 * pixel + 3],
            ],
        ) as u8,
        color_numbers(palette, rgba).len() == rgba.len() / 4,
        0 <= pixel < colors.len() ==> color_bytes(colors)[4 * pixel + channel]
            == colors[pixel]@[channel],
        color_bytes(colors).len() == 4 * colors.len(),
{
    if 0 <= pixel < rgba.len() / 4 {
        assert(rgba.subrange(pixel * 4, pixel * 4 + 4) =~= seq![
            rgba[4 * pixel],
            rgba[4 * pixel + 1],
            rgba[4 * pixel + 2],
            rgba[4 * pixel + 3],
        ]);
    }
}

/// While a recording is being saved, the first result with its number decides: an error or a
/// cancellation is told as such, and anything else is not expected. Results with other numbers before
/// it do not count, nor does anything behind it.
pub proof fn the_first_own_result_decides(
    id: u32,
    before: Seq<(u32, SaveResultView)>,
    result: SaveResultView,
    behind: Seq<(u32, SaveResultView)>,
)
    requires
        forall|i: int| 0 <= i < before.len() ==> (#[trigger] before[i]).0 != id,
    ensures
        settled(StatusView::Saving, id, before + seq![(id, result)] + behind) == match result {
            SaveResultView::Complete => StatusView::Error("unexpected asynchronous save result"@),
            SaveResultView::Cancelled => StatusView::Cancelled,
            SaveResultView::Error(words) => StatusView::Error(words),
        },
    decreases before.len(),
{
    let all = before + seq![(id, result)] + behind;
    if before.len() == 0 {
        assert(all.first() == (id, result));
    } else {
        let rest = before.drop_first();
        assert forall|i: int| 0 <= i < rest.len() implies (#[trigger] rest[i]).0 != id by {
            assert(rest[i] == before[i + 1]);
        }
        the_first_own_result_decides(id, rest, result, behind);
        assert(all.drop_first() =~= rest + seq![(id, result)] + behind);
        assert(all.first() == before[0]);
    }
}

/// Recordings are numbered one after the other; behind the greatest number comes zero.
pub proof fn recordings_are_numbered(id: u32)
    ensures
        next_id(id) != id,
        id < u32::MAX ==> next_id(id) == id + 1,
        id == u32::MAX ==> next_id(id) == 0,
{
}

/// In a file name, the first forty characters of a name stand at their places, but for those that are
/// neither letters, numbers, hyphens nor underscores: an underscore stands for each of them.
pub proof fn file_names_keep_what_is_safe(name: Seq<char>, i: int)
    requires
        0 <= i < name.len(),
        i < 40,
    ensures
        safe_name(name).len() == if name.len() < 40 {
            name.len()
        } else {
            40
        },
        text::alphanumeric(name[i]) || name[i] == '-' || name[i] == '_' ==> safe_name(name)[i]
            == name[i],
        !text::alphanumeric(name[i]) ==> safe_name(name)[i] == '_' || (name[i] == '-' && safe_name(
            name,
        )[i] == '-'),
        safe_name(Seq::empty()) == "portrait"@,
{
}

/// Bytes are listed as decimal numbers, with a comma and a space between two of them.
pub proof fn bytes_are_listed(data: Seq<u8>, byte: u8)
    ensures
        listed(Seq::empty()) == Seq::<char>::empty(),
        listed(seq![byte]) == text::decimal(byte as nat),
        data.len() > 0 ==> listed(data.push(byte)) == listed(data) + ", "@ + text::decimal(
            byte as nat,
        ),
{
    assert(data.push(byte).drop_last() =~= data);
}

/// A recording has pictures of 400 by 400 pixels, up to ten megabytes, and a palette that is trained on
/// every color.
pub proof fn recordings_have_these_limits()
    ensures
        GIF_RESOLUTION == 400,
        GIF_MAX_SIZE == 10485760,
        GIF_PALETTE_SAMPLEFAC == 1,
        GIF_MIN_FRAMES == 100,
        GIF_MAX_FRAMES == 140,
{
}

} // verus!
