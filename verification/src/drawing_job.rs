//! The job that rearranges a canvas while it is being painted on.
use crate::cost;
use crate::cost::ImgDiffWeights;
use crate::drawing;
use crate::drawing::{
    DrawingPixel, NeighbourMap, PixelData, DRAWING_CANCEL_CHECK_INTERVAL, DRAWING_CANVAS_SIZE,
    DRAWING_MAX_SWAPS_PER_GENERATION, DRAWING_SWAPS_PER_PIXEL,
};
use crate::draws;
use crate::errors::ProcessError;
use crate::genetic;
use crate::messages;
use crate::messages::{Message, ProgressMsg, Watch};
use crate::prepare;
use crate::preset;
use crate::preset::UnprocessedPreset;
use crate::random;
use crate::schedule;
use crate::schedule::DrawingReach;
use crate::settings::{CropWindows, GenerationSettings, Portrait, SettingsView};
use std::sync::atomic::AtomicU32;
use std::sync::Arc;
use vstd::arithmetic::power;
use vstd::math;
use vstd::prelude::*;

verus! {

/// Why a drawing cannot be worked on.
pub enum DrawingError {
    ColorsWrongSize,
    ColorsChangedSize,
    PixelsWrongSize,
}

impl DrawingError {
    /// The error in words.
    pub fn message(&self) -> (words: &'static str)
        ensures
            match self {
                DrawingError::ColorsWrongSize => words@ == "drawing color state has the wrong size"@,
                DrawingError::ColorsChangedSize => words@
                    == "drawing color state changed to an invalid size"@,
                DrawingError::PixelsWrongSize => words@ == "drawing pixel state has the wrong size"@,
            },
    {
        match self {
            DrawingError::ColorsWrongSize => "drawing color state has the wrong size",
            DrawingError::ColorsChangedSize => "drawing color state changed to an invalid size",
            DrawingError::PixelsWrongSize => "drawing pixel state has the wrong size",
        }
    }
}

/// What a drawing job tells, and to which drawing it belongs.
pub struct DrawingWorkerEvent {
    pub drawing_id: u32,
    pub msg: ProgressMsg,
}

/// What comes of a generation.
pub enum DrawingStep {
    /// Another drawing is being worked on: tell so and end.
    Superseded(DrawingWorkerEvent),
    /// Pixels have moved: tell where they are now.
    Moved(DrawingWorkerEvent),
    /// Nothing has moved: wait for so many milliseconds.
    Idle(u64),
}

/// What a generation works with: the matrix of the drawing, the colors of the canvas and what
/// is known about its pixels, and the frame.
pub struct Canvas {
    pub m: ImgDiffWeights,
    pub colors: Seq<(u8, u8, u8)>,
    pub pixel_data: Seq<PixelData>,
    pub frame: u32,
    pub neighbours: Seq<[Option<usize>; 4]>,
}

/// Where a drawing stands.
pub struct DrawingState {
    pub pixels: Seq<DrawingPixel>,
    /// What the random number generator holds.
    pub rng: u64,
    /// How many swaps the generation has made.
    pub swaps: nat,
}

/// How many frames ago something happened; nothing happens in the future.
pub open spec fn frames_since(frame: u32, then: u32) -> u32 {
    if frame < then {
        0
    } else {
        (frame - then) as u32
    }
}

/// How far a pixel that was painted at some frame may travel in one swap.
pub open spec fn reach_at(frame: u32, last_edited: u32) -> int {
    choose|reach: int|
        schedule::is_shrunk_reach(schedule::shrinkings(frames_since(frame, last_edited)), reach)
}

impl Canvas {
    /// What the pixel that shows at cell `who` costs at cell `at`, less its reward there.
    pub open spec fn energy(self, pixels: Seq<DrawingPixel>, who: int, at: int) -> int {
        cost::cost(
            (pixels[who].src_x, pixels[who].src_y),
            cost::cell(at, self.m.sidelen as int),
            self.colors[pixels[who].canvas_index()],
            self.m.target[at],
            self.m.weights[at] as int,
            self.m.spatial_weight as int,
        ) + drawing::reward(at, who, self.pixel_data, pixels, self.frame, self.neighbours)
    }

    /// What two cells cost together, less what they would cost with their pixels exchanged.
    pub open spec fn saving(self, pixels: Seq<DrawingPixel>, a: int, b: int) -> int {
        self.energy(pixels, a, a) + self.energy(pixels, b, b) - self.energy(pixels, a, b)
            - self.energy(pixels, b, a)
    }

    /// The pixels of two cells exchanged, each with what it costs now.
    pub open spec fn exchanged(self, pixels: Seq<DrawingPixel>, a: int, b: int) -> Seq<
        DrawingPixel,
    > {
        pixels.update(
            a,
            DrawingPixel { h: self.energy(pixels, b, a) as i64, ..pixels[b] },
        ).update(b, DrawingPixel { h: self.energy(pixels, a, b) as i64, ..pixels[a] })
    }

    /// How far the pixel that shows at a cell may travel.
    pub open spec fn reach_of(self, pixel: DrawingPixel) -> int {
        reach_at(self.frame, self.pixel_data[pixel.canvas_index()].last_edited)
    }

    /// One try: a cell is drawn, and a step from it that its pixel may travel; if the pixel
    /// there may travel back, the two change places if that saves anything.
    #[verifier::opaque]
    pub open spec fn attempt(self, s: DrawingState) -> DrawingState {
        let side = self.m.sidelen as int;
        let (a, rng1) = random::drawn_u64(s.rng, 0, s.pixels.len() as u64);
        let reach = self.reach_of(s.pixels[a as int]);
        let (dx, rng2) = random::drawn_i16(rng1, -reach as i16, (reach + 1) as i16);
        let (dy, rng3) = random::drawn_i16(rng2, -reach as i16, (reach + 1) as i16);
        let b = genetic::landing(side, a as int, dx as int, dy as int);
        let back = self.reach_of(s.pixels[b]);
        if -back <= b % side - a as int % side <= back && -back <= b / side - a as int / side
            <= back && self.saving(s.pixels, a as int, b) > 0 {
            DrawingState {
                pixels: self.exchanged(s.pixels, a as int, b),
                rng: rng3,
                swaps: s.swaps + 1,
            }
        } else {
            DrawingState { rng: rng3, ..s }
        }
    }

    /// A number of tries.
    pub open spec fn attempts(self, s: DrawingState, tries: nat) -> DrawingState
        decreases tries,
    {
        if tries == 0 {
            s
        } else {
            self.attempt(self.attempts(s, (tries - 1) as nat))
        }
    }
}

/// What a try does depends on the swaps before it only in how many there are.
proof fn lemma_attempt_counts(canvas: Canvas, s: DrawingState)
    ensures
        ({
            let fresh = canvas.attempt(DrawingState { swaps: 0, ..s });
            &&& fresh.swaps <= 1
            &&& canvas.attempt(s) == (DrawingState { swaps: s.swaps + fresh.swaps, ..fresh })
        }),
{
    reveal(Canvas::attempt);
}

/// Every pixel at its own cell, with what it costs there.
pub open spec fn first_pixels(m: ImgDiffWeights, colors: Seq<(u8, u8, u8)>) -> Seq<DrawingPixel> {
    Seq::new(
        16384,
        |i: int|
            DrawingPixel {
                src_x: (i % 128) as u16,
                src_y: (i / 128) as u16,
                h: cost::cost(
                    cost::cell(i, 128),
                    cost::cell(i, 128),
                    colors[i],
                    m.target[i],
                    m.weights[i] as int,
                    m.spatial_weight as int,
                ) as i64,
            },
    )
}

/// Which canvas pixel shows at each cell.
pub open spec fn order_of(pixels: Seq<DrawingPixel>) -> Seq<usize> {
    Seq::new(pixels.len(), |i: int| pixels[i].canvas_index() as usize)
}

/// Every canvas pixel shows at exactly one cell.
pub open spec fn covers(pixels: Seq<DrawingPixel>) -> bool {
    &&& forall|i: int|
        0 <= i < pixels.len() ==> (#[trigger] pixels[i]).src_x < DRAWING_CANVAS_SIZE
            && pixels[i].src_y < DRAWING_CANVAS_SIZE
    &&& preset::is_permutation(order_of(pixels), 16384)
}

/// The last frame in which any pixel was painted.
pub open spec fn last_painted(pixel_data: Seq<PixelData>) -> u32
    decreases pixel_data.len(),
{
    if pixel_data.len() == 0 {
        0
    } else {
        let before = last_painted(pixel_data.drop_last());
        if before < pixel_data.last().last_edited {
            pixel_data.last().last_edited
        } else {
            before
        }
    }
}

/// The frame that a generation takes for the present: so many frames after the drawing was
/// begun, but no earlier than the last edit.
pub open spec fn present_frame(
    frame_count: u32,
    generation: u32,
    pixel_data: Seq<PixelData>,
) -> u32 {
    let counted: u32 = if frame_count + generation > u32::MAX {
        u32::MAX
    } else {
        (frame_count + generation) as u32
    };
    if counted < last_painted(pixel_data) {
        last_painted(pixel_data)
    } else {
        counted
    }
}

/// How many milliseconds to wait after a number of idle generations: twice as many each time,
/// up to half a second.
pub open spec fn backoff(idle: u32) -> int {
    if idle < 9 {
        power::pow(2, idle as nat)
    } else {
        500
    }
}

/// The request that a drawing job makes: that of its settings, at the resolution of the canvas.
pub open spec fn drawing_request(asked: prepare::Request) -> prepare::Request {
    prepare::Request {
        settings: SettingsView { sidelen: DRAWING_CANVAS_SIZE as u32, ..asked.settings },
        ..asked
    }
}

/// Prepares the pictures of a drawing job. Whatever resolution the settings name, a drawing
/// has that of the canvas.
pub fn prepare_drawing(
    source: &UnprocessedPreset,
    settings: GenerationSettings,
    portrait: &Portrait,
    windows: &CropWindows,
) -> (result: Result<ImgDiffWeights, ProcessError>)
    requires
        drawing_request(
            prepare::request(*source, settings, *portrait, *windows),
        ).affordable(),
    ensures
        ({
            let asked = drawing_request(
                prepare::request(*source, settings, *portrait, *windows),
            );
            match result {
                Ok(m) => asked.asks_for(m),
                Err(error) => asked.refused_with(error),
            }
        }),
{
    let mut settings = settings;
    let ghost before = settings@;
    settings.sidelen = DRAWING_CANVAS_SIZE as u32;
    assert(settings@ == (SettingsView { sidelen: DRAWING_CANVAS_SIZE as u32, ..before }));
    prepare::prepare(source, &settings, portrait, windows)
}

/// A drawing that is being rearranged.
pub struct Drawing {
    m: ImgDiffWeights,
    neighbours: NeighbourMap,
    reach: DrawingReach,
    pixels: Vec<DrawingPixel>,
    rng: frand::Rand,
    frame_count: u32,
    generation: u32,
    idle: u32,
}

impl Drawing {
    /// The matrix has the resolution of the canvas, and every canvas pixel shows somewhere.
    pub closed spec fn wf(&self) -> bool {
        &&& self.m.wf()
        &&& self.m.sidelen == DRAWING_CANVAS_SIZE
        &&& drawing::is_neighbour_map(self.neighbours@, DRAWING_CANVAS_SIZE as int)
        &&& self.reach.wf()
        &&& covers(self.pixels@)
    }

    /// The matrix of the drawing.
    pub closed spec fn matrix(&self) -> ImgDiffWeights {
        self.m
    }

    /// The pixels of the drawing, cell by cell, and what the random number generator holds.
    pub closed spec fn state(&self) -> DrawingState {
        DrawingState {
            pixels: self.pixels@,
            rng: random::rand_state(self.rng),
            swaps: 0,
        }
    }

    /// The frame in which the drawing was begun.
    pub closed spec fn frame_count(&self) -> u32 {
        self.frame_count
    }

    /// How many generations there were.
    pub closed spec fn generation(&self) -> u32 {
        self.generation
    }

    /// How many generations in a row moved nothing.
    pub closed spec fn idle(&self) -> u32 {
        self.idle
    }

    /// The neighbours of every cell.
    pub closed spec fn neighbour_map(&self) -> Seq<[Option<usize>; 4]> {
        self.neighbours@
    }

    /// What a generation works with.
    pub open spec fn canvas(
        &self,
        colors: Seq<(u8, u8, u8)>,
        pixel_data: Seq<PixelData>,
        frame: u32,
    ) -> Canvas {
        Canvas {
            m: self.matrix(),
            colors,
            pixel_data,
            frame,
            neighbours: self.neighbour_map(),
        }
    }

    /// The drawing was just begun with these: every pixel is at its own cell.
    pub open spec fn begun_with(
        &self,
        m: ImgDiffWeights,
        colors: Seq<(u8, u8, u8)>,
        frame_count: u32,
    ) -> bool {
        &&& self.matrix() == m
        &&& drawing::is_neighbour_map(self.neighbour_map(), 128)
        &&& self.frame_count() == frame_count
        &&& self.generation() == 0
        &&& self.idle() == 0
        &&& self.state() == (DrawingState {
            pixels: first_pixels(m, colors),
            rng: random::seeded(genetic::SEARCH_SEED),
            swaps: 0,
        })
    }

    /// A generation that was not stopped leads from this drawing to another one.
    pub open spec fn develops_into(
        &self,
        colors: Seq<(u8, u8, u8)>,
        pixel_data: Seq<PixelData>,
        after: Drawing,
    ) -> bool {
        let last = self.after_tries(colors, pixel_data, 32768);
        &&& after.matrix() == self.matrix()
        &&& after.neighbour_map() == self.neighbour_map()
        &&& after.frame_count() == self.frame_count()
        &&& after.generation() == next_count(self.generation())
        &&& after.idle() == if last.swaps > 0 {
            0
        } else {
            next_count(self.idle())
        }
        &&& after.state() == (DrawingState { swaps: 0, ..last })
    }

    /// A generation that was stopped when it looked for the `polls`-th time leads from this
    /// drawing to another one.
    pub open spec fn is_cut_to(
        &self,
        colors: Seq<(u8, u8, u8)>,
        pixel_data: Seq<PixelData>,
        polls: int,
        after: Drawing,
    ) -> bool {
        let tries = (polls - 1) * 2048;
        &&& 0 <= tries < 32768
        &&& after.matrix() == self.matrix()
        &&& after.neighbour_map() == self.neighbour_map()
        &&& after.frame_count() == self.frame_count()
        &&& after.generation() == self.generation()
        &&& after.idle() == self.idle()
        &&& after.state() == (DrawingState {
            swaps: 0,
            ..self.after_tries(colors, pixel_data, tries as nat)
        })
    }

    /// Where a generation stands after a number of tries.
    pub open spec fn after_tries(
        &self,
        colors: Seq<(u8, u8, u8)>,
        pixel_data: Seq<PixelData>,
        tries: nat,
    ) -> DrawingState {
        let frame = present_frame(self.frame_count(), self.generation(), pixel_data);
        self.canvas(colors, pixel_data, frame).attempts(self.state(), tries)
    }

    /// Both drawings are made of the same pictures and stand at the same point.
    pub open spec fn is_like(&self, other: Drawing) -> bool {
        &&& self.matrix().holds_the_same(other.matrix())
        &&& self.neighbour_map() == other.neighbour_map()
        &&& self.frame_count() == other.frame_count()
        &&& self.generation() == other.generation()
        &&& self.idle() == other.idle()
        &&& self.state() == other.state()
    }

    /// Begins a drawing with every pixel at its own cell.
    pub fn new(m: ImgDiffWeights, colors: &[(u8, u8, u8)], frame_count: u32) -> (result: Result<
        Drawing,
        DrawingError,
    >)
        requires
            m.wf(),
            m.sidelen == DRAWING_CANVAS_SIZE,
        ensures
            match result {
                Ok(drawing) => {
                    &&& colors.len() == 16384
                    &&& drawing.wf()
                    &&& drawing.begun_with(m, colors@, frame_count)
                },
                Err(error) => colors.len() != 16384 && error is ColorsWrongSize,
            },
    {
        let count: usize = DRAWING_CANVAS_SIZE * DRAWING_CANVAS_SIZE;
        if colors.len() != count {
            return Err(DrawingError::ColorsWrongSize);
        }
        let mut pixels: Vec<DrawingPixel> = Vec::with_capacity(count);
        for i in 0..count
            invariant
                m.wf(),
                m.sidelen == 128,
                m.target.len() == 16384,
                m.weights.len() == 16384,
                colors.len() == 16384,
                count == 16384,
                pixels.len() == i,
                forall|j: int|
                    0 <= j < i ==> #[trigger] pixels[j] == (DrawingPixel {
                        src_x: (j % 128) as u16,
                        src_y: (j / 128) as u16,
                        h: cost::cost(
                            cost::cell(j, 128),
                            cost::cell(j, 128),
                            colors[j],
                            m.target[j],
                            m.weights[j] as int,
                            m.spatial_weight as int,
                        ) as i64,
                    }),
        {
            proof {
                cost::lemma_cost_bound(
                    cost::cell(i as int, 128),
                    cost::cell(i as int, 128),
                    colors[i as int],
                    m.target[i as int],
                    m.weights[i as int] as int,
                    128,
                    m.spatial_weight as int,
                );
            }
            let x: u16 = (i % DRAWING_CANVAS_SIZE) as u16;
            let y: u16 = (i / DRAWING_CANVAS_SIZE) as u16;
            let mut pixel = DrawingPixel::new(x, y, 0);
            let h: i64 = pixel.calc_drawing_heuristic(
                (x, y),
                m.target[i],
                m.weights[i],
                colors,
                m.spatial_weight,
            );
            pixel.update_heuristic(h);
            pixels.push(pixel);
        }
        proof {
            let order = order_of(pixels@);
            assert forall|i: int| 0 <= i < order.len() implies #[trigger] order[i] == i by {
                assert(pixels[i].canvas_index() == i);
            }
            assert(pixels@ =~= first_pixels(m, colors@));
        }
        Ok(
            Drawing {
                m,
                neighbours: drawing::build_neighbour_map(DRAWING_CANVAS_SIZE),
                reach: DrawingReach::new(),
                pixels,
                rng: frand::Rand::with_seed(genetic::SEARCH_SEED),
                frame_count,
                generation: 0,
                idle: 0,
            },
        )
    }

    /// What the pixel that shows at cell `who` costs at cell `at`, less its reward there.
    fn energy(
        &self,
        colors: &[(u8, u8, u8)],
        pixel_data: &[PixelData],
        frame: u32,
        who: usize,
        at: usize,
    ) -> (energy: i64)
        requires
            self.wf(),
            colors.len() == 16384,
            who < 16384,
            at < 16384,
        ensures
            energy == self.canvas(colors@, pixel_data@, frame).energy(
                self.pixels@,
                who as int,
                at as int,
            ),
            drawing::STROKE_REWARD <= energy <= cost::cost_ceiling(
                128,
                self.m.spatial_weight as int,
            ),
    {
        let pixel = self.pixels[who];
        proof {
            cost::lemma_cost_bound(
                (pixel.src_x, pixel.src_y),
                cost::cell(at as int, 128),
                colors[pixel.canvas_index()],
                self.m.target[at as int],
                self.m.weights[at as int] as int,
                128,
                self.m.spatial_weight as int,
            );
        }
        let place: (u16, u16) = (
            (at % DRAWING_CANVAS_SIZE) as u16,
            (at / DRAWING_CANVAS_SIZE) as u16,
        );
        pixel.calc_drawing_heuristic(
            place,
            self.m.target[at],
            self.m.weights[at],
            colors,
            self.m.spatial_weight,
        ) + drawing::stroke_reward(
            at,
            who,
            pixel_data,
            self.pixels.as_slice(),
            frame,
            &self.neighbours,
        )
    }

    /// How far the pixel that shows at a cell may travel.
    fn reach_from(&self, pixel_data: &[PixelData], frame: u32, pos: usize) -> (reach: u32)
        requires
            self.wf(),
            pixel_data.len() == 16384,
            pos < 16384,
        ensures
            reach == reach_at(
                frame,
                pixel_data[self.pixels[pos as int].canvas_index()].last_edited,
            ),
            1 <= reach <= 32,
    {
        let pixel = self.pixels[pos];
        let index: usize = pixel.src_y as usize * DRAWING_CANVAS_SIZE + pixel.src_x as usize;
        let then: u32 = pixel_data[index].last_edited;
        let age: u32 = if frame < then {
            0
        } else {
            frame - then
        };
        let reach: u32 = self.reach.max_dist(age);
        proof {
            schedule::shrunk_reach_is_unique_and_bounded(
                schedule::shrinkings(age),
                reach as int,
                reach_at(frame, then),
            );
        }
        reach
    }

    /// Draws a cell and a step from it that its pixel may travel, and gives both cells.
    fn draw_pair(&mut self, pixel_data: &[PixelData], frame: u32) -> (pair: (usize, usize))
        requires
            old(self).wf(),
            pixel_data.len() == 16384,
        ensures
            *final(self) == (Drawing { rng: final(self).rng, ..*old(self) }),
            pair.0 < 16384,
            pair.1 < 16384,
            ({
                let (a, rng1) = random::drawn_u64(old(self).state().rng, 0, 16384);
                let reach = reach_at(
                    frame,
                    pixel_data[old(self).state().pixels[a as int].canvas_index()].last_edited,
                );
                let (dx, rng2) = random::drawn_i16(rng1, -reach as i16, (reach + 1) as i16);
                let (dy, rng3) = random::drawn_i16(rng2, -reach as i16, (reach + 1) as i16);
                &&& pair.0 == a
                &&& pair.1 == genetic::landing(128, a as int, dx as int, dy as int)
                &&& final(self).state().rng == rng3
            }),
    {
        let side: u16 = DRAWING_CANVAS_SIZE as u16;
        let apos: usize = random::draw_u64(&mut self.rng, 0, self.pixels.len() as u64) as usize;
        let ax: u16 = apos as u16 % side;
        let ay: u16 = apos as u16 / side;
        let far: i16 = self.reach_from(pixel_data, frame, apos) as i16;
        let dx: i16 = random::draw_i16(&mut self.rng, -far, far + 1);
        let dy: i16 = random::draw_i16(&mut self.rng, -far, far + 1);
        let bx: u16 = genetic::clamp_coordinate(ax as i16 + dx, side);
        let by: u16 = genetic::clamp_coordinate(ay as i16 + dy, side);
        (apos, by as usize * DRAWING_CANVAS_SIZE + bx as usize)
    }

    /// Exchanges the pixels of two cells.
    fn exchange(&mut self, apos: usize, bpos: usize, a_h: i64, b_h: i64)
        requires
            old(self).wf(),
            apos < 16384,
            bpos < 16384,
            apos != bpos,
        ensures
            final(self).wf(),
            *final(self) == (Drawing { pixels: final(self).pixels, ..*old(self) }),
            final(self).pixels@ == old(self).pixels@.update(
                apos as int,
                DrawingPixel { h: b_h, ..old(self).pixels@[bpos as int] },
            ).update(bpos as int, DrawingPixel { h: a_h, ..old(self).pixels@[apos as int] }),
    {
        let ghost before = self.pixels@;
        let mut a = self.pixels[apos];
        let mut b = self.pixels[bpos];
        b.update_heuristic(b_h);
        a.update_heuristic(a_h);
        self.pixels.set(apos, b);
        self.pixels.set(bpos, a);
        proof {
            assert(order_of(self.pixels@) =~= genetic::swapped(
                order_of(before),
                apos as int,
                bpos as int,
            ));
            genetic::lemma_swap(self.m, order_of(before), apos as int, bpos as int);
        }
    }

    /// Tries one swap.
    fn try_swap(
        &mut self,
        colors: &[(u8, u8, u8)],
        pixel_data: &[PixelData],
        frame: u32,
    ) -> (made: bool)
        requires
            old(self).wf(),
            colors.len() == 16384,
            pixel_data.len() == 16384,
        ensures
            final(self).wf(),
            *final(self) == (Drawing {
                pixels: final(self).pixels,
                rng: final(self).rng,
                ..*old(self)
            }),
            ({
                let after = old(self).canvas(colors@, pixel_data@, frame).attempt(
                    old(self).state(),
                );
                &&& final(self).state().pixels == after.pixels
                &&& final(self).state().rng == after.rng
                &&& made == (after.swaps == 1)
            }),
    {
        proof {
            reveal(Canvas::attempt);
        }
        let (apos, bpos): (usize, usize) = self.draw_pair(pixel_data, frame);
        let back: i32 = self.reach_from(pixel_data, frame, bpos) as i32;
        let side: usize = DRAWING_CANVAS_SIZE;
        let step_x: i32 = (bpos % side) as i32 - (apos % side) as i32;
        let step_y: i32 = (bpos / side) as i32 - (apos / side) as i32;
        if step_x > back || step_x < -back || step_y > back || step_y < -back {
            return false;
        }
        let old_a_h: i64 = self.energy(colors, pixel_data, frame, apos, apos);
        let old_b_h: i64 = self.energy(colors, pixel_data, frame, bpos, bpos);
        let a_on_b_h: i64 = self.energy(colors, pixel_data, frame, apos, bpos);
        let b_on_a_h: i64 = self.energy(colors, pixel_data, frame, bpos, apos);
        if old_a_h + old_b_h > a_on_b_h + b_on_a_h {
            self.exchange(apos, bpos, a_on_b_h, b_on_a_h);
            true
        } else {
            false
        }
    }

    /// The frame that a generation takes for the present.
    fn current_frame(&self, pixel_data: &[PixelData]) -> (frame: u32)
        ensures
            frame == present_frame(self.frame_count, self.generation, pixel_data@),
    {
        let mut last: u32 = 0;
        let mut i: usize = 0;
        while i < pixel_data.len()
            invariant
                i <= pixel_data.len(),
                last == last_painted(pixel_data@.take(i as int)),
            decreases pixel_data.len() - i,
        {
            if last < pixel_data[i].last_edited {
                last = pixel_data[i].last_edited;
            }
            proof {
                assert(pixel_data@.take(i + 1).drop_last() =~= pixel_data@.take(i as int));
            }
            i = i + 1;
        }
        assert(pixel_data@.take(i as int) =~= pixel_data@);
        let counted: u32 = self.frame_count.saturating_add(self.generation);
        if counted < last {
            last
        } else {
            counted
        }
    }

    /// Tries the swaps of a generation, and counts those that were made. Gives up as soon as
    /// another drawing is being worked on.
    fn try_swaps(
        &mut self,
        colors: &[(u8, u8, u8)],
        pixel_data: &[PixelData],
        frame: u32,
        watch: &mut Watch,
    ) -> (made: Option<usize>)
        requires
            old(self).wf(),
            colors.len() == 16384,
            pixel_data.len() == 16384,
            old(watch).wf(),
            messages::undisturbed(old(watch).seen()),
        ensures
            final(self).wf(),
            *final(self) == (Drawing {
                pixels: final(self).pixels,
                rng: final(self).rng,
                ..*old(self)
            }),
            final(watch).wf(),
            final(watch).own() == old(watch).own(),
            final(watch).cell() == old(watch).cell(),
            ({
                let canvas = old(self).canvas(colors@, pixel_data@, frame);
                let polls = final(watch).seen().len() - old(watch).seen().len();
                match made {
                    Some(count) => {
                        let last = canvas.attempts(old(self).state(), 32768);
                        &&& messages::undisturbed(final(watch).seen())
                        &&& polls == 16
                        &&& count == last.swaps
                        &&& final(self).state() == (DrawingState { swaps: 0, ..last })
                    },
                    None => {
                        let tries = (polls - 1) * 2048;
                        &&& messages::stopped_at_last(final(watch).seen())
                        &&& 0 <= tries < 32768
                        &&& final(self).state() == (DrawingState {
                            swaps: 0,
                            ..canvas.attempts(old(self).state(), tries as nat)
                        })
                    },
                }
            }),
    {
        let ghost canvas = self.canvas(colors@, pixel_data@, frame);
        let ghost start = self.state();
        let wanted: usize = DRAWING_SWAPS_PER_PIXEL * self.pixels.len();
        let swaps: usize = if wanted < 1 {
            1
        } else if wanted > DRAWING_MAX_SWAPS_PER_GENERATION {
            DRAWING_MAX_SWAPS_PER_GENERATION
        } else {
            wanted
        };
        let mut swaps_made: usize = 0;
        let mut tries: usize = 0;
        while tries < swaps
            invariant
                self.wf(),
                *self == (Drawing { pixels: self.pixels, rng: self.rng, ..*old(self) }),
                colors.len() == 16384,
                pixel_data.len() == 16384,
                canvas == old(self).canvas(colors@, pixel_data@, frame),
                start == old(self).state(),
                swaps == 32768,
                tries <= swaps,
                swaps_made <= tries,
                watch.wf(),
                watch.own() == old(watch).own(),
                watch.cell() == old(watch).cell(),
                messages::undisturbed(watch.seen()),
                watch.seen().len() == old(watch).seen().len() + (tries + 2047) / 2048,
                self.pixels@ == canvas.attempts(start, tries as nat).pixels,
                random::rand_state(self.rng) == canvas.attempts(start, tries as nat).rng,
                swaps_made == canvas.attempts(start, tries as nat).swaps,
            decreases swaps - tries,
        {
            let ghost polls = (tries + 2047) / 2048;
            if tries % DRAWING_CANCEL_CHECK_INTERVAL == 0 {
                let superseded: bool = watch.poll();
                if superseded {
                    proof {
                        messages::lemma_stopped(watch.seen());
                        assert(tries == polls * 2048);
                    }
                    return None;
                }
            }
            proof {
                let now = canvas.attempts(start, tries as nat);
                assert(self.state() == (DrawingState { swaps: 0, ..now }));
                lemma_attempt_counts(canvas, now);
            }
            let made: bool = self.try_swap(colors, pixel_data, frame);
            if made {
                swaps_made = swaps_made + 1;
            }
            proof {
                assert((tries + 1 + 2047) / 2048 == if tries % 2048 == 0 {
                    polls + 1
                } else {
                    polls
                });
            }
            tries = tries + 1;
        }
        Some(swaps_made)
    }

    /// Works on the drawing for one generation, given the colors of the canvas and what is
    /// known about its pixels by now.
    pub fn run_generation(
        &mut self,
        colors: &[(u8, u8, u8)],
        pixel_data: &[PixelData],
        watch: &mut Watch,
    ) -> (result: Result<DrawingStep, DrawingError>)
        requires
            old(self).wf(),
            old(watch).wf(),
            messages::undisturbed(old(watch).seen()),
        ensures
            final(self).wf(),
            final(watch).wf(),
            final(watch).own() == old(watch).own(),
            final(watch).cell() == old(watch).cell(),
            match result {
                Ok(step) => {
                    &&& colors.len() == 16384
                    &&& pixel_data.len() == 16384
                    &&& ends_generation(
                        step,
                        *old(self),
                        *final(self),
                        *old(watch),
                        *final(watch),
                        colors@,
                        pixel_data@,
                    )
                },
                Err(error) => {
                    &&& *final(self) == *old(self)
                    &&& final(watch).seen() == old(watch).seen()
                    &&& is_size_error(error, colors@, pixel_data@)
                },
            },
    {
        let count: usize = DRAWING_CANVAS_SIZE * DRAWING_CANVAS_SIZE;
        if colors.len() != count {
            return Err(DrawingError::ColorsChangedSize);
        }
        if pixel_data.len() != count {
            return Err(DrawingError::PixelsWrongSize);
        }
        let frame: u32 = self.current_frame(pixel_data);
        let swaps_made: usize = match self.try_swaps(colors, pixel_data, frame, watch) {
            Some(swaps_made) => swaps_made,
            None => {
                return Ok(DrawingStep::Superseded(
                    DrawingWorkerEvent {
                        drawing_id: watch.drawing_id(),
                        msg: ProgressMsg::Cancelled,
                    },
                ));
            },
        };
        self.generation = self.generation.saturating_add(1);
        if swaps_made > 0 {
            self.idle = 0;
            Ok(DrawingStep::Moved(
                DrawingWorkerEvent {
                    drawing_id: watch.drawing_id(),
                    msg: ProgressMsg::UpdateAssignments(self.assignments()),
                },
            ))
        } else {
            self.idle = self.idle.saturating_add(1);
            Ok(DrawingStep::Idle(backoff_ms(self.idle)))
        }
    }

    /// Which canvas pixel shows at each cell.
    pub fn assignments(&self) -> (assignments: Vec<usize>)
        requires
            self.wf(),
        ensures
            assignments@ == order_of(self.state().pixels),
    {
        let mut assignments: Vec<usize> = Vec::with_capacity(self.pixels.len());
        for i in 0..self.pixels.len()
            invariant
                self.wf(),
                assignments.len() == i,
                forall|j: int|
                    0 <= j < i ==> #[trigger] assignments[j] == order_of(self.pixels@)[j],
        {
            let pixel = self.pixels[i];
            assignments.push(pixel.src_y as usize * DRAWING_CANVAS_SIZE + pixel.src_x as usize);
        }
        assert(assignments@ =~= order_of(self.pixels@));
        assignments
    }
}

/// The error for a canvas that has changed its size.
pub open spec fn is_size_error(
    error: DrawingError,
    colors: Seq<(u8, u8, u8)>,
    pixel_data: Seq<PixelData>,
) -> bool {
    if colors.len() != 16384 {
        error is ColorsChangedSize
    } else {
        pixel_data.len() != 16384 && error is PixelsWrongSize
    }
}

/// Whether a generation may end so: it leads from one drawing to another, and this is to be done
/// next.
pub open spec fn ends_generation(
    step: DrawingStep,
    before: Drawing,
    after: Drawing,
    watch_before: Watch,
    watch_after: Watch,
    colors: Seq<(u8, u8, u8)>,
    pixel_data: Seq<PixelData>,
) -> bool {
    let last = before.after_tries(colors, pixel_data, 32768);
    let own = watch_before.own();
    let polls = watch_after.seen().len() - watch_before.seen().len();
    match step {
        DrawingStep::Superseded(event) => {
            &&& messages::stopped_at_last(watch_after.seen())
            &&& told_by(event) == (own, Message::Cancelled)
            &&& before.is_cut_to(colors, pixel_data, polls, after)
        },
        DrawingStep::Moved(event) => {
            &&& messages::undisturbed(watch_after.seen())
            &&& polls == 16
            &&& last.swaps > 0
            &&& told_by(event) == (own, Message::UpdateAssignments(order_of(last.pixels)))
            &&& preset::is_permutation(order_of(last.pixels), 16384)
            &&& before.develops_into(colors, pixel_data, after)
        },
        DrawingStep::Idle(wait) => {
            &&& messages::undisturbed(watch_after.seen())
            &&& polls == 16
            &&& last.swaps == 0
            &&& wait == backoff(after.idle())
            &&& before.develops_into(colors, pixel_data, after)
        },
    }
}

/// What an event tells, and to which drawing it belongs.
pub open spec fn told_by(event: DrawingWorkerEvent) -> (u32, Message) {
    (event.drawing_id, event.msg@)
}

/// Where pixels are that a drawing job moved: every canvas pixel shows at exactly one cell.
pub open spec fn tells_of_moves(event: (u32, Message), own: u32) -> bool {
    &&& event.0 == own
    &&& event.1 matches Message::UpdateAssignments(order) && preset::is_permutation(order, 16384)
}

/// What a job has told about drawing `own` so far: where its pixels are, as often as they moved,
/// and, if it has ended, that it was cancelled.
pub open spec fn is_record(told: Seq<(u32, Message)>, own: u32, ended: bool) -> bool {
    let moves: int = if ended {
        told.len() - 1
    } else {
        told.len() as int
    };
    &&& forall|i: int| 0 <= i < moves ==> tells_of_moves(#[trigger] told[i], own)
    &&& ended ==> told.len() > 0 && told.last() == (own, Message::Cancelled)
}

/// What a job is asked to do next: to look whether another drawing is being worked on, or to work
/// on a canvas for one generation.
pub enum Visit {
    Look,
    Work { colors: Seq<(u8, u8, u8)>, pixel_data: Seq<PixelData> },
}

/// A job that rearranges a canvas until another drawing is being worked on.
pub struct DrawingSession {
    drawing: Drawing,
    watch: Watch,
    told: Ghost<Seq<(u32, Message)>>,
}

impl DrawingSession {
    /// The drawing.
    pub closed spec fn drawing(&self) -> Drawing {
        self.drawing
    }

    /// The number of the drawing, where the number of the current one stands, and what was seen
    /// there.
    pub closed spec fn watch(&self) -> Watch {
        self.watch
    }

    /// The events that the job asked to tell, in order.
    pub closed spec fn told(&self) -> Seq<(u32, Message)> {
        self.told@
    }

    /// The number of another drawing was found.
    pub open spec fn ended(&self) -> bool {
        messages::stopped_at_last(self.watch().seen())
    }

    /// The job goes on until the number of another drawing was found, and has told of every move
    /// and of its end.
    pub open spec fn wf(&self) -> bool {
        &&& self.drawing().wf()
        &&& self.watch().wf()
        &&& self.ended() || messages::undisturbed(self.watch().seen())
        &&& is_record(self.told(), self.watch().own(), self.ended())
    }

    /// Nothing but the drawing, what was seen and what was told has changed.
    pub open spec fn goes_on_as(&self, after: DrawingSession) -> bool {
        &&& after.wf()
        &&& after.watch().own() == self.watch().own()
        &&& after.watch().cell() == self.watch().cell()
    }

    /// Whether a step of a generation that was worked on leads from this job to another state of
    /// it, and has told what was to be told.
    pub open spec fn took(
        &self,
        step: DrawingStep,
        colors: Seq<(u8, u8, u8)>,
        pixel_data: Seq<PixelData>,
        after: DrawingSession,
    ) -> bool {
        &&& ends_generation(
            step,
            self.drawing(),
            after.drawing(),
            self.watch(),
            after.watch(),
            colors,
            pixel_data,
        )
        &&& after.ended() == step is Superseded
        &&& after.told() == match step {
            DrawingStep::Superseded(event) => self.told().push(told_by(event)),
            DrawingStep::Moved(event) => self.told().push(told_by(event)),
            DrawingStep::Idle(_) => self.told(),
        }
    }

    /// Whether doing what it is asked may lead from this job to another state of it.
    pub open spec fn leads_to(&self, visit: Visit, after: DrawingSession) -> bool {
        &&& self.goes_on_as(after)
        &&& match visit {
            Visit::Look => {
                &&& after.drawing() == self.drawing()
                &&& after.watch().seen() == self.watch().seen().push(after.ended())
                &&& after.told() == if after.ended() {
                    self.told().push((self.watch().own(), Message::Cancelled))
                } else {
                    self.told()
                }
            },
            Visit::Work { colors, pixel_data } => if colors.len() == 16384 && pixel_data.len()
                == 16384 {
                exists|step: DrawingStep| #[trigger] self.took(step, colors, pixel_data, after)
            } else {
                &&& after.drawing() == self.drawing()
                &&& after.watch().seen() == self.watch().seen()
                &&& after.told() == self.told()
            },
        }
    }

    /// Begins a drawing that has a number, given where the number of the current one stands.
    pub fn new(
        m: ImgDiffWeights,
        colors: &[(u8, u8, u8)],
        frame_count: u32,
        my_id: u32,
        current_id: Arc<AtomicU32>,
    ) -> (result: Result<DrawingSession, DrawingError>)
        requires
            m.wf(),
            m.sidelen == DRAWING_CANVAS_SIZE,
        ensures
            match result {
                Ok(session) => {
                    &&& colors.len() == 16384
                    &&& session.wf()
                    &&& !session.ended()
                    &&& session.drawing().begun_with(m, colors@, frame_count)
                    &&& session.watch().own() == my_id
                    &&& session.watch().cell() == *current_id
                    &&& session.watch().seen() == Seq::<bool>::empty()
                    &&& session.told() == Seq::<(u32, Message)>::empty()
                },
                Err(error) => colors.len() != 16384 && error is ColorsWrongSize,
            },
    {
        match Drawing::new(m, colors, frame_count) {
            Ok(drawing) => Ok(
                DrawingSession {
                    drawing,
                    watch: Watch::new(my_id, current_id),
                    told: Ghost(Seq::empty()),
                },
            ),
            Err(error) => Err(error),
        }
    }

    /// Looks whether another drawing is being worked on. If so, the job ends, and this is to be
    /// told.
    pub fn look(&mut self) -> (end: Option<DrawingWorkerEvent>)
        requires
            old(self).wf(),
            !old(self).ended(),
        ensures
            old(self).leads_to(Visit::Look, *final(self)),
            final(self).ended() == end is Some,
            messages::differed(old(self).watch().cell(), old(self).watch().own(), end is Some),
            end matches Some(event) ==> told_by(event) == (
                old(self).watch().own(),
                Message::Cancelled,
            ),
    {
        let superseded: bool = self.watch.poll();
        assert(self.watch().seen().drop_last() =~= old(self).watch().seen());
        if superseded {
            let event = DrawingWorkerEvent {
                drawing_id: self.watch.drawing_id(),
                msg: ProgressMsg::Cancelled,
            };
            proof {
                self.told@ = self.told@.push(told_by(event));
            }
            Some(event)
        } else {
            assert(!self.watch().seen().last());
            None
        }
    }

    /// Works on the drawing for one generation, given the colors of the canvas and what is
    /// known about its pixels by now.
    pub fn work(&mut self, colors: &[(u8, u8, u8)], pixel_data: &[PixelData]) -> (result: Result<
        DrawingStep,
        DrawingError,
    >)
        requires
            old(self).wf(),
            !old(self).ended(),
        ensures
            old(self).leads_to(
                Visit::Work { colors: colors@, pixel_data: pixel_data@ },
                *final(self),
            ),
            match result {
                Ok(step) => {
                    &&& colors.len() == 16384
                    &&& pixel_data.len() == 16384
                    &&& old(self).took(step, colors@, pixel_data@, *final(self))
                },
                Err(error) => is_size_error(error, colors@, pixel_data@),
            },
    {
        let result = self.drawing.run_generation(colors, pixel_data, &mut self.watch);
        match &result {
            Ok(DrawingStep::Superseded(event)) => {
                proof {
                    self.told@ = self.told@.push(told_by(*event));
                }
            },
            Ok(DrawingStep::Moved(event)) => {
                proof {
                    self.told@ = self.told@.push(told_by(*event));
                }
            },
            _ => {},
        }
        proof {
            if result is Ok {
                assert(old(self).took(result->Ok_0, colors@, pixel_data@, *self));
            }
        }
        result
    }
}

/// A job ends only after a number that is not its own was read. It tells so once, as the last
/// thing, under its own number; everything before tells where its pixels are.
pub proof fn drawings_end_once(session: DrawingSession)
    requires
        session.wf(),
    ensures
        ({
            let (told, own) = (session.told(), session.watch().own());
            &&& session.ended() <==> exists|i: int|
                0 <= i < told.len() && (#[trigger] told[i]).1 is Cancelled
            &&& session.ended() ==> exists|current: u32| #[trigger]
                messages::gave_number(session.watch().cell(), current) && current != own
            &&& forall|i: int|
                0 <= i < told.len() ==> (#[trigger] told[i]).0 == own && if session.ended() && i
                    == told.len() - 1 {
                    told[i].1 is Cancelled
                } else {
                    told[i].1 is UpdateAssignments
                }
        }),
{
    let (told, seen) = (session.told(), session.watch().seen());
    if session.ended() {
        assert(told[told.len() - 1].1 is Cancelled);
        assert(messages::differed(
            session.watch().cell(),
            session.watch().own(),
            seen[seen.len() - 1],
        ));
    }
}

/// A count that stays at its highest value.
pub open spec fn next_count(count: u32) -> u32 {
    if count == u32::MAX {
        count
    } else {
        (count + 1) as u32
    }
}

/// How many milliseconds to wait after a number of idle generations.
pub fn backoff_ms(idle: u32) -> (wait: u64)
    ensures
        wait == backoff(idle),
        1 <= wait <= 500,
{
    let doublings: u32 = if idle < 9 {
        idle
    } else {
        9
    };
    let mut wait: u64 = 1;
    let mut i: u32 = 0;
    proof {
        power::lemma_pow0(2);
    }
    while i < doublings
        invariant
            i <= doublings <= 9,
            wait == power::pow(2, i as nat),
            1 <= wait <= 512,
        decreases doublings - i,
    {
        proof {
            power::lemma_pow_adds(2, i as nat, 1);
            power::lemma_pow1(2);
            power::lemma_pow_increases(2, (i + 1) as nat, 9);
            assert(power::pow(2, 9) == 512) by {
                reveal_with_fuel(power::pow, 10);
            }
        }
        wait = wait * 2;
        i = i + 1;
    }
    proof {
        assert(power::pow(2, 9) == 512 && power::pow(2, 8) == 256) by {
            reveal_with_fuel(power::pow, 10);
        }
        if idle < 9 {
            power::lemma_pow_increases(2, idle as nat, 8);
        }
    }
    if wait > 500 {
        500
    } else {
        wait
    }
}

/// Whatever resolution the settings of a drawing name, its job makes the same request.
pub proof fn drawings_ignore_the_resolution_of_their_settings(
    asked: prepare::Request,
    sidelen: u32,
)
    ensures
        ({
            let resized = prepare::Request {
                settings: SettingsView { sidelen, ..asked.settings },
                ..asked
            };
            drawing_request(resized) == drawing_request(asked)
        }),
{
}

/// Drawings that begin with the same pictures, colors and frame are like each other.
pub proof fn drawings_begin_alike(
    one: Drawing,
    other: Drawing,
    m: ImgDiffWeights,
    same: ImgDiffWeights,
    colors: Seq<(u8, u8, u8)>,
    frame_count: u32,
)
    requires
        m.holds_the_same(same),
        one.begun_with(m, colors, frame_count),
        other.begun_with(same, colors, frame_count),
    ensures
        one.is_like(other),
{
    assert(first_pixels(m, colors) =~= first_pixels(same, colors));
    assert forall|i: int| 0 <= i < 16384 implies #[trigger] one.neighbour_map()[i]
        == other.neighbour_map()[i] by {
        assert(one.neighbour_map()[i] =~= other.neighbour_map()[i]);
    }
    assert(one.neighbour_map() =~= other.neighbour_map());
}

proof fn lemma_tries_repeat(one: Canvas, other: Canvas, start: DrawingState, tries: nat)
    requires
        one.m.holds_the_same(other.m),
        one.colors == other.colors,
        one.pixel_data == other.pixel_data,
        one.frame == other.frame,
        one.neighbours == other.neighbours,
    ensures
        one.attempts(start, tries) == other.attempts(start, tries),
    decreases tries,
{
    if tries > 0 {
        reveal(Canvas::attempt);
        lemma_tries_repeat(one, other, start, (tries - 1) as nat);
        let s = one.attempts(start, (tries - 1) as nat);
        assert forall|who: int, at: int| #[trigger]
            one.energy(s.pixels, who, at) == other.energy(s.pixels, who, at) by {}
        assert(one.attempt(s) == other.attempt(s));
    }
}

/// Both generations ask for the same to be done next.
pub open spec fn is_same_step(one: DrawingStep, other: DrawingStep) -> bool {
    match (one, other) {
        (DrawingStep::Superseded(one), DrawingStep::Superseded(other)) => told_by(one) == told_by(
            other,
        ),
        (DrawingStep::Moved(one), DrawingStep::Moved(other)) => told_by(one) == told_by(other),
        (DrawingStep::Idle(one), DrawingStep::Idle(other)) => one == other,
        _ => false,
    }
}

/// Drawings that are like each other, have the same number, and see the same canvas and the same
/// current numbers, tell the same and are like each other after a generation.
pub proof fn generations_repeat(
    one: Drawing,
    one_after: Drawing,
    one_watch: Watch,
    one_watch_after: Watch,
    one_step: DrawingStep,
    other: Drawing,
    other_after: Drawing,
    other_watch: Watch,
    other_watch_after: Watch,
    other_step: DrawingStep,
    colors: Seq<(u8, u8, u8)>,
    pixel_data: Seq<PixelData>,
)
    requires
        one.is_like(other),
        one_watch.own() == other_watch.own(),
        one_watch.seen() == other_watch.seen(),
        one_watch_after.seen() == other_watch_after.seen(),
        ends_generation(
            one_step,
            one,
            one_after,
            one_watch,
            one_watch_after,
            colors,
            pixel_data,
        ),
        ends_generation(
            other_step,
            other,
            other_after,
            other_watch,
            other_watch_after,
            colors,
            pixel_data,
        ),
    ensures
        one_after.is_like(other_after),
        is_same_step(one_step, other_step),
{
    let frame = present_frame(one.frame_count(), one.generation(), pixel_data);
    let canvas = one.canvas(colors, pixel_data, frame);
    let same = other.canvas(colors, pixel_data, frame);
    let seen = one_watch_after.seen();
    let polls = seen.len() - one_watch.seen().len();
    lemma_tries_repeat(canvas, same, one.state(), 32768);
    if messages::stopped_at_last(seen) {
        assert(seen[seen.len() - 1]);
        lemma_tries_repeat(canvas, same, one.state(), ((polls - 1) * 2048) as nat);
    }
}

/// Whether a job was in one state after the other, doing what it was asked.
pub open spec fn is_history(states: Seq<DrawingSession>, visits: Seq<Visit>) -> bool {
    &&& states.len() == visits.len() + 1
    &&& forall|i: int|
        0 <= i < visits.len() ==> (#[trigger] states[i]).leads_to(visits[i], states[i + 1])
}

/// Both jobs found the number of another drawing at the same times.
pub open spec fn saw_the_same(one: DrawingSession, other: DrawingSession) -> bool {
    one.watch().own() == other.watch().own() && one.watch().seen() == other.watch().seen()
}

proof fn lemma_visits_repeat(
    one: DrawingSession,
    one_after: DrawingSession,
    other: DrawingSession,
    other_after: DrawingSession,
    visit: Visit,
)
    requires
        one.drawing().is_like(other.drawing()),
        one.told() == other.told(),
        saw_the_same(one, other),
        saw_the_same(one_after, other_after),
        one.leads_to(visit, one_after),
        other.leads_to(visit, other_after),
    ensures
        one_after.drawing().is_like(other_after.drawing()),
        one_after.told() == other_after.told(),
{
    match visit {
        Visit::Look => {},
        Visit::Work { colors, pixel_data } => {
            if colors.len() == 16384 && pixel_data.len() == 16384 {
                let step = choose|step: DrawingStep| #[trigger]
                    one.took(step, colors, pixel_data, one_after);
                let other_step = choose|step: DrawingStep| #[trigger]
                    other.took(step, colors, pixel_data, other_after);
                generations_repeat(
                    one.drawing(),
                    one_after.drawing(),
                    one.watch(),
                    one_after.watch(),
                    step,
                    other.drawing(),
                    other_after.drawing(),
                    other.watch(),
                    other_after.watch(),
                    other_step,
                    colors,
                    pixel_data,
                );
            }
        },
    }
}

/// Jobs with the same number that begin alike, are asked the same, and find the same canvas and
/// the same current numbers, tell the same all the time.
pub proof fn sessions_repeat(
    one: Seq<DrawingSession>,
    other: Seq<DrawingSession>,
    visits: Seq<Visit>,
    i: int,
)
    requires
        is_history(one, visits),
        is_history(other, visits),
        one[0].drawing().is_like(other[0].drawing()),
        one[0].told() == other[0].told(),
        forall|k: int| 0 <= k < one.len() ==> saw_the_same(#[trigger] one[k], other[k]),
        0 <= i < one.len(),
    ensures
        one[i].told() == other[i].told(),
        one[i].drawing().is_like(other[i].drawing()),
    decreases i,
{
    if i > 0 {
        sessions_repeat(one, other, visits, i - 1);
        assert(one[i - 1].leads_to(visits[i - 1], one[i - 1 + 1]));
        assert(other[i - 1].leads_to(visits[i - 1], other[i - 1 + 1]));
        assert(saw_the_same(one[i - 1], other[i - 1]) && saw_the_same(one[i], other[i]));
        lemma_visits_repeat(one[i - 1], one[i], other[i - 1], other[i], visits[i - 1]);
    }
}

/// Two drawings whose settings differ in nothing but the resolution, begun with the same colors
/// and frame, tell the same all the time if they are asked the same and find the same canvas and
/// the same current numbers, and if decoding and resampling made the same of their pictures or had
/// nothing to do.
pub proof fn the_resolution_of_settings_does_not_matter(
    asked: prepare::Request,
    sidelen: u32,
    m: ImgDiffWeights,
    other_m: ImgDiffWeights,
    colors: Seq<(u8, u8, u8)>,
    frame_count: u32,
    one: Seq<DrawingSession>,
    other: Seq<DrawingSession>,
    visits: Seq<Visit>,
    i: int,
)
    requires
        ({
            let resized = prepare::Request {
                settings: SettingsView { sidelen, ..asked.settings },
                ..asked
            };
            &&& drawing_request(asked).asks_for(m)
            &&& drawing_request(resized).asks_for(other_m)
            &&& drawing_request(asked).is_made_like(m, drawing_request(resized), other_m)
        }),
        is_history(one, visits),
        is_history(other, visits),
        one[0].drawing().begun_with(m, colors, frame_count),
        other[0].drawing().begun_with(other_m, colors, frame_count),
        one[0].told() == other[0].told(),
        forall|k: int| 0 <= k < one.len() ==> saw_the_same(#[trigger] one[k], other[k]),
        0 <= i < one.len(),
    ensures
        one[i].told() == other[i].told(),
        one[i].drawing().is_like(other[i].drawing()),
{
    let resized = prepare::Request {
        settings: SettingsView { sidelen, ..asked.settings },
        ..asked
    };
    drawings_ignore_the_resolution_of_their_settings(asked, sidelen);
    prepare::equal_requests_ask_for_equal_matrices(
        drawing_request(asked),
        m,
        drawing_request(resized),
        other_m,
    );
    drawings_begin_alike(
        one[0].drawing(),
        other[0].drawing(),
        m,
        other_m,
        colors,
        frame_count,
    );
    sessions_repeat(one, other, visits, i);
}

/// Tries never undo swaps, and without a swap every pixel stays where it is.
pub proof fn idle_generations_move_nothing(canvas: Canvas, start: DrawingState, tries: nat)
    ensures
        canvas.attempts(start, tries).swaps >= start.swaps,
        canvas.attempts(start, tries).swaps == start.swaps ==> canvas.attempts(start, tries).pixels
            == start.pixels,
    decreases tries,
{
    if tries > 0 {
        reveal(Canvas::attempt);
        idle_generations_move_nothing(canvas, start, (tries - 1) as nat);
    }
}

/// A pixel may travel 32 cells when it has just been painted, and one percent less every 30 frames,
/// rounded to the nearest integer but not below one.
pub proof fn pixels_travel_by_age(frame: u32, last_edited: u32)
    ensures
        ({
            let age = math::max(0, frame - last_edited);
            let n = (math::min(age, 2147483647) / 30) as nat;
            let (left, unit) = (64 * power::pow(99, n), power::pow(100, n));
            let reach = reach_at(frame, last_edited);
            &&& 1 <= reach <= 32
            &&& age < 30 ==> reach == 32
            &&& left < (2 * reach + 1) * unit
            &&& reach > 1 ==> (2 * reach - 1) * unit <= left
        }),
{
    let age = frames_since(frame, last_edited);
    let n = schedule::shrinkings(age);
    let (left, unit) = (schedule::shrunk(n), power::pow(100, n));
    power::lemma_pow_positive(100, n);
    power::lemma_pow_positive(99, n);
    let rounded = (left + unit) / (2 * unit);
    let r = if left < 3 * unit {
        1
    } else {
        rounded
    };
    assert((2 * rounded - 1) * unit <= left && left < (2 * rounded + 1) * unit) by (nonlinear_arith)
        requires
            unit > 0,
            rounded == (left + unit) / (2 * unit),
    {
        let d = 2 * unit;
        vstd::arithmetic::div_mod::lemma_fundamental_div_mod(left + unit, d);
        vstd::arithmetic::div_mod::lemma_mod_bound(left + unit, d);
        assert(d * rounded == 2 * rounded * unit);
    }
    assert(schedule::is_shrunk_reach(n, r));
    let reach = reach_at(frame, last_edited);
    assert(schedule::is_shrunk_reach(n, reach));
    schedule::shrunk_reach_is_unique_and_bounded(n, reach, r);
    schedule::strokes_settle_by_one_percent_every_30_frames(age, reach);
}

/// One try picks the cell that the first draw gives, and the cell that lies the two steps away that the
/// next draws give, or at the edge of the canvas; the steps are as long as the pixel of the first cell
/// may travel. If the pixel of the second cell may travel back, and the two cost less at each other's
/// cell, rewards included, they are exchanged; nothing else changes.
pub proof fn tries_exchange_what_is_drawn(canvas: Canvas, s: DrawingState)
    requires
        canvas.m.wf(),
        canvas.m.sidelen == 128,
        canvas.pixel_data.len() == 16384,
        covers(s.pixels),
        s.pixels.len() == 16384,
    ensures
        ({
            let after = canvas.attempt(s);
            let first = random::stepped(s.rng);
            let second = random::stepped(first);
            let third = random::stepped(second);
            let source = |cell: int| s.pixels[cell].src_y * 128 + s.pixels[cell].src_x;
            let reach = |cell: int|
                reach_at(canvas.frame, canvas.pixel_data[source(cell)].last_edited);
            let price = |who: int, at: int|
                cost::cost(
                    (s.pixels[who].src_x, s.pixels[who].src_y),
                    ((at % 128) as u16, (at / 128) as u16),
                    canvas.colors[source(who)],
                    canvas.m.target[at],
                    canvas.m.weights[at] as int,
                    canvas.m.spatial_weight as int,
                ) + drawing::reward(
                    at,
                    who,
                    canvas.pixel_data,
                    s.pixels,
                    canvas.frame,
                    canvas.neighbours,
                );
            let a = random::bits_64(first) as int % 16384;
            let span = 2 * reach(a) + 1;
            let dx = random::bits_32(second) as int % 65536 % span - reach(a);
            let dy = random::bits_32(third) as int % 65536 % span - reach(a);
            let x = math::max(0, math::min(127, a % 128 + dx));
            let y = math::max(0, math::min(127, a / 128 + dy));
            let b = y * 128 + x;
            let goes_back = -reach(b) <= x - a % 128 <= reach(b) && -reach(b) <= y - a / 128
                <= reach(b);
            &&& 0 <= a < 16384
            &&& 0 <= b < 16384
            &&& after.rng == third
            &&& after.pixels.len() == 16384
            &&& if goes_back && price(a, a) + price(b, b) > price(a, b) + price(b, a) {
                &&& after.swaps == s.swaps + 1
                &&& (after.pixels[a].src_x, after.pixels[a].src_y) == (
                    s.pixels[b].src_x,
                    s.pixels[b].src_y,
                )
                &&& (after.pixels[b].src_x, after.pixels[b].src_y) == (
                    s.pixels[a].src_x,
                    s.pixels[a].src_y,
                )
                &&& forall|i: int|
                    0 <= i < 16384 && i != a && i != b ==> #[trigger] after.pixels[i] == s.pixels[i]
            } else {
                &&& after.swaps == s.swaps
                &&& after.pixels == s.pixels
            }
        }),
{
    reveal(Canvas::attempt);
    let first = random::stepped(s.rng);
    let second = random::stepped(first);
    draws::draws_are_remainders(s.rng, 0, 16384);
    let a = random::bits_64(first) as int % 16384;
    assert(s.pixels[a].src_x < 128 && s.pixels[a].src_y < 128);
    let reach = canvas.reach_of(s.pixels[a]);
    pixels_travel_by_age(canvas.frame, canvas.pixel_data[s.pixels[a].canvas_index()].last_edited);
    draws::draws_are_remainders(first, -reach, reach + 1);
    draws::draws_are_remainders(second, -reach, reach + 1);
    let span = 2 * reach + 1;
    let i = random::bits_32(second) as int % 65536;
    let j = random::bits_32(random::stepped(second)) as int % 65536;
    assert(0 <= i % span < span && 0 <= j % span < span) by {
        vstd::arithmetic::div_mod::lemma_mod_bound(i, span);
        vstd::arithmetic::div_mod::lemma_mod_bound(j, span);
    }
    let (dx, dy) = (i % span - reach, j % span - reach);
    let x = math::max(0, math::min(127, a % 128 + dx));
    let y = math::max(0, math::min(127, a / 128 + dy));
    let b = y * 128 + x;
    assert(b == genetic::landing(128, a, dx, dy));
    assert(b % 128 == x && b / 128 == y);
}

/// Any cell of the canvas is the first cell of some try.
pub proof fn tries_begin_at_any_cell(cell: int) -> (rng: u64)
    requires
        0 <= cell < 16384,
    ensures
        random::bits_64(random::stepped(rng)) as int % 16384 == cell,
{
    let rng = draws::any_lower_half_can_be_made(cell as u32);
    let bits = random::bits_64(random::stepped(rng)) as int;
    assert(bits % 16384 == bits % 0x1_0000_0000 % 16384);
    rng
}

/// A generation that is not stopped makes 32768 tries, each from where the one before it left off, with
/// the canvas as it is at the present frame.
pub proof fn generations_try_32768_swaps(
    before: Drawing,
    after: Drawing,
    colors: Seq<(u8, u8, u8)>,
    pixel_data: Seq<PixelData>,
)
    requires
        before.develops_into(colors, pixel_data, after),
    ensures
        ({
            let canvas = Canvas {
                m: before.matrix(),
                colors,
                pixel_data,
                frame: present_frame(before.frame_count(), before.generation(), pixel_data),
                neighbours: before.neighbour_map(),
            };
            let last = canvas.attempts(before.state(), 32768);
            &&& after.state().pixels == last.pixels
            &&& after.state().rng == last.rng
            &&& canvas.attempts(before.state(), 0) == before.state()
            &&& forall|k: nat| #[trigger]
                canvas.attempts(before.state(), k + 1) == canvas.attempt(
                    canvas.attempts(before.state(), k),
                )
            &&& last.swaps == 0 ==> after.idle() == math::min(u32::MAX as int, before.idle() + 1)
            &&& last.swaps > 0 ==> after.idle() == 0
            &&& after.generation() == math::min(u32::MAX as int, before.generation() + 1)
        }),
{
}

proof fn lemma_last_painted(pixel_data: Seq<PixelData>, i: int)
    ensures
        0 <= i < pixel_data.len() ==> pixel_data[i].last_edited <= last_painted(pixel_data),
        last_painted(pixel_data) == 0 || exists|k: int|
            0 <= k < pixel_data.len() && (#[trigger] pixel_data[k]).last_edited == last_painted(
                pixel_data,
            ),
    decreases pixel_data.len(),
{
    if pixel_data.len() > 0 {
        let rest = pixel_data.drop_last();
        lemma_last_painted(rest, i);
        if last_painted(pixel_data) == pixel_data.last().last_edited {
            assert(pixel_data[pixel_data.len() - 1].last_edited == last_painted(pixel_data));
        } else if last_painted(rest) != 0 {
            let k = choose|k: int|
                0 <= k < rest.len() && (#[trigger] rest[k]).last_edited == last_painted(rest);
            assert(pixel_data[k] == rest[k]);
        }
    }
}

/// The present is the frame in which the drawing was begun and a frame for each generation, or the frame
/// of the last edit if that is later.
pub proof fn the_present_is_no_earlier_than_any_edit(
    frame_count: u32,
    generation: u32,
    pixel_data: Seq<PixelData>,
    i: int,
)
    requires
        0 <= i < pixel_data.len(),
    ensures
        ({
            let frame = present_frame(frame_count, generation, pixel_data);
            let counted = math::min(u32::MAX as int, frame_count + generation);
            &&& pixel_data[i].last_edited <= frame
            &&& counted <= frame
            &&& frame == counted || exists|k: int|
                0 <= k < pixel_data.len() && (#[trigger] pixel_data[k]).last_edited == frame
        }),
{
    lemma_last_painted(pixel_data, i);
}

/// After the first idle generation, a drawing waits for two milliseconds, after each further one twice
/// as long, and never longer than half a second.
pub proof fn waits_double(idle: u32)
    requires
        idle < u32::MAX,
    ensures
        backoff(0) == 1,
        backoff((idle + 1) as u32) == math::min(500, 2 * backoff(idle)),
{
    power::lemma_pow0(2);
    power::lemma_pow_adds(2, idle as nat, 1);
    power::lemma_pow1(2);
    assert(power::pow(2, 9) == 512 && power::pow(2, 8) == 256) by {
        reveal_with_fuel(power::pow, 10);
    }
    if idle < 8 {
        power::lemma_pow_increases(2, (idle + 1) as nat, 8);
    }
}

/// A drawing begins with every pixel at its own cell, where it costs what its color costs there, and
/// with the same random numbers each time.
pub proof fn drawings_begin_unmoved(
    drawing: Drawing,
    m: ImgDiffWeights,
    colors: Seq<(u8, u8, u8)>,
    frame_count: u32,
    x: int,
    y: int,
)
    requires
        drawing.begun_with(m, colors, frame_count),
        0 <= x < 128,
        0 <= y < 128,
    ensures
        ({
            let cell = y * 128 + x;
            let pixel = drawing.state().pixels[cell];
            &&& drawing.state().pixels.len() == 16384
            &&& pixel.src_x == x
            &&& pixel.src_y == y
            &&& pixel.h == cost::cost(
                (x as u16, y as u16),
                (x as u16, y as u16),
                colors[cell],
                m.target[cell],
                m.weights[cell] as int,
                m.spatial_weight as int,
            ) as i64
            &&& order_of(drawing.state().pixels)[cell] == cell
            &&& drawing.state().rng == random::seeded(12345)
            &&& drawing.matrix() == m
            &&& drawing.frame_count() == frame_count
            &&& drawing.generation() == 0
        }),
{
    let cell = y * 128 + x;
    assert(cell % 128 == x && cell / 128 == y);
}

/// What is told of a drawing is the canvas index of the pixel at each cell.
pub proof fn orders_tell_where_pixels_come_from(pixels: Seq<DrawingPixel>, cell: int)
    requires
        0 <= cell < pixels.len(),
        pixels[cell].src_x < 128,
        pixels[cell].src_y < 128,
    ensures
        order_of(pixels).len() == pixels.len(),
        order_of(pixels)[cell] == pixels[cell].src_y * 128 + pixels[cell].src_x,
{
}

/// A generation that is stopped was stopped when it looked, before some multiple of 2048 tries, and has
/// made exactly the tries before that.
pub proof fn stopped_generations_made_their_tries(
    before: Drawing,
    after: Drawing,
    colors: Seq<(u8, u8, u8)>,
    pixel_data: Seq<PixelData>,
    polls: int,
)
    requires
        before.is_cut_to(colors, pixel_data, polls, after),
    ensures
        1 <= polls <= 16,
        after.state().pixels == before.after_tries(
            colors,
            pixel_data,
            (2048 * (polls - 1)) as nat,
        ).pixels,
        after.generation() == before.generation(),
{
}

/// A generation that moved pixels tells where they are, one that moved none waits, and one that found
/// the number of another drawing says that it was cancelled; each under the number of its drawing.
pub proof fn generations_tell_what_came_of_them(
    step: DrawingStep,
    before: Drawing,
    after: Drawing,
    watch_before: Watch,
    watch_after: Watch,
    colors: Seq<(u8, u8, u8)>,
    pixel_data: Seq<PixelData>,
)
    requires
        ends_generation(step, before, after, watch_before, watch_after, colors, pixel_data),
    ensures
        ({
            let last = before.after_tries(colors, pixel_data, 32768);
            match step {
                DrawingStep::Superseded(event) => {
                    &&& watch_after.seen().len() > 0
                    &&& watch_after.seen().last()
                    &&& event.drawing_id == watch_before.own()
                    &&& event.msg is Cancelled
                },
                DrawingStep::Moved(event) => {
                    &&& last.swaps > 0
                    &&& event.drawing_id == watch_before.own()
                    &&& event.msg matches ProgressMsg::UpdateAssignments(told) && told@ == order_of(
                        after.state().pixels,
                    )
                    &&& preset::is_permutation(order_of(after.state().pixels), 16384)
                    &&& after.idle() == 0
                    &&& after.generation() == math::min(u32::MAX as int, before.generation() + 1)
                    &&& after.frame_count() == before.frame_count()
                    &&& watch_after.seen().len() == watch_before.seen().len() + 16
                },
                DrawingStep::Idle(wait) => {
                    &&& last.swaps == 0
                    &&& after.state().pixels == before.state().pixels
                    &&& after.idle() == math::min(u32::MAX as int, before.idle() + 1)
                    &&& wait == backoff(after.idle())
                    &&& after.generation() == math::min(u32::MAX as int, before.generation() + 1)
                    &&& after.frame_count() == before.frame_count()
                    &&& watch_after.seen().len() == watch_before.seen().len() + 16
                },
            }
        }),
{
    let frame = present_frame(before.frame_count(), before.generation(), pixel_data);
    let canvas = before.canvas(colors, pixel_data, frame);
    idle_generations_move_nothing(canvas, before.state(), 32768);
}

/// The job of a drawing asks for its pictures at 128 cells per side, and for everything else as its
/// settings do.
pub proof fn drawings_have_128_cells_per_side(asked: prepare::Request)
    ensures
        drawing_request(asked).settings.sidelen == 128,
        drawing_request(asked).settings.proximity_importance
            == asked.settings.proximity_importance,
        drawing_request(asked).settings.custom_target == asked.settings.custom_target,
        drawing_request(asked).picture == asked.picture,
        drawing_request(asked).target == asked.target,
        drawing_request(asked).weights == asked.weights,
        drawing_request(asked).windows == asked.windows,
{
}

} // verus!
