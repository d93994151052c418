//! The job that finds a good rearrangement quickly.
use crate::assignment;
use crate::cost;
use crate::cost::ImgDiffWeights;
use crate::draws;
use crate::errors::ProcessError;
use crate::messages;
use crate::messages::{Cancellation, Fraction, Message, Outbox, ProgressMsg, ProgressSink};
use crate::prepare;
use crate::prepare::Request;
use crate::preset;
use crate::preset::UnprocessedPreset;
use crate::preview;
use crate::random;
use crate::schedule;
use crate::schedule::MAX_GENETIC_GENERATIONS;
use crate::settings;
use crate::settings::{CropWindows, GenerationSettings, Portrait};
use std::sync::atomic::AtomicBool;
use std::sync::Arc;
use vstd::arithmetic::power;
use vstd::math;
use vstd::prelude::*;

verus! {

pub const SWAPS_PER_GENERATION_PER_PIXEL: usize = 32;

pub const MAX_SWAPS_PER_GENERATION: usize = 262144;

pub const CANCEL_CHECK_INTERVAL: usize = 4096;

pub const PROGRESS_HEARTBEAT_INTERVAL: usize = 32768;

pub const SEARCH_SEED: u64 = 12345;

/// A source pixel on its way: where it comes from, its color, and what it costs where it is.
#[derive(Clone, Copy)]
pub struct Pixel {
    pub src_x: u16,
    pub src_y: u16,
    pub rgb: (u8, u8, u8),
    pub h: i64,
}

impl Pixel {
    pub fn new(src_x: u16, src_y: u16, rgb: (u8, u8, u8), h: i64) -> (pixel: Self)
        ensures
            pixel == (Pixel { src_x, src_y, rgb, h }),
    {
        Pixel { src_x, src_y, rgb, h }
    }

    pub fn update_heuristic(&mut self, new_h: i64)
        ensures
            *final(self) == (Pixel { h: new_h, ..*old(self) }),
    {
        self.h = new_h;
    }

    /// What the pixel costs at a cell that wants a certain color.
    pub fn calc_heuristic(
        &self,
        target_pos: (u16, u16),
        target_col: (u8, u8, u8),
        weight: i64,
        proximity_importance: i64,
    ) -> (h: i64)
        requires
            cost::cost_fits(
                (self.src_x, self.src_y),
                target_pos,
                self.rgb,
                target_col,
                weight as int,
                proximity_importance as int,
            ),
        ensures
            h == cost::cost(
                (self.src_x, self.src_y),
                target_pos,
                self.rgb,
                target_col,
                weight as int,
                proximity_importance as int,
            ),
    {
        cost::heuristic(
            (self.src_x, self.src_y),
            target_pos,
            self.rgb,
            target_col,
            weight,
            proximity_importance,
        )
    }
}

/// Which source pixel shows at each cell.
pub open spec fn order_of(pixels: Seq<Pixel>, sidelen: int) -> Seq<usize> {
    Seq::new(
        pixels.len(),
        |i: int| (pixels[i].src_y * sidelen + pixels[i].src_x) as usize,
    )
}

/// Which source pixel shows at each cell.
pub fn pixel_assignments(pixels: &[Pixel], sidelen: u32) -> (assignments: Vec<usize>)
    requires
        forall|i: int|
            0 <= i < pixels.len() ==> (#[trigger] pixels[i]).src_y * sidelen + pixels[i].src_x
                <= usize::MAX,
    ensures
        assignments@ == order_of(pixels@, sidelen as int),
{
    let mut assignments: Vec<usize> = Vec::with_capacity(pixels.len());
    for i in 0..pixels.len()
        invariant
            forall|i: int|
                0 <= i < pixels.len() ==> (#[trigger] pixels[i]).src_y * sidelen + pixels[i].src_x
                    <= usize::MAX,
            assignments.len() == i,
            forall|j: int|
                0 <= j < i ==> #[trigger] assignments[j] == order_of(pixels@, sidelen as int)[j],
    {
        let p = pixels[i];
        proof {
            assert(pixels[i as int].src_y * sidelen + pixels[i as int].src_x <= usize::MAX);
            assert(0 <= p.src_y * sidelen) by (nonlinear_arith)
                requires
                    0 <= p.src_y,
                    0 <= sidelen,
            ;
        }
        assignments.push(p.src_y as usize * sidelen as usize + p.src_x as usize);
    }
    assert(assignments@ =~= order_of(pixels@, sidelen as int));
    assignments
}

/// A coordinate brought back into the picture.
pub open spec fn clamped(v: int, side: int) -> int {
    if v < 0 {
        0
    } else if v >= side {
        side - 1
    } else {
        v
    }
}

/// Where a step from a cell leads, without leaving the picture.
pub open spec fn landing(side: int, pos: int, dx: int, dy: int) -> int {
    clamped(pos / side + dy, side) * side + clamped(pos % side + dx, side)
}

/// A step stays inside the picture.
proof fn lemma_landing(side: int, pos: int, dx: int, dy: int)
    requires
        0 < side <= 65536,
    ensures
        0 <= landing(side, pos, dx, dy) < side * side,
        cost::cell(landing(side, pos, dx, dy), side) == (
            clamped(pos % side + dx, side) as u16,
            clamped(pos / side + dy, side) as u16,
        ),
{
    lemma_index_of_cell(clamped(pos % side + dx, side), clamped(pos / side + dy, side), side);
}

/// The index of a cell, row by row, leads back to the cell.
pub proof fn lemma_index_of_cell(x: int, y: int, side: int)
    requires
        0 <= x < side,
        0 <= y < side,
    ensures
        0 <= y * side + x < side * side,
        (y * side + x) % side == x,
        (y * side + x) / side == y,
{
    assert(0 <= y * side <= (side - 1) * side) by (nonlinear_arith)
        requires
            0 <= y <= side - 1,
            0 <= side,
    ;
    assert((side - 1) * side == side * side - side) by (nonlinear_arith);
    assert((y * side + x) / side == y && (y * side + x) % side == x) by (nonlinear_arith)
        requires
            0 <= x < side,
            0 <= y,
    ;
}

/// How many swaps a generation tries.
pub open spec fn swaps_per_generation(pixels: int) -> int {
    if SWAPS_PER_GENERATION_PER_PIXEL * pixels < 1 {
        1
    } else if SWAPS_PER_GENERATION_PER_PIXEL * pixels > MAX_SWAPS_PER_GENERATION {
        MAX_SWAPS_PER_GENERATION as int
    } else {
        SWAPS_PER_GENERATION_PER_PIXEL * pixels
    }
}

/// The distance that a swap of a generation may bridge.
pub open spec fn reach_of(sidelen: u32, generation: int) -> int {
    choose|reach: int| schedule::is_reach(sidelen, generation, reach)
}

/// Where a search stands.
pub struct SearchState {
    /// Which source pixel shows at each cell.
    pub order: Seq<usize>,
    /// What the random number generator holds.
    pub rng: u64,
    /// How many swaps the generation has made.
    pub swaps: nat,
}

/// Two entries changed places.
pub open spec fn swapped(order: Seq<usize>, a: int, b: int) -> Seq<usize> {
    order.update(a, order[b]).update(b, order[a])
}

/// What two cells cost together, less what they would cost with their pixels exchanged.
pub open spec fn saving(m: ImgDiffWeights, order: Seq<usize>, a: int, b: int) -> int {
    m.cost_at(a, order[a] as int) + m.cost_at(b, order[b] as int) - m.cost_at(a, order[b] as int)
        - m.cost_at(b, order[a] as int)
}

/// Whether one order comes of another by exchanging two cells, and that saves something.
pub open spec fn is_saving_swap(
    m: ImgDiffWeights,
    before: Seq<usize>,
    after: Seq<usize>,
    a: int,
    b: int,
) -> bool {
    &&& 0 <= a < before.len()
    &&& 0 <= b < before.len()
    &&& saving(m, before, a, b) > 0
    &&& after == swapped(before, a, b)
}

/// Whether no exchange of two cells saves anything.
#[verifier::opaque]
pub open spec fn is_still(m: ImgDiffWeights, order: Seq<usize>) -> bool {
    forall|a: int, b: int|
        0 <= a < order.len() && 0 <= b < order.len() ==> #[trigger] saving(m, order, a, b) <= 0
}

/// One try: a cell and a step from it are drawn, and the pixels of the two cells change places
/// if that saves anything.
#[verifier::opaque]
pub open spec fn attempt(m: ImgDiffWeights, reach: int, s: SearchState) -> SearchState {
    let (a, rng1) = random::drawn_u32(s.rng, 0, m.source.len() as u32);
    let (dx, rng2) = random::drawn_i16(rng1, -reach as i16, (reach + 1) as i16);
    let (dy, rng3) = random::drawn_i16(rng2, -reach as i16, (reach + 1) as i16);
    let b = landing(m.sidelen as int, a as int, dx as int, dy as int);
    if saving(m, s.order, a as int, b) > 0 {
        SearchState { order: swapped(s.order, a as int, b), rng: rng3, swaps: s.swaps + 1 }
    } else {
        SearchState { rng: rng3, ..s }
    }
}

/// A number of tries.
pub open spec fn attempts(m: ImgDiffWeights, reach: int, s: SearchState, tries: nat) -> SearchState
    decreases tries,
{
    if tries == 0 {
        s
    } else {
        attempt(m, reach, attempts(m, reach, s, (tries - 1) as nat))
    }
}

/// What a try does depends on the swaps before it only in how many there are.
proof fn lemma_attempt_counts(m: ImgDiffWeights, reach: int, s: SearchState)
    ensures
        ({
            let fresh = attempt(m, reach, SearchState { swaps: 0, ..s });
            &&& fresh.swaps <= 1
            &&& attempt(m, reach, s) == (SearchState { swaps: s.swaps + fresh.swaps, ..fresh })
        }),
{
    reveal(attempt);
}

/// Each source pixel at its own cell.
pub open spec fn unmoved(n: nat) -> Seq<usize> {
    Seq::new(n, |i: int| i as usize)
}

/// Where the search stands at the start of a generation.
pub open spec fn search_at(m: ImgDiffWeights, generation: nat) -> SearchState
    decreases generation, 0nat,
{
    if generation == 0 {
        SearchState {
            order: unmoved(m.source@.len()),
            rng: random::seeded(SEARCH_SEED),
            swaps: 0,
        }
    } else {
        SearchState { swaps: 0, ..search_after(m, (generation - 1) as nat) }
    }
}

/// Where the search stands at the end of a generation.
pub open spec fn search_after(m: ImgDiffWeights, generation: nat) -> SearchState
    decreases generation, 1nat,
{
    attempts(
        m,
        reach_of(m.sidelen as u32, generation as int),
        search_at(m, generation),
        swaps_per_generation(m.source.len() as int) as nat,
    )
}

/// Whether the search ends with a generation: few swaps were found over short distances, or
/// it was the last one.
pub open spec fn ends_with(m: ImgDiffWeights, generation: nat) -> bool {
    ||| reach_of(m.sidelen as u32, generation as int) < 4 && search_after(m, generation).swaps < 10
    ||| generation + 1 == MAX_GENETIC_GENERATIONS
}

/// Whether pixels know where they come from and what they cost where they are.
pub open spec fn tracks(m: ImgDiffWeights, pixels: Seq<Pixel>) -> bool {
    let order = order_of(pixels, m.sidelen as int);
    &&& pixels.len() == m.source.len()
    &&& forall|i: int|
        0 <= i < pixels.len() ==> {
            &&& (#[trigger] pixels[i]).src_x < m.sidelen
            &&& pixels[i].src_y < m.sidelen
            &&& pixels[i].rgb == m.source[order[i] as int]
            &&& pixels[i].h == m.cost_at(i, order[i] as int)
        }
}

/// Exchanging both cells and both colors leaves a cost as it is.
proof fn lemma_cost_symmetric(
    apos: (u16, u16),
    bpos: (u16, u16),
    a: (u8, u8, u8),
    b: (u8, u8, u8),
    color_weight: int,
    spatial_weight: int,
)
    ensures
        cost::cost(apos, bpos, a, b, color_weight, spatial_weight) == cost::cost(
            bpos,
            apos,
            b,
            a,
            color_weight,
            spatial_weight,
        ),
{
    assert forall|x: int, y: int| #[trigger] cost::square(x - y) == cost::square(y - x) by {
        assert((x - y) * (x - y) == (y - x) * (y - x)) by (nonlinear_arith);
    }
}

/// What a tracked pixel costs at any cell.
proof fn lemma_tracked_cost(m: ImgDiffWeights, pixels: Seq<Pixel>, i: int, pos: int)
    requires
        m.wf(),
        tracks(m, pixels),
        0 <= i < pixels.len(),
        0 <= pos < pixels.len(),
    ensures
        ({
            let order = order_of(pixels, m.sidelen as int);
            let source = (pixels[i].src_x, pixels[i].src_y);
            let place = cost::cell(pos, m.sidelen as int);
            let weight = m.weights[pos] as int;
            let near = m.spatial_weight as int;
            &&& 0 <= order[i] < m.source.len()
            &&& order[i] == pixels[i].src_y * m.sidelen + pixels[i].src_x
            &&& cost::cost_fits(source, place, pixels[i].rgb, m.target[pos], weight, near)
            &&& cost::cost(source, place, pixels[i].rgb, m.target[pos], weight, near) == m.cost_at(
                pos,
                order[i] as int,
            )
            &&& 0 <= m.cost_at(pos, order[i] as int) <= cost::cost_ceiling(
                m.sidelen as int,
                m.spatial_weight as int,
            )
        }),
{
    let side = m.sidelen as int;
    let p = pixels[i];
    lemma_index_of_cell(p.src_x as int, p.src_y as int, side);
    assert(side * side <= 65536) by (nonlinear_arith)
        requires
            1 <= side <= 256,
    ;
    let index = order_of(pixels, side)[i] as int;
    cost::lemma_cell_inside(pos, side);
    m.lemma_cost_at_bound(pos, index);
    cost::lemma_cost_bound(
        (p.src_x, p.src_y),
        cost::cell(pos, side),
        p.rgb,
        m.target[pos],
        m.weights[pos] as int,
        side,
        m.spatial_weight as int,
    );
    lemma_cost_symmetric(
        (p.src_x, p.src_y),
        cost::cell(pos, side),
        p.rgb,
        m.target[pos],
        m.weights[pos] as int,
        m.spatial_weight as int,
    );
}

/// Brings a coordinate back into the picture.
pub fn clamp_coordinate(v: i16, side: u16) -> (c: u16)
    requires
        1 <= side <= 256,
    ensures
        c == clamped(v as int, side as int),
{
    if v < 0 {
        0
    } else if v >= side as i16 {
        side - 1
    } else {
        v as u16
    }
}

/// Exchanging two entries keeps a permutation one, and changes the cost by the saving.
pub proof fn lemma_swap(m: ImgDiffWeights, order: Seq<usize>, a: int, b: int)
    requires
        0 <= a < order.len(),
        0 <= b < order.len(),
        a != b,
    ensures
        preset::is_permutation(order, order.len()) ==> preset::is_permutation(
            swapped(order, a, b),
            order.len(),
        ),
        assignment::total_cost(m, swapped(order, a, b)) == assignment::total_cost(m, order)
            - saving(m, order, a, b),
{
    let after = swapped(order, a, b);
    assignment::lemma_total_cost_update(m, order, a, order[b]);
    assignment::lemma_total_cost_update(m, order.update(a, order[b]), b, order[a]);
    if preset::is_permutation(order, order.len()) {
        assert forall|i: int, j: int|
            0 <= i < after.len() && 0 <= j < after.len() && i != j implies after[i] != after[j] by {
            let before_i = if i == a {
                b
            } else if i == b {
                a
            } else {
                i
            };
            let before_j = if j == a {
                b
            } else if j == b {
                a
            } else {
                j
            };
            assert(after[i] == order[before_i]);
            assert(after[j] == order[before_j]);
        }
    }
}

/// Tries one swap.
pub fn try_swap(
    m: &ImgDiffWeights,
    pixels: &mut Vec<Pixel>,
    rng: &mut frand::Rand,
    reach: u32,
) -> (made: bool)
    requires
        m.wf(),
        tracks(*m, old(pixels)@),
        1 <= reach <= 256,
    ensures
        tracks(*m, final(pixels)@),
        ({
            let before = SearchState {
                order: order_of(old(pixels)@, m.sidelen as int),
                rng: random::rand_state(*old(rng)),
                swaps: 0,
            };
            let after = attempt(*m, reach as int, before);
            &&& order_of(final(pixels)@, m.sidelen as int) == after.order
            &&& random::rand_state(*final(rng)) == after.rng
            &&& made == (after.swaps == 1)
        }),
        ({
            let before = order_of(old(pixels)@, m.sidelen as int);
            let after = order_of(final(pixels)@, m.sidelen as int);
            &&& preset::is_permutation(before, m.source@.len()) ==> preset::is_permutation(
                after,
                m.source@.len(),
            )
            &&& made ==> assignment::total_cost(*m, after) < assignment::total_cost(*m, before)
            &&& made ==> exists|a: int, b: int| #[trigger] is_saving_swap(*m, before, after, a, b)
            &&& is_still(*m, before) ==> !made
            &&& !made ==> after == before
        }),
{
    let side: u16 = m.sidelen as u16;
    let ghost order = order_of(pixels@, m.sidelen as int);
    proof {
        reveal(attempt);
        reveal(is_still);
        assert(1 <= m.sidelen * m.sidelen <= 65536) by (nonlinear_arith)
            requires
                1 <= m.sidelen <= 256,
        ;
    }
    let apos: usize = random::draw_u32(rng, 0, pixels.len() as u32) as usize;
    let ax: u16 = apos as u16 % side;
    let ay: u16 = apos as u16 / side;
    let far: i16 = reach as i16;
    let dx: i16 = random::draw_i16(rng, -far, far + 1);
    let dy: i16 = random::draw_i16(rng, -far, far + 1);
    proof {
        cost::lemma_cell_inside(apos as int, side as int);
        lemma_landing(side as int, apos as int, dx as int, dy as int);
    }
    let bx: u16 = clamp_coordinate(ax as i16 + dx, side);
    let by: u16 = clamp_coordinate(ay as i16 + dy, side);
    proof {
        assert(0 <= by * m.sidelen <= 255 * 256) by (nonlinear_arith)
            requires
                0 <= by <= 255,
                0 <= m.sidelen <= 256,
        ;
    }
    let bpos: usize = by as usize * m.sidelen + bx as usize;
    proof {
        lemma_tracked_cost(*m, pixels@, apos as int, apos as int);
        lemma_tracked_cost(*m, pixels@, apos as int, bpos as int);
        lemma_tracked_cost(*m, pixels@, bpos as int, apos as int);
        lemma_tracked_cost(*m, pixels@, bpos as int, bpos as int);
    }
    let a = pixels[apos];
    let b = pixels[bpos];
    let a_on_b_h: i64 = a.calc_heuristic(
        (bx, by),
        m.target[bpos],
        m.weights[bpos],
        m.spatial_weight,
    );
    let b_on_a_h: i64 = b.calc_heuristic(
        (ax, ay),
        m.target[apos],
        m.weights[apos],
        m.spatial_weight,
    );
    let improvement_a: i64 = a.h - b_on_a_h;
    let improvement_b: i64 = b.h - a_on_b_h;
    if improvement_a + improvement_b > 0 {
        let mut moved_a = a;
        let mut moved_b = b;
        moved_b.update_heuristic(b_on_a_h);
        moved_a.update_heuristic(a_on_b_h);
        pixels.set(apos, moved_b);
        pixels.set(bpos, moved_a);
        proof {
            let after = order_of(pixels@, m.sidelen as int);
            assert(after =~= swapped(order, apos as int, bpos as int));
            lemma_swap(*m, order, apos as int, bpos as int);
            assert(is_saving_swap(*m, order, after, apos as int, bpos as int));
        }
        true
    } else {
        false
    }
}

/// The share of the work that is done after some tries of a generation: from one thousandth
/// to all but one hundredth.
pub open spec fn search_share(swaps: int, generation: int, tries: int) -> Fraction {
    Fraction {
        numerator: (96 * swaps + 989 * (generation * swaps + tries)) as u64,
        denominator: (96000 * swaps) as u64,
    }
}

/// What is told during the first tries of a generation.
pub open spec fn heartbeats(swaps: int, generation: int, tries: int) -> Seq<Message>
    decreases tries,
{
    if tries <= 0 {
        Seq::empty()
    } else if (tries - 1) % (PROGRESS_HEARTBEAT_INTERVAL as int) == 0 {
        heartbeats(swaps, generation, tries - 1).push(
            Message::Progress(search_share(swaps, generation, tries - 1)),
        )
    } else {
        heartbeats(swaps, generation, tries - 1)
    }
}

/// The picture that a generation leaves.
pub open spec fn generation_preview(m: ImgDiffWeights, generation: nat) -> Message {
    Message::UpdatePreview {
        width: m.sidelen as u32,
        height: m.sidelen as u32,
        data: preview::rearranged(
            m.source@,
            search_after(m, generation).order,
            m.sidelen as u32,
        ),
    }
}

/// What is told before a generation starts: of each earlier one its heartbeats, the picture
/// that it leaves, and the share of the work.
pub open spec fn told_before(m: ImgDiffWeights, generation: nat) -> Seq<Message>
    decreases generation,
{
    if generation == 0 {
        Seq::empty()
    } else {
        let last = (generation - 1) as nat;
        let swaps = swaps_per_generation(m.source.len() as int);
        (told_before(m, last) + heartbeats(swaps, last as int, swaps)).push(
            generation_preview(m, last),
        ).push(Message::Progress(search_share(1, generation as int, 0)))
    }
}

/// No earlier generation ended the search.
pub open spec fn reaches(m: ImgDiffWeights, generation: nat) -> bool {
    &&& generation < MAX_GENETIC_GENERATIONS
    &&& forall|earlier: nat| earlier < generation ==> !#[trigger] ends_with(m, earlier)
}

/// How often the stop flag is read during the first tries of a generation.
pub open spec fn polls_in(tries: int) -> int {
    (tries + CANCEL_CHECK_INTERVAL - 1) / (CANCEL_CHECK_INTERVAL as int)
}

/// A generation keeps every source pixel at exactly one cell, and leaves an order alone in which
/// no exchange saves anything.
pub open spec fn only_rearranges(m: ImgDiffWeights, generation: nat) -> bool {
    let before = search_at(m, generation).order;
    let after = search_after(m, generation).order;
    &&& preset::is_permutation(after, m.source@.len())
    &&& is_still(m, before) ==> after == before
}

/// Every generation before one only rearranges.
pub open spec fn all_rearrange(m: ImgDiffWeights, generations: nat) -> bool {
    forall|generation: nat| generation < generations ==> #[trigger] only_rearranges(m, generation)
}

/// What is told by a search that ends with a generation, how often it reads the stop flag, and
/// the order that it leaves.
pub open spec fn is_search(
    trace: Seq<Message>,
    polls: int,
    m: ImgDiffWeights,
    generation: nat,
    order: Seq<usize>,
) -> bool {
    let swaps = swaps_per_generation(m.source.len() as int);
    &&& polls == generation * polls_in(swaps) + polls_in(swaps)
    &&& reaches(m, generation)
    &&& ends_with(m, generation)
    &&& all_rearrange(m, generation + 1)
    &&& order == search_after(m, generation).order
    &&& trace == told_before(m, generation) + heartbeats(swaps, generation as int, swaps)
}

/// What is told by a search that is stopped during a generation, and how often it reads the
/// stop flag.
pub open spec fn is_cut_search(
    trace: Seq<Message>,
    polls: int,
    m: ImgDiffWeights,
    generation: nat,
    tries: int,
) -> bool {
    let swaps = swaps_per_generation(m.source.len() as int);
    &&& polls == generation * polls_in(swaps) + polls_in(tries) + 1
    &&& reaches(m, generation)
    &&& all_rearrange(m, generation)
    &&& 0 <= tries < swaps
    &&& tries % (CANCEL_CHECK_INTERVAL as int) == 0
    &&& trace == (told_before(m, generation) + heartbeats(swaps, generation as int, tries)).push(
        Message::Cancelled,
    )
}

/// What is told by a search that runs to its end, and the order that it leaves.
pub open spec fn is_full_search(
    trace: Seq<Message>,
    polls: int,
    m: ImgDiffWeights,
    order: Seq<usize>,
) -> bool {
    exists|generation: nat| #[trigger] is_search(trace, polls, m, generation, order)
}

/// What is told by a search that is stopped.
pub open spec fn is_partial_search(trace: Seq<Message>, polls: int, m: ImgDiffWeights) -> bool {
    exists|generation: nat, tries: int| #[trigger]
        is_cut_search(trace, polls, m, generation, tries)
}

proof fn lemma_reach_of(sidelen: u32, generation: int, reach: int)
    requires
        schedule::is_reach(sidelen, generation, reach),
    ensures
        reach_of(sidelen, generation) == reach,
{
    schedule::reach_is_unique(sidelen, generation, reach, reach_of(sidelen, generation));
}

/// Places every source pixel at its own cell.
pub fn starting_pixels(m: &ImgDiffWeights) -> (pixels: Vec<Pixel>)
    requires
        m.wf(),
    ensures
        tracks(*m, pixels@),
        order_of(pixels@, m.sidelen as int) == unmoved(m.source@.len()),
{
    let n: usize = m.columns();
    proof {
        assert(m.sidelen * m.sidelen <= 65536) by (nonlinear_arith)
            requires
                0 <= m.sidelen <= 256,
        ;
    }
    let mut pixels: Vec<Pixel> = Vec::with_capacity(n);
    for i in 0..n
        invariant
            m.wf(),
            n == m.source.len(),
            n <= 65536,
            pixels.len() == i,
            forall|j: int|
                0 <= j < i ==> {
                    &&& (#[trigger] pixels[j]).src_x < m.sidelen
                    &&& pixels[j].src_y < m.sidelen
                    &&& pixels[j].src_y * m.sidelen + pixels[j].src_x == j
                    &&& pixels[j].rgb == m.source[j]
                    &&& pixels[j].h == m.cost_at(j, j)
                },
    {
        proof {
            let side = m.sidelen as int;
            let place = cost::cell(i as int, side);
            cost::lemma_cell_inside(i as int, side);
            cost::lemma_cost_bound(
                place,
                place,
                m.source[i as int],
                m.target[i as int],
                m.weights[i as int] as int,
                side,
                m.spatial_weight as int,
            );
            lemma_cost_symmetric(
                place,
                place,
                m.source[i as int],
                m.target[i as int],
                m.weights[i as int] as int,
                m.spatial_weight as int,
            );
        }
        let x: u16 = (i % m.sidelen) as u16;
        let y: u16 = (i / m.sidelen) as u16;
        let mut p = Pixel::new(x, y, m.source[i], 0);
        let h: i64 = p.calc_heuristic((x, y), m.target[i], m.weights[i], m.spatial_weight);
        p.update_heuristic(h);
        pixels.push(p);
    }
    proof {
        let order = order_of(pixels@, m.sidelen as int);
        assert forall|j: int| 0 <= j < n implies #[trigger] order[j] == j by {
            assert(pixels[j].src_y * m.sidelen + pixels[j].src_x == j);
        }
        assert(order =~= unmoved(m.source@.len()));
        assert forall|j: int| 0 <= j < n implies (#[trigger] pixels[j]).rgb == m.source[order[j] as int]
            && pixels[j].h == m.cost_at(j, order[j] as int) by {
            assert(order[j] == j);
        }
    }
    pixels
}

/// Swaps pixels that do better in each other's place, over shorter and shorter distances, and
/// tells about it on the way. Gives up as soon as it is told to stop.
pub fn search_quickly<S: ProgressSink>(
    m: &ImgDiffWeights,
    tx: &mut Outbox<S>,
    cancel: &mut Cancellation,
) -> (result: Option<Vec<usize>>)
    requires
        m.wf(),
        old(cancel).wf(),
        messages::undisturbed(old(cancel).seen()),
        old(tx).wf(),
    ensures
        ({
            let trace = messages::news(old(tx).sent(), final(tx).sent());
            let polls = final(cancel).seen().len() - old(cancel).seen().len();
            &&& final(tx).wf()
            &&& final(tx).first() == old(tx).first()
            &&& final(tx).sent() == old(tx).sent() + trace
            &&& final(cancel).wf()
            &&& final(cancel).flag() == old(cancel).flag()
            &&& match result {
                Some(order) => {
                    &&& messages::undisturbed(final(cancel).seen())
                    &&& is_full_search(trace, polls, *m, order@)
                    &&& preset::is_permutation(order@, m.source@.len())
                    &&& assignment::total_cost(*m, order@) <= assignment::total_cost(
                        *m,
                        unmoved(m.source@.len()),
                    )
                },
                None => {
                    &&& messages::stopped_at_last(final(cancel).seen())
                    &&& is_partial_search(trace, polls, *m)
                },
            }
        }),
{
    let ghost sent0 = tx.sent();
    let ghost seen0 = cancel.seen().len();
    proof {
        assert(1 <= m.sidelen * m.sidelen <= 65536) by (nonlinear_arith)
            requires
                1 <= m.sidelen <= 256,
        ;
    }
    let side: u32 = m.sidelen as u32;
    let mut pixels = starting_pixels(m);
    let mut rng = frand::Rand::with_seed(SEARCH_SEED);
    let wanted: usize = SWAPS_PER_GENERATION_PER_PIXEL * pixels.len();
    let swaps: usize = if wanted < 1 {
        1
    } else if wanted > MAX_SWAPS_PER_GENERATION {
        MAX_SWAPS_PER_GENERATION
    } else {
        wanted
    };
    let mut generation: usize = 0;
    assert(tx.sent() =~= sent0 + told_before(*m, 0));
    loop
        invariant
            m.wf(),
            side == m.sidelen,
            1 <= m.source.len() <= 65536,
            swaps == swaps_per_generation(m.source.len() as int),
            tx.wf(),
            tx.first() == old(tx).first(),
            sent0 == old(tx).sent(),
            cancel.wf(),
            cancel.flag() == old(cancel).flag(),
            messages::undisturbed(cancel.seen()),
            cancel.seen().len() == seen0 + generation * polls_in(swaps as int),
            seen0 == old(cancel).seen().len(),
            reaches(*m, generation as nat),
            all_rearrange(*m, generation as nat),
            preset::is_permutation(order_of(pixels@, m.sidelen as int), m.source@.len()),
            assignment::total_cost(*m, order_of(pixels@, m.sidelen as int))
                <= assignment::total_cost(*m, unmoved(m.source@.len())),
            tracks(*m, pixels@),
            order_of(pixels@, m.sidelen as int) == search_at(*m, generation as nat).order,
            random::rand_state(rng) == search_at(*m, generation as nat).rng,
            tx.sent() == sent0 + told_before(*m, generation as nat),
        decreases MAX_GENETIC_GENERATIONS - generation,
    {
        let ghost g = generation as nat;
        let ghost start = search_at(*m, g);
        let ghost told = told_before(*m, g);
        let reach: u32 = schedule::genetic_max_dist(side, generation);
        proof {
            lemma_reach_of(side, generation as int, reach as int);
        }
        let mut swaps_made: usize = 0;
        let mut tries: usize = 0;
        assert(tx.sent() =~= sent0 + (told + heartbeats(swaps as int, g as int, 0)));
        while tries < swaps
            invariant
                m.wf(),
                1 <= m.source.len() <= 65536,
                swaps == swaps_per_generation(m.source.len() as int),
                tries <= swaps <= MAX_SWAPS_PER_GENERATION,
                swaps_made <= tries,
                1 <= reach <= 256,
                tx.wf(),
                tx.first() == old(tx).first(),
                sent0 == old(tx).sent(),
                cancel.wf(),
                cancel.flag() == old(cancel).flag(),
                messages::undisturbed(cancel.seen()),
                cancel.seen().len() == seen0 + g * polls_in(swaps as int) + polls_in(tries as int),
                seen0 == old(cancel).seen().len(),
                g == generation,
                generation < MAX_GENETIC_GENERATIONS,
                reaches(*m, g),
                all_rearrange(*m, g),
                start == search_at(*m, g),
                is_still(*m, start.order) ==> order_of(pixels@, m.sidelen as int) == start.order,
                told == told_before(*m, g),
                preset::is_permutation(order_of(pixels@, m.sidelen as int), m.source@.len()),
                assignment::total_cost(*m, order_of(pixels@, m.sidelen as int))
                    <= assignment::total_cost(*m, unmoved(m.source@.len())),
                tracks(*m, pixels@),
                order_of(pixels@, m.sidelen as int) == attempts(
                    *m,
                    reach as int,
                    start,
                    tries as nat,
                ).order,
                random::rand_state(rng) == attempts(*m, reach as int, start, tries as nat).rng,
                swaps_made == attempts(*m, reach as int, start, tries as nat).swaps,
                tx.sent() == sent0 + (told + heartbeats(swaps as int, g as int, tries as int)),
            decreases swaps - tries,
        {
            let ghost beats = heartbeats(swaps as int, g as int, tries as int);
            if tries % CANCEL_CHECK_INTERVAL == 0 {
                let stop: bool = cancel.poll();
                if stop {
                    tx.send(ProgressMsg::Cancelled);
                    proof {
                        let cut = (told + beats).push(Message::Cancelled);
                        assert(tx.sent() =~= sent0 + cut);
                        messages::lemma_news(sent0, cut);
                        messages::lemma_stopped(cancel.seen());
                        assert(is_cut_search(
                            cut,
                            cancel.seen().len() - seen0,
                            *m,
                            g,
                            tries as int,
                        ));
                    }
                    return None;
                }
            }
            if tries % PROGRESS_HEARTBEAT_INTERVAL == 0 {
                proof {
                    assert(0 <= generation * swaps <= 95 * 262144) by (nonlinear_arith)
                        requires
                            0 <= generation <= 95,
                            0 <= swaps <= 262144,
                    ;
                }
                let share = Fraction {
                    numerator: 96 * swaps as u64 + 989 * (generation as u64 * swaps as u64
                        + tries as u64),
                    denominator: 96000 * swaps as u64,
                };
                tx.send(ProgressMsg::Progress(share));
            }
            proof {
                let longer = heartbeats(swaps as int, g as int, tries + 1);
                assert(tx.sent() =~= sent0 + (told + longer));
            }
            proof {
                let now = attempts(*m, reach as int, start, tries as nat);
                lemma_attempt_counts(*m, reach as int, now);
            }
            let made: bool = try_swap(m, &mut pixels, &mut rng, reach);
            if made {
                swaps_made = swaps_made + 1;
            }
            tries = tries + 1;
        }
        let ghost beats = heartbeats(swaps as int, g as int, swaps as int);
        proof {
            assert(only_rearranges(*m, g));
            lemma_tracked_range(*m, pixels@);
        }
        let assignments = pixel_assignments(pixels.as_slice(), side);
        let converged: bool = reach < 4 && swaps_made < 10;
        if converged || generation + 1 == MAX_GENETIC_GENERATIONS {
            proof {
                let trace = told + beats;
                messages::lemma_news(sent0, trace);
                assert(is_search(trace, cancel.seen().len() - seen0, *m, g, assignments@));
            }
            return Some(assignments);
        }
        proof {
            assert(side * side * 3 <= u32::MAX) by (nonlinear_arith)
                requires
                    0 <= side <= 256,
            ;
        }
        let data = preview::make_new_img(m.source.as_slice(), assignments.as_slice(), side);
        tx.send(ProgressMsg::UpdatePreview { width: side, height: side, data });
        let share = Fraction {
            numerator: 96 + 989 * (generation as u64 + 1),
            denominator: 96000,
        };
        tx.send(ProgressMsg::Progress(share));
        generation = generation + 1;
        proof {
            assert(!ends_with(*m, g));
            assert(share == search_share(1, generation as int, 0));
            assert(generation * polls_in(swaps as int) == g * polls_in(swaps as int) + polls_in(
                swaps as int,
            )) by (nonlinear_arith)
                requires
                    generation == g + 1,
            ;
            assert(tx.sent() =~= sent0 + told_before(*m, generation as nat));
        }
    }
}

proof fn lemma_tracked_range(m: ImgDiffWeights, pixels: Seq<Pixel>)
    requires
        m.wf(),
        tracks(m, pixels),
    ensures
        forall|i: int|
            0 <= i < pixels.len() ==> (#[trigger] pixels[i]).src_y * m.sidelen + pixels[i].src_x
                < m.source.len(),
{
    assert forall|i: int| 0 <= i < pixels.len() implies (#[trigger] pixels[i]).src_y * m.sidelen
        + pixels[i].src_x < m.source.len() by {
        lemma_index_of_cell(pixels[i].src_x as int, pixels[i].src_y as int, m.sidelen as int);
    }
}

/// What is told by a job that runs to its end with this result.
pub open spec fn is_finished_job(
    trace: Seq<Message>,
    polls: int,
    name: Seq<char>,
    m: ImgDiffWeights,
    order: Seq<usize>,
) -> bool {
    &&& trace.len() >= 2
    &&& trace[0] == Message::Progress(messages::start_share())
    &&& is_full_search(trace.subrange(1, trace.len() - 1), polls, m, order)
    &&& trace.last() == Message::Done(
        preview::finished_preset(name, m.sidelen as u32, m.source@, order),
    )
    &&& preset::is_permutation(order, m.source@.len())
    &&& assignment::total_cost(m, order) <= assignment::total_cost(m, unmoved(m.source@.len()))
}

/// What is told by a job that is stopped.
pub open spec fn is_stopped_job(trace: Seq<Message>, polls: int, m: ImgDiffWeights) -> bool {
    &&& trace.len() >= 1
    &&& trace[0] == Message::Progress(messages::start_share())
    &&& is_partial_search(trace.skip(1), polls, m)
}

/// Why a job is not run, and what it tells before it says so.
pub open spec fn is_refused_job(trace: Seq<Message>, asked: Request, error: ProcessError) -> bool {
    let sidelen = asked.settings.sidelen;
    if !settings::valid_sidelen(sidelen) {
        error == ProcessError::Resolution(sidelen) && trace.len() == 0
    } else {
        asked.refused_with(error) && trace == seq![Message::Progress(messages::start_share())]
    }
}

/// A run of the job that ended, or was stopped: what it tells, all that was read from the stop
/// flag, and how often it was read in this run.
pub open spec fn is_run(
    trace: Seq<Message>,
    seen: Seq<bool>,
    polls: int,
    asked: Request,
    m: ImgDiffWeights,
) -> bool {
    &&& asked.asks_for(m)
    &&& if messages::undisturbed(seen) {
        exists|order: Seq<usize>| #[trigger]
            is_finished_job(trace, polls, asked.picture.name, m, order)
    } else {
        messages::stopped_at_last(seen) && is_stopped_job(trace, polls, m)
    }
}

/// Rearranges a picture quickly, and polls a stop flag on the way.
pub fn process_genetic_until<S: ProgressSink>(
    unprocessed: UnprocessedPreset,
    settings: &GenerationSettings,
    portrait: &Portrait,
    windows: &CropWindows,
    tx: &mut Outbox<S>,
    cancel: &mut Cancellation,
) -> (result: Result<(), ProcessError>)
    requires
        prepare::request(unprocessed, *settings, *portrait, *windows).affordable(),
        old(cancel).wf(),
        messages::undisturbed(old(cancel).seen()),
        old(tx).wf(),
    ensures
        ({
            let asked = prepare::request(unprocessed, *settings, *portrait, *windows);
            let trace = messages::news(old(tx).sent(), final(tx).sent());
            let polls = final(cancel).seen().len() - old(cancel).seen().len();
            &&& final(tx).wf()
            &&& final(tx).first() == old(tx).first()
            &&& final(tx).sent() == old(tx).sent() + trace
            &&& final(cancel).wf()
            &&& final(cancel).flag() == old(cancel).flag()
            &&& match result {
                Ok(_) => {
                    &&& exists|m: ImgDiffWeights| #[trigger]
                        is_run(trace, final(cancel).seen(), polls, asked, m)
                },
                Err(error) => {
                    &&& is_refused_job(trace, asked, error)
                    &&& final(cancel).seen() == old(cancel).seen()
                },
            }
        }),
{
    let ghost asked = prepare::request(unprocessed, *settings, *portrait, *windows);
    let ghost sent0 = tx.sent();
    let ghost seen0 = cancel.seen().len();
    match settings::validate_sidelen(settings.sidelen) {
        Ok(_) => {},
        Err(error) => {
            proof {
                messages::lemma_news(sent0, Seq::empty());
                assert(tx.sent() =~= sent0 + Seq::empty());
            }
            return Err(error);
        },
    }
    tx.send(ProgressMsg::Progress(Fraction { numerator: 1, denominator: 1000 }));
    let ghost start = seq![Message::Progress(messages::start_share())];
    let ghost sent1 = tx.sent();
    assert(sent1 =~= sent0 + start);
    let m = match prepare::prepare(&unprocessed, settings, portrait, windows) {
        Ok(m) => m,
        Err(error) => {
            proof {
                messages::lemma_news(sent0, start);
            }
            return Err(error);
        },
    };
    match search_quickly(&m, tx, cancel) {
        Some(order) => {
            let ghost middle = messages::news(sent1, tx.sent());
            let ghost done = Message::Done(
                preview::finished_preset(unprocessed.name@, m.sidelen as u32, m.source@, order@),
            );
            proof {
                assert(m.sidelen * m.sidelen <= 256 * 256) by (nonlinear_arith)
                    requires
                        0 <= m.sidelen <= 256,
                ;
            }
            let ghost found = order@;
            tx.send(preview::done_message(unprocessed.name, settings.sidelen, &m.source, order));
            proof {
                let trace = start + middle.push(done);
                assert(tx.sent() =~= sent0 + trace);
                messages::lemma_news(sent0, trace);
                assert(trace.subrange(1, trace.len() - 1) =~= middle);
                let polls = cancel.seen().len() - seen0;
                assert(is_finished_job(trace, polls, asked.picture.name, m, found));
                assert(is_run(trace, cancel.seen(), polls, asked, m));
            }
        },
        None => {
            proof {
                let middle = messages::news(sent1, tx.sent());
                let trace = start + middle;
                assert(tx.sent() =~= sent0 + trace);
                messages::lemma_news(sent0, trace);
                assert(trace.skip(1) =~= middle);
                assert(is_run(trace, cancel.seen(), cancel.seen().len() - seen0, asked, m));
            }
        },
    }
    Ok(())
}

/// Rearranges a picture quickly, until the flag is set.
pub fn process_genetic<S: ProgressSink>(
    unprocessed: UnprocessedPreset,
    settings: GenerationSettings,
    portrait: &Portrait,
    windows: &CropWindows,
    tx: &mut Outbox<S>,
    cancel: Arc<AtomicBool>,
) -> (result: Result<(), ProcessError>)
    requires
        prepare::request(unprocessed, settings, *portrait, *windows).affordable(),
        old(tx).wf(),
    ensures
        ({
            let asked = prepare::request(unprocessed, settings, *portrait, *windows);
            let trace = messages::news(old(tx).sent(), final(tx).sent());
            &&& final(tx).wf()
            &&& final(tx).first() == old(tx).first()
            &&& final(tx).sent() == old(tx).sent() + trace
            &&& match result {
                Ok(_) => {
                    &&& exists|m: ImgDiffWeights, seen: Seq<bool>| #[trigger]
                        is_run(trace, seen, seen.len() as int, asked, m)
                            && messages::all_read_from(*cancel, seen)
                },
                Err(error) => is_refused_job(trace, asked, error),
            }
        }),
{
    let mut watched = Cancellation::new(cancel);
    process_genetic_until(unprocessed, &settings, portrait, windows, tx, &mut watched)
}

proof fn lemma_heartbeats_rise(base: Seq<Message>, swaps: int, generation: int, tries: int)
    requires
        1 <= swaps <= MAX_SWAPS_PER_GENERATION,
        0 <= generation < MAX_GENETIC_GENERATIONS,
        0 <= tries <= swaps,
        messages::rises(
            base,
            search_share(swaps, generation, 0),
        ),
    ensures
        messages::rises(
            base + heartbeats(swaps, generation, tries),
            search_share(swaps, generation, tries),
        ),
        search_share(swaps, generation, tries).is_share(),
    decreases tries,
{
    assert(0 <= generation * swaps <= 95 * swaps) by (nonlinear_arith)
        requires
            0 <= generation <= 95,
            1 <= swaps,
    ;
    if tries == 0 {
        assert(base + heartbeats(swaps, generation, 0) =~= base);
    } else {
        lemma_heartbeats_rise(base, swaps, generation, tries - 1);
        let before = base + heartbeats(swaps, generation, tries - 1);
        let reached = search_share(swaps, generation, tries - 1);
        let share = search_share(swaps, generation, tries);
        messages::lemma_same_denominator(reached, share);
        if (tries - 1) % (PROGRESS_HEARTBEAT_INTERVAL as int) == 0 {
            messages::lemma_same_denominator(reached, reached);
            messages::lemma_rises_push(before, reached, reached);
            assert(base + heartbeats(swaps, generation, tries) =~= before.push(
                Message::Progress(reached),
            ));
            messages::lemma_rises_within(
                base + heartbeats(swaps, generation, tries),
                reached,
                share,
            );
        } else {
            messages::lemma_rises_within(before, reached, share);
        }
    }
}

/// The end of a generation is the start of the next.
proof fn lemma_share_of_next(swaps: int, generation: int)
    requires
        1 <= swaps <= MAX_SWAPS_PER_GENERATION,
        0 <= generation < MAX_GENETIC_GENERATIONS,
    ensures
        search_share(swaps, generation, swaps).at_most(search_share(1, generation + 1, 0)),
        search_share(1, generation, 0).at_most(search_share(swaps, generation, 0)),
        search_share(1, generation + 1, 0).is_share(),
{
    assert(0 <= generation * swaps <= 95 * swaps) by (nonlinear_arith)
        requires
            0 <= generation <= 95,
            1 <= swaps,
    ;
    assert((96 * swaps + 989 * (generation * swaps + swaps)) * 96000 == (96 + 989 * (generation
        + 1)) * (96000 * swaps)) by (nonlinear_arith);
    assert((96 * swaps + 989 * (generation * swaps)) * 96000 == (96 + 989 * generation) * (96000
        * swaps)) by (nonlinear_arith);
}

proof fn lemma_told_rises(base: Seq<Message>, m: ImgDiffWeights, generation: nat)
    requires
        1 <= m.source.len() <= 65536,
        generation < MAX_GENETIC_GENERATIONS,
        messages::rises(
            base,
            search_share(1, 0, 0),
        ),
    ensures
        messages::rises(
            base + told_before(m, generation),
            search_share(1, generation as int, 0),
        ),
    decreases generation,
{
    if generation == 0 {
        assert(base + told_before(m, 0) =~= base);
    } else {
        let last = (generation - 1) as nat;
        let swaps = swaps_per_generation(m.source.len() as int);
        lemma_told_rises(base, m, last);
        let before = base + told_before(m, last);
        lemma_share_of_next(swaps, last as int);
        messages::lemma_rises_within(
            before,
            search_share(1, last as int, 0),
            search_share(swaps, last as int, 0),
        );
        lemma_heartbeats_rise(before, swaps, last as int, swaps);
        let beaten = before + heartbeats(swaps, last as int, swaps);
        let reached = search_share(swaps, last as int, swaps);
        messages::lemma_rises_push_other(beaten, reached, generation_preview(m, last));
        let shown = beaten.push(generation_preview(m, last));
        let share = search_share(1, generation as int, 0);
        messages::lemma_rises_push(shown, reached, share);
        assert(base + told_before(m, generation) =~= shown.push(Message::Progress(share)));
    }
}

/// While a good rearrangement is sought, the share of the work that is told lies between
/// nothing and everything and never falls.
pub proof fn genetic_progress_never_falls(
    trace: Seq<Message>,
    seen: Seq<bool>,
    polls: int,
    asked: Request,
    m: ImgDiffWeights,
)
    requires
        is_run(trace, seen, polls, asked, m),
    ensures
        messages::never_falls(trace),
{
    assert(1 <= m.sidelen * m.sidelen <= 256 * 256) by (nonlinear_arith)
        requires
            1 <= m.sidelen <= 256,
    ;
    let swaps = swaps_per_generation(m.source.len() as int);
    let begun = messages::start_share();
    let start = seq![Message::Progress(begun)];
    let first = Seq::<Message>::empty();
    messages::lemma_rises_push(first, Fraction { numerator: 0, denominator: 1 }, begun);
    assert(start =~= first.push(Message::Progress(begun)));
    messages::lemma_rises_within(start, begun, search_share(1, 0, 0));
    if messages::undisturbed(seen) {
        let order = choose|order: Seq<usize>| #[trigger]
            is_finished_job(trace, polls, asked.picture.name, m, order);
        let middle = trace.subrange(1, trace.len() - 1);
        let g = choose|g: nat| #[trigger] is_search(middle, polls, m, g, order);
        lemma_told_rises(start, m, g);
        let before = start + told_before(m, g);
        lemma_share_of_next(swaps, g as int);
        messages::lemma_rises_within(
            before,
            search_share(1, g as int, 0),
            search_share(swaps, g as int, 0),
        );
        lemma_heartbeats_rise(before, swaps, g as int, swaps);
        let told = before + heartbeats(swaps, g as int, swaps);
        let reached = search_share(swaps, g as int, swaps);
        messages::lemma_rises_push_other(told, reached, trace.last());
        assert(trace =~= told.push(trace.last())) by {
            assert(trace =~= start + middle + seq![trace.last()]);
        }
        messages::lemma_never_falls(trace, reached);
    } else {
        let cut = trace.skip(1);
        assert(trace =~= start + cut);
        let (g, tries) = choose|g: nat, tries: int| #[trigger] is_cut_search(cut, polls, m, g, tries);
        lemma_told_rises(start, m, g);
        let before = start + told_before(m, g);
        lemma_share_of_next(swaps, g as int);
        messages::lemma_rises_within(
            before,
            search_share(1, g as int, 0),
            search_share(swaps, g as int, 0),
        );
        lemma_heartbeats_rise(before, swaps, g as int, tries);
        let told = before + heartbeats(swaps, g as int, tries);
        let reached = search_share(swaps, g as int, tries);
        messages::lemma_rises_push_other(told, reached, Message::Cancelled);
        assert(trace =~= told.push(Message::Cancelled));
        messages::lemma_never_falls(trace, reached);
    }
}

proof fn lemma_still_stays(m: ImgDiffWeights, generation: nat)
    requires
        all_rearrange(m, generation + 1),
        is_still(m, unmoved(m.source@.len())),
    ensures
        search_at(m, generation).order == unmoved(m.source@.len()),
        search_after(m, generation).order == unmoved(m.source@.len()),
    decreases generation,
{
    if generation > 0 {
        let last = (generation - 1) as nat;
        assert forall|k: nat| k < last + 1 implies #[trigger] only_rearranges(m, k) by {}
        lemma_still_stays(m, last);
    }
    assert(only_rearranges(m, generation));
}

/// If the source shows the portrait already, every pixel stays at its cell.
pub proof fn equal_pictures_stay(
    trace: Seq<Message>,
    seen: Seq<bool>,
    polls: int,
    asked: Request,
    m: ImgDiffWeights,
)
    requires
        is_run(trace, seen, polls, asked, m),
        messages::undisturbed(seen),
        m.source@ == m.target@,
    ensures
        trace.len() > 0,
        trace.last() == Message::Done(
            preview::finished_preset(
                asked.picture.name,
                asked.settings.sidelen,
                m.source@,
                unmoved(m.source@.len()),
            ),
        ),
{
    let order = choose|order: Seq<usize>| #[trigger]
        is_finished_job(trace, polls, asked.picture.name, m, order);
    let middle = trace.subrange(1, trace.len() - 1);
    let g = choose|g: nat| #[trigger] is_search(middle, polls, m, g, order);
    let start = unmoved(m.source@.len());
    reveal(is_still);
    assert(m.sidelen * m.sidelen <= 256 * 256) by (nonlinear_arith)
        requires
            0 <= m.sidelen <= 256,
    ;
    assert forall|a: int, b: int| 0 <= a < start.len() && 0 <= b < start.len() implies
        #[trigger] saving(m, start, a, b) <= 0 by {
        lemma_same_cell_costs_nothing(m, a);
        lemma_same_cell_costs_nothing(m, b);
        m.lemma_cost_at_bound(a, b);
        m.lemma_cost_at_bound(b, a);
        assert(start[a] == a && start[b] == b);
    }
    lemma_still_stays(m, g);
}

proof fn lemma_same_cell_costs_nothing(m: ImgDiffWeights, i: int)
    requires
        m.source@ == m.target@,
        0 <= i < m.source@.len(),
    ensures
        m.cost_at(i, i) == 0,
{
    assert(m.source[i] == m.target[i]);
    assert(0 * (m.weights[i] as int) == 0);
    assert(0 * (m.spatial_weight as int) == 0);
}

/// Whether a message, if it shows a picture, shows the source pixels: three bytes for each, and
/// each as often as the source has it.
pub open spec fn shows_every_pixel(m: ImgDiffWeights, message: Message) -> bool {
    message matches Message::UpdatePreview { width, height, data } ==> {
        &&& width == m.sidelen
        &&& height == m.sidelen
        &&& data.len() == 3 * m.source@.len()
        &&& preview::pixels_of_bytes(data).to_multiset() == m.source@.to_multiset()
    }
}

/// Whether every picture that is shown shows the source pixels in some order.
pub open spec fn all_show_every_pixel(m: ImgDiffWeights, trace: Seq<Message>) -> bool {
    forall|i: int| 0 <= i < trace.len() ==> shows_every_pixel(m, #[trigger] trace[i])
}

proof fn lemma_shows_more(
    m: ImgDiffWeights,
    trace: Seq<Message>,
    more: Seq<Message>,
    message: Message,
)
    requires
        all_show_every_pixel(m, trace),
        all_show_every_pixel(m, more),
        shows_every_pixel(m, message),
    ensures
        all_show_every_pixel(m, trace + more),
        all_show_every_pixel(m, trace.push(message)),
{
    let longer = trace + more;
    assert forall|i: int| 0 <= i < longer.len() implies shows_every_pixel(m, #[trigger] longer[i]) by {
        if i < trace.len() {
            assert(longer[i] == trace[i]);
        } else {
            assert(longer[i] == more[i - trace.len()]);
        }
    }
    let pushed = trace.push(message);
    assert forall|i: int| 0 <= i < pushed.len() implies shows_every_pixel(m, #[trigger] pushed[i]) by {
        if i < trace.len() {
            assert(pushed[i] == trace[i]);
        }
    }
}

proof fn lemma_heartbeats_show_nothing(m: ImgDiffWeights, swaps: int, generation: int, tries: int)
    ensures
        all_show_every_pixel(m, heartbeats(swaps, generation, tries)),
    decreases tries,
{
    if tries > 0 {
        lemma_heartbeats_show_nothing(m, swaps, generation, tries - 1);
        lemma_shows_more(
            m,
            heartbeats(swaps, generation, tries - 1),
            Seq::empty(),
            Message::Progress(search_share(swaps, generation, tries - 1)),
        );
    }
}

proof fn lemma_told_shows_every_pixel(m: ImgDiffWeights, generation: nat)
    requires
        m.wf(),
        all_rearrange(m, generation),
    ensures
        all_show_every_pixel(m, told_before(m, generation)),
    decreases generation,
{
    if generation > 0 {
        let last = (generation - 1) as nat;
        let swaps = swaps_per_generation(m.source.len() as int);
        let beats = heartbeats(swaps, last as int, swaps);
        assert forall|k: nat| k < last implies #[trigger] only_rearranges(m, k) by {}
        lemma_told_shows_every_pixel(m, last);
        lemma_heartbeats_show_nothing(m, swaps, last as int, swaps);
        assert(only_rearranges(m, last));
        let picture = generation_preview(m, last);
        let share = Message::Progress(search_share(1, generation as int, 0));
        assert(preset::is_permutation(search_after(m, last).order, m.source@.len()));
        assert(m.sidelen as u32 * m.sidelen as u32 == m.source@.len());
        preview::pictures_show_every_source_pixel(
            m.source@,
            search_after(m, last).order,
            m.sidelen as u32,
        );
        lemma_shows_more(m, told_before(m, last), beats, share);
        lemma_shows_more(m, told_before(m, last) + beats, beats, picture);
        lemma_shows_more(m, (told_before(m, last) + beats).push(picture), beats, share);
    }
}

/// Every picture that the quick search shows on the way has the bytes of all source pixels, in
/// some order.
pub proof fn genetic_previews_show_every_pixel(
    trace: Seq<Message>,
    seen: Seq<bool>,
    polls: int,
    asked: Request,
    m: ImgDiffWeights,
)
    requires
        is_run(trace, seen, polls, asked, m),
    ensures
        all_show_every_pixel(m, trace),
{
    let swaps = swaps_per_generation(m.source.len() as int);
    let start = seq![Message::Progress(messages::start_share())];
    assert(all_show_every_pixel(m, start));
    if messages::undisturbed(seen) {
        let order = choose|order: Seq<usize>| #[trigger]
            is_finished_job(trace, polls, asked.picture.name, m, order);
        let middle = trace.subrange(1, trace.len() - 1);
        let g = choose|g: nat| #[trigger] is_search(middle, polls, m, g, order);
        assert forall|k: nat| k < g implies #[trigger] only_rearranges(m, k) by {}
        lemma_told_shows_every_pixel(m, g);
        lemma_heartbeats_show_nothing(m, swaps, g as int, swaps);
        lemma_shows_more(
            m,
            told_before(m, g),
            heartbeats(swaps, g as int, swaps),
            Message::Cancelled,
        );
        lemma_shows_more(m, start, middle, trace.last());
        lemma_shows_more(m, start + middle, start, trace.last());
        assert(trace =~= (start + middle).push(trace.last()));
    } else {
        let cut = trace.skip(1);
        let (g, tries) = choose|g: nat, tries: int| #[trigger]
            is_cut_search(cut, polls, m, g, tries);
        let told = told_before(m, g);
        let beats = heartbeats(swaps, g as int, tries);
        lemma_told_shows_every_pixel(m, g);
        lemma_heartbeats_show_nothing(m, swaps, g as int, tries);
        lemma_shows_more(m, told, beats, Message::Cancelled);
        lemma_shows_more(m, told + beats, beats, Message::Cancelled);
        lemma_shows_more(m, start, cut, Message::Cancelled);
        assert(trace =~= start + cut);
    }
}

proof fn lemma_heartbeats_on_the_way(swaps: int, generation: int, tries: int)
    ensures
        messages::all_on_the_way(heartbeats(swaps, generation, tries)),
    decreases tries,
{
    if tries > 0 {
        lemma_heartbeats_on_the_way(swaps, generation, tries - 1);
    }
}

proof fn lemma_told_on_the_way(m: ImgDiffWeights, generation: nat)
    ensures
        messages::all_on_the_way(told_before(m, generation)),
    decreases generation,
{
    if generation > 0 {
        let last = (generation - 1) as nat;
        let swaps = swaps_per_generation(m.source.len() as int);
        lemma_told_on_the_way(m, last);
        lemma_heartbeats_on_the_way(swaps, last as int, swaps);
    }
}

/// A job tells exactly once that it has ended, and nothing after that: it hands over a preset
/// if it was not told to stop, and says that it was stopped if it was.
pub proof fn genetic_jobs_end_once(
    trace: Seq<Message>,
    seen: Seq<bool>,
    polls: int,
    asked: Request,
    m: ImgDiffWeights,
)
    requires
        is_run(trace, seen, polls, asked, m),
    ensures
        messages::ends_once(trace),
        trace.last() is Done <==> messages::undisturbed(seen),
{
    let swaps = swaps_per_generation(m.source.len() as int);
    let begun = Message::Progress(messages::start_share());
    if messages::undisturbed(seen) {
        let order = choose|order: Seq<usize>| #[trigger]
            is_finished_job(trace, polls, asked.picture.name, m, order);
        let middle = trace.subrange(1, trace.len() - 1);
        let g = choose|g: nat| #[trigger] is_search(middle, polls, m, g, order);
        let told = told_before(m, g);
        let beats = heartbeats(swaps, g as int, swaps);
        lemma_told_on_the_way(m, g);
        lemma_heartbeats_on_the_way(swaps, g as int, swaps);
        messages::lemma_ends_once(begun, told, beats, trace.last());
        assert(trace =~= (seq![begun] + told + beats).push(trace.last())) by {
            assert(trace =~= seq![begun] + middle + seq![trace.last()]);
        }
    } else {
        let cut = trace.skip(1);
        assert(trace =~= seq![begun] + cut);
        let (g, tries) = choose|g: nat, tries: int| #[trigger] is_cut_search(cut, polls, m, g, tries);
        let told = told_before(m, g);
        let beats = heartbeats(swaps, g as int, tries);
        lemma_told_on_the_way(m, g);
        lemma_heartbeats_on_the_way(swaps, g as int, tries);
        messages::lemma_ends_once(begun, told, beats, Message::Cancelled);
        assert(trace =~= (seq![begun] + told + beats).push(Message::Cancelled));
    }
}

proof fn lemma_same_attempts(
    m: ImgDiffWeights,
    other: ImgDiffWeights,
    reach: int,
    s: SearchState,
    tries: nat,
)
    requires
        m.holds_the_same(other),
    ensures
        attempts(m, reach, s, tries) == attempts(other, reach, s, tries),
    decreases tries,
{
    if tries > 0 {
        reveal(attempt);
        lemma_same_attempts(m, other, reach, s, (tries - 1) as nat);
        let before = attempts(m, reach, s, (tries - 1) as nat);
        assert forall|a: int, b: int| #[trigger] saving(m, before.order, a, b) == saving(
            other,
            before.order,
            a,
            b,
        ) by {}
    }
}

proof fn lemma_same_search(m: ImgDiffWeights, other: ImgDiffWeights, generation: nat)
    requires
        m.holds_the_same(other),
    ensures
        search_at(m, generation) == search_at(other, generation),
        search_after(m, generation) == search_after(other, generation),
        ends_with(m, generation) == ends_with(other, generation),
    decreases generation,
{
    if generation > 0 {
        lemma_same_search(m, other, (generation - 1) as nat);
    }
    lemma_same_attempts(
        m,
        other,
        reach_of(m.sidelen as u32, generation as int),
        search_at(m, generation),
        swaps_per_generation(m.source.len() as int) as nat,
    );
}

proof fn lemma_same_told(m: ImgDiffWeights, other: ImgDiffWeights, generation: nat)
    requires
        m.holds_the_same(other),
    ensures
        told_before(m, generation) == told_before(other, generation),
    decreases generation,
{
    if generation > 0 {
        let last = (generation - 1) as nat;
        lemma_same_told(m, other, last);
        lemma_same_search(m, other, last);
    }
}

/// Two runs over the same prepared pictures under the same name tell the same, message by
/// message, whatever else their requests hold.
pub proof fn genetic_runs_repeat(
    trace: Seq<Message>,
    seen: Seq<bool>,
    polls: int,
    asked: Request,
    m: ImgDiffWeights,
    other_trace: Seq<Message>,
    other_seen: Seq<bool>,
    other_polls: int,
    other_asked: Request,
    other: ImgDiffWeights,
)
    requires
        is_run(trace, seen, polls, asked, m),
        is_run(other_trace, other_seen, other_polls, other_asked, other),
        messages::undisturbed(seen),
        messages::undisturbed(other_seen),
        m.holds_the_same(other),
        asked.picture.name == other_asked.picture.name,
    ensures
        trace == other_trace,
        polls == other_polls,
{
    let name = asked.picture.name;
    let order = choose|order: Seq<usize>| #[trigger] is_finished_job(trace, polls, name, m, order);
    let middle = trace.subrange(1, trace.len() - 1);
    let g = choose|g: nat| #[trigger] is_search(middle, polls, m, g, order);
    let other_order = choose|order: Seq<usize>| #[trigger]
        is_finished_job(other_trace, other_polls, name, other, order);
    let other_middle = other_trace.subrange(1, other_trace.len() - 1);
    let h = choose|h: nat| #[trigger]
        is_search(other_middle, other_polls, other, h, other_order);
    lemma_same_search(m, other, g);
    lemma_same_search(m, other, h);
    assert(ends_with(m, g) && ends_with(other, h));
    assert(g == h);
    lemma_same_told(m, other, g);
    assert(middle == other_middle);
    assert(trace =~= other_trace) by {
        let start = seq![Message::Progress(messages::start_share())];
        assert(trace =~= start + middle + seq![trace.last()]);
        assert(other_trace =~= start + other_middle + seq![other_trace.last()]);
    }
}

/// Two runs that are not stopped, over the same pictures and with the same importance of
/// proximity, tell the same if decoding and resampling made the same or had nothing to do.
/// Settings may differ in their names and identifiers.
pub proof fn equal_quick_requests_run_alike(
    trace: Seq<Message>,
    seen: Seq<bool>,
    polls: int,
    asked: Request,
    m: ImgDiffWeights,
    other_trace: Seq<Message>,
    other_seen: Seq<bool>,
    other_polls: int,
    other_asked: Request,
    other: ImgDiffWeights,
)
    requires
        is_run(trace, seen, polls, asked, m),
        is_run(other_trace, other_seen, other_polls, other_asked, other),
        messages::undisturbed(seen),
        messages::undisturbed(other_seen),
        asked.is_about_the_same_as(other_asked),
        asked.is_made_like(m, other_asked, other),
        asked.settings.proximity_importance == other_asked.settings.proximity_importance,
        asked.picture.name == other_asked.picture.name,
    ensures
        trace == other_trace,
        polls == other_polls,
{
    prepare::equal_requests_ask_for_equal_matrices(asked, m, other_asked, other);
    genetic_runs_repeat(
        trace,
        seen,
        polls,
        asked,
        m,
        other_trace,
        other_seen,
        other_polls,
        other_asked,
        other,
    );
}

/// One try picks the cell that the first draw gives, and the cell that lies the two steps away
/// that the next draws give, or at the edge of the picture. If the two cost less with their pixels
/// exchanged, they are exchanged; nothing else changes.
pub proof fn tries_exchange_what_is_drawn(m: ImgDiffWeights, reach: int, s: SearchState)
    requires
        m.wf(),
        1 <= reach <= 256,
        s.order.len() == m.source@.len(),
    ensures
        ({
            let after = attempt(m, reach, s);
            let side = m.sidelen as int;
            let first = random::stepped(s.rng);
            let second = random::stepped(first);
            let third = random::stepped(second);
            let a = random::bits_32(first) as int % (m.source@.len() as int);
            let dx = random::bits_32(second) as int % 65536 % (2 * reach + 1) - reach;
            let dy = random::bits_32(third) as int % 65536 % (2 * reach + 1) - reach;
            let x = math::max(0, math::min(side - 1, a % side + dx));
            let y = math::max(0, math::min(side - 1, a / side + dy));
            let b = y * side + x;
            let (p, q) = (s.order[a] as int, s.order[b] as int);
            &&& 0 <= a < s.order.len()
            &&& 0 <= b < s.order.len()
            &&& -reach <= dx <= reach
            &&& -reach <= dy <= reach
            &&& after.rng == third
            &&& after.order.len() == s.order.len()
            &&& m.cost_at(a, p) + m.cost_at(b, q) > m.cost_at(a, q) + m.cost_at(b, p) ==> {
                &&& after.swaps == s.swaps + 1
                &&& after.order[a] == s.order[b]
                &&& after.order[b] == s.order[a]
                &&& forall|i: int|
                    0 <= i < s.order.len() && i != a && i != b ==> #[trigger] after.order[i]
                        == s.order[i]
            }
            &&& m.cost_at(a, p) + m.cost_at(b, q) <= m.cost_at(a, q) + m.cost_at(b, p) ==> {
                &&& after.swaps == s.swaps
                &&& after.order == s.order
            }
        }),
{
    reveal(attempt);
    let side = m.sidelen as int;
    let n = m.source@.len() as int;
    assert(1 <= side * side <= 65536) by (nonlinear_arith)
        requires
            1 <= side <= 256,
    ;
    let first = random::stepped(s.rng);
    let second = random::stepped(first);
    let third = random::stepped(second);
    draws::draws_are_remainders(s.rng, 0, n);
    draws::draws_are_remainders(first, -reach, reach + 1);
    draws::draws_are_remainders(second, -reach, reach + 1);
    let a = random::bits_32(first) as int % n;
    let span = 2 * reach + 1;
    let (i, j) = (
        random::bits_32(second) as int % 65536,
        random::bits_32(third) as int % 65536,
    );
    assert(0 <= a < n && 0 <= i % span < span && 0 <= j % span < span) by {
        vstd::arithmetic::div_mod::lemma_mod_bound(random::bits_32(first) as int, n);
        vstd::arithmetic::div_mod::lemma_mod_bound(i, span);
        vstd::arithmetic::div_mod::lemma_mod_bound(j, span);
    }
    let (dx, dy) = (i % span - reach, j % span - reach);
    cost::lemma_cell_inside(a, side);
    lemma_landing(side, a, dx, dy);
}

/// Any cell of the picture is the first cell of some try: from some state of the random number
/// generator, every try begins there, whatever the distance that it may bridge.
pub proof fn tries_begin_at_any_cell(m: ImgDiffWeights, cell: int) -> (rng: u64)
    requires
        m.wf(),
        0 <= cell < m.source@.len(),
    ensures
        random::bits_32(random::stepped(rng)) as int % (m.source@.len() as int) == cell,
        forall|reach: int, order: Seq<usize>|
            1 <= reach <= 256 && order.len() == m.source@.len() ==> begins_at(
                m,
                #[trigger] attempt(m, reach, SearchState { order, rng, swaps: 0 }),
                reach,
                order,
                cell,
            ),
{
    assert(m.source@.len() <= 65536) by {
        assert(m.sidelen * m.sidelen <= 65536) by (nonlinear_arith)
            requires
                1 <= m.sidelen <= 256,
        ;
    }
    let rng = draws::any_32_bits_can_be_made(cell as u32);
    let n = m.source@.len() as int;
    assert(cell % n == cell) by {
        vstd::arithmetic::div_mod::lemma_small_mod(cell as nat, n as nat);
    }
    assert forall|reach: int, order: Seq<usize>|
        1 <= reach <= 256 && order.len() == m.source@.len() implies begins_at(
        m,
        #[trigger] attempt(m, reach, SearchState { order, rng, swaps: 0 }),
        reach,
        order,
        cell,
    ) by {
        let s = SearchState { order, rng, swaps: 0 };
        tries_exchange_what_is_drawn(m, reach, s);
        lemma_exchange_begins(m, reach, s, cell);
    }
    rng
}

/// Whether a try left an order as it was, or exchanged a cell with one that lies within reach of
/// it.
pub open spec fn begins_at(
    m: ImgDiffWeights,
    after: SearchState,
    reach: int,
    order: Seq<usize>,
    cell: int,
) -> bool {
    let side = m.sidelen as int;
    ||| after.order == order
    ||| exists|other: int|
        0 <= other < order.len() && -reach <= other % side - cell % side <= reach && -reach <= other
            / side - cell / side <= reach && #[trigger] order.update(cell, order[other]).update(
            other,
            order[cell],
        ) == after.order
}

proof fn lemma_exchange_begins(m: ImgDiffWeights, reach: int, s: SearchState, cell: int)
    requires
        m.wf(),
        1 <= reach <= 256,
        s.order.len() == m.source@.len(),
        0 <= cell < m.source@.len(),
        random::bits_32(random::stepped(s.rng)) as int % (m.source@.len() as int) == cell,
    ensures
        begins_at(m, attempt(m, reach, s), reach, s.order, cell),
{
    tries_exchange_what_is_drawn(m, reach, s);
    let after = attempt(m, reach, s);
    let side = m.sidelen as int;
    let second = random::stepped(random::stepped(s.rng));
    let third = random::stepped(second);
    let dx = random::bits_32(second) as int % 65536 % (2 * reach + 1) - reach;
    let dy = random::bits_32(third) as int % 65536 % (2 * reach + 1) - reach;
    let x = math::max(0, math::min(side - 1, cell % side + dx));
    let y = math::max(0, math::min(side - 1, cell / side + dy));
    let other = y * side + x;
    assert(1 <= side * side <= 65536) by (nonlinear_arith)
        requires
            1 <= side <= 256,
    ;
    cost::lemma_cell_inside(cell, side);
    lemma_index_of_cell(x, y, side);
    if after.order != s.order {
        let exchanged = s.order.update(cell, s.order[other]).update(other, s.order[cell]);
        assert(exchanged =~= after.order);
    }
}

/// A generation tries 32 swaps for each pixel, but no more than 262144; each try goes on from
/// where the one before it left off.
pub proof fn generations_try_many_swaps(m: ImgDiffWeights, generation: nat)
    requires
        m.wf(),
    ensures
        ({
            let tries = math::min(32 * m.source@.len() as int, 262144) as nat;
            let reach = reach_of(m.sidelen as u32, generation as int);
            &&& search_after(m, generation) == attempts(
                m,
                reach,
                search_at(m, generation),
                tries,
            )
            &&& attempts(m, reach, search_at(m, generation), 0) == search_at(m, generation)
            &&& forall|k: nat| #[trigger]
                attempts(m, reach, search_at(m, generation), k + 1) == attempt(
                    m,
                    reach,
                    attempts(m, reach, search_at(m, generation), k),
                )
        }),
{
    assert(m.sidelen * m.sidelen >= 1) by (nonlinear_arith)
        requires
            m.sidelen >= 1,
    ;
}

/// A search begins with every pixel at its own cell and the same random numbers each time, and each
/// generation goes on from the one before it.
pub proof fn searches_go_on(m: ImgDiffWeights, generation: nat, cell: int)
    requires
        m.wf(),
        0 <= cell < m.source@.len(),
    ensures
        search_at(m, 0).order.len() == m.source@.len(),
        search_at(m, 0).order[cell] == cell,
        search_at(m, 0).rng == random::seeded(12345),
        search_at(m, generation + 1).order == search_after(m, generation).order,
        search_at(m, generation + 1).rng == search_after(m, generation).rng,
        search_at(m, generation).swaps == 0,
{
    assert(m.source@.len() <= 65536) by {
        assert(m.sidelen * m.sidelen <= 65536) by (nonlinear_arith)
            requires
                1 <= m.sidelen <= 256,
        ;
    }
}

/// A search ends with the first generation that bridges fewer than four cells and makes fewer than
/// ten swaps, and with the 96th at the latest; what it leaves is the order of that generation.
pub proof fn searches_end_when_little_is_left(
    trace: Seq<Message>,
    polls: int,
    m: ImgDiffWeights,
    order: Seq<usize>,
) -> (generation: nat)
    requires
        is_full_search(trace, polls, m, order),
    ensures
        generation < 96,
        order == search_after(m, generation).order,
        generation == 95 || (reach_of(m.sidelen as u32, generation as int) < 4 && search_after(
            m,
            generation,
        ).swaps < 10),
        forall|earlier: nat|
            earlier < generation ==> reach_of(m.sidelen as u32, earlier as int) >= 4
                || (#[trigger] search_after(m, earlier)).swaps >= 10,
{
    let g = choose|g: nat| #[trigger] is_search(trace, polls, m, g, order);
    assert forall|earlier: nat| earlier < g implies reach_of(m.sidelen as u32, earlier as int) >= 4
        || (#[trigger] search_after(m, earlier)).swaps >= 10 by {
        assert(!ends_with(m, earlier));
    }
    g
}

/// During a generation a share of the work is told at every 32768th try, from the first one on, and
/// the stop flag is read at every 4096th.
pub proof fn generations_tell_of_themselves(swaps: int, generation: int, tries: int)
    requires
        0 <= tries,
    ensures
        heartbeats(swaps, generation, tries).len() == (tries + 32767) / 32768,
        forall|k: int|
            0 <= k < heartbeats(swaps, generation, tries).len() ==> #[trigger] heartbeats(
                swaps,
                generation,
                tries,
            )[k] == Message::Progress(
                Fraction {
                    numerator: (96 * swaps + 989 * (generation * swaps + 32768 * k)) as u64,
                    denominator: (96000 * swaps) as u64,
                },
            ),
        polls_in(tries) == (tries + 4095) / 4096,
    decreases tries,
{
    if tries > 0 {
        generations_tell_of_themselves(swaps, generation, tries - 1);
        let before = heartbeats(swaps, generation, tries - 1);
        let now = heartbeats(swaps, generation, tries);
        if (tries - 1) % 32768 == 0 {
            assert((tries + 32767) / 32768 == (tries - 1 + 32767) / 32768 + 1);
            assert(before.len() == (tries - 1) / 32768);
            assert(32768 * before.len() == tries - 1);
        } else {
            assert((tries + 32767) / 32768 == (tries - 1 + 32767) / 32768);
        }
        assert forall|k: int| 0 <= k < now.len() implies #[trigger] now[k] == Message::Progress(
            Fraction {
                numerator: (96 * swaps + 989 * (generation * swaps + 32768 * k)) as u64,
                denominator: (96000 * swaps) as u64,
            },
        ) by {
            if k < before.len() {
                assert(now[k] == before[k]);
            }
        }
    }
}

/// After each generation but the last one, the picture is shown that it leaves, and the share of the
/// work is told: a thousandth and 989 thousandths of the generations of 96 that are over.
pub proof fn generations_show_what_they_leave(m: ImgDiffWeights, generation: nat, cell: int)
    requires
        m.wf(),
        0 <= cell < m.source@.len(),
        search_after(m, generation).order.len() == m.source@.len(),
        search_after(m, generation).order[cell] < m.source@.len(),
    ensures
        told_before(m, 0) == Seq::<Message>::empty(),
        ({
            let told = told_before(m, generation);
            let longer = told_before(m, generation + 1);
            let swaps = math::min(32 * m.source@.len() as int, 262144);
            let beats = heartbeats(swaps, generation as int, swaps);
            let order = search_after(m, generation).order;
            &&& longer.len() == told.len() + beats.len() + 2
            &&& longer.take((told.len() + beats.len()) as int) == told + beats
            &&& longer[longer.len() - 2] matches Message::UpdatePreview { width, height, data }
                && width == m.sidelen && height == m.sidelen && data.len() == 3 * m.source@.len() && (
            data[3 * cell],
            data[3 * cell + 1],
            data[3 * cell + 2],
            ) == m.source[order[cell] as int]
            &&& longer.last() == Message::Progress(
                Fraction {
                    numerator: (96 + 989 * (generation + 1)) as u64,
                    denominator: 96000,
                },
            )
        }),
{
    let longer = told_before(m, generation + 1);
    let swaps = swaps_per_generation(m.source.len() as int);
    let order = search_after(m, generation).order;
    assert(m.sidelen * m.sidelen >= 1) by (nonlinear_arith)
        requires
            m.sidelen >= 1,
    ;
    assert(m.sidelen as u32 * m.sidelen as u32 == m.source@.len());
    preview::cells_show_their_source_pixels(m.source@, order, m.sidelen as u32, cell);
    let before = told_before(m, generation) + heartbeats(swaps, generation as int, swaps);
    assert(longer.take(before.len() as int) =~= before);
}

/// A run that is not stopped tells a thousandth first, then what each generation tells, and hands over
/// the order that the last generation leaves under the name of the picture. It is a permutation and
/// costs no more than leaving every pixel at its place. The stop flag is read at every 4096th try.
pub proof fn quick_runs_hand_over_what_the_search_leaves(
    trace: Seq<Message>,
    seen: Seq<bool>,
    polls: int,
    asked: Request,
    m: ImgDiffWeights,
) -> (generation: nat)
    requires
        is_run(trace, seen, polls, asked, m),
        messages::undisturbed(seen),
    ensures
        ({
            let n = m.source@.len() as int;
            let swaps = math::min(32 * n, 262144);
            let order = search_after(m, generation).order;
            let first = Message::Progress(Fraction { numerator: 1, denominator: 1000 });
            &&& generation < 96
            &&& trace.last() is Done
            &&& trace.drop_last() == seq![first] + told_before(m, generation) + heartbeats(
                swaps,
                generation as int,
                swaps,
            )
            &&& trace.last()->Done_0.assignments == order
            &&& trace.last()->Done_0.inner.name == asked.picture.name
            &&& trace.last()->Done_0.inner.width == asked.settings.sidelen
            &&& trace.last()->Done_0.inner.height == asked.settings.sidelen
            &&& preview::pixels_of_bytes(trace.last()->Done_0.inner.source_img) == m.source@
            &&& preset::is_permutation(order, m.source@.len())
            &&& assignment::total_cost(m, order) <= assignment::total_cost(
                m,
                Seq::new(m.source@.len(), |i: int| i as usize),
            )
            &&& polls == (generation + 1) * ((swaps + 4095) / 4096)
            &&& asked.asks_for(m)
        }),
{
    let name = asked.picture.name;
    let order = choose|order: Seq<usize>| #[trigger] is_finished_job(trace, polls, name, m, order);
    let middle = trace.subrange(1, trace.len() - 1);
    let g = choose|g: nat| #[trigger] is_search(middle, polls, m, g, order);
    let first = Message::Progress(Fraction { numerator: 1, denominator: 1000 });
    let swaps = swaps_per_generation(m.source.len() as int);
    assert(m.sidelen * m.sidelen >= 1) by (nonlinear_arith)
        requires
            m.sidelen >= 1,
    ;
    messages::lemma_told_in_parts(
        trace,
        first,
        told_before(m, g),
        heartbeats(swaps, g as int, swaps),
    );
    preview::finished_presets_hold_the_result(name, m.sidelen as u32, m.source@, order);
    assert((g + 1) * polls_in(swaps) == g * polls_in(swaps) + polls_in(swaps)) by (nonlinear_arith);
    g
}

/// The order of pixels names for each cell the place that its pixel comes from, row by row.
pub proof fn orders_name_the_sources(pixels: Seq<Pixel>, sidelen: int, cell: int)
    requires
        0 <= cell < pixels.len(),
        0 <= pixels[cell].src_y * sidelen + pixels[cell].src_x <= usize::MAX,
    ensures
        order_of(pixels, sidelen).len() == pixels.len(),
        order_of(pixels, sidelen)[cell] == pixels[cell].src_y * sidelen + pixels[cell].src_x,
{
}

/// The distance that the swaps of a generation may bridge goes from the whole side down to two cells, or
/// one if there is only one, evenly on a logarithmic scale, rounded to the nearest integer.
pub proof fn swaps_bridge_shrinking_distances(sidelen: u32, generation: int)
    requires
        1 <= sidelen <= 256,
        0 <= generation,
    ensures
        ({
            let reach = reach_of(sidelen, generation);
            let least = if sidelen == 1 {
                1int
            } else {
                2
            };
            &&& generation == 0 ==> reach == sidelen
            &&& generation >= 95 ==> reach == least
            &&& least <= reach <= sidelen
            &&& reach_of(sidelen, generation + 1) <= reach
            &&& generation < 95 ==> ({
                let exact = power::pow(2, 95) * (power::pow(
                    sidelen as int,
                    (95 - generation) as nat,
                ) * power::pow(least, generation as nat));
                power::pow(2 * reach - 1, 95) <= exact < power::pow(2 * reach + 1, 95)
            })
        }),
{
    let some = schedule::every_generation_has_a_reach(sidelen, generation);
    let next = schedule::every_generation_has_a_reach(sidelen, generation + 1);
    let reach = reach_of(sidelen, generation);
    let later = reach_of(sidelen, generation + 1);
    assert(schedule::is_reach(sidelen, generation, reach));
    assert(schedule::is_reach(sidelen, generation + 1, later));
    schedule::reach_goes_from_the_side_to_two_cells(sidelen, generation, reach);
    schedule::reach_is_bounded_and_never_grows(
        sidelen,
        generation,
        generation + 1,
        reach,
        later,
    );
}

/// A coordinate inside the picture stays, and one outside becomes that of the nearest edge.
pub proof fn coordinates_stay_inside(v: int, side: int)
    requires
        1 <= side,
    ensures
        clamped(v, side) == math::max(0, math::min(side - 1, v)),
{
}

/// A quick job is refused with nothing told at a resolution that is not supported, and otherwise with a
/// thousandth told, if its pictures cannot be prepared.
pub proof fn refused_quick_jobs_tell_little(trace: Seq<Message>, asked: Request, error: ProcessError)
    requires
        is_refused_job(trace, asked, error),
    ensures
        asked.settings.sidelen == 0 || asked.settings.sidelen > 256 ==> trace.len() == 0 && error
            == ProcessError::Resolution(asked.settings.sidelen),
        1 <= asked.settings.sidelen <= 256 ==> asked.refused_with(error) && trace == seq![
            Message::Progress(Fraction { numerator: 1, denominator: 1000 }),
        ],
{
}

} // verus!
