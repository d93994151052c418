//! Rearranging a canvas while it is being painted on.
use crate::buffers::filled;
use crate::cost;
use crate::genetic;
use vstd::prelude::*;

verus! {

/// The canvas has this many cells per side.
pub const DRAWING_CANVAS_SIZE: usize = 128;

pub const DRAWING_SWAPS_PER_PIXEL: usize = 2;

pub const DRAWING_MAX_SWAPS_PER_GENERATION: usize = 32768;

pub const DRAWING_CANCEL_CHECK_INTERVAL: usize = 2048;

/// What it is worth to lie next to a pixel of the same stroke.
pub const STROKE_REWARD: i64 = -10000000000;

/// Which stroke painted a pixel, and in which frame.
#[derive(Clone, Copy, PartialEq, Eq, Structural, Debug)]
pub struct PixelData {
    pub stroke_id: u32,
    pub last_edited: u32,
}

impl PixelData {
    /// A canvas that no stroke has touched.
    pub fn init_canvas(frame_count: u32) -> (canvas: Vec<PixelData>)
        ensures
            canvas@ == Seq::new(
                128 * 128,
                |i: int| PixelData { stroke_id: 0, last_edited: frame_count },
            ),
    {
        filled(
            PixelData { stroke_id: 0, last_edited: frame_count },
            DRAWING_CANVAS_SIZE * DRAWING_CANVAS_SIZE,
        )
    }
}

/// A canvas pixel on its way: where it comes from, and what it cost when it last moved.
#[derive(Clone, Copy, PartialEq, Eq, Structural, Debug)]
pub struct DrawingPixel {
    pub src_x: u16,
    pub src_y: u16,
    pub h: i64,
}

impl DrawingPixel {
    pub fn new(src_x: u16, src_y: u16, h: i64) -> (pixel: Self)
        ensures
            pixel == (DrawingPixel { src_x, src_y, h }),
    {
        DrawingPixel { src_x, src_y, h }
    }

    pub fn update_heuristic(&mut self, new_h: i64)
        ensures
            *final(self) == (DrawingPixel { h: new_h, ..*old(self) }),
    {
        self.h = new_h;
    }

    /// The index of the source of the pixel on the canvas.
    pub open spec fn canvas_index(self) -> int {
        self.src_y * DRAWING_CANVAS_SIZE + self.src_x
    }

    /// What the pixel costs at a cell that wants a certain color, given the colors of the
    /// canvas.
    pub fn calc_drawing_heuristic(
        &self,
        target_pos: (u16, u16),
        target_col: (u8, u8, u8),
        weight: i64,
        colors: &[(u8, u8, u8)],
        proximity_importance: i64,
    ) -> (h: i64)
        requires
            self.canvas_index() < colors.len(),
            cost::cost_fits(
                (self.src_x, self.src_y),
                target_pos,
                colors[self.canvas_index()],
                target_col,
                weight as int,
                proximity_importance as int,
            ),
        ensures
            h == cost::cost(
                (self.src_x, self.src_y),
                target_pos,
                colors[self.canvas_index()],
                target_col,
                weight as int,
                proximity_importance as int,
            ),
    {
        cost::heuristic(
            (self.src_x, self.src_y),
            target_pos,
            colors[self.src_y as usize * DRAWING_CANVAS_SIZE + self.src_x as usize],
            target_col,
            weight,
            proximity_importance,
        )
    }
}

/// For each cell the cells above, to the left, to the right and below, as far as there are
/// any.
pub type NeighbourMap = Vec<[Option<usize>; 4]>;

/// The neighbours of the cell in column `x` and row `y`.
pub open spec fn neighbours_of(x: int, y: int, side: int) -> Seq<Option<usize>> {
    seq![
        if y > 0 {
            Some(((y - 1) * side + x) as usize)
        } else {
            None
        },
        if x > 0 {
            Some((y * side + x - 1) as usize)
        } else {
            None
        },
        if x + 1 < side {
            Some((y * side + x + 1) as usize)
        } else {
            None
        },
        if y + 1 < side {
            Some(((y + 1) * side + x) as usize)
        } else {
            None
        },
    ]
}

/// Whether a map lists the neighbours of every cell.
pub open spec fn is_neighbour_map(map: Seq<[Option<usize>; 4]>, side: int) -> bool {
    &&& map.len() == side * side
    &&& forall|i: int|
        0 <= i < map.len() ==> (#[trigger] map[i])@ == neighbours_of(i % side, i / side, side)
}

/// Lists the neighbours of every cell.
pub fn build_neighbour_map(side: usize) -> (map: NeighbourMap)
    requires
        side * side <= usize::MAX,
    ensures
        is_neighbour_map(map@, side as int),
{
    let mut map: NeighbourMap = Vec::with_capacity(side * side);
    let mut y: usize = 0;
    proof {
        assert(0 * side == 0);
    }
    while y < side
        invariant
            side * side <= usize::MAX,
            y <= side,
            map.len() == y * side,
            forall|i: int|
                0 <= i < map.len() ==> (#[trigger] map[i])@ == neighbours_of(
                    i % side as int,
                    i / side as int,
                    side as int,
                ),
        decreases side - y,
    {
        let mut x: usize = 0;
        while x < side
            invariant
                side * side <= usize::MAX,
                y < side,
                x <= side,
                map.len() == y * side + x,
                forall|i: int|
                    0 <= i < map.len() ==> (#[trigger] map[i])@ == neighbours_of(
                        i % side as int,
                        i / side as int,
                        side as int,
                    ),
            decreases side - x,
        {
            proof {
                genetic::lemma_index_of_cell(x as int, y as int, side as int);
                if y > 0 {
                    genetic::lemma_index_of_cell(x as int, y - 1, side as int);
                }
                if y + 1 < side {
                    genetic::lemma_index_of_cell(x as int, y + 1, side as int);
                }
            }
            let up: Option<usize> = if y > 0 {
                Some((y - 1) * side + x)
            } else {
                None
            };
            let left: Option<usize> = if x > 0 {
                Some(y * side + (x - 1))
            } else {
                None
            };
            let right: Option<usize> = if x + 1 < side {
                Some(y * side + x + 1)
            } else {
                None
            };
            let down: Option<usize> = if y + 1 < side {
                Some((y + 1) * side + x)
            } else {
                None
            };
            map.push([up, left, right, down]);
            proof {
                let i = y * side + x;
                assert(map[i]@ =~= neighbours_of(x as int, y as int, side as int));
            }
            x = x + 1;
        }
        proof {
            assert((y + 1) * side == y * side + side) by (nonlinear_arith);
        }
        y = y + 1;
    }
    map
}

/// The index of the source of a pixel on an image with `sidelen` cells per side, if it lies
/// there.
pub open spec fn index_of_source(pixel: DrawingPixel, sidelen: int) -> Option<int> {
    if pixel.src_x < sidelen && pixel.src_y < sidelen {
        Some(pixel.src_y * sidelen + pixel.src_x)
    } else {
        None
    }
}

pub fn source_index(pixel: DrawingPixel, sidelen: usize) -> (index: Option<usize>)
    requires
        index_of_source(pixel, sidelen as int) matches Some(i) ==> i <= usize::MAX,
    ensures
        match index {
            Some(i) => index_of_source(pixel, sidelen as int) == Some(i as int),
            None => index_of_source(pixel, sidelen as int) is None,
        },
{
    let x: usize = pixel.src_x as usize;
    let y: usize = pixel.src_y as usize;
    if x < sidelen && y < sidelen {
        proof {
            assert(0 <= y * sidelen) by (nonlinear_arith)
                requires
                    0 <= y,
                    0 <= sidelen,
            ;
        }
        Some(y * sidelen + x)
    } else {
        None
    }
}

/// What is known about the pixel that shows at a cell, if anything is.
pub open spec fn stroke_at(
    pixel_data: Seq<PixelData>,
    pixels: Seq<DrawingPixel>,
    pos: int,
) -> Option<PixelData> {
    if 0 <= pos < pixels.len() {
        match index_of_source(pixels[pos], DRAWING_CANVAS_SIZE as int) {
            Some(source) => if source < pixel_data.len() {
                Some(pixel_data[source])
            } else {
                None
            },
            None => None,
        }
    } else {
        None
    }
}

/// Whether a neighbour of a cell shows a pixel of a stroke.
pub open spec fn touches_stroke(
    pixel_data: Seq<PixelData>,
    pixels: Seq<DrawingPixel>,
    neighbours: Seq<Option<usize>>,
    stroke_id: u32,
) -> bool {
    exists|k: int|
        0 <= k < neighbours.len() && (#[trigger] neighbours[k] matches Some(pos) && stroke_at(
            pixel_data,
            pixels,
            pos as int,
        ) matches Some(data) && data.stroke_id == stroke_id)
}

/// What it is worth to move the pixel at one cell to another.
pub open spec fn reward(
    newpos: int,
    oldpos: int,
    pixel_data: Seq<PixelData>,
    pixels: Seq<DrawingPixel>,
    frame_count: u32,
    neighbours: Seq<[Option<usize>; 4]>,
) -> int {
    match stroke_at(pixel_data, pixels, oldpos) {
        Some(data) => if data.stroke_id != 0 && frame_count >= data.last_edited && newpos
            < neighbours.len() && touches_stroke(
            pixel_data,
            pixels,
            neighbours[newpos]@,
            data.stroke_id,
        ) {
            STROKE_REWARD as int
        } else {
            0
        },
        None => 0,
    }
}

/// What is known about the pixel that shows at a cell, if anything is.
fn stroke_of(pixel_data: &[PixelData], pixels: &[DrawingPixel], pos: usize) -> (data: Option<
    PixelData,
>)
    ensures
        data == stroke_at(pixel_data@, pixels@, pos as int),
{
    if pos < pixels.len() {
        match source_index(pixels[pos], DRAWING_CANVAS_SIZE) {
            Some(source) => if source < pixel_data.len() {
                Some(pixel_data[source])
            } else {
                None
            },
            None => None,
        }
    } else {
        None
    }
}

/// What it is worth to move the pixel at one cell to another: a stroke is to stay together.
pub fn stroke_reward(
    newpos: usize,
    oldpos: usize,
    pixel_data: &[PixelData],
    pixels: &[DrawingPixel],
    frame_count: u32,
    neighbours: &NeighbourMap,
) -> (worth: i64)
    ensures
        worth == reward(
            newpos as int,
            oldpos as int,
            pixel_data@,
            pixels@,
            frame_count,
            neighbours@,
        ),
        worth == 0 || worth == STROKE_REWARD,
{
    let data: PixelData = match stroke_of(pixel_data, pixels, oldpos) {
        Some(data) => data,
        None => {
            return 0;
        },
    };
    if data.stroke_id == 0 || frame_count < data.last_edited {
        return 0;
    }
    if newpos >= neighbours.len() {
        return 0;
    }
    let around: [Option<usize>; 4] = neighbours[newpos];
    let mut k: usize = 0;
    while k < 4
        invariant
            k <= 4,
            stroke_at(pixel_data@, pixels@, oldpos as int) == Some(data),
            data.stroke_id != 0,
            frame_count >= data.last_edited,
            newpos < neighbours.len(),
            around == neighbours@[newpos as int],
            forall|j: int|
                0 <= j < k ==> !(#[trigger] around@[j] matches Some(pos) && stroke_at(
                    pixel_data@,
                    pixels@,
                    pos as int,
                ) matches Some(other) && other.stroke_id == data.stroke_id),
        decreases 4 - k,
    {
        match around[k] {
            Some(pos) => match stroke_of(pixel_data, pixels, pos) {
                Some(other) => {
                    if other.stroke_id == data.stroke_id {
                        assert(around@[k as int] == Some(pos));
                        return STROKE_REWARD;
                    }
                },
                None => {},
            },
            None => {},
        }
        k = k + 1;
    }
    0
}

/// A cell is listed as a neighbour exactly if it lies one step away, in the same row or in the
/// same column.
pub proof fn neighbours_are_one_step_away(x: int, y: int, u: int, v: int, side: int)
    requires
        0 <= x < side,
        0 <= y < side,
        0 <= u < side,
        0 <= v < side,
        side * side <= usize::MAX,
    ensures
        neighbours_of(x, y, side).contains(Some((v * side + u) as usize)) <==> (x == u && (y - v
            == 1 || v - y == 1)) || (y == v && (x - u == 1 || u - x == 1)),
{
    let around = neighbours_of(x, y, side);
    let other = Some((v * side + u) as usize);
    genetic::lemma_index_of_cell(u, v, side);
    genetic::lemma_index_of_cell(x, y, side);
    if y > 0 {
        genetic::lemma_index_of_cell(x, y - 1, side);
    }
    if x > 0 {
        genetic::lemma_index_of_cell(x - 1, y, side);
    }
    if x + 1 < side {
        genetic::lemma_index_of_cell(x + 1, y, side);
    }
    if y + 1 < side {
        genetic::lemma_index_of_cell(x, y + 1, side);
    }
    if around.contains(other) {
        let k = choose|k: int| 0 <= k < around.len() && around[k] == other;
        assert(around[k] == other);
    }
    assert(around[0] == other || around[1] == other || around[2] == other || around[3] == other
        ==> around.contains(other));
}

/// If one cell is a neighbour of another, then the other is a neighbour of it.
pub proof fn neighbours_are_mutual(x: int, y: int, u: int, v: int, side: int)
    requires
        0 <= x < side,
        0 <= y < side,
        0 <= u < side,
        0 <= v < side,
        side * side <= usize::MAX,
    ensures
        neighbours_of(x, y, side).contains(Some((v * side + u) as usize)) <==> neighbours_of(
            u,
            v,
            side,
        ).contains(Some((y * side + x) as usize)),
{
    neighbours_are_one_step_away(x, y, u, v, side);
    neighbours_are_one_step_away(u, v, x, y, side);
}

/// A whole canvas: every pixel comes from one of its cells, and something is known about each of
/// them.
pub open spec fn is_whole_canvas(pixel_data: Seq<PixelData>, pixels: Seq<DrawingPixel>) -> bool {
    &&& pixel_data.len() == 16384
    &&& pixels.len() == 16384
    &&& forall|i: int|
        0 <= i < 16384 ==> (#[trigger] pixels[i]).src_x < 128 && pixels[i].src_y < 128
}

/// Once a stroke has been painted, its reward does not depend on how long ago that was. Before
/// that, it has none.
pub proof fn rewards_do_not_age(
    newpos: int,
    oldpos: int,
    pixel_data: Seq<PixelData>,
    pixels: Seq<DrawingPixel>,
    earlier: u32,
    later: u32,
    neighbours: Seq<[Option<usize>; 4]>,
)
    requires
        0 <= oldpos < pixels.len(),
        pixels[oldpos].src_x < 128,
        pixels[oldpos].src_y < 128,
        pixels[oldpos].src_y * 128 + pixels[oldpos].src_x < pixel_data.len(),
    ensures
        ({
            let painted = pixel_data[pixels[oldpos].src_y * 128
                + pixels[oldpos].src_x].last_edited;
            &&& painted <= earlier && painted <= later ==> reward(
                newpos,
                oldpos,
                pixel_data,
                pixels,
                earlier,
                neighbours,
            ) == reward(newpos, oldpos, pixel_data, pixels, later, neighbours)
            &&& earlier < painted ==> reward(
                newpos,
                oldpos,
                pixel_data,
                pixels,
                earlier,
                neighbours,
            ) == 0
        }),
{
}

/// Whatever cells are listed as the neighbours of a cell: where one of them shows a pixel of the
/// same painted stroke, the reward is given.
pub proof fn listed_neighbours_are_rewarded(
    newpos: int,
    oldpos: int,
    k: int,
    next: int,
    pixel_data: Seq<PixelData>,
    pixels: Seq<DrawingPixel>,
    frame_count: u32,
    neighbours: Seq<[Option<usize>; 4]>,
)
    requires
        0 <= oldpos < pixels.len(),
        0 <= next < pixels.len(),
        0 <= newpos < neighbours.len(),
        0 <= k < 4,
        neighbours[newpos]@[k] == Some(next as usize),
        next <= usize::MAX,
        pixels[oldpos].src_x < 128,
        pixels[oldpos].src_y < 128,
        pixels[next].src_x < 128,
        pixels[next].src_y < 128,
        pixels[oldpos].src_y * 128 + pixels[oldpos].src_x < pixel_data.len(),
        pixels[next].src_y * 128 + pixels[next].src_x < pixel_data.len(),
        ({
            let own = pixel_data[pixels[oldpos].src_y * 128 + pixels[oldpos].src_x];
            let other = pixel_data[pixels[next].src_y * 128 + pixels[next].src_x];
            &&& own.stroke_id != 0
            &&& own.stroke_id == other.stroke_id
            &&& own.last_edited <= frame_count
        }),
    ensures
        reward(newpos, oldpos, pixel_data, pixels, frame_count, neighbours) == -10_000_000_000,
{
    let own = pixel_data[pixels[oldpos].src_y * 128 + pixels[oldpos].src_x];
    let around = neighbours[newpos]@;
    assert(around[k] == Some(next as usize));
    assert(touches_stroke(pixel_data, pixels, around, own.stroke_id));
}

/// Whether two cells of the canvas lie next to each other, in the same row or in the same column.
pub open spec fn is_one_step(a: int, b: int) -> bool {
    ||| a / 128 == b / 128 && (a % 128 - b % 128 == 1 || b % 128 - a % 128 == 1)
    ||| a % 128 == b % 128 && (a / 128 - b / 128 == 1 || b / 128 - a / 128 == 1)
}

/// A pixel of a stroke that has been painted is rewarded at a cell if, and only if, some cell next
/// to it shows a pixel of the same stroke.
pub proof fn strokes_are_rewarded_next_to_themselves(
    newpos: int,
    oldpos: int,
    pixel_data: Seq<PixelData>,
    pixels: Seq<DrawingPixel>,
    frame_count: u32,
    neighbours: Seq<[Option<usize>; 4]>,
)
    requires
        is_whole_canvas(pixel_data, pixels),
        is_neighbour_map(neighbours, 128),
        0 <= oldpos < 16384,
        0 <= newpos < 16384,
    ensures
        ({
            let stroke = |cell: int|
                pixel_data[pixels[cell].src_y * 128 + pixels[cell].src_x].stroke_id;
            let painted = pixel_data[pixels[oldpos].src_y * 128
                + pixels[oldpos].src_x].last_edited;
            let worth = reward(newpos, oldpos, pixel_data, pixels, frame_count, neighbours);
            &&& worth == -10_000_000_000 || worth == 0
            &&& worth == -10_000_000_000 <==> stroke(oldpos) != 0 && painted <= frame_count
                && exists|next: int|
                0 <= next < 16384 && #[trigger] is_one_step(newpos, next) && stroke(next) == stroke(
                    oldpos,
                )
        }),
{
    let own = pixel_data[pixels[oldpos].src_y * 128 + pixels[oldpos].src_x];
    let around = neighbours[newpos]@;
    assert(pixels[oldpos].src_x < 128 && pixels[oldpos].src_y < 128);
    assert(stroke_at(pixel_data, pixels, oldpos) == Some(own));
    assert(around == neighbours_of(newpos % 128, newpos / 128, 128));
    if own.stroke_id != 0 && own.last_edited <= frame_count {
        if exists|next: int|
            0 <= next < 16384 && #[trigger] is_one_step(newpos, next) && pixel_data[pixels[next].src_y
                * 128 + pixels[next].src_x].stroke_id == own.stroke_id {
            let next = choose|next: int|
                0 <= next < 16384 && #[trigger] is_one_step(newpos, next)
                    && pixel_data[pixels[next].src_y * 128 + pixels[next].src_x].stroke_id
                    == own.stroke_id;
            neighbours_are_one_step_away(
                newpos % 128,
                newpos / 128,
                next % 128,
                next / 128,
                128,
            );
            let k = choose|k: int| 0 <= k < around.len() && around[k] == Some(next as usize);
            assert(around[k] == Some(next as usize));
            assert(pixels[next].src_x < 128 && pixels[next].src_y < 128);
            assert(touches_stroke(pixel_data, pixels, around, own.stroke_id));
        }
        if touches_stroke(pixel_data, pixels, around, own.stroke_id) {
            let k = choose|k: int|
                0 <= k < around.len() && (#[trigger] around[k] matches Some(pos) && stroke_at(
                    pixel_data,
                    pixels,
                    pos as int,
                ) matches Some(data) && data.stroke_id == own.stroke_id);
            let next = around[k]->0 as int;
            assert(0 <= next < 16384);
            assert(around.contains(Some((next / 128 * 128 + next % 128) as usize)));
            neighbours_are_one_step_away(
                newpos % 128,
                newpos / 128,
                next % 128,
                next / 128,
                128,
            );
            assert(pixels[next].src_x < 128 && pixels[next].src_y < 128);
            assert(is_one_step(newpos, next));
        }
    }
}

/// The source of a pixel lies in a picture exactly if both its coordinates do, and its index counts row by
/// row.
pub proof fn sources_are_counted_row_by_row(pixel: DrawingPixel, sidelen: int)
    ensures
        pixel.src_x < sidelen && pixel.src_y < sidelen ==> index_of_source(pixel, sidelen) == Some(
            pixel.src_y * sidelen + pixel.src_x,
        ),
        pixel.src_x >= sidelen || pixel.src_y >= sidelen ==> index_of_source(pixel, sidelen) is None,
{
}

} // verus!
