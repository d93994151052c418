//! What it costs to show one source pixel at one position of the portrait.
use crate::buffers::copy_of;
use vstd::math;
use vstd::prelude::*;

verus! {

/// The largest supported resolution, in cells per side.
pub const MAX_SIDELEN: u32 = 256;

/// The weight of a cell that matters most.
pub const MAX_CELL_WEIGHT: i64 = 255;

pub open spec fn square(x: int) -> int {
    x * x
}

/// The squared distance between two cells.
pub open spec fn spatial_distance(a: (u16, u16), b: (u16, u16)) -> int {
    square(a.0 - b.0) + square(a.1 - b.1)
}

/// The squared distance between two colors.
pub open spec fn color_distance(a: (u8, u8, u8), b: (u8, u8, u8)) -> int {
    square(a.0 - b.0) + square(a.1 - b.1) + square(a.2 - b.2)
}

/// The cost of moving color `a` from cell `apos` to cell `bpos`, where color `b` is wanted.
pub open spec fn cost(
    apos: (u16, u16),
    bpos: (u16, u16),
    a: (u8, u8, u8),
    b: (u8, u8, u8),
    color_weight: int,
    spatial_weight: int,
) -> int {
    color_distance(a, b) * color_weight + square(spatial_distance(apos, bpos) * spatial_weight)
}

/// Whether every step of computing a cost stays within 64 bits.
pub open spec fn cost_fits(
    apos: (u16, u16),
    bpos: (u16, u16),
    a: (u8, u8, u8),
    b: (u8, u8, u8),
    color_weight: int,
    spatial_weight: int,
) -> bool {
    let color = color_distance(a, b) * color_weight;
    let spatial = spatial_distance(apos, bpos) * spatial_weight;
    &&& i64::MIN <= color <= i64::MAX
    &&& i64::MIN <= spatial <= i64::MAX
    &&& square(spatial) <= i64::MAX
    &&& color + square(spatial) <= i64::MAX
}

proof fn lemma_square_bound(x: int, bound: int)
    by (nonlinear_arith)
    requires
        -bound <= x <= bound,
    ensures
        0 <= square(x) <= square(bound),
{
}

/// A squared distance between colors is at most that between black and white.
pub proof fn lemma_color_distance_bound(a: (u8, u8, u8), b: (u8, u8, u8))
    ensures
        0 <= color_distance(a, b) <= 195075,
{
    lemma_square_bound(a.0 - b.0, 255);
    lemma_square_bound(a.1 - b.1, 255);
    lemma_square_bound(a.2 - b.2, 255);
}

/// A squared distance between cells of one image is at most that between opposite corners.
pub proof fn lemma_spatial_distance_bound(a: (u16, u16), b: (u16, u16), side: int)
    requires
        a.0 < side,
        a.1 < side,
        b.0 < side,
        b.1 < side,
    ensures
        0 <= spatial_distance(a, b) <= 2 * square(side - 1),
{
    lemma_square_bound(a.0 - b.0, side - 1);
    lemma_square_bound(a.1 - b.1, side - 1);
}

/// The cost of moving color `a` from `apos` to `bpos`, where color `b` is wanted.
pub fn heuristic(
    apos: (u16, u16),
    bpos: (u16, u16),
    a: (u8, u8, u8),
    b: (u8, u8, u8),
    color_weight: i64,
    spatial_weight: i64,
) -> (h: i64)
    requires
        cost_fits(apos, bpos, a, b, color_weight as int, spatial_weight as int),
    ensures
        h == cost(apos, bpos, a, b, color_weight as int, spatial_weight as int),
{
    proof {
        lemma_square_bound(apos.0 - bpos.0, 65535);
        lemma_square_bound(apos.1 - bpos.1, 65535);
        lemma_color_distance_bound(a, b);
        lemma_square_bound(a.0 - b.0, 255);
        lemma_square_bound(a.1 - b.1, 255);
        lemma_square_bound(a.2 - b.2, 255);
    }
    let dx: i64 = apos.0 as i64 - bpos.0 as i64;
    let dy: i64 = apos.1 as i64 - bpos.1 as i64;
    let dr: i64 = a.0 as i64 - b.0 as i64;
    let dg: i64 = a.1 as i64 - b.1 as i64;
    let db: i64 = a.2 as i64 - b.2 as i64;
    let spatial: i64 = dx * dx + dy * dy;
    let color: i64 = dr * dr + dg * dg + db * db;
    let weighted: i64 = spatial * spatial_weight;
    proof {
        assert(weighted * weighted >= 0) by (nonlinear_arith);
    }
    color * color_weight + weighted * weighted
}

/// The largest cost between cells of an image with `side` cells per side.
pub open spec fn cost_ceiling(side: int, spatial_weight: int) -> int {
    195075 * MAX_CELL_WEIGHT + square(2 * square(side - 1) * spatial_weight)
}

/// Whether costs at this resolution can be added and compared in pairs within 64 bits.
pub open spec fn costs_comparable(side: int, spatial_weight: int) -> bool {
    2 * cost_ceiling(side, spatial_weight) < i64::MAX
}

/// Tells whether costs at this resolution can be added and compared in pairs within 64 bits.
pub fn are_costs_comparable(side: usize, spatial_weight: i64) -> (comparable: bool)
    requires
        1 <= side <= MAX_SIDELEN,
    ensures
        comparable == costs_comparable(side as int, spatial_weight as int),
{
    let steps: i128 = side as i128 - 1;
    let weight: i128 = spatial_weight as i128;
    proof {
        assert(0 <= steps * steps <= 255 * 255 && (steps >= 1 ==> steps * steps >= 1))
            by (nonlinear_arith)
            requires
                0 <= steps <= 255,
        ;
    }
    let far: i128 = 2 * (steps * steps);
    if far == 0 {
        assert(0 * weight == 0);
        return true;
    }
    if weight > 4_000_000_000 || weight < -4_000_000_000 {
        proof {
            assert(square(far * weight) >= 4_000_000_000 * 4_000_000_000) by (nonlinear_arith)
                requires
                    far >= 1,
                    weight >= 4_000_000_000 || weight <= -4_000_000_000,
            {
                assert(far * weight >= 4_000_000_000 || far * weight <= -4_000_000_000);
            }
        }
        return false;
    }
    proof {
        assert(-520_200_000_000_000 <= far * weight <= 520_200_000_000_000) by (nonlinear_arith)
            requires
                0 <= far <= 130050,
                -4_000_000_000 <= weight <= 4_000_000_000,
        ;
        lemma_square_bound(far * weight, 520_200_000_000_000);
    }
    let spatial: i128 = far * weight;
    2 * (195075 * 255 + spatial * spatial) < i64::MAX as i128
}

/// Costs between cells of one image lie between zero and the ceiling.
pub proof fn lemma_cost_bound(
    apos: (u16, u16),
    bpos: (u16, u16),
    a: (u8, u8, u8),
    b: (u8, u8, u8),
    color_weight: int,
    side: int,
    spatial_weight: int,
)
    requires
        apos.0 < side,
        apos.1 < side,
        bpos.0 < side,
        bpos.1 < side,
        0 <= color_weight <= MAX_CELL_WEIGHT,
        costs_comparable(side, spatial_weight),
    ensures
        cost_fits(apos, bpos, a, b, color_weight, spatial_weight),
        0 <= cost(apos, bpos, a, b, color_weight, spatial_weight) <= cost_ceiling(side, spatial_weight),
{
    lemma_color_distance_bound(a, b);
    lemma_spatial_distance_bound(apos, bpos, side);
    let color = color_distance(a, b);
    let spatial = spatial_distance(apos, bpos);
    let far = 2 * square(side - 1);
    assert(0 <= color * color_weight <= 195075 * MAX_CELL_WEIGHT) by (nonlinear_arith)
        requires
            0 <= color <= 195075,
            0 <= color_weight <= MAX_CELL_WEIGHT,
    ;
    let weighted = spatial * spatial_weight;
    if 0 <= spatial_weight {
        assert(0 <= weighted <= far * spatial_weight) by (nonlinear_arith)
            requires
                0 <= spatial <= far,
                0 <= spatial_weight,
                weighted == spatial * spatial_weight,
        ;
        lemma_square_bound(weighted, far * spatial_weight);
    } else {
        assert(0 <= -weighted <= -(far * spatial_weight)) by (nonlinear_arith)
            requires
                0 <= spatial <= far,
                spatial_weight < 0,
                weighted == spatial * spatial_weight,
        ;
        lemma_square_bound(weighted, -(far * spatial_weight));
        assert(square(-(far * spatial_weight)) == square(far * spatial_weight))
            by (nonlinear_arith);
    }
    assert(-square(weighted) - 1 <= weighted <= square(weighted) + 1) by (nonlinear_arith);
}

/// The cell of an image with `side` cells per side that holds pixel `index`, row by row.
pub open spec fn cell(index: int, side: int) -> (u16, u16) {
    ((index % side) as u16, (index / side) as u16)
}

/// Every index below `side * side` has its cell inside the image.
pub proof fn lemma_cell_inside(index: int, side: int)
    requires
        0 < side <= 65536,
        0 <= index < side * side,
    ensures
        cell(index, side).0 == index % side,
        cell(index, side).1 == index / side,
        0 <= index % side < side,
        0 <= index / side < side,
        (index / side) * side + index % side == index,
{
    assert(0 <= index % side < side && 0 <= index / side < side && (index / side) * side + index
        % side == index) by (nonlinear_arith)
        requires
            0 < side,
            0 <= index < side * side,
    ;
}

/// The cost matrix of a pair of images: one row per cell of the portrait, one column per
/// source pixel.
pub struct ImgDiffWeights {
    pub source: Vec<(u8, u8, u8)>,
    pub target: Vec<(u8, u8, u8)>,
    pub weights: Vec<i64>,
    pub sidelen: usize,
    pub spatial_weight: i64,
    pub negated: bool,
}

impl ImgDiffWeights {
    /// Both images are squares of the same supported size, and costs fit.
    pub open spec fn wf(&self) -> bool {
        &&& 1 <= self.sidelen <= MAX_SIDELEN
        &&& self.source.len() == self.sidelen * self.sidelen
        &&& self.target.len() == self.sidelen * self.sidelen
        &&& self.weights.len() == self.sidelen * self.sidelen
        &&& forall|i: int|
            0 <= i < self.weights.len() ==> 0 <= #[trigger] self.weights[i] <= MAX_CELL_WEIGHT
        &&& costs_comparable(self.sidelen as int, self.spatial_weight as int)
    }

    /// What it costs to show source pixel `col` at cell `row` of the portrait.
    pub open spec fn cost_at(&self, row: int, col: int) -> int {
        cost(
            cell(row, self.sidelen as int),
            cell(col, self.sidelen as int),
            self.target[row],
            self.source[col],
            self.weights[row] as int,
            self.spatial_weight as int,
        )
    }

    /// An entry of the matrix: the cost, negated unless the matrix is.
    pub open spec fn entry(&self, row: int, col: int) -> int {
        if self.negated {
            self.cost_at(row, col)
        } else {
            -self.cost_at(row, col)
        }
    }

    /// Both matrices are made of the same pictures and weights.
    pub open spec fn holds_the_same(&self, other: ImgDiffWeights) -> bool {
        &&& self.source@ == other.source@
        &&& self.target@ == other.target@
        &&& self.weights@ == other.weights@
        &&& self.sidelen == other.sidelen
        &&& self.spatial_weight == other.spatial_weight
        &&& self.negated == other.negated
    }

    /// Every cost of a well-formed matrix is between zero and the ceiling.
    pub proof fn lemma_cost_at_bound(&self, row: int, col: int)
        requires
            self.wf(),
            0 <= row < self.target.len(),
            0 <= col < self.source.len(),
        ensures
            0 <= self.cost_at(row, col) <= cost_ceiling(
                self.sidelen as int,
                self.spatial_weight as int,
            ),
    {
        lemma_cell_inside(row, self.sidelen as int);
        lemma_cell_inside(col, self.sidelen as int);
        lemma_cost_bound(
            cell(row, self.sidelen as int),
            cell(col, self.sidelen as int),
            self.target[row],
            self.source[col],
            self.weights[row] as int,
            self.sidelen as int,
            self.spatial_weight as int,
        );
    }

    /// Tells whether both images are squares of the same supported size, and costs fit.
    pub fn is_well_formed(&self) -> (well_formed: bool)
        ensures
            well_formed == self.wf(),
    {
        if self.sidelen < 1 || self.sidelen > MAX_SIDELEN as usize {
            return false;
        }
        assert(self.sidelen * self.sidelen <= 65536) by (nonlinear_arith)
            requires
                1 <= self.sidelen <= 256,
        ;
        let count: usize = self.sidelen * self.sidelen;
        if self.source.len() != count || self.target.len() != count || self.weights.len() != count {
            return false;
        }
        for i in 0..count
            invariant
                count == self.weights.len(),
                forall|j: int| 0 <= j < i ==> 0 <= #[trigger] self.weights[j] <= MAX_CELL_WEIGHT,
        {
            if self.weights[i] < 0 || self.weights[i] > MAX_CELL_WEIGHT {
                return false;
            }
        }
        are_costs_comparable(self.sidelen, self.spatial_weight)
    }

    pub fn rows(&self) -> (n: usize)
        ensures
            n == self.target.len(),
    {
        self.target.len()
    }

    pub fn columns(&self) -> (n: usize)
        ensures
            n == self.source.len(),
    {
        self.source.len()
    }

    pub fn at(&self, row: usize, col: usize) -> (value: i64)
        requires
            self.wf(),
            row < self.target.len(),
            col < self.source.len(),
        ensures
            value == self.entry(row as int, col as int),
    {
        proof {
            lemma_cell_inside(row as int, self.sidelen as int);
            lemma_cell_inside(col as int, self.sidelen as int);
            lemma_cost_bound(
                cell(row as int, self.sidelen as int),
                cell(col as int, self.sidelen as int),
                self.target[row as int],
                self.source[col as int],
                self.weights[row as int] as int,
                self.sidelen as int,
                self.spatial_weight as int,
            );
        }
        let apos: (u16, u16) = ((row % self.sidelen) as u16, (row / self.sidelen) as u16);
        let bpos: (u16, u16) = ((col % self.sidelen) as u16, (col / self.sidelen) as u16);
        let value: i64 = -heuristic(
            apos,
            bpos,
            self.target[row],
            self.source[col],
            self.weights[row],
            self.spatial_weight,
        );
        if self.negated {
            -value
        } else {
            value
        }
    }

    /// The matrix with every entry negated.
    pub fn neg(&self) -> (negated: Self)
        ensures
            negated.source@ == self.source@,
            negated.target@ == self.target@,
            negated.weights@ == self.weights@,
            negated.sidelen == self.sidelen,
            negated.spatial_weight == self.spatial_weight,
            negated.negated == !self.negated,
            forall|row: int, col: int|
                #![trigger negated.entry(row, col)]
                negated.entry(row, col) == -self.entry(row, col),
            self.wf() ==> negated.wf(),
    {
        ImgDiffWeights {
            source: copy_of(&self.source),
            target: copy_of(&self.target),
            weights: copy_of(&self.weights),
            sidelen: self.sidelen,
            spatial_weight: self.spatial_weight,
            negated: !self.negated,
        }
    }
}

/// The cost of moving a color is the squared difference of each channel, added up and weighted,
/// and the square of the weighted squared distance.
pub proof fn costs_add_up(
    apos: (u16, u16),
    bpos: (u16, u16),
    a: (u8, u8, u8),
    b: (u8, u8, u8),
    color_weight: int,
    spatial_weight: int,
)
    ensures
        ({
            let (r, g, c) = (a.0 - b.0, a.1 - b.1, a.2 - b.2);
            let (x, y) = (apos.0 - bpos.0, apos.1 - bpos.1);
            let near = (x * x + y * y) * spatial_weight;
            cost(apos, bpos, a, b, color_weight, spatial_weight) == (r * r + g * g + c * c)
                * color_weight + near * near
        }),
        cost(apos, bpos, a, b, color_weight, spatial_weight) == cost(
            apos,
            apos,
            a,
            b,
            color_weight,
            spatial_weight,
        ) + cost(apos, bpos, a, a, color_weight, spatial_weight),
{
    assert(0 * spatial_weight == 0 && 0 * color_weight == 0 && 0int * 0 == 0) by (nonlinear_arith);
}

/// Colors that differ in one channel only cost the square of the difference, times the weight, at
/// the same cell. Black where white is wanted costs 195075 times the weight.
pub proof fn single_channels_cost_their_square(
    cell: (u16, u16),
    a: (u8, u8, u8),
    value: u8,
    color_weight: int,
    spatial_weight: int,
)
    ensures
        cost(cell, cell, a, (value, a.1, a.2), color_weight, spatial_weight) == (a.0 - value) * (a.0
            - value) * color_weight,
        cost(cell, cell, a, (a.0, value, a.2), color_weight, spatial_weight) == (a.1 - value) * (a.1
            - value) * color_weight,
        cost(cell, cell, a, (a.0, a.1, value), color_weight, spatial_weight) == (a.2 - value) * (a.2
            - value) * color_weight,
        cost(cell, cell, (0, 0, 0), (255, 255, 255), color_weight, spatial_weight) == 195075
            * color_weight,
        cost(cell, cell, a, a, color_weight, spatial_weight) == 0,
{
    costs_add_up(cell, cell, a, (value, a.1, a.2), color_weight, spatial_weight);
    costs_add_up(cell, cell, a, (a.0, value, a.2), color_weight, spatial_weight);
    costs_add_up(cell, cell, a, (a.0, a.1, value), color_weight, spatial_weight);
    costs_add_up(cell, cell, a, a, color_weight, spatial_weight);
    let (black, white) = ((0u8, 0u8, 0u8), (255u8, 255u8, 255u8));
    costs_add_up(cell, cell, black, white, color_weight, spatial_weight);
    assert((0u8 - 255u8) * (0u8 - 255u8) == 65025) by (nonlinear_arith);
    assert(color_distance(black, white) == 195075);
    assert(0 * spatial_weight == 0 && 0 * color_weight == 0 && 0int * 0 == 0) by (nonlinear_arith);
}

/// The further a number is from zero, the greater is its square.
proof fn lemma_square_grows(x: int, y: int)
    requires
        math::abs(x) <= math::abs(y),
    ensures
        x * x <= y * y,
        math::abs(x) < math::abs(y) ==> x * x < y * y,
{
    let (p, q) = (math::abs(x) as int, math::abs(y) as int);
    assert(x * x == p * p && y * y == q * q) by (nonlinear_arith)
        requires
            p == x || p == -x,
            q == y || q == -y,
    ;
    assert(p * p <= q * q && (p < q ==> p * p < q * q)) by (nonlinear_arith)
        requires
            0 <= p <= q,
    ;
}

/// A color that is further from the wanted one in some channels and nearer in none costs no less
/// at the same place; with a positive weight, it costs more.
pub proof fn further_colors_cost_more(
    apos: (u16, u16),
    bpos: (u16, u16),
    a: (u8, u8, u8),
    b: (u8, u8, u8),
    c: (u8, u8, u8),
    d: (u8, u8, u8),
    color_weight: int,
    spatial_weight: int,
)
    requires
        color_weight >= 0,
        math::abs(a.0 - b.0) <= math::abs(c.0 - d.0),
        math::abs(a.1 - b.1) <= math::abs(c.1 - d.1),
        math::abs(a.2 - b.2) <= math::abs(c.2 - d.2),
    ensures
        cost(apos, bpos, a, b, color_weight, spatial_weight) <= cost(
            apos,
            bpos,
            c,
            d,
            color_weight,
            spatial_weight,
        ),
        color_weight > 0 && (math::abs(a.0 - b.0) < math::abs(c.0 - d.0) || math::abs(a.1 - b.1) < math::abs(c.1 - d.1)
            || math::abs(a.2 - b.2) < math::abs(c.2 - d.2)) ==> cost(
            apos,
            bpos,
            a,
            b,
            color_weight,
            spatial_weight,
        ) < cost(apos, bpos, c, d, color_weight, spatial_weight),
{
    lemma_square_grows(a.0 - b.0, c.0 - d.0);
    lemma_square_grows(a.1 - b.1, c.1 - d.1);
    lemma_square_grows(a.2 - b.2, c.2 - d.2);
    let near = color_distance(a, b);
    let far = color_distance(c, d);
    assert(near * color_weight <= far * color_weight && (near < far && color_weight > 0 ==> near
        * color_weight < far * color_weight)) by (nonlinear_arith)
        requires
            near <= far,
            0 <= color_weight,
    ;
}

/// A move that is longer in one direction and shorter in none costs no less; if distance counts,
/// it costs more.
pub proof fn longer_moves_cost_more(
    apos: (u16, u16),
    bpos: (u16, u16),
    cpos: (u16, u16),
    dpos: (u16, u16),
    a: (u8, u8, u8),
    b: (u8, u8, u8),
    color_weight: int,
    spatial_weight: int,
)
    requires
        math::abs(apos.0 - bpos.0) <= math::abs(cpos.0 - dpos.0),
        math::abs(apos.1 - bpos.1) <= math::abs(cpos.1 - dpos.1),
    ensures
        cost(apos, bpos, a, b, color_weight, spatial_weight) <= cost(
            cpos,
            dpos,
            a,
            b,
            color_weight,
            spatial_weight,
        ),
        spatial_weight != 0 && (math::abs(apos.0 - bpos.0) < math::abs(cpos.0 - dpos.0) || math::abs(apos.1 - bpos.1)
            < math::abs(cpos.1 - dpos.1)) ==> cost(apos, bpos, a, b, color_weight, spatial_weight) < cost(
            cpos,
            dpos,
            a,
            b,
            color_weight,
            spatial_weight,
        ),
{
    lemma_square_grows(apos.0 - bpos.0, cpos.0 - dpos.0);
    lemma_square_grows(apos.1 - bpos.1, cpos.1 - dpos.1);
    let near = spatial_distance(apos, bpos);
    let far = spatial_distance(cpos, dpos);
    lemma_square_bound(apos.0 - bpos.0, 65535);
    lemma_square_bound(apos.1 - bpos.1, 65535);
    let w = math::abs(spatial_weight) as int;
    assert(math::abs(near * spatial_weight) == near * w && math::abs(far * spatial_weight) == far * w)
        by (nonlinear_arith)
        requires
            0 <= near <= far,
            w == math::abs(spatial_weight),
    ;
    assert(near * w <= far * w && (near < far && w > 0 ==> near * w < far * w))
        by (nonlinear_arith)
        requires
            near <= far,
            0 <= w,
    ;
    lemma_square_grows(near * spatial_weight, far * spatial_weight);
}

/// The entry of a cell of the portrait and a source pixel prices the source pixel's color against
/// the one that is wanted there, with the weight of the cell, and the way between the two: from
/// column `u` and row `v` of the source to column `x` and row `y` of the portrait.
pub proof fn entries_price_colors_and_ways(m: ImgDiffWeights, x: int, y: int, u: int, v: int)
    requires
        m.wf(),
        0 <= x < m.sidelen,
        0 <= y < m.sidelen,
        0 <= u < m.sidelen,
        0 <= v < m.sidelen,
    ensures
        ({
            let (row, col) = (y * m.sidelen + x, v * m.sidelen + u);
            let (wanted, given) = (m.target[row], m.source[col]);
            let (r, g, c) = (wanted.0 - given.0, wanted.1 - given.1, wanted.2 - given.2);
            let near = ((x - u) * (x - u) + (y - v) * (y - v)) * m.spatial_weight;
            let price = (r * r + g * g + c * c) * m.weights[row] + near * near;
            &&& 0 <= row < m.target.len()
            &&& 0 <= col < m.source.len()
            &&& m.cost_at(row, col) == price
            &&& m.entry(row, col) == if m.negated {
                price
            } else {
                -price
            }
        }),
{
    let side = m.sidelen as int;
    let (row, col) = (y * side + x, v * side + u);
    crate::genetic::lemma_index_of_cell(x, y, side);
    crate::genetic::lemma_index_of_cell(u, v, side);
    costs_add_up(
        cell(row, side),
        cell(col, side),
        m.target[row],
        m.source[col],
        m.weights[row] as int,
        m.spatial_weight as int,
    );
}

/// Costs can be added and compared in pairs exactly if twice the greatest cost between two cells, that of
/// black where white is wanted at the greatest weight and of the way between opposite corners, is below
/// the greatest number of 64 bits.
pub proof fn comparable_costs_fit(side: int, spatial_weight: int)
    ensures
        ({
            let way = 2 * ((side - 1) * (side - 1)) * spatial_weight;
            costs_comparable(side, spatial_weight) <==> 2 * (195075 * 255 + way * way)
                < 0x7fff_ffff_ffff_ffff
        }),
{
}

/// A matrix is well-formed exactly if it has 1 to 256 cells per side, a source pixel, a wanted color and a
/// weight from 0 to 255 for each, and costs that can be compared.
pub proof fn well_formed_matrices(m: ImgDiffWeights)
    ensures
        m.wf() <==> {
            &&& 1 <= m.sidelen <= 256
            &&& m.source@.len() == m.sidelen * m.sidelen
            &&& m.target@.len() == m.sidelen * m.sidelen
            &&& m.weights@.len() == m.sidelen * m.sidelen
            &&& forall|i: int| 0 <= i < m.weights@.len() ==> 0 <= #[trigger] m.weights@[i] <= 255
            &&& costs_comparable(m.sidelen as int, m.spatial_weight as int)
        },
{
}

} // verus!
