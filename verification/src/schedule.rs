//! How far a pixel may travel in one swap, as time goes on.
use crate::cost::MAX_SIDELEN;
use crate::natural::Natural;
use crate::settings;
use vstd::arithmetic::power;
use vstd::prelude::*;

verus! {

/// How many generations the quick search has at most.
pub const MAX_GENETIC_GENERATIONS: usize = 96;

/// The distance that the last generation may bridge.
pub open spec fn shortest_reach(sidelen: u32) -> int {
    if sidelen < 2 {
        1
    } else {
        2
    }
}

/// `(2 * d)^95`, where `d` is the distance that lies `generation / 95` of the way, on a
/// logarithmic scale, from the whole side to the shortest reach.
pub open spec fn doubled_reach_power(sidelen: u32, generation: int) -> int {
    power::pow(2, 95) * (power::pow(sidelen as int, (95 - generation) as nat) * power::pow(
        shortest_reach(sidelen),
        generation as nat,
    ))
}

/// Whether `reach` is the nearest integer to the distance that a generation may bridge.
pub open spec fn is_reach(sidelen: u32, generation: int, reach: int) -> bool {
    if generation >= 95 {
        reach == shortest_reach(sidelen)
    } else {
        &&& reach >= 1
        &&& power::pow(2 * reach - 1, 95) <= doubled_reach_power(sidelen, generation)
        &&& doubled_reach_power(sidelen, generation) < power::pow(2 * reach + 1, 95)
    }
}

/// Powers grow with their base.
proof fn lemma_power_monotone(a: int, b: int, e: nat)
    requires
        0 <= a <= b,
    ensures
        0 <= power::pow(a, e) <= power::pow(b, e),
    decreases e,
{
    reveal(power::pow);
    if e > 0 {
        lemma_power_monotone(a, b, (e - 1) as nat);
        let x = power::pow(a, (e - 1) as nat);
        let y = power::pow(b, (e - 1) as nat);
        assert(0 <= a * x <= b * y) by (nonlinear_arith)
            requires
                0 <= a <= b,
                0 <= x <= y,
        ;
    }
}

/// Powers grow strictly with their base.
proof fn lemma_power_strict(a: int, b: int, e: nat)
    requires
        0 <= a < b,
        e > 0,
    ensures
        power::pow(a, e) < power::pow(b, e),
{
    reveal(power::pow);
    lemma_power_monotone(a, b, (e - 1) as nat);
    power::lemma_pow_positive(b, (e - 1) as nat);
    let x = power::pow(a, (e - 1) as nat);
    let y = power::pow(b, (e - 1) as nat);
    assert(a * x < b * y) by (nonlinear_arith)
        requires
            0 <= a < b,
            0 <= x <= y,
            0 < y,
    ;
}

/// The distance lies between the shortest reach and the whole side.
proof fn lemma_reach_power_bounds(sidelen: u32, generation: int)
    requires
        1 <= sidelen,
        0 <= generation <= 95,
    ensures
        power::pow(2 * shortest_reach(sidelen), 95) <= doubled_reach_power(sidelen, generation)
            <= power::pow(2 * sidelen, 95),
{
    let side = sidelen as int;
    let least = shortest_reach(sidelen);
    let g = generation as nat;
    let rest = (95 - generation) as nat;
    power::lemma_pow_distributes(2, side, 95);
    power::lemma_pow_distributes(2, least, 95);
    power::lemma_pow_adds(side, rest, g);
    power::lemma_pow_adds(least, rest, g);
    lemma_power_monotone(least, side, rest);
    lemma_power_monotone(least, side, g);
    power::lemma_pow_positive(2, 95);
    let two = power::pow(2, 95);
    let (sr, sg) = (power::pow(side, rest), power::pow(side, g));
    let (lr, lg) = (power::pow(least, rest), power::pow(least, g));
    assert(two * (lr * lg) <= two * (sr * lg) <= two * (sr * sg)) by (nonlinear_arith)
        requires
            0 < two,
            0 <= lr <= sr,
            0 <= lg <= sg,
    ;
}

/// Later generations bridge shorter distances.
proof fn lemma_reach_power_falls(sidelen: u32, earlier: int, later: int)
    requires
        1 <= sidelen,
        0 <= earlier <= later <= 95,
    ensures
        doubled_reach_power(sidelen, later) <= doubled_reach_power(sidelen, earlier),
{
    let side = sidelen as int;
    let least = shortest_reach(sidelen);
    let gap = (later - earlier) as nat;
    let rest = (95 - later) as nat;
    power::lemma_pow_adds(side, rest, gap);
    power::lemma_pow_adds(least, gap, earlier as nat);
    lemma_power_monotone(least, side, gap);
    lemma_power_monotone(0, side, rest);
    lemma_power_monotone(0, least, earlier as nat);
    power::lemma_pow_positive(2, 95);
    let two = power::pow(2, 95);
    let (sr, sg) = (power::pow(side, rest), power::pow(side, gap));
    let (lg, le) = (power::pow(least, gap), power::pow(least, earlier as nat));
    assert(two * (sr * (lg * le)) <= two * ((sr * sg) * le)) by (nonlinear_arith)
        requires
            0 < two,
            0 <= sr,
            0 <= le,
            0 <= lg <= sg,
    {
        assert(sr * lg <= sr * sg);
        assert((sr * lg) * le <= (sr * sg) * le);
        assert(sr * (lg * le) == (sr * lg) * le);
    }
}

/// How far a swap of a generation may reach at most: the whole side at first, then less and
/// less, down to two cells.
pub fn genetic_max_dist(sidelen: u32, generation: usize) -> (reach: u32)
    requires
        settings::valid_sidelen(sidelen),
    ensures
        is_reach(sidelen, generation as int, reach as int),
        shortest_reach(sidelen) <= reach <= sidelen,
{
    let least: u32 = if sidelen < 2 {
        1
    } else {
        2
    };
    if generation >= MAX_GENETIC_GENERATIONS - 1 {
        return least;
    }
    let g: u32 = generation as u32;
    let mut goal = Natural::power(2, 95);
    let ghost two = goal@;
    goal.scale_times(sidelen, 95 - g);
    goal.scale_times(least, g);
    proof {
        let s = power::pow(sidelen as int, (95 - g) as nat);
        let l = power::pow(least as int, g as nat);
        assert((two * s) * l == two * (s * l)) by (nonlinear_arith);
        lemma_reach_power_bounds(sidelen, g as int);
        lemma_power_monotone(2 * least - 1, 2 * least as int, 95);
        lemma_power_strict(2 * sidelen as int, 2 * sidelen + 1, 95);
    }
    let mut low: u32 = least;
    let mut high: u32 = sidelen;
    while low < high
        invariant
            1 <= least <= low <= high <= sidelen <= MAX_SIDELEN,
            goal@ == doubled_reach_power(sidelen, generation as int),
            power::pow(2 * low - 1, 95) <= goal@,
            goal@ < power::pow(2 * high + 1, 95),
        decreases high - low,
    {
        let middle: u32 = low + (high - low + 1) / 2;
        let bound = Natural::power(2 * middle - 1, 95);
        if goal.less(&bound) {
            high = middle - 1;
        } else {
            low = middle;
        }
    }
    low
}

/// The distance of a generation is determined.
pub proof fn reach_is_unique(sidelen: u32, generation: int, a: int, b: int)
    requires
        is_reach(sidelen, generation, a),
        is_reach(sidelen, generation, b),
    ensures
        a == b,
{
    if generation < 95 {
        if a < b {
            lemma_power_monotone(2 * a + 1, 2 * b - 1, 95);
        } else if b < a {
            lemma_power_monotone(2 * b + 1, 2 * a - 1, 95);
        }
    }
}

/// Distances never grow from one generation to a later one, and stay between the shortest
/// reach and the whole side.
pub proof fn reach_is_bounded_and_never_grows(
    sidelen: u32,
    earlier: int,
    later: int,
    reach: int,
    later_reach: int,
)
    requires
        settings::valid_sidelen(sidelen),
        0 <= earlier <= later,
        is_reach(sidelen, earlier, reach),
        is_reach(sidelen, later, later_reach),
    ensures
        shortest_reach(sidelen) <= later_reach <= reach <= sidelen,
{
    let least = shortest_reach(sidelen);
    lemma_reach_bounds(sidelen, earlier, reach);
    lemma_reach_bounds(sidelen, later, later_reach);
    if later < 95 && reach < later_reach {
        lemma_reach_power_falls(sidelen, earlier, later);
        lemma_power_monotone(2 * reach + 1, 2 * later_reach - 1, 95);
    }
}

proof fn lemma_reach_bounds(sidelen: u32, generation: int, reach: int)
    requires
        settings::valid_sidelen(sidelen),
        0 <= generation,
        is_reach(sidelen, generation, reach),
    ensures
        shortest_reach(sidelen) <= reach <= sidelen,
{
    let least = shortest_reach(sidelen);
    if generation < 95 {
        lemma_reach_power_bounds(sidelen, generation);
        if reach < least {
            lemma_power_monotone(2 * reach + 1, 2 * least, 95);
        }
        if reach > sidelen {
            lemma_power_strict(2 * sidelen as int, 2 * reach - 1, 95);
        }
    }
}

/// How many times the distance has shrunk by one percent after `age` frames.
pub open spec fn shrinkings(age: u32) -> nat {
    if age > i32::MAX {
        (i32::MAX / 30) as nat
    } else {
        (age / 30) as nat
    }
}

/// Twice the distance of a fresh stroke after `n` shrinkings, times `100^n`.
pub open spec fn shrunk(n: nat) -> int {
    64 * power::pow(99, n)
}

/// Whether `reach` is the nearest integer to the distance after `n` shrinkings, but at least
/// one.
pub open spec fn is_shrunk_reach(n: nat, reach: int) -> bool {
    let unit = power::pow(100, n);
    if shrunk(n) < 3 * unit {
        reach == 1
    } else {
        (2 * reach - 1) * unit <= shrunk(n) && shrunk(n) < (2 * reach + 1) * unit
    }
}

/// One more shrinking.
proof fn lemma_shrink(n: nat)
    ensures
        shrunk(n + 1) == 99 * shrunk(n),
        power::pow(100, n + 1) == 100 * power::pow(100, n),
        power::pow(100, n) >= 1,
        shrunk(n) >= 0,
        shrunk(0) == 64,
        power::pow(100, 0) == 1,
{
    power::lemma_pow_adds(99, 1, n);
    power::lemma_pow1(99);
    power::lemma_pow_adds(100, 1, n);
    power::lemma_pow1(100);
    power::lemma_pow_positive(100, n);
    power::lemma_pow_positive(99, n);
    power::lemma_pow0(99);
    power::lemma_pow0(100);
}

/// Shrinking by one percent removes at least as much, in proportion, as counting steps does.
proof fn lemma_shrinks_away(n: nat)
    ensures
        shrunk(n) * (99 + n) <= 64 * 99 * power::pow(100, n),
    decreases n,
{
    lemma_shrink(n);
    if n > 0 {
        let k = (n - 1) as nat;
        lemma_shrinks_away(k);
        lemma_shrink(k);
        let (a, b) = (shrunk(k), power::pow(100, k));
        assert((99 * a) * (99 + n) <= 64 * 99 * (100 * b)) by (nonlinear_arith)
            requires
                0 <= a,
                1 <= n,
                a * (99 + (n - 1)) <= 64 * 99 * b,
        {
            assert(99 * (99 + n) <= 100 * (99 + (n - 1)));
            assert(a * (99 * (99 + n)) <= a * (100 * (99 + (n - 1))));
        }
    }
}

/// Once the distance is below one and a half, it stays there.
proof fn lemma_stays_short(n: nat, later: nat)
    requires
        shrunk(n) < 3 * power::pow(100, n),
        n <= later,
    ensures
        shrunk(later) < 3 * power::pow(100, later),
    decreases later - n,
{
    if n < later {
        lemma_stays_short(n, (later - 1) as nat);
        lemma_shrink((later - 1) as nat);
    }
}

/// The distance after a number of shrinkings is determined, and between one and 32.
pub proof fn shrunk_reach_is_unique_and_bounded(n: nat, a: int, b: int)
    requires
        is_shrunk_reach(n, a),
        is_shrunk_reach(n, b),
    ensures
        a == b,
        1 <= a <= 32,
{
    lemma_shrink(n);
    lemma_shrunk_bound(n);
    let unit = power::pow(100, n);
    let distance = shrunk(n);
    if !(distance < 3 * unit) {
        assert(a == b && 1 <= a <= 32) by (nonlinear_arith)
            requires
                unit >= 1,
                3 * unit <= distance,
                distance <= 64 * unit,
                (2 * a - 1) * unit <= distance,
                distance < (2 * a + 1) * unit,
                (2 * b - 1) * unit <= distance,
                distance < (2 * b + 1) * unit,
        {
            assert((2 * a - 1) * unit < (2 * b + 1) * unit);
            assert((2 * b - 1) * unit < (2 * a + 1) * unit);
            assert((2 * a - 1) * unit <= 64 * unit);
            assert(3 * unit < (2 * a + 1) * unit);
        }
    }
}

proof fn lemma_shrunk_bound(n: nat)
    ensures
        shrunk(n) <= 64 * power::pow(100, n),
    decreases n,
{
    if n > 0 {
        lemma_shrunk_bound((n - 1) as nat);
        lemma_shrink((n - 1) as nat);
    } else {
        lemma_shrink(0);
    }
}

/// In proportion, more shrinkings leave no more.
proof fn lemma_shrinks(n: nat, later: nat)
    requires
        n <= later,
    ensures
        shrunk(later) * power::pow(100, n) <= shrunk(n) * power::pow(100, later),
    decreases later - n,
{
    if n < later {
        let k = (later - 1) as nat;
        lemma_shrinks(n, k);
        lemma_shrink(k);
        lemma_shrink(n);
        let (a, b) = (shrunk(k), power::pow(100, k));
        let (c, d) = (shrunk(n), power::pow(100, n));
        assert((99 * a) * d <= c * (100 * b)) by (nonlinear_arith)
            requires
                a * d <= c * b,
                0 <= a,
                1 <= d,
        {
            assert((99 * a) * d == 99 * (a * d));
            assert(c * (100 * b) == 100 * (c * b));
            assert(0 <= a * d);
        }
    }
}

/// The older a stroke, the shorter the distance that its pixels may travel.
pub proof fn shrunk_reach_never_grows(n: nat, later: nat, reach: int, later_reach: int)
    requires
        n <= later,
        is_shrunk_reach(n, reach),
        is_shrunk_reach(later, later_reach),
    ensures
        later_reach <= reach,
{
    shrunk_reach_is_unique_and_bounded(n, reach, reach);
    lemma_shrinks(n, later);
    lemma_shrink(n);
    lemma_shrink(later);
    let (s1, u1) = (shrunk(n), power::pow(100, n));
    let (s2, u2) = (shrunk(later), power::pow(100, later));
    if s1 < 3 * u1 {
        lemma_stays_short(n, later);
    } else if !(s2 < 3 * u2) && reach < later_reach {
        assert(false) by (nonlinear_arith)
            requires
                s2 * u1 <= s1 * u2,
                s1 < (2 * reach + 1) * u1,
                (2 * later_reach - 1) * u2 <= s2,
                reach < later_reach,
                1 <= u1,
                1 <= u2,
        {
            assert(s1 * u2 < ((2 * reach + 1) * u1) * u2);
            assert(((2 * later_reach - 1) * u2) * u1 <= s2 * u1);
            assert((2 * reach + 1) * (u1 * u2) <= (2 * later_reach - 1) * (u1 * u2));
            assert(((2 * reach + 1) * u1) * u2 == (2 * reach + 1) * (u1 * u2));
            assert(((2 * later_reach - 1) * u2) * u1 == (2 * later_reach - 1) * (u1 * u2));
        }
    }
}

/// How far a pixel of a drawing may travel in one swap, by the age of its stroke.
pub struct DrawingReach {
    steps: Vec<u32>,
}

impl DrawingReach {
    /// Every distance above one is listed.
    pub closed spec fn wf(&self) -> bool {
        &&& forall|n: int|
            0 <= n < self.steps.len() ==> is_shrunk_reach(n as nat, #[trigger] self.steps[n] as int)
                && 1 <= self.steps[n] <= 32
        &&& shrunk(self.steps@.len()) < 3 * power::pow(100, self.steps@.len())
    }

    /// Lists the distances.
    pub fn new() -> (table: Self)
        ensures
            table.wf(),
    {
        let mut steps: Vec<u32> = Vec::new();
        let mut distance = Natural::new(64);
        let mut unit = Natural::new(1);
        let mut reach: u32 = 32;
        proof {
            lemma_shrink(0);
        }
        loop
            invariant
                distance@ == shrunk(steps@.len()),
                unit@ == power::pow(100, steps@.len()),
                1 <= reach <= 32,
                steps.len() <= 2100,
                distance@ < (2 * reach + 1) * unit@,
                forall|n: int|
                    0 <= n < steps.len() ==> is_shrunk_reach(n as nat, #[trigger] steps[n] as int)
                        && 1 <= steps[n] <= 32,
            ensures
                shrunk(steps@.len()) < 3 * power::pow(100, steps@.len()),
            decreases 2100 - steps.len(),
        {
            let mut short = unit.clone();
            short.scale(3);
            if distance.less(&short) {
                break;
            }
            proof {
                lemma_shrinks_away(steps@.len());
                lemma_shrink(steps@.len());
                let (a, b, n) = (distance@, unit@, steps@.len());
                assert(n < 2100) by (nonlinear_arith)
                    requires
                        a * (99 + n) <= 64 * 99 * b,
                        3 * b <= a,
                        1 <= b,
                {
                    assert((3 * b) * (99 + n) <= a * (99 + n));
                    if n >= 2100 {
                        assert((3 * b) * (99 + n) >= (3 * b) * 2199);
                    }
                }
            }
            let mut below = unit.clone();
            below.scale(2 * reach - 1);
            while distance.less(&below)
                invariant
                    1 <= reach <= 32,
                    !(distance@ < 3 * unit@),
                    below@ == unit@ * (2 * reach - 1),
                    distance@ < (2 * reach + 1) * unit@,
                decreases reach,
            {
                proof {
                    assert(unit@ * (2 * reach - 1) == (2 * reach - 1) * unit@) by (nonlinear_arith);
                    assert(reach != 1);
                }
                reach = reach - 1;
                below = unit.clone();
                below.scale(2 * reach - 1);
            }
            let ghost before = steps@;
            steps.push(reach);
            proof {
                assert(unit@ * (2 * reach - 1) == (2 * reach - 1) * unit@) by (nonlinear_arith);
                let n = before.len();
                assert(is_shrunk_reach(n, reach as int));
                lemma_shrink(n);
                let (a, b, c) = (distance@, unit@, 2 * reach + 1);
                assert(99 * a < c * (100 * b)) by (nonlinear_arith)
                    requires
                        a < c * b,
                        0 <= a,
                        1 <= b,
                        3 <= c,
                {
                    assert(99 * a <= 100 * a);
                    assert(100 * a < 100 * (c * b));
                    assert(100 * (c * b) == c * (100 * b));
                }
            }
            distance.scale(99);
            unit.scale(100);
        }
        DrawingReach { steps }
    }

    /// How far a pixel may travel `age` frames after it was last painted.
    pub fn max_dist(&self, age: u32) -> (reach: u32)
        requires
            self.wf(),
        ensures
            is_shrunk_reach(shrinkings(age), reach as int),
            1 <= reach <= 32,
    {
        let capped: u32 = if age > 2147483647 {
            2147483647
        } else {
            age
        };
        let n: usize = (capped / 30) as usize;
        if n < self.steps.len() {
            self.steps[n]
        } else {
            proof {
                lemma_stays_short(self.steps@.len(), n as nat);
            }
            1
        }
    }
}

/// Swaps bridge the whole side at first, and two cells in the end, or one if there is only one. In
/// between, the distance is the nearest integer to what lies evenly between the two on a logarithmic
/// scale.
pub proof fn reach_goes_from_the_side_to_two_cells(sidelen: u32, generation: int, reach: int)
    requires
        1 <= sidelen <= 256,
        0 <= generation,
        is_reach(sidelen, generation, reach),
    ensures
        generation == 0 ==> reach == sidelen,
        generation >= 95 ==> reach == if sidelen == 1 {
            1int
        } else {
            2
        },
        generation < 95 ==> ({
            let least = if sidelen == 1 {
                1int
            } else {
                2
            };
            let exact = power::pow(2, 95) * (power::pow(sidelen as int, (95 - generation) as nat)
                * power::pow(least, generation as nat));
            power::pow(2 * reach - 1, 95) <= exact < power::pow(2 * reach + 1, 95)
        }),
{
    if generation == 0 {
        power::lemma_pow0(shortest_reach(sidelen));
        power::lemma_pow_distributes(2, sidelen as int, 95);
        assert(doubled_reach_power(sidelen, 0) == power::pow(2 * sidelen, 95));
        if reach < sidelen {
            lemma_power_monotone(2 * reach + 1, 2 * sidelen as int, 95);
        } else if reach > sidelen {
            lemma_power_strict(2 * sidelen as int, 2 * reach - 1, 95);
        }
    }
}

/// A pixel may travel 32 cells at first, and one percent less every 30 frames, rounded to the
/// nearest integer but not below one.
pub proof fn strokes_settle_by_one_percent_every_30_frames(age: u32, reach: int)
    requires
        is_shrunk_reach(shrinkings(age), reach),
    ensures
        ({
            let n = if age <= 2147483647 {
                (age / 30) as nat
            } else {
                71582788
            };
            let (left, unit) = (64 * power::pow(99, n), power::pow(100, n));
            &&& age < 30 ==> reach == 32
            &&& reach >= 1
            &&& left < (2 * reach + 1) * unit
            &&& reach > 1 ==> (2 * reach - 1) * unit <= left
        }),
{
    let n = shrinkings(age);
    lemma_shrink(n);
    let (left, unit) = (shrunk(n), power::pow(100, n));
    shrunk_reach_is_unique_and_bounded(n, reach, reach);
    if age < 30 {
        lemma_shrink(0);
    }
    if left < 3 * unit {
        assert((2 * 1 + 1) * unit == 3 * unit);
    }
}

/// Every generation has a distance.
pub proof fn every_generation_has_a_reach(sidelen: u32, generation: int) -> (reach: int)
    requires
        1 <= sidelen <= 256,
        0 <= generation,
    ensures
        is_reach(sidelen, generation, reach),
{
    if generation >= 95 {
        shortest_reach(sidelen)
    } else {
        lemma_reach_power_bounds(sidelen, generation);
        lemma_power_strict(2 * sidelen as int, 2 * sidelen + 1, 95);
        lemma_find_reach(sidelen, generation, sidelen as int)
    }
}

proof fn lemma_find_reach(sidelen: u32, generation: int, from: int) -> (reach: int)
    requires
        1 <= sidelen <= 256,
        0 <= generation < 95,
        shortest_reach(sidelen) <= from,
        doubled_reach_power(sidelen, generation) < power::pow(2 * from + 1, 95),
    ensures
        is_reach(sidelen, generation, reach),
    decreases from,
{
    if power::pow(2 * from - 1, 95) <= doubled_reach_power(sidelen, generation) {
        from
    } else {
        let least = shortest_reach(sidelen);
        lemma_reach_power_bounds(sidelen, generation);
        if from == least {
            lemma_power_monotone(2 * least - 1, 2 * least, 95);
        }
        lemma_find_reach(sidelen, generation, from - 1)
    }
}

} // verus!
