//! Exact assignment of source pixels to portrait cells by labelled alternating trees.
use crate::buffers::filled;
use crate::cost;
use crate::cost::ImgDiffWeights;
use crate::match_steps;
use crate::match_steps::MatchState;
use crate::row_set;
use crate::row_set::RowSet;
use vstd::prelude::*;

verus! {

/// What a row gains from a column: the negated cost.
#[verifier::opaque]
pub open spec fn gain(m: ImgDiffWeights, x: int, y: int) -> int {
    -m.cost_at(x, y)
}

/// The largest cost of the matrix.
#[verifier::opaque]
pub open spec fn ceiling(m: ImgDiffWeights) -> int {
    cost::cost_ceiling(m.sidelen as int, m.spatial_weight as int)
}

/// A well-formed matrix of negated costs with `n` rows and columns.
pub open spec fn solvable(m: ImgDiffWeights, n: int) -> bool {
    &&& m.wf()
    &&& !m.negated
    &&& m.target.len() == n
    &&& m.source.len() == n
}

proof fn lemma_gain_bounds(m: ImgDiffWeights, n: int)
    requires
        solvable(m, n),
    ensures
        2 * ceiling(m) < i64::MAX,
        forall|x: int, y: int|
            0 <= x < n && 0 <= y < n ==> -ceiling(m) <= #[trigger] gain(m, x, y) <= 0,
{
    reveal(gain);
    reveal(ceiling);
    assert forall|x: int, y: int| 0 <= x < n && 0 <= y < n implies -ceiling(m)
        <= #[trigger] gain(m, x, y) <= 0 by {
        m.lemma_cost_at_bound(x, y);
    }
}

fn gain_at(m: &ImgDiffWeights, x: usize, y: usize) -> (value: i64)
    requires
        m.wf(),
        !m.negated,
        x < m.target.len(),
        y < m.source.len(),
    ensures
        value == gain(*m, x as int, y as int),
{
    reveal(gain);
    m.at(x, y)
}

/// Rows and columns point at each other.
spec fn paired(n: int, xy: Seq<Option<usize>>, yx: Seq<Option<usize>>) -> bool {
    &&& n <= usize::MAX
    &&& xy.len() == n
    &&& yx.len() == n
    &&& forall|x: int|
        0 <= x < n && #[trigger] xy[x] is Some ==> xy[x]->0 < n && yx[xy[x]->0 as int] == Some(
            x as usize,
        )
    &&& forall|y: int|
        0 <= y < n && #[trigger] yx[y] is Some ==> yx[y]->0 < n && xy[yx[y]->0 as int] == Some(
            y as usize,
        )
}

/// Exactly the first `k` rows are matched.
spec fn first_rows(n: int, xy: Seq<Option<usize>>, k: int) -> bool {
    forall|x: int| 0 <= x < n ==> (#[trigger] xy[x] is Some <==> x < k)
}

/// The labels cover every gain, matched pairs exactly, and free columns carry no label.
spec fn labelled(
    m: ImgDiffWeights,
    n: int,
    xy: Seq<Option<usize>>,
    yx: Seq<Option<usize>>,
    lx: Seq<i64>,
    ly: Seq<i64>,
) -> bool {
    &&& lx.len() == n
    &&& ly.len() == n
    &&& forall|x: int| 0 <= x < n ==> #[trigger] lx[x] <= 0
    &&& forall|y: int| 0 <= y < n ==> 0 <= #[trigger] ly[y]
    &&& forall|y: int| 0 <= y < n && #[trigger] yx[y] is None ==> ly[y] == 0
    &&& forall|x: int, y: int|
        0 <= x < n && 0 <= y < n ==> lx[x] + ly[y] >= #[trigger] gain(m, x, y)
    &&& forall|x: int|
        0 <= x < n && #[trigger] xy[x] is Some ==> lx[x] + ly[xy[x]->0 as int] == gain(
            m,
            x,
            xy[x]->0 as int,
        )
}

/// The alternating tree that grows from `root`: rows `xs` and columns `ys` in the order in
/// which they joined, each column tight with an earlier row.
spec fn tree_shape(
    m: ImgDiffWeights,
    n: int,
    root: int,
    xy: Seq<Option<usize>>,
    yx: Seq<Option<usize>>,
    lx: Seq<i64>,
    ly: Seq<i64>,
    xs: Seq<usize>,
    ys: Seq<usize>,
    alternating: Seq<Option<usize>>,
) -> bool {
    &&& 0 <= root < n
    &&& xs.len() > 0
    &&& xs[0] == root
    &&& xy[root] is None
    &&& forall|i: int| 0 <= i < xs.len() ==> #[trigger] xs[i] < n
    &&& xs.no_duplicates()
    &&& ys.no_duplicates()
    &&& forall|k: int| 0 <= k < ys.len() ==> #[trigger] ys[k] < n
    &&& alternating.len() == n
    &&& forall|y: int|
        0 <= y < n && #[trigger] alternating[y] is Some ==> ys.contains(y as usize)
    &&& forall|k: int|
        0 <= k < ys.len() ==> {
            &&& alternating[#[trigger] ys[k] as int] is Some
            &&& exists|j: int|
                0 <= j <= k && j < xs.len() && alternating[ys[k] as int] == Some(#[trigger] xs[j])
            &&& lx[alternating[ys[k] as int]->0 as int] + ly[ys[k] as int] == gain(
                m,
                alternating[ys[k] as int]->0 as int,
                ys[k] as int,
            )
        }
}

/// Every column of the tree is matched with the row that joined after it.
spec fn tree_open(yx: Seq<Option<usize>>, xs: Seq<usize>, ys: Seq<usize>) -> bool {
    &&& xs.len() == ys.len() + 1
    &&& forall|k: int| 0 <= k < ys.len() ==> yx[#[trigger] ys[k] as int] == Some(xs[k + 1])
}

/// For each column outside the tree, the smallest margin to a row of the tree and that row.
spec fn slacks(
    m: ImgDiffWeights,
    n: int,
    lx: Seq<i64>,
    ly: Seq<i64>,
    xs: Seq<usize>,
    alternating: Seq<Option<usize>>,
    slack: Seq<i64>,
    slackx: Seq<usize>,
) -> bool {
    &&& slack.len() == n
    &&& slackx.len() == n
    &&& forall|y: int|
        0 <= y < n && #[trigger] alternating[y] is None ==> {
            &&& xs.contains(slackx[y])
            &&& slack[y] == lx[slackx[y] as int] + ly[y] - gain(m, slackx[y] as int, y)
        }
    &&& forall|y: int, i: int|
        #![trigger alternating[y], xs[i]]
        0 <= y < n && alternating[y] is None && 0 <= i < xs.len() ==> slack[y] <= lx[xs[i] as int]
            + ly[y] - gain(m, xs[i] as int, y)
}

/// If fewer than `n` rows are matched, some column is free.
proof fn lemma_free_column(n: int, xy: Seq<Option<usize>>, yx: Seq<Option<usize>>, k: int)
    requires
        paired(n, xy, yx),
        first_rows(n, xy, k),
        0 <= k < n,
    ensures
        exists|y: int| 0 <= y < n && #[trigger] yx[y] is None,
{
    if forall|y: int| 0 <= y < n ==> #[trigger] yx[y] is Some {
        let mates = Seq::new(n as nat, |y: int| yx[y]->0 as int);
        assert forall|y: int| 0 <= y < n implies 0 <= #[trigger] mates[y] < k by {
            assert(yx[y] is Some);
            assert(xy[mates[y]] == Some(y as usize));
        }
        assert(mates.no_duplicates()) by {
            assert forall|a: int, b: int|
                0 <= a < n && 0 <= b < n && a != b implies mates[a] != mates[b] by {
                assert(yx[a] is Some && yx[b] is Some);
                assert(xy[mates[a]] == Some(a as usize));
                assert(xy[mates[b]] == Some(b as usize));
            }
        }
        lemma_pigeonhole(mates, k);
    }
}

/// Distinct numbers below `k` are at most `k` many.
pub proof fn lemma_pigeonhole(numbers: Seq<int>, k: int)
    requires
        0 <= k,
        forall|i: int| 0 <= i < numbers.len() ==> 0 <= #[trigger] numbers[i] < k,
        numbers.no_duplicates(),
    ensures
        numbers.len() <= k,
{
    numbers.unique_seq_to_set();
    let below = vstd::set_lib::set_int_range(0, k);
    vstd::set_lib::lemma_int_range(0, k);
    assert(numbers.to_set().subset_of(below));
    vstd::set_lib::lemma_len_subset(numbers.to_set(), below);
}

/// Distinct indices below `n` are at most `n` many.
proof fn lemma_distinct_below(indices: Seq<usize>, n: int)
    requires
        0 <= n,
        forall|i: int| 0 <= i < indices.len() ==> #[trigger] indices[i] < n,
        indices.no_duplicates(),
    ensures
        indices.len() <= n,
{
    let numbers = Seq::new(indices.len(), |i: int| indices[i] as int);
    assert forall|i: int| 0 <= i < numbers.len() implies 0 <= #[trigger] numbers[i] < n by {
        assert(indices[i] < n);
    }
    lemma_pigeonhole(numbers, n);
}

/// Distinct columns out of `n`, one for each of the first rows.
pub open spec fn places(a: Seq<usize>, n: int) -> bool {
    &&& forall|i: int| 0 <= i < a.len() ==> #[trigger] a[i] < n
    &&& a.no_duplicates()
}

/// What an assignment of the first rows costs in all.
pub open spec fn total_cost(m: ImgDiffWeights, a: Seq<usize>) -> int
    decreases a.len(),
{
    if a.len() == 0 {
        0
    } else {
        total_cost(m, a.drop_last()) + m.cost_at(a.len() - 1, a.last() as int)
    }
}

/// What changing one entry of an assignment does to its cost.
pub proof fn lemma_total_cost_update(m: ImgDiffWeights, a: Seq<usize>, row: int, column: usize)
    requires
        0 <= row < a.len(),
    ensures
        total_cost(m, a.update(row, column)) == total_cost(m, a) - m.cost_at(row, a[row] as int)
            + m.cost_at(row, column as int),
    decreases a.len(),
{
    let b = a.update(row, column);
    if row == a.len() - 1 {
        assert(b.drop_last() =~= a.drop_last());
    } else {
        assert(b.drop_last() =~= a.drop_last().update(row, column));
        lemma_total_cost_update(m, a.drop_last(), row, column);
    }
}

/// No assignment of the same rows to distinct columns costs less.
pub open spec fn cheapest(m: ImgDiffWeights, a: Seq<usize>, n: int) -> bool {
    &&& places(a, n)
    &&& forall|b: Seq<usize>|
        places(b, n) && b.len() == a.len() ==> total_cost(m, a) <= #[trigger] total_cost(m, b)
}

spec fn sum(f: Seq<int>) -> int
    decreases f.len(),
{
    if f.len() == 0 {
        0
    } else {
        sum(f.drop_last()) + f.last()
    }
}

/// The sum of the values that `q` picks out of `f`.
spec fn picked(f: Seq<int>, q: Seq<usize>) -> int
    decreases q.len(),
{
    if q.len() == 0 {
        0
    } else {
        picked(f, q.drop_last()) + f[q.last() as int]
    }
}

proof fn lemma_sum_update(f: Seq<int>, i: int, value: int)
    requires
        0 <= i < f.len(),
    ensures
        sum(f.update(i, value)) == sum(f) - f[i] + value,
    decreases f.len(),
{
    let g = f.update(i, value);
    if i == f.len() - 1 {
        assert(g.drop_last() =~= f.drop_last());
    } else {
        assert(g.drop_last() =~= f.drop_last().update(i, value));
        lemma_sum_update(f.drop_last(), i, value);
    }
}

proof fn lemma_sum_zero(f: Seq<int>)
    requires
        forall|i: int| 0 <= i < f.len() ==> #[trigger] f[i] == 0,
    ensures
        sum(f) == 0,
    decreases f.len(),
{
    if f.len() > 0 {
        assert forall|i: int| 0 <= i < f.drop_last().len() implies #[trigger] f.drop_last()[i] == 0 by {
            assert(f.drop_last()[i] == f[i]);
        }
        lemma_sum_zero(f.drop_last());
    }
}

proof fn lemma_sum_nonnegative(f: Seq<int>)
    requires
        forall|i: int| 0 <= i < f.len() ==> #[trigger] f[i] >= 0,
    ensures
        sum(f) >= 0,
    decreases f.len(),
{
    if f.len() > 0 {
        assert forall|i: int| 0 <= i < f.drop_last().len() implies #[trigger] f.drop_last()[i] >= 0 by {
            assert(f.drop_last()[i] == f[i]);
        }
        lemma_sum_nonnegative(f.drop_last());
    }
}

proof fn lemma_picked_same(f: Seq<int>, g: Seq<int>, q: Seq<usize>)
    requires
        forall|i: int| 0 <= i < q.len() ==> f[#[trigger] q[i] as int] == g[q[i] as int],
    ensures
        picked(f, q) == picked(g, q),
    decreases q.len(),
{
    if q.len() > 0 {
        assert forall|i: int| 0 <= i < q.drop_last().len() implies f[#[trigger] q.drop_last()[i] as int]
            == g[q.drop_last()[i] as int] by {
            assert(q.drop_last()[i] == q[i]);
        }
        assert(f[q[q.len() - 1] as int] == g[q[q.len() - 1] as int]);
        lemma_picked_same(f, g, q.drop_last());
    }
}

/// Picking distinct values out of nonnegative ones gives at most their sum, and exactly the
/// sum if all others are zero.
proof fn lemma_picked_within_sum(f: Seq<int>, q: Seq<usize>)
    requires
        f.len() <= usize::MAX,
        forall|i: int| 0 <= i < f.len() ==> #[trigger] f[i] >= 0,
        places(q, f.len() as int),
    ensures
        picked(f, q) <= sum(f),
        (forall|i: int| 0 <= i < f.len() && !q.contains(i as usize) ==> #[trigger] f[i] == 0)
            ==> picked(f, q) == sum(f),
    decreases q.len(),
{
    if q.len() == 0 {
        lemma_sum_nonnegative(f);
        if forall|i: int| 0 <= i < f.len() && !q.contains(i as usize) ==> #[trigger] f[i] == 0 {
            lemma_sum_zero(f);
        }
    } else {
        let last = q.last() as int;
        assert(q[q.len() - 1] < f.len());
        let g = f.update(last, 0);
        let p = q.drop_last();
        assert forall|i: int| 0 <= i < p.len() implies #[trigger] p[i] < g.len() && f[p[i] as int]
            == g[p[i] as int] by {
            assert(p[i] == q[i]);
            assert(q[i] != q[q.len() - 1]);
        }
        lemma_picked_within_sum(g, p);
        lemma_picked_same(f, g, p);
        lemma_sum_update(f, last, 0);
        if forall|i: int| 0 <= i < f.len() && !q.contains(i as usize) ==> #[trigger] f[i] == 0 {
            assert forall|i: int| 0 <= i < g.len() && !p.contains(i as usize) implies #[trigger] g[i]
                == 0 by {
                if i != last && q.contains(i as usize) {
                    let j = choose|j: int| 0 <= j < q.len() && q[j] == i as usize;
                    assert(p[j] == i as usize);
                }
            }
        }
    }
}

/// Labels bound the gain of any assignment from above.
proof fn lemma_labels_bound_cost(m: ImgDiffWeights, n: int, lx: Seq<int>, ly: Seq<int>, a: Seq<usize>)
    requires
        lx.len() == n,
        ly.len() == n,
        forall|x: int, y: int|
            0 <= x < n && 0 <= y < n ==> lx[x] + ly[y] >= #[trigger] gain(m, x, y),
        places(a, n),
        a.len() <= n,
    ensures
        -total_cost(m, a) <= sum(lx.take(a.len() as int)) + picked(ly, a),
    decreases a.len(),
{
    reveal(gain);
    if a.len() > 0 {
        let b = a.drop_last();
        assert forall|i: int| 0 <= i < b.len() implies #[trigger] b[i] < n by {
            assert(b[i] == a[i]);
        }
        lemma_labels_bound_cost(m, n, lx, ly, b);
        assert(lx.take(a.len() as int).drop_last() =~= lx.take(b.len() as int));
        assert(a[a.len() - 1] < n);
        assert(lx[a.len() - 1] + ly[a.last() as int] >= gain(m, a.len() - 1, a.last() as int));
    }
}

/// Where labels are tight on an assignment, they give its gain.
proof fn lemma_labels_equal_cost(m: ImgDiffWeights, n: int, lx: Seq<int>, ly: Seq<int>, a: Seq<usize>)
    requires
        lx.len() == n,
        ly.len() == n,
        places(a, n),
        a.len() <= n,
        forall|x: int|
            0 <= x < a.len() ==> lx[x] + ly[#[trigger] a[x] as int] == gain(m, x, a[x] as int),
    ensures
        -total_cost(m, a) == sum(lx.take(a.len() as int)) + picked(ly, a),
    decreases a.len(),
{
    reveal(gain);
    if a.len() > 0 {
        let b = a.drop_last();
        assert forall|i: int| 0 <= i < b.len() implies #[trigger] b[i] < n && lx[i] + ly[b[i] as int]
            == gain(m, i, b[i] as int) by {
            assert(b[i] == a[i]);
        }
        lemma_labels_equal_cost(m, n, lx, ly, b);
        assert(lx.take(a.len() as int).drop_last() =~= lx.take(b.len() as int));
        assert(a[a.len() - 1] < n);
    }
}

/// The columns of the first `k` rows.
pub open spec fn columns_of(assigned: Seq<Option<usize>>, k: int) -> Seq<usize> {
    Seq::new(k as nat, |x: int| assigned[x]->0)
}

/// Whether `best` is the largest gain in row `x`.
pub open spec fn is_best_gain(m: ImgDiffWeights, n: int, x: int, best: int) -> bool {
    &&& forall|y: int| 0 <= y < n ==> best >= #[trigger] gain(m, x, y)
    &&& exists|y: int| 0 <= y < n && best == #[trigger] gain(m, x, y)
}

/// The best gain of a row over all columns.
pub fn row_best(m: &ImgDiffWeights, row: usize) -> (best: i64)
    requires
        m.wf(),
        !m.negated,
        row < m.target.len(),
    ensures
        is_best_gain(*m, m.source.len() as int, row as int, best as int),
{
    proof {
        assert(m.sidelen * m.sidelen >= 1) by (nonlinear_arith)
            requires
                m.sidelen >= 1,
        ;
    }
    let mut best: i64 = gain_at(m, row, 0);
    let mut y: usize = 1;
    while y < m.columns()
        invariant
            m.wf(),
            !m.negated,
            row < m.target.len(),
            1 <= y <= m.source.len(),
            forall|j: int| 0 <= j < y ==> best >= #[trigger] gain(*m, row as int, j),
            exists|j: int| 0 <= j < y && best == #[trigger] gain(*m, row as int, j),
        decreases m.source.len() - y,
    {
        let value: i64 = gain_at(m, row, y);
        if value > best {
            best = value;
        }
        y = y + 1;
    }
    best
}

/// A partial assignment with its labels, and the alternating tree that extends it.
pub struct Matcher {
    xy: Vec<Option<usize>>,
    yx: Vec<Option<usize>>,
    lx: Vec<i64>,
    ly: Vec<i64>,
    s: RowSet,
    alternating: Vec<Option<usize>>,
    slack: Vec<i64>,
    slackx: Vec<usize>,
    order: Ghost<Seq<usize>>,
}

impl Matcher {
    /// The column of each row, where it has one.
    pub closed spec fn assigned(&self) -> Seq<Option<usize>> {
        self.xy@
    }

    /// Where the matching stands.
    pub closed spec fn state(&self) -> MatchState {
        MatchState {
            xy: self.xy@,
            yx: self.yx@,
            lx: self.lx@,
            ly: self.ly@,
            xs: row_set::row_set_items(self.s),
            alternating: self.alternating@,
            slack: self.slack@,
            slackx: self.slackx@,
        }
    }

    /// The columns stand in the state.
    pub proof fn lemma_assigned(&self)
        ensures
            self.assigned() == self.state().xy,
    {
    }

    /// The first `k` rows are matched, under labels that prove the matching best.
    pub closed spec fn settled(&self, m: ImgDiffWeights, n: int, k: int) -> bool {
        &&& solvable(m, n)
        &&& 0 <= k <= n
        &&& paired(n, self.xy@, self.yx@)
        &&& first_rows(n, self.xy@, k)
        &&& labelled(m, n, self.xy@, self.yx@, self.lx@, self.ly@)
    }

    /// A tree is growing from row `root`.
    pub closed spec fn growing(&self, m: ImgDiffWeights, n: int, root: int) -> bool {
        let xs = row_set::row_set_items(self.s);
        &&& self.settled(m, n, root)
        &&& tree_shape(
            m,
            n,
            root,
            self.xy@,
            self.yx@,
            self.lx@,
            self.ly@,
            xs,
            self.order@,
            self.alternating@,
        )
        &&& tree_open(self.yx@, xs, self.order@)
        &&& slacks(m, n, self.lx@, self.ly@, xs, self.alternating@, self.slack@, self.slackx@)
    }

    /// The number of columns in the tree.
    pub closed spec fn width(&self) -> nat {
        self.order@.len()
    }

    /// The tree from row `root` has reached the free column `y`.
    pub closed spec fn reached(&self, m: ImgDiffWeights, n: int, root: int, y: int) -> bool {
        let xs = row_set::row_set_items(self.s);
        let ys = self.order@;
        &&& self.settled(m, n, root)
        &&& tree_shape(
            m,
            n,
            root,
            self.xy@,
            self.yx@,
            self.lx@,
            self.ly@,
            xs,
            ys,
            self.alternating@,
        )
        &&& ys.len() == xs.len()
        &&& ys.last() == y
        &&& self.yx@[y] is None
        &&& tree_open(self.yx@, xs, ys.drop_last())
    }

    /// Starts with no row matched, each row labelled by its best gain.
    pub fn new(m: &ImgDiffWeights, lx: Vec<i64>) -> (matcher: Self)
        requires
            solvable(*m, lx.len() as int),
            forall|x: int|
                0 <= x < lx.len() ==> is_best_gain(*m, lx.len() as int, x, #[trigger] lx[x] as int),
        ensures
            matcher.settled(*m, lx.len() as int, 0),
            matcher.state() == match_steps::first_state(*m, lx@.len()),
    {
        let n: usize = lx.len();
        proof {
            lemma_gain_bounds(*m, n as int);
            assert forall|x: int| 0 <= x < n implies #[trigger] lx[x] <= 0 by {
                assert(is_best_gain(*m, n as int, x, lx[x] as int));
                let y = choose|y: int| 0 <= y < n && lx[x] == #[trigger] gain(*m, x, y);
            }
            let first = match_steps::first_state(*m, n as nat);
            assert forall|x: int| 0 <= x < n implies #[trigger] first.lx[x] == lx[x] by {
                match_steps::lemma_best_gain(*m, n as int, x, lx[x]);
            }
            assert(first.lx =~= lx@);
        }
        Matcher {
            xy: filled(None, n),
            yx: filled(None, n),
            lx,
            ly: filled(0, n),
            s: row_set::row_set_new(),
            alternating: Vec::new(),
            slack: Vec::new(),
            slackx: Vec::new(),
            order: Ghost(Seq::empty()),
        }
    }

    /// Labels of columns stay within the ceiling while a column is free.
    proof fn lemma_label_bounds(&self, m: ImgDiffWeights, n: int, k: int)
        requires
            self.settled(m, n, k),
            k < n,
        ensures
            forall|x: int| 0 <= x < n ==> -ceiling(m) <= #[trigger] self.lx@[x] <= 0,
            forall|y: int| 0 <= y < n ==> 0 <= #[trigger] self.ly@[y] <= ceiling(m),
            2 * ceiling(m) < i64::MAX,
            ceiling(m) >= 0,
    {
        lemma_gain_bounds(m, n);
        lemma_free_column(n, self.xy@, self.yx@, k);
        let f = choose|y: int| 0 <= y < n && #[trigger] self.yx@[y] is None;
        assert forall|x: int| 0 <= x < n implies -ceiling(m) <= #[trigger] self.lx@[x] <= 0 by {
            assert(self.lx@[x] + self.ly@[f] >= gain(m, x, f));
        }
        assert(-ceiling(m) <= gain(m, f, f) <= 0);
        assert forall|y: int| 0 <= y < n implies 0 <= #[trigger] self.ly@[y] <= ceiling(m) by {
            if self.yx@[y] is Some {
                let x = self.yx@[y]->0 as int;
                assert(self.xy@[x] is Some);
                assert(self.lx@[x] + self.ly@[y] == gain(m, x, y));
            }
        }
    }

    /// Plants a tree at row `root`.
    pub fn begin(&mut self, m: &ImgDiffWeights, root: usize)
        requires
            old(self).settled(*m, m.target.len() as int, root as int),
            root < m.target.len(),
        ensures
            final(self).growing(*m, m.target.len() as int, root as int),
            final(self).width() == 0,
            final(self).state() == old(self).state().begun(*m, root),
    {
        let n: usize = m.columns();
        proof {
            self.lemma_label_bounds(*m, n as int, root as int);
            lemma_gain_bounds(*m, n as int);
        }
        self.alternating = filled(None, n);
        row_set::row_set_clear(&mut self.s);
        let fresh: bool = row_set::row_set_insert(&mut self.s, root);
        let mut slack: Vec<i64> = Vec::with_capacity(n);
        for y in 0..n
            invariant
                solvable(*m, n as int),
                root < n,
                slack.len() == y,
                self.lx.len() == n,
                self.ly.len() == n,
                -ceiling(*m) <= self.lx[root as int] <= 0,
                forall|j: int| 0 <= j < n ==> 0 <= #[trigger] self.ly[j] <= ceiling(*m),
                2 * ceiling(*m) < i64::MAX,
                forall|j: int| 0 <= j < n ==> -ceiling(*m) <= #[trigger] gain(*m, root as int, j) <= 0,
                forall|j: int|
                    0 <= j < y ==> #[trigger] slack[j] == self.lx[root as int] + self.ly[j] - gain(
                        *m,
                        root as int,
                        j,
                    ),
        {
            let value: i64 = gain_at(m, root, y);
            assert(value == gain(*m, root as int, y as int));
            slack.push(self.lx[root] + self.ly[y] - value);
        }
        self.slack = slack;
        self.slackx = filled(root, n);
        self.order = Ghost(Seq::empty());
        proof {
            let xs = row_set::row_set_items(self.s);
            assert(xs =~= seq![root]);
            assert(xs[0] == root);
            reveal(MatchState::begun);
            let planted = old(self).state().begun(*m, root);
            assert(planted.slack =~= self.slack@);
            assert(planted == self.state());
        }
    }

    /// The column outside the tree with the smallest slack.
    fn nearest(&self, m: &ImgDiffWeights, root: usize) -> (y: usize)
        requires
            self.growing(*m, m.target.len() as int, root as int),
        ensures
            y < m.target.len(),
            match_steps::is_nearest(self.alternating@, self.slack@, y as int),
            0 <= self.slack@[y as int] <= 2 * ceiling(*m),
    {
        let n: usize = m.columns();
        proof {
            self.lemma_slack_bounds(*m, n as int, root as int);
        }
        let mut delta: i64 = i64::MAX;
        let mut y: usize = 0;
        for yy in 0..n
            invariant
                self.alternating.len() == n,
                self.slack.len() == n,
                forall|j: int|
                    0 <= j < n && #[trigger] self.alternating@[j] is None ==> self.slack@[j] < i64::MAX,
                delta == i64::MAX ==> forall|j: int|
                    0 <= j < yy ==> #[trigger] self.alternating@[j] is Some,
                delta < i64::MAX ==> y < yy && self.alternating@[y as int] is None && delta
                    == self.slack@[y as int] && forall|j: int|
                    0 <= j < yy && #[trigger] self.alternating@[j] is None ==> self.slack@[j] > delta
                        || (self.slack@[j] == delta && y <= j),
        {
            if self.alternating[yy].is_none() && self.slack[yy] < delta {
                delta = self.slack[yy];
                y = yy;
            }
        }
        y
    }

    /// Slacks lie between zero and twice the ceiling, and some column is outside the tree.
    proof fn lemma_slack_bounds(&self, m: ImgDiffWeights, n: int, root: int)
        requires
            self.growing(m, n, root),
        ensures
            forall|y: int|
                0 <= y < n && #[trigger] self.alternating@[y] is None ==> 0 <= self.slack@[y] <= 2
                    * ceiling(m) < i64::MAX,
            exists|y: int| 0 <= y < n && self.yx@[y] is None && #[trigger] self.alternating@[y] is None,
    {
        let xs = row_set::row_set_items(self.s);
        self.lemma_label_bounds(m, n, root);
        lemma_gain_bounds(m, n);
        lemma_free_column(n, self.xy@, self.yx@, root);
        let f = choose|y: int| 0 <= y < n && #[trigger] self.yx@[y] is None;
        if self.alternating@[f] is Some {
            let k = choose|k: int| 0 <= k < self.order@.len() && self.order@[k] == f as usize;
            assert(self.yx@[self.order@[k] as int] == Some(xs[k + 1]));
        }
        assert forall|y: int| 0 <= y < n && #[trigger] self.alternating@[y] is None implies 0
            <= self.slack@[y] <= 2 * ceiling(m) < i64::MAX by {
            let i = choose|i: int| 0 <= i < xs.len() && xs[i] == self.slackx@[y];
            let x = xs[i] as int;
            assert(self.lx@[x] + self.ly@[y] >= gain(m, x, y));
            assert(-ceiling(m) <= gain(m, x, y) <= 0);
            assert(self.lx@[x] <= 0);
            assert(self.ly@[y] <= ceiling(m));
        }
    }

    /// Shifts the labels by the smallest slack, so that the nearest column becomes tight.
    fn relabel(&mut self, m: &ImgDiffWeights, root: usize, y: usize)
        requires
            old(self).growing(*m, m.target.len() as int, root as int),
            y < m.target.len(),
            match_steps::is_nearest(old(self).alternating@, old(self).slack@, y as int),
            0 <= old(self).slack@[y as int] <= 2 * ceiling(*m),
        ensures
            final(self).growing(*m, m.target.len() as int, root as int),
            final(self).xy@ == old(self).xy@,
            final(self).yx@ == old(self).yx@,
            final(self).s == old(self).s,
            final(self).order@ == old(self).order@,
            final(self).alternating@ == old(self).alternating@,
            final(self).slackx@ == old(self).slackx@,
            final(self).slack@[y as int] == 0,
            final(self).state() == old(self).state().relabelled(old(self).slack@[y as int]),
    {
        let n: usize = m.columns();
        let delta: i64 = self.slack[y];
        let ghost xs = row_set::row_set_items(self.s);
        let ghost lx0 = self.lx@;
        let ghost ly0 = self.ly@;
        let ghost slack0 = self.slack@;
        let ghost alt = self.alternating@;
        proof {
            self.lemma_slack_bounds(*m, n as int, root as int);
            self.lemma_label_bounds(*m, n as int, root as int);
            lemma_gain_bounds(*m, n as int);
            let f = choose|f: int|
                0 <= f < n && self.yx@[f] is None && #[trigger] self.alternating@[f] is None;
            assert forall|i: int| 0 <= i < xs.len() implies -ceiling(*m) <= #[trigger] lx0[xs[i] as int]
                - delta by {
                assert(alt[f] is None);
                assert(slack0[f] <= lx0[xs[i] as int] + ly0[f] - gain(*m, xs[i] as int, f));
                assert(-ceiling(*m) <= gain(*m, xs[i] as int, f));
            }
            assert forall|j: int| 0 <= j < n && #[trigger] alt[j] is Some implies ly0[j] + delta
                <= ceiling(*m) by {
                let k = choose|k: int| 0 <= k < self.order@.len() && self.order@[k] == j as usize;
                assert(self.yx@[self.order@[k] as int] == Some(xs[k + 1]));
                let x = xs[k + 1] as int;
                assert(self.yx@[j] is Some);
                assert(self.xy@[x] is Some);
                assert(lx0[x] + ly0[j] == gain(*m, x, j));
                assert(-ceiling(*m) <= lx0[xs[k + 1] as int] - delta);
                assert(gain(*m, x, j) <= 0);
            }
        }
        if delta > 0 {
            let mut i: usize = 0;
            proof {
                lemma_distinct_below(xs, n as int);
            }
            loop
                invariant
                    xs == row_set::row_set_items(self.s),
                    xs.no_duplicates(),
                    forall|j: int| 0 <= j < xs.len() ==> #[trigger] xs[j] < n,
                    i <= xs.len() <= n,
                    self.lx.len() == n,
                    lx0.len() == n,
                    0 < delta,
                    ceiling(*m) <= i64::MAX,
                    forall|j: int|
                        0 <= j < xs.len() ==> -ceiling(*m) <= #[trigger] lx0[xs[j] as int] - delta,
                    forall|j: int| 0 <= j < i ==> self.lx@[#[trigger] xs[j] as int] == lx0[xs[j] as int] - delta,
                    forall|x: int|
                        0 <= x < n && !xs.take(i as int).contains(x as usize) ==> #[trigger] self.lx@[x]
                            == lx0[x],
                    self.xy@ == old(self).xy@,
                    self.yx@ == old(self).yx@,
                    self.s == old(self).s,
                    self.order@ == old(self).order@,
                    self.alternating@ == old(self).alternating@,
                    self.slackx@ == old(self).slackx@,
                    self.slack@ == old(self).slack@,
                    self.ly@ == old(self).ly@,
                ensures
                    i == xs.len(),
                decreases xs.len() - i,
            {
                match row_set::row_set_get(&self.s, i) {
                    Some(x) => {
                        assert(!xs.take(i as int).contains(xs[i as int])) by {
                            if xs.take(i as int).contains(xs[i as int]) {
                                let j = choose|j: int| 0 <= j < i && xs.take(i as int)[j] == xs[i as int];
                                assert(xs[j] == xs[i as int]);
                            }
                        }
                        assert(-ceiling(*m) <= lx0[xs[i as int] as int] - delta);
                        let ghost before = self.lx@;
                        self.lx[x] = self.lx[x] - delta;
                        proof {
                            assert(xs.take(i + 1) =~= xs.take(i as int).push(x));
                            assert forall|r: int|
                                0 <= r < n && !xs.take(i + 1).contains(r as usize) implies #[trigger] self.lx@[r]
                                == lx0[r] by {
                                assert(xs.take(i + 1)[i as int] == x);
                                if xs.take(i as int).contains(r as usize) {
                                    let j = choose|j: int|
                                        0 <= j < i && xs.take(i as int)[j] == r as usize;
                                    assert(xs.take(i + 1)[j] == r as usize);
                                }
                                assert(r != x);
                                assert(before[r] == lx0[r]);
                            }
                        }
                        i = i + 1;
                    },
                    None => {
                        break ;
                    },
                }
            }
            let ghost lx1 = self.lx@;
            assert forall|x: int| 0 <= x < n implies #[trigger] lx1[x] == (if xs.contains(x as usize) {
                lx0[x] - delta
            } else {
                lx0[x] as int
            }) by {
                assert(xs.take(xs.len() as int) =~= xs);
                if xs.contains(x as usize) {
                    let j = choose|j: int| 0 <= j < xs.len() && xs[j] == x as usize;
                    assert(self.lx@[xs[j] as int] == lx0[xs[j] as int] - delta);
                }
            }
            for yy in 0..n
                invariant
                    self.ly.len() == n,
                    self.slack.len() == n,
                    self.alternating.len() == n,
                    ly0.len() == n,
                    slack0.len() == n,
                    0 < delta,
                    2 * ceiling(*m) < i64::MAX,
                    alt == self.alternating@,
                    forall|j: int|
                        0 <= j < n && #[trigger] alt[j] is Some ==> ly0[j] + delta <= ceiling(*m),
                    forall|j: int| 0 <= j < n && #[trigger] alt[j] is None ==> slack0[j] >= delta,
                    forall|j: int| 0 <= j < n ==> 0 <= #[trigger] ly0[j],
                    forall|j: int|
                        0 <= j < yy ==> #[trigger] self.ly@[j] == (if alt[j] is Some {
                            ly0[j] + delta
                        } else {
                            ly0[j] as int
                        }),
                    forall|j: int|
                        0 <= j < yy ==> #[trigger] self.slack@[j] == (if alt[j] is Some {
                            slack0[j] as int
                        } else {
                            slack0[j] - delta
                        }),
                    forall|j: int| yy <= j < n ==> #[trigger] self.ly@[j] == ly0[j],
                    forall|j: int| yy <= j < n ==> #[trigger] self.slack@[j] == slack0[j],
                    self.xy@ == old(self).xy@,
                    self.yx@ == old(self).yx@,
                    self.s == old(self).s,
                    self.order@ == old(self).order@,
                    self.alternating@ == old(self).alternating@,
                    self.slackx@ == old(self).slackx@,
                    self.lx@ == lx1,
            {
                if self.alternating[yy].is_some() {
                    assert(alt[yy as int] is Some);
                    self.ly[yy] = self.ly[yy] + delta;
                } else {
                    assert(alt[yy as int] is None);
                    self.slack[yy] = self.slack[yy] - delta;
                }
            }
            proof {
                lemma_relabelled(
                    *m,
                    n as int,
                    root as int,
                    self.xy@,
                    self.yx@,
                    xs,
                    self.order@,
                    alt,
                    self.slackx@,
                    delta as int,
                    lx0,
                    ly0,
                    slack0,
                    self.lx@,
                    self.ly@,
                    self.slack@,
                );
            }
        }
        proof {
            reveal(MatchState::relabelled);
            let shifted = old(self).state().relabelled(delta);
            assert(shifted.lx =~= self.lx@);
            assert(shifted.ly =~= self.ly@);
            assert(shifted.slack =~= self.slack@);
            assert(shifted == self.state());
        }
    }

    /// Adds the nearest column to the tree. If it is free, the tree has reached it; if not, the
    /// row it is matched with joins the tree too.
    pub fn grow(&mut self, m: &ImgDiffWeights, root: usize) -> (end: Option<usize>)
        requires
            old(self).growing(*m, m.target.len() as int, root as int),
        ensures
            end == old(self).state().reach(),
            final(self).state() == old(self).state().grown(*m),
            match end {
                Some(y) => y < m.target.len() && final(self).reached(
                    *m,
                    m.target.len() as int,
                    root as int,
                    y as int,
                ),
                None => final(self).growing(*m, m.target.len() as int, root as int),
            },
            final(self).width() == old(self).width() + 1,
            final(self).width() <= m.target.len(),
    {
        let n: usize = m.columns();
        let ghost before = self.state();
        let y: usize = self.nearest(m, root);
        let x: usize = self.slackx[y];
        proof {
            match_steps::lemma_nearest(before, y as int);
            reveal(MatchState::relabelled);
            reveal(MatchState::grown);
        }
        self.relabel(m, root, y);
        let ghost xs = row_set::row_set_items(self.s);
        let ghost ys = self.order@;
        let ghost alt = self.alternating@;
        self.alternating[y] = Some(x);
        self.order = Ghost(self.order@.push(y));
        proof {
            let ys1 = self.order@;
            let alt1 = self.alternating@;
            assert(!ys.contains(y)) by {
                if ys.contains(y) {
                    let k = choose|k: int| 0 <= k < ys.len() && ys[k] == y;
                    assert(alt[ys[k] as int] is Some);
                }
            }
            assert(alt[y as int] is None);
            let jx = choose|j: int| 0 <= j < xs.len() && xs[j] == x;
            assert(ys1[ys.len() as int] == y);
            assert forall|j: int| 0 <= j < n && #[trigger] alt1[j] is Some implies ys1.contains(
                j as usize,
            ) by {
                if j != y {
                    assert(alt[j] is Some);
                    let k = choose|k: int| 0 <= k < ys.len() && ys[k] == j as usize;
                    assert(ys1[k] == j as usize);
                }
            }
            assert forall|k: int| 0 <= k < ys1.len() implies {
                &&& alt1[#[trigger] ys1[k] as int] is Some
                &&& exists|j: int|
                    0 <= j <= k && j < xs.len() && alt1[ys1[k] as int] == Some(#[trigger] xs[j])
                &&& self.lx@[alt1[ys1[k] as int]->0 as int] + self.ly@[ys1[k] as int] == gain(
                    *m,
                    alt1[ys1[k] as int]->0 as int,
                    ys1[k] as int,
                )
            } by {
                if k < ys.len() {
                    assert(ys1[k] == ys[k]);
                    assert(ys[k] != y);
                    let j = choose|j: int|
                        0 <= j <= k && j < xs.len() && alt[ys[k] as int] == Some(#[trigger] xs[j]);
                    assert(alt1[ys1[k] as int] == Some(xs[j]));
                } else {
                    assert(alt1[ys1[k] as int] == Some(xs[jx]));
                }
            }
            assert(tree_shape(
                *m,
                n as int,
                root as int,
                self.xy@,
                self.yx@,
                self.lx@,
                self.ly@,
                xs,
                ys1,
                alt1,
            ));
            lemma_distinct_below(ys1, n as int);
            assert(ys1.drop_last() =~= ys);
        }
        if self.yx[y].is_none() {
            return Some(y);
        }
        let mate: usize = self.yx[y].unwrap();
        proof {
            self.lemma_label_bounds(*m, n as int, root as int);
            lemma_gain_bounds(*m, n as int);
            assert(self.xy@[mate as int] == Some(y));
            assert(!xs.contains(mate)) by {
                if xs.contains(mate) {
                    let i = choose|i: int| 0 <= i < xs.len() && xs[i] == mate;
                    assert(i != 0);
                    assert(self.yx@[ys[i - 1] as int] == Some(xs[i - 1 + 1]));
                    assert(self.xy@[xs[i] as int] == Some(ys[i - 1]));
                    assert(ys.contains(ys[i - 1]));
                }
            }
        }
        let fresh: bool = row_set::row_set_insert(&mut self.s, mate);
        let ghost xs1 = row_set::row_set_items(self.s);
        proof {
            let ys1 = self.order@;
            assert(xs1 == xs.push(mate));
            assert(tree_shape(
                *m,
                n as int,
                root as int,
                self.xy@,
                self.yx@,
                self.lx@,
                self.ly@,
                xs1,
                ys1,
                self.alternating@,
            )) by {
                assert forall|k: int| 0 <= k < ys1.len() implies exists|j: int|
                    0 <= j <= k && j < xs1.len() && self.alternating@[#[trigger] ys1[k] as int] == Some(
                        #[trigger] xs1[j],
                    ) by {
                    let j = choose|j: int|
                        0 <= j <= k && j < xs.len() && self.alternating@[ys1[k] as int] == Some(
                            #[trigger] xs[j],
                        );
                    assert(xs1[j] == xs[j]);
                }
            }
            assert(tree_open(self.yx@, xs1, ys1)) by {
                assert forall|k: int| 0 <= k < ys1.len() implies self.yx@[#[trigger] ys1[k] as int]
                    == Some(xs1[k + 1]) by {
                    if k < ys.len() {
                        assert(ys1[k] == ys[k]);
                        assert(xs1[k + 1] == xs[k + 1]);
                    }
                }
            }
        }
        let ghost slack0 = self.slack@;
        let ghost slackx0 = self.slackx@;
        let ghost wider = MatchState { xs, ..self.state() };
        for yy in 0..n
            invariant
                solvable(*m, n as int),
                mate < n,
                self.lx.len() == n,
                self.ly.len() == n,
                self.slack.len() == n,
                self.slackx.len() == n,
                self.alternating.len() == n,
                slack0.len() == n,
                slackx0.len() == n,
                -ceiling(*m) <= self.lx@[mate as int] <= 0,
                forall|j: int| 0 <= j < n ==> 0 <= #[trigger] self.ly@[j] <= ceiling(*m),
                2 * ceiling(*m) < i64::MAX,
                forall|i: int, j: int|
                    0 <= i < n && 0 <= j < n ==> -ceiling(*m) <= #[trigger] gain(*m, i, j) <= 0,
                forall|j: int|
                    0 <= j < yy && #[trigger] self.alternating@[j] is None ==> {
                        let fresh_slack = self.lx@[mate as int] + self.ly@[j] - gain(*m, mate as int, j);
                        if slack0[j] > fresh_slack {
                            self.slack@[j] == fresh_slack && self.slackx@[j] == mate
                        } else {
                            self.slack@[j] == slack0[j] && self.slackx@[j] == slackx0[j]
                        }
                    },
                forall|j: int| yy <= j < n ==> #[trigger] self.slack@[j] == slack0[j],
                forall|j: int| yy <= j < n ==> #[trigger] self.slackx@[j] == slackx0[j],
                forall|j: int|
                    0 <= j < yy && #[trigger] self.alternating@[j] is Some ==> self.slack@[j]
                        == slack0[j] && self.slackx@[j] == slackx0[j],
                self.lx@ == wider.lx,
                self.ly@ == wider.ly,
                self.xy@ == old(self).xy@,
                self.yx@ == old(self).yx@,
                row_set::row_set_items(self.s) == xs1,
                self.order@ == ys.push(y),
                self.alternating@ == alt.update(y as int, Some(x)),
                self.settled(*m, n as int, root as int),
                tree_shape(
                    *m,
                    n as int,
                    root as int,
                    self.xy@,
                    self.yx@,
                    self.lx@,
                    self.ly@,
                    xs1,
                    self.order@,
                    self.alternating@,
                ),
                tree_open(self.yx@, xs1, self.order@),
                slacks(*m, n as int, self.lx@, self.ly@, xs, alt, slack0, slackx0),
        {
            if self.alternating[yy].is_none() {
                let value: i64 = gain_at(m, mate, yy);
                let alternate: i64 = self.lx[mate] + self.ly[yy] - value;
                if self.slack[yy] > alternate {
                    self.slack[yy] = alternate;
                    self.slackx[yy] = mate;
                }
            }
        }
        proof {
            let alt1 = self.alternating@;
            reveal(MatchState::joined);
            let joined = wider.joined(*m, mate);
            assert forall|j: int| 0 <= j < n implies #[trigger] joined.slack[j] == self.slack@[j]
                && joined.slackx[j] == self.slackx@[j] by {
                assert(alt1[j] is Some || alt1[j] is None);
            }
            assert(joined.slack =~= self.slack@);
            assert(joined.slackx =~= self.slackx@);
            assert(joined == self.state());
            assert(before.grown(*m) == joined);
            assert forall|j: int| 0 <= j < n && #[trigger] alt1[j] is None implies {
                &&& xs1.contains(self.slackx@[j])
                &&& self.slack@[j] == self.lx@[self.slackx@[j] as int] + self.ly@[j] - gain(
                    *m,
                    self.slackx@[j] as int,
                    j,
                )
            } by {
                assert(alt[j] is None);
                assert(xs1[xs.len() as int] == mate);
                let i = choose|i: int| 0 <= i < xs.len() && xs[i] == slackx0[j];
                assert(xs1[i] == xs[i]);
            }
            assert forall|j: int, i: int|
                #![trigger alt1[j], xs1[i]]
                0 <= j < n && alt1[j] is None && 0 <= i < xs1.len() implies self.slack@[j]
                <= self.lx@[xs1[i] as int] + self.ly@[j] - gain(*m, xs1[i] as int, j) by {
                assert(alt[j] is None);
                if i < xs.len() {
                    assert(xs1[i] == xs[i]);
                    assert(slack0[j] <= self.lx@[xs[i] as int] + self.ly@[j] - gain(
                        *m,
                        xs[i] as int,
                        j,
                    ));
                }
            }
        }
        None
    }

    /// Swaps the matching along the path from the reached column back to the root, which
    /// matches the root and keeps every other matched row matched.
    pub fn augment(&mut self, m: &ImgDiffWeights, root: usize, end: usize)
        requires
            old(self).reached(*m, m.target.len() as int, root as int, end as int),
            end < m.target.len(),
        ensures
            final(self).settled(*m, m.target.len() as int, root + 1),
            final(self).state() == old(self).state().augmented(end),
    {
        let ghost n = m.target.len() as int;
        let ghost xs = row_set::row_set_items(self.s);
        let ghost ys = self.order@;
        let ghost mut k: int = ys.len() - 1;
        let ghost mut left: nat = n as nat;
        let ghost after = match_steps::rematched(
            self.xy@,
            self.yx@,
            self.alternating@,
            Some(end),
            n as nat,
        );
        let mut y: Option<usize> = Some(end);
        proof {
            lemma_distinct_below(ys, n);
            assert forall|i: int| 0 <= i < k implies self.xy@[xs[i + 1] as int] == Some(
                #[trigger] ys[i],
            ) by {
                assert(ys.drop_last()[i] == ys[i]);
                assert(self.yx@[ys.drop_last()[i] as int] == Some(xs[i + 1]));
                assert(self.yx@[ys[i] as int] is Some);
            }
            assert forall|i: int| 0 <= i < ys.len() && i != k implies self.yx@[#[trigger] ys[i] as int] is Some by {
                assert(ys.drop_last()[i] == ys[i]);
            }
            assert forall|x: int| 0 <= x < n implies #[trigger] self.xy@[x] != Some(end) by {
                if self.xy@[x] == Some(end) {
                    assert(self.yx@[end as int] == Some(x as usize));
                }
            }
        }
        while y.is_some()
            invariant
                n == m.target.len(),
                xs == row_set::row_set_items(self.s),
                ys == self.order@,
                self.state() == (MatchState {
                    xy: self.xy@,
                    yx: self.yx@,
                    ..old(self).state()
                }),
                k + 1 <= left,
                after == match_steps::rematched(
                    self.xy@,
                    self.yx@,
                    self.alternating@,
                    y,
                    left,
                ),
                y is Some ==> 0 <= k < ys.len() && y->0 == ys[k],
                y is None ==> k == -1,
                solvable(*m, n),
                0 <= root < n <= usize::MAX,
                self.xy.len() == n,
                self.yx.len() == n,
                ys.len() == xs.len(),
                xs.len() > 0,
                xs[0] == root,
                xs.no_duplicates(),
                ys.no_duplicates(),
                forall|i: int| 0 <= i < xs.len() ==> #[trigger] xs[i] < n,
                forall|i: int| 0 <= i < ys.len() ==> #[trigger] ys[i] < n,
                self.alternating.len() == n,
                forall|i: int|
                    0 <= i < ys.len() ==> {
                        &&& self.alternating@[#[trigger] ys[i] as int] is Some
                        &&& exists|j: int|
                            0 <= j <= i && j < xs.len() && self.alternating@[ys[i] as int] == Some(
                                #[trigger] xs[j],
                            )
                        &&& self.lx@[self.alternating@[ys[i] as int]->0 as int]
                            + self.ly@[ys[i] as int] == gain(
                            *m,
                            self.alternating@[ys[i] as int]->0 as int,
                            ys[i] as int,
                        )
                    },
                // Rows point at columns that point back.
                forall|x: int|
                    0 <= x < n && #[trigger] self.xy@[x] is Some ==> self.xy@[x]->0 < n
                        && self.yx@[self.xy@[x]->0 as int] == Some(x as usize),
                // Columns point at rows that point back, but for the one being rematched.
                forall|c: int|
                    0 <= c < n && y != Some(c as usize) && #[trigger] self.yx@[c] is Some
                        ==> self.yx@[c]->0 < n && self.xy@[self.yx@[c]->0 as int] == Some(c as usize),
                y is Some ==> forall|x: int| 0 <= x < n ==> #[trigger] self.xy@[x] != y,
                // The path up to the current column is still as the tree recorded it.
                forall|i: int| 0 <= i < k ==> self.xy@[xs[i + 1] as int] == Some(#[trigger] ys[i]),
                y is Some ==> self.xy@[root as int] is None,
                forall|x: int|
                    0 <= x < n ==> (#[trigger] self.xy@[x] is Some <==> x < root || (y is None && x
                        == root)),
                labelled(*m, n, self.xy@, self.yx@, self.lx@, self.ly@),
            decreases k + 1,
        {
            let column: usize = y.unwrap();
            assert(self.alternating@[ys[k] as int] is Some);
            let ghost j = choose|j: int|
                0 <= j <= k && j < xs.len() && self.alternating@[ys[k] as int] == Some(
                    #[trigger] xs[j],
                );
            let row: usize = self.alternating[column].unwrap();
            assert(row == xs[j]);
            let prec: Option<usize> = self.xy[row];
            let ghost xy0 = self.xy@;
            let ghost yx0 = self.yx@;
            proof {
                if j > 0 {
                    assert(self.xy@[xs[j - 1 + 1] as int] == Some(ys[j - 1]));
                    assert(prec == Some(ys[j - 1]));
                    assert(ys[j - 1] != column);
                }
            }
            self.yx[column] = Some(row);
            self.xy[row] = Some(column);
            proof {
                assert forall|x: int| 0 <= x < n && #[trigger] self.xy@[x] is Some implies self.xy@[x]->0
                    < n && self.yx@[self.xy@[x]->0 as int] == Some(x as usize) by {
                    if x != row {
                        assert(xy0[x] is Some);
                        assert(xy0[x] != Some(column));
                    }
                }
                assert forall|c: int|
                    0 <= c < n && prec != Some(c as usize) && #[trigger] self.yx@[c] is Some implies self.yx@[c]->0
                    < n && self.xy@[self.yx@[c]->0 as int] == Some(c as usize) by {
                    if c != column {
                        assert(yx0[c] is Some);
                        assert(xy0[yx0[c]->0 as int] == Some(c as usize));
                        assert(yx0[c]->0 != row);
                    }
                }
                assert forall|i: int| 0 <= i < j - 1 implies self.xy@[xs[i + 1] as int] == Some(
                    #[trigger] ys[i],
                ) by {
                    assert(xy0[xs[i + 1] as int] == Some(ys[i]));
                    assert(xs[i + 1] != xs[j]);
                }
                if prec is Some {
                    assert forall|x: int| 0 <= x < n implies #[trigger] self.xy@[x] != prec by {
                        if x != row && xy0[x] == prec {
                            assert(xy0[x] is Some);
                            assert(yx0[xy0[x]->0 as int] == Some(x as usize));
                            assert(xy0[row as int] is Some);
                            assert(yx0[xy0[row as int]->0 as int] == Some(row));
                        }
                    }
                    assert(row != root);
                }
                assert forall|c: int| 0 <= c < n && #[trigger] self.yx@[c] is None implies self.ly@[c]
                    == 0 by {
                    assert(yx0[c] is None);
                }
                assert forall|x: int| 0 <= x < n && #[trigger] self.xy@[x] is Some implies self.lx@[x]
                    + self.ly@[self.xy@[x]->0 as int] == gain(*m, x, self.xy@[x]->0 as int) by {
                    if x != row {
                        assert(xy0[x] is Some);
                    }
                }
                k = j - 1;
                left = (left - 1) as nat;
            }
            y = prec;
        }
        proof {
            reveal(MatchState::augmented);
            assert(after == (self.xy@, self.yx@));
        }
    }

    /// A settled matcher holds the cheapest assignment of its first rows, and no other.
    pub proof fn lemma_settled_is_cheapest(&self, m: ImgDiffWeights, n: int, k: int)
        requires
            self.settled(m, n, k),
        ensures
            0 <= k <= n == self.assigned().len(),
            forall|x: int| 0 <= x < n ==> (#[trigger] self.assigned()[x] is Some <==> x < k),
            cheapest(m, columns_of(self.assigned(), k), n),
    {
        let a = columns_of(self.assigned(), k);
        let lx = Seq::new(n as nat, |x: int| self.lx@[x] as int);
        let ly = Seq::new(n as nat, |y: int| self.ly@[y] as int);
        assert forall|x: int| 0 <= x < k implies #[trigger] a[x] < n && self.yx@[a[x] as int] == Some(
            x as usize,
        ) && lx[x] + ly[a[x] as int] == gain(m, x, a[x] as int) by {
            assert(self.xy@[x] is Some);
        }
        assert forall|i: int, j: int| 0 <= i < k && 0 <= j < k && i != j implies a[i] != a[j] by {
            assert(self.yx@[a[i] as int] == Some(i as usize));
            assert(self.yx@[a[j] as int] == Some(j as usize));
        }
        lemma_labels_equal_cost(m, n, lx, ly, a);
        assert forall|y: int| 0 <= y < ly.len() && !a.contains(y as usize) implies #[trigger] ly[y] == 0 by {
            if self.yx@[y] is Some {
                let x = self.yx@[y]->0 as int;
                assert(self.xy@[x] == Some(y as usize));
                assert(x < k);
                assert(a[x] == y as usize);
            }
        }
        assert forall|y: int| 0 <= y < ly.len() implies #[trigger] ly[y] >= 0 by {
            assert(self.ly@[y] >= 0);
        }
        lemma_picked_within_sum(ly, a);
        assert forall|b: Seq<usize>| places(b, n) && b.len() == a.len() implies total_cost(m, a)
            <= #[trigger] total_cost(m, b) by {
            lemma_labels_bound_cost(m, n, lx, ly, b);
            lemma_picked_within_sum(ly, b);
        }
    }

    /// The column of each row, zero for a row that has none yet.
    pub fn columns_or_zero(&self) -> (columns: Vec<usize>)
        ensures
            columns@ == Seq::new(
                self.assigned().len(),
                |x: int| if self.assigned()[x] is Some {
                    self.assigned()[x]->0
                } else {
                    0
                },
            ),
    {
        let mut columns: Vec<usize> = Vec::with_capacity(self.xy.len());
        for x in 0..self.xy.len()
            invariant
                columns.len() == x,
                forall|i: int|
                    0 <= i < x ==> #[trigger] columns[i] == if self.xy@[i] is Some {
                        self.xy@[i]->0
                    } else {
                        0
                    },
        {
            columns.push(
                match self.xy[x] {
                    Some(y) => y,
                    None => 0,
                },
            );
        }
        columns
    }
}

/// Shifting labels by a common slack keeps the labelling and the tree.
proof fn lemma_relabelled(
    m: ImgDiffWeights,
    n: int,
    root: int,
    xy: Seq<Option<usize>>,
    yx: Seq<Option<usize>>,
    xs: Seq<usize>,
    ys: Seq<usize>,
    alt: Seq<Option<usize>>,
    slackx: Seq<usize>,
    delta: int,
    lx0: Seq<i64>,
    ly0: Seq<i64>,
    slack0: Seq<i64>,
    lx1: Seq<i64>,
    ly1: Seq<i64>,
    slack1: Seq<i64>,
)
    requires
        paired(n, xy, yx),
        first_rows(n, xy, root),
        labelled(m, n, xy, yx, lx0, ly0),
        tree_shape(m, n, root, xy, yx, lx0, ly0, xs, ys, alt),
        tree_open(yx, xs, ys),
        slacks(m, n, lx0, ly0, xs, alt, slack0, slackx),
        0 < delta,
        forall|j: int| 0 <= j < n && #[trigger] alt[j] is None ==> slack0[j] >= delta,
        lx1.len() == n,
        ly1.len() == n,
        slack1.len() == n,
        forall|x: int|
            0 <= x < n ==> #[trigger] lx1[x] == (if xs.contains(x as usize) {
                lx0[x] - delta
            } else {
                lx0[x] as int
            }),
        forall|j: int|
            0 <= j < n ==> #[trigger] ly1[j] == (if alt[j] is Some {
                ly0[j] + delta
            } else {
                ly0[j] as int
            }),
        forall|j: int|
            0 <= j < n ==> #[trigger] slack1[j] == (if alt[j] is Some {
                slack0[j] as int
            } else {
                slack0[j] - delta
            }),
    ensures
        labelled(m, n, xy, yx, lx1, ly1),
        tree_shape(m, n, root, xy, yx, lx1, ly1, xs, ys, alt),
        slacks(m, n, lx1, ly1, xs, alt, slack1, slackx),
{
    assert forall|i: int| 0 <= i < xs.len() implies lx1[#[trigger] xs[i] as int] == lx0[xs[i] as int]
        - delta by {
        assert(xs.contains(xs[i] as usize));
    }
    // A matched row is in the tree exactly when its column is.
    assert forall|x: int| 0 <= x < n && #[trigger] xy[x] is Some implies (xs.contains(x as usize)
        <==> alt[xy[x]->0 as int] is Some) by {
        let y = xy[x]->0 as int;
        assert(yx[y] == Some(x as usize));
        if xs.contains(x as usize) {
            let i = choose|i: int| 0 <= i < xs.len() && xs[i] == x as usize;
            assert(i != 0);
            assert(yx[ys[i - 1] as int] == Some(xs[i - 1 + 1]));
            assert(xy[xs[i] as int] == Some(ys[i - 1]));
        }
        if alt[y] is Some {
            let k = choose|k: int| 0 <= k < ys.len() && ys[k] == y as usize;
            assert(yx[ys[k] as int] == Some(xs[k + 1]));
            assert(xs.contains(xs[k + 1]));
        }
    }
    assert forall|x: int, y: int| 0 <= x < n && 0 <= y < n implies lx1[x] + ly1[y]
        >= #[trigger] gain(m, x, y) by {
        assert(lx0[x] + ly0[y] >= gain(m, x, y));
        if xs.contains(x as usize) && alt[y] is None {
            let i = choose|i: int| 0 <= i < xs.len() && xs[i] == x as usize;
            assert(slack0[y] <= lx0[xs[i] as int] + ly0[y] - gain(m, xs[i] as int, y));
        }
    }
    assert forall|y: int| 0 <= y < n && #[trigger] yx[y] is None implies ly1[y] == 0 by {
        if alt[y] is Some {
            let k = choose|k: int| 0 <= k < ys.len() && ys[k] == y as usize;
            assert(yx[ys[k] as int] == Some(xs[k + 1]));
        }
    }
    assert forall|k: int| 0 <= k < ys.len() implies lx1[alt[#[trigger] ys[k] as int]->0 as int]
        + ly1[ys[k] as int] == gain(m, alt[ys[k] as int]->0 as int, ys[k] as int) by {
        let j = choose|j: int|
            0 <= j <= k && j < xs.len() && alt[ys[k] as int] == Some(#[trigger] xs[j]);
        assert(xs.contains(xs[j]));
    }
    assert forall|y: int| 0 <= y < n && #[trigger] alt[y] is None implies {
        &&& xs.contains(slackx[y])
        &&& slack1[y] == lx1[slackx[y] as int] + ly1[y] - gain(m, slackx[y] as int, y)
    } by {
        let i = choose|i: int| 0 <= i < xs.len() && xs[i] == slackx[y];
        assert(lx1[xs[i] as int] == lx0[xs[i] as int] - delta);
    }
    assert forall|y: int, i: int|
        #![trigger alt[y], xs[i]]
        0 <= y < n && alt[y] is None && 0 <= i < xs.len() implies slack1[y] <= lx1[xs[i] as int]
        + ly1[y] - gain(m, xs[i] as int, y) by {
        assert(slack0[y] <= lx0[xs[i] as int] + ly0[y] - gain(m, xs[i] as int, y));
        assert(lx1[xs[i] as int] == lx0[xs[i] as int] - delta);
    }
}

/// What an assignment costs is what each row costs with its column, added up: one more row adds its
/// own cost.
pub proof fn every_row_counts(m: ImgDiffWeights, a: Seq<usize>, column: usize)
    ensures
        total_cost(m, Seq::empty()) == 0,
        total_cost(m, a.push(column)) == total_cost(m, a) + m.cost_at(
            a.len() as int,
            column as int,
        ),
{
    assert(a.push(column).drop_last() =~= a);
}

/// The best gain of a row is the least of its costs, negated.
pub proof fn best_gains_are_least_costs(m: ImgDiffWeights, n: int, x: int, best: int)
    requires
        is_best_gain(m, n, x, best),
    ensures
        forall|y: int| 0 <= y < n ==> #[trigger] m.cost_at(x, y) >= -best,
        exists|y: int| 0 <= y < n && #[trigger] m.cost_at(x, y) == -best,
{
    reveal(gain);
    let y = choose|y: int| 0 <= y < n && best == #[trigger] gain(m, x, y);
    assert(m.cost_at(x, y) == -best);
    assert forall|y: int| 0 <= y < n implies #[trigger] m.cost_at(x, y) >= -best by {
        assert(best >= gain(m, x, y));
    }
}

/// No assignment of the same rows to different columns costs less than a cheapest one.
pub proof fn nothing_is_cheaper(m: ImgDiffWeights, a: Seq<usize>, other: Seq<usize>, n: int)
    requires
        cheapest(m, a, n),
        other.len() == a.len(),
        forall|i: int| 0 <= i < other.len() ==> #[trigger] other[i] < n,
        forall|i: int, j: int| 0 <= i < j < other.len() ==> #[trigger] other[i] != #[trigger] other[j],
    ensures
        total_cost(m, a) <= total_cost(m, other),
        forall|i: int| 0 <= i < a.len() ==> #[trigger] a[i] < n,
        forall|i: int, j: int| 0 <= i < j < a.len() ==> #[trigger] a[i] != #[trigger] a[j],
{
    assert(places(other, n));
}

} // verus!
