//! The steps of the exact matching, one after the other.
use crate::assignment;
use crate::cost::ImgDiffWeights;
use vstd::prelude::*;

verus! {

/// Where a matching stands: the column of each row and the row of each column, their labels, the
/// rows of the tree in the order in which they joined, the row that each column of the tree joined
/// from, and for each other column the smallest margin to a row of the tree and that row.
pub struct MatchState {
    pub xy: Seq<Option<usize>>,
    pub yx: Seq<Option<usize>>,
    pub lx: Seq<i64>,
    pub ly: Seq<i64>,
    pub xs: Seq<usize>,
    pub alternating: Seq<Option<usize>>,
    pub slack: Seq<i64>,
    pub slackx: Seq<usize>,
}

/// Whether a column is the first outside the tree with the smallest slack.
pub open spec fn is_nearest(alternating: Seq<Option<usize>>, slack: Seq<i64>, y: int) -> bool {
    &&& 0 <= y < alternating.len()
    &&& alternating[y] is None
    &&& forall|j: int|
        0 <= j < alternating.len() && #[trigger] alternating[j] is None ==> slack[y] < slack[j] || (
        slack[y] == slack[j] && y <= j)
}

/// The best gain of a row, if it fits 64 bits.
pub open spec fn best_gain(m: ImgDiffWeights, n: int, x: int) -> i64 {
    if exists|best: i64| assignment::is_best_gain(m, n, x, best as int) {
        choose|best: i64| assignment::is_best_gain(m, n, x, best as int)
    } else {
        0
    }
}

/// No row is matched, and each is labelled by its best gain.
pub open spec fn first_state(m: ImgDiffWeights, n: nat) -> MatchState {
    MatchState {
        xy: Seq::new(n, |x: int| None::<usize>),
        yx: Seq::new(n, |y: int| None::<usize>),
        lx: Seq::new(n, |x: int| best_gain(m, n as int, x)),
        ly: Seq::new(n, |y: int| 0i64),
        xs: Seq::empty(),
        alternating: Seq::empty(),
        slack: Seq::empty(),
        slackx: Seq::empty(),
    }
}

/// Rows and columns matched anew along a path: the column with the row that it joined from, and so
/// on with the column that this row had before. At most `steps` columns are matched.
pub open spec fn rematched(
    xy: Seq<Option<usize>>,
    yx: Seq<Option<usize>>,
    alternating: Seq<Option<usize>>,
    column: Option<usize>,
    steps: nat,
) -> (Seq<Option<usize>>, Seq<Option<usize>>)
    decreases steps,
{
    if steps == 0 || column is None {
        (xy, yx)
    } else {
        let y = column->0;
        let x = alternating[y as int]->0;
        rematched(
            xy.update(x as int, Some(y)),
            yx.update(y as int, Some(x)),
            alternating,
            xy[x as int],
            (steps - 1) as nat,
        )
    }
}

impl MatchState {
    /// The first column outside the tree with the smallest slack.
    pub open spec fn nearest(self) -> int {
        choose|y: int| is_nearest(self.alternating, self.slack, y)
    }

    /// The free column that the tree reaches next, if the nearest one is free.
    pub open spec fn reach(self) -> Option<usize> {
        if self.yx[self.nearest()] is None {
            Some(self.nearest() as usize)
        } else {
            None
        }
    }

    /// A tree planted at a row.
    #[verifier::opaque]
    pub open spec fn begun(self, m: ImgDiffWeights, root: usize) -> MatchState {
        let n = self.ly.len();
        MatchState {
            xs: seq![root],
            alternating: Seq::new(n, |y: int| None::<usize>),
            slack: Seq::new(
                n,
                |y: int|
                    (self.lx[root as int] + self.ly[y] - assignment::gain(m, root as int, y)) as i64,
            ),
            slackx: Seq::new(n, |y: int| root),
            ..self
        }
    }

    /// The labels shifted by a slack: rows of the tree carry less, columns of the tree more, and
    /// the others come nearer.
    #[verifier::opaque]
    pub open spec fn relabelled(self, delta: i64) -> MatchState {
        MatchState {
            lx: Seq::new(
                self.lx.len(),
                |x: int|
                    if self.xs.contains(x as usize) {
                        (self.lx[x] - delta) as i64
                    } else {
                        self.lx[x]
                    },
            ),
            ly: Seq::new(
                self.ly.len(),
                |y: int|
                    if self.alternating[y] is Some {
                        (self.ly[y] + delta) as i64
                    } else {
                        self.ly[y]
                    },
            ),
            slack: Seq::new(
                self.slack.len(),
                |y: int|
                    if self.alternating[y] is Some {
                        self.slack[y]
                    } else {
                        (self.slack[y] - delta) as i64
                    },
            ),
            ..self
        }
    }

    /// A row has joined the tree: columns outside that are nearer to it than to any other row of
    /// the tree remember it.
    #[verifier::opaque]
    pub open spec fn joined(self, m: ImgDiffWeights, row: usize) -> MatchState {
        let margin = |y: int|
            (self.lx[row as int] + self.ly[y] - assignment::gain(m, row as int, y)) as i64;
        let nearer = |y: int| self.alternating[y] is None && self.slack[y] > margin(y);
        MatchState {
            xs: self.xs.push(row),
            slack: Seq::new(
                self.slack.len(),
                |y: int|
                    if nearer(y) {
                        margin(y)
                    } else {
                        self.slack[y]
                    },
            ),
            slackx: Seq::new(
                self.slackx.len(),
                |y: int|
                    if nearer(y) {
                        row
                    } else {
                        self.slackx[y]
                    },
            ),
            ..self
        }
    }

    /// The tree with the nearest column, and with the row that it is matched with if there is one.
    #[verifier::opaque]
    pub open spec fn grown(self, m: ImgDiffWeights) -> MatchState {
        let y = self.nearest();
        let shifted = self.relabelled(self.slack[y]);
        let wider = MatchState {
            alternating: self.alternating.update(y, Some(self.slackx[y])),
            ..shifted
        };
        match self.yx[y] {
            Some(mate) => wider.joined(m, mate),
            None => wider,
        }
    }

    /// The tree after a number of steps.
    pub open spec fn climbed(self, m: ImgDiffWeights, steps: nat) -> MatchState
        decreases steps,
    {
        if steps == 0 {
            self
        } else {
            self.climbed(m, (steps - 1) as nat).grown(m)
        }
    }

    /// Whether the tree reaches a free column after so many steps, and not before.
    pub open spec fn reaches_after(self, m: ImgDiffWeights, steps: nat) -> bool {
        &&& steps > 0
        &&& self.climbed(m, (steps - 1) as nat).reach() is Some
        &&& forall|k: nat| k + 1 < steps ==> (#[trigger] self.climbed(m, k)).reach() is None
    }

    /// How many steps the tree takes to reach a free column, if it does.
    pub open spec fn height(self, m: ImgDiffWeights) -> nat {
        if exists|steps: nat| self.reaches_after(m, steps) {
            choose|steps: nat| self.reaches_after(m, steps)
        } else {
            0
        }
    }

    /// The matching swapped along the path from a column back to the root.
    #[verifier::opaque]
    pub open spec fn augmented(self, end: usize) -> MatchState {
        let (xy, yx) = rematched(
            self.xy,
            self.yx,
            self.alternating,
            Some(end),
            self.xy.len(),
        );
        MatchState { xy, yx, ..self }
    }

    /// One more row matched: a tree is planted there, grows until it reaches a free column, and
    /// the matching is swapped along the path.
    pub open spec fn extended(self, m: ImgDiffWeights, root: usize) -> MatchState {
        let planted = self.begun(m, root);
        let steps = planted.height(m);
        planted.climbed(m, steps).augmented(planted.climbed(m, (steps - 1) as nat).reach()->0)
    }
}

/// Where the matching stands when the first rows are matched.
pub open spec fn matched(m: ImgDiffWeights, rows: nat) -> MatchState
    decreases rows,
{
    if rows == 0 {
        first_state(m, m.target@.len())
    } else {
        matched(m, (rows - 1) as nat).extended(m, (rows - 1) as usize)
    }
}

/// How often the stop flag is read until the first rows are matched: for each row when it is
/// labelled and when it is taken up, and for each step of its tree.
pub open spec fn polls_until(m: ImgDiffWeights, rows: nat) -> nat
    decreases rows,
{
    if rows == 0 {
        m.target@.len()
    } else {
        let root = (rows - 1) as nat;
        polls_until(m, root) + 1 + matched(m, root).begun(m, root as usize).height(m)
    }
}

/// Only one column is the first with the smallest slack.
pub(crate) proof fn lemma_nearest(s: MatchState, y: int)
    requires
        is_nearest(s.alternating, s.slack, y),
    ensures
        s.nearest() == y,
{
    let z = s.nearest();
    assert(is_nearest(s.alternating, s.slack, z));
    assert(s.alternating[y] is None && s.alternating[z] is None);
}

/// A tree reaches a free column for the first time only once.
pub(crate) proof fn lemma_height(s: MatchState, m: ImgDiffWeights, steps: nat)
    requires
        s.reaches_after(m, steps),
    ensures
        s.height(m) == steps,
{
    let other = s.height(m);
    assert(s.reaches_after(m, other));
    if other < steps {
        assert(s.climbed(m, (other - 1) as nat).reach() is None);
    }
    if steps < other {
        assert(s.climbed(m, (steps - 1) as nat).reach() is None);
    }
}

/// A row has only one best gain.
pub(crate) proof fn lemma_best_gain(m: ImgDiffWeights, n: int, x: int, best: i64)
    requires
        assignment::is_best_gain(m, n, x, best as int),
    ensures
        best_gain(m, n, x) == best,
{
    let other = best_gain(m, n, x);
    assert(assignment::is_best_gain(m, n, x, other as int));
    let y = choose|y: int| 0 <= y < n && best == #[trigger] assignment::gain(m, x, y);
    let z = choose|y: int| 0 <= y < n && other == #[trigger] assignment::gain(m, x, y);
    assert(other >= assignment::gain(m, x, y) && best >= assignment::gain(m, x, z));
}

/// Both matrices have the same gains.
pub(crate) open spec fn same_gains(m: ImgDiffWeights, other: ImgDiffWeights) -> bool {
    &&& m.target@.len() == other.target@.len()
    &&& forall|x: int, y: int| #[trigger] assignment::gain(m, x, y) == assignment::gain(other, x, y)
}

proof fn lemma_grown_repeats(s: MatchState, m: ImgDiffWeights, other: ImgDiffWeights)
    requires
        same_gains(m, other),
    ensures
        s.grown(m) == s.grown(other),
{
    reveal(MatchState::grown);
    reveal(MatchState::joined);
    let y = s.nearest();
    if s.yx[y] is Some {
        let mate = s.yx[y]->0;
        let wider = MatchState {
            alternating: s.alternating.update(y, Some(s.slackx[y])),
            ..s.relabelled(s.slack[y])
        };
        assert forall|j: int|
            assignment::gain(m, mate as int, j) == #[trigger] assignment::gain(
                other,
                mate as int,
                j,
            ) by {
            assert(assignment::gain(m, mate as int, j) == assignment::gain(other, mate as int, j));
        }
        assert(wider.joined(m, mate).slack =~= wider.joined(other, mate).slack);
        assert(wider.joined(m, mate).slackx =~= wider.joined(other, mate).slackx);
    }
}

proof fn lemma_climbed_repeats(
    s: MatchState,
    m: ImgDiffWeights,
    other: ImgDiffWeights,
    steps: nat,
)
    requires
        same_gains(m, other),
    ensures
        s.climbed(m, steps) == s.climbed(other, steps),
    decreases steps,
{
    if steps > 0 {
        lemma_climbed_repeats(s, m, other, (steps - 1) as nat);
        lemma_grown_repeats(s.climbed(m, (steps - 1) as nat), m, other);
    }
}

proof fn lemma_extended_repeats(
    s: MatchState,
    m: ImgDiffWeights,
    other: ImgDiffWeights,
    root: usize,
)
    requires
        same_gains(m, other),
    ensures
        s.begun(m, root) == s.begun(other, root),
        s.begun(m, root).height(m) == s.begun(m, root).height(other),
        s.extended(m, root) == s.extended(other, root),
{
    reveal(MatchState::begun);
    assert forall|j: int|
        assignment::gain(m, root as int, j) == #[trigger] assignment::gain(
            other,
            root as int,
            j,
        ) by {
        assert(assignment::gain(m, root as int, j) == assignment::gain(other, root as int, j));
    }
    assert(s.begun(m, root).slack =~= s.begun(other, root).slack);
    let planted = s.begun(m, root);
    assert forall|steps: nat| #[trigger]
        planted.climbed(m, steps) == planted.climbed(other, steps) by {
        lemma_climbed_repeats(planted, m, other, steps);
    }
    assert forall|steps: nat| #[trigger]
        planted.reaches_after(m, steps) == planted.reaches_after(other, steps) by {
        lemma_climbed_repeats(planted, m, other, (steps - 1) as nat);
        assert forall|k: nat| #[trigger]
            planted.climbed(other, k) == planted.climbed(m, k) by {
            lemma_climbed_repeats(planted, m, other, k);
        }
    }
    if exists|steps: nat| planted.reaches_after(m, steps) {
        let steps = choose|steps: nat| planted.reaches_after(m, steps);
        assert(planted.reaches_after(m, steps) == planted.reaches_after(other, steps));
        lemma_height(planted, m, steps);
        lemma_height(planted, other, steps);
    } else {
        assert forall|steps: nat| !planted.reaches_after(other, steps) by {
            assert(planted.reaches_after(m, steps) == planted.reaches_after(other, steps));
        }
    }
    lemma_climbed_repeats(planted, m, other, planted.height(m));
    lemma_climbed_repeats(planted, m, other, (planted.height(m) - 1) as nat);
}

/// Matrices that hold the same are matched in the same steps.
pub proof fn matching_repeats(m: ImgDiffWeights, other: ImgDiffWeights, rows: nat)
    requires
        m.holds_the_same(other),
    ensures
        matched(m, rows) == matched(other, rows),
        polls_until(m, rows) == polls_until(other, rows),
    decreases rows,
{
    reveal(assignment::gain);
    let n = m.target@.len();
    assert(same_gains(m, other));
    if rows == 0 {
        assert forall|x: int| #[trigger] best_gain(m, n as int, x) == best_gain(other, n as int, x) by {
            assert forall|best: i64| #[trigger]
                assignment::is_best_gain(m, n as int, x, best as int) == assignment::is_best_gain(
                    other,
                    n as int,
                    x,
                    best as int,
                ) by {
                lemma_same_best_gain(m, other, n as int, x, best as int);
            }
            if exists|best: i64| assignment::is_best_gain(m, n as int, x, best as int) {
                let best = choose|best: i64| assignment::is_best_gain(m, n as int, x, best as int);
                lemma_same_best_gain(m, other, n as int, x, best as int);
                lemma_best_gain(m, n as int, x, best);
                lemma_best_gain(other, n as int, x, best);
            } else {
                assert forall|best: i64|
                    !assignment::is_best_gain(other, n as int, x, best as int) by {
                    lemma_same_best_gain(m, other, n as int, x, best as int);
                }
            }
        }
        assert(first_state(m, n).lx =~= first_state(other, n).lx);
    } else {
        let root = (rows - 1) as nat;
        matching_repeats(m, other, root);
        lemma_extended_repeats(matched(m, root), m, other, root as usize);
    }
}

proof fn lemma_same_best_gain(
    m: ImgDiffWeights,
    other: ImgDiffWeights,
    n: int,
    x: int,
    best: int,
)
    requires
        same_gains(m, other),
    ensures
        assignment::is_best_gain(m, n, x, best) == assignment::is_best_gain(other, n, x, best),
{
    assert forall|y: int|
        assignment::gain(m, x, y) == #[trigger] assignment::gain(other, x, y) by {
        assert(assignment::gain(m, x, y) == assignment::gain(other, x, y));
    }
    if exists|y: int| 0 <= y < n && best == #[trigger] assignment::gain(other, x, y) {
        let y = choose|y: int| 0 <= y < n && best == #[trigger] assignment::gain(other, x, y);
        assert(best == assignment::gain(m, x, y));
    }
}

/// A matching begins with no row and no column matched, each row labelled by its greatest gain and
/// each column by none.
pub proof fn matchings_begin_with_best_gains(m: ImgDiffWeights, x: int, best: i64)
    requires
        0 <= x < m.target@.len(),
        forall|y: int| 0 <= y < m.target@.len() ==> best >= #[trigger] -m.cost_at(x, y),
        exists|y: int| 0 <= y < m.target@.len() && best == #[trigger] -m.cost_at(x, y),
    ensures
        ({
            let s = matched(m, 0);
            &&& s.xy.len() == m.target@.len()
            &&& s.yx.len() == m.target@.len()
            &&& s.lx.len() == m.target@.len()
            &&& s.ly.len() == m.target@.len()
            &&& s.xy[x] is None
            &&& s.yx[x] is None
            &&& s.lx[x] == best
            &&& s.ly[x] == 0
        }),
{
    reveal(assignment::gain);
    let n = m.target@.len() as int;
    assert(assignment::is_best_gain(m, n, x, best as int)) by {
        let y = choose|y: int| 0 <= y < n && best == #[trigger] -m.cost_at(x, y);
        assert(best == assignment::gain(m, x, y));
        assert forall|y: int| 0 <= y < n implies best >= #[trigger] assignment::gain(m, x, y) by {
            assert(best >= -m.cost_at(x, y));
        }
    }
    lemma_best_gain(m, n, x, best);
}

/// Of the columns outside the tree, the first one with the smallest slack is taken next.
pub proof fn the_first_nearest_column_is_taken(s: MatchState, y: int)
    requires
        0 <= y < s.alternating.len(),
        s.alternating[y] is None,
        forall|j: int|
            0 <= j < y && #[trigger] s.alternating[j] is None ==> s.slack[y] < s.slack[j],
        forall|j: int|
            y < j < s.alternating.len() && #[trigger] s.alternating[j] is None ==> s.slack[y]
                <= s.slack[j],
        y <= usize::MAX,
    ensures
        s.nearest() == y,
        s.reach() == if s.yx[y] is None {
            Some(y as usize)
        } else {
            None
        },
{
    assert(is_nearest(s.alternating, s.slack, y));
    lemma_nearest(s, y);
}

/// A planted tree holds its root alone; every column remembers it, with what its labels exceed the
/// gain by.
pub proof fn trees_begin_at_their_root(s: MatchState, m: ImgDiffWeights, root: usize, y: int)
    requires
        0 <= y < s.ly.len(),
    ensures
        ({
            let t = s.begun(m, root);
            &&& t.xs == seq![root]
            &&& t.alternating.len() == s.ly.len()
            &&& t.alternating[y] is None
            &&& t.slack[y] == (s.lx[root as int] + s.ly[y] + m.cost_at(root as int, y)) as i64
            &&& t.slackx[y] == root
            &&& (t.xy, t.yx, t.lx, t.ly) == (s.xy, s.yx, s.lx, s.ly)
        }),
{
    reveal(MatchState::begun);
    reveal(assignment::gain);
}

/// A step of a tree shifts the labels by the smallest slack and adds its column, which joins from the
/// row that it remembers. If the column is matched, its row joins too, and the columns outside that are
/// nearer to it remember it.
pub proof fn trees_grow_by_the_nearest_column(s: MatchState, m: ImgDiffWeights, x: int, j: int)
    requires
        s.lx.len() == s.alternating.len(),
        s.ly.len() == s.alternating.len(),
        s.slack.len() == s.alternating.len(),
        s.slackx.len() == s.alternating.len(),
        0 <= s.nearest() < s.alternating.len(),
        0 <= x < s.alternating.len(),
        0 <= j < s.alternating.len(),
        j != s.nearest(),
    ensures
        ({
            let t = s.grown(m);
            let y = s.nearest();
            let delta = s.slack[y];
            &&& (t.xy, t.yx) == (s.xy, s.yx)
            &&& t.alternating == s.alternating.update(y, Some(s.slackx[y]))
            &&& t.lx[x] == if s.xs.contains(x as usize) {
                (s.lx[x] - delta) as i64
            } else {
                s.lx[x]
            }
            &&& t.ly[j] == if s.alternating[j] is Some {
                (s.ly[j] + delta) as i64
            } else {
                s.ly[j]
            }
            &&& s.yx[y] is None ==> t.xs == s.xs && t.slackx == s.slackx
            &&& s.yx[y] matches Some(mate) ==> t.xs == s.xs.push(mate)
            &&& s.alternating[j] is Some ==> t.slackx[j] == s.slackx[j]
            &&& s.alternating[j] is None ==> ({
                let shifted = (s.slack[j] - delta) as i64;
                match s.yx[y] {
                    None => t.slack[j] == shifted,
                    Some(mate) => {
                        let margin = (t.lx[mate as int] + t.ly[j] + m.cost_at(
                            mate as int,
                            j,
                        )) as i64;
                        &&& t.slack[j] == if shifted > margin {
                            margin
                        } else {
                            shifted
                        }
                        &&& t.slackx[j] == if shifted > margin {
                            mate
                        } else {
                            s.slackx[j]
                        }
                    },
                }
            })
        }),
{
    reveal(MatchState::grown);
    reveal(MatchState::joined);
    reveal(MatchState::relabelled);
    reveal(assignment::gain);
}

/// A path is followed back from the column that was reached: the column takes the row that it joined
/// from, and the column that this row had before is next.
pub proof fn paths_are_followed_back(
    xy: Seq<Option<usize>>,
    yx: Seq<Option<usize>>,
    alternating: Seq<Option<usize>>,
    y: usize,
    x: usize,
    steps: nat,
)
    requires
        alternating[y as int] == Some(x),
    ensures
        rematched(xy, yx, alternating, None, steps) == (xy, yx),
        rematched(xy, yx, alternating, Some(y), steps + 1) == rematched(
            xy.update(x as int, Some(y)),
            yx.update(y as int, Some(x)),
            alternating,
            xy[x as int],
            steps,
        ),
{
}

/// The stop flag is read once for every row before the first is taken up, once more when a row is taken
/// up, and once for each step until its tree reaches a free column.
pub proof fn flags_are_read_at_every_step(m: ImgDiffWeights, rows: nat, steps: nat)
    requires
        rows <= usize::MAX,
        steps > 0,
        ({
            let planted = matched(m, rows).begun(m, rows as usize);
            &&& planted.climbed(m, (steps - 1) as nat).reach() is Some
            &&& forall|k: nat| k + 1 < steps ==> (#[trigger] planted.climbed(m, k)).reach() is None
        }),
    ensures
        polls_until(m, 0) == m.target@.len(),
        polls_until(m, rows + 1) == polls_until(m, rows) + 1 + steps,
        matched(m, rows + 1) == ({
            let planted = matched(m, rows).begun(m, rows as usize);
            planted.climbed(m, steps).augmented(planted.climbed(m, (steps - 1) as nat).reach()->0)
        }),
{
    let planted = matched(m, rows).begun(m, rows as usize);
    assert(planted.reaches_after(m, steps));
    let height = planted.height(m);
    assert(planted.reaches_after(m, height));
    if height < steps {
        assert(planted.climbed(m, (height - 1) as nat).reach() is None);
    }
    if steps < height {
        assert(planted.climbed(m, (steps - 1) as nat).reach() is None);
    }
}

/// A tree after no step is as it was planted, and after one more it has grown once more.
pub proof fn trees_climb_step_by_step(s: MatchState, m: ImgDiffWeights, steps: nat)
    ensures
        s.climbed(m, 0) == s,
        s.climbed(m, steps + 1) == s.climbed(m, steps).grown(m),
{
}

} // verus!
