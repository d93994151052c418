//! The job that finds the cheapest rearrangement.
use crate::assignment;
use crate::assignment::Matcher;
use crate::cost;
use crate::cost::ImgDiffWeights;
use crate::errors::{ProcessError, MAX_OPTIMAL_SIDELEN};
use crate::match_steps;
use crate::messages;
use crate::messages::{Cancellation, Fraction, Message, Outbox, ProgressMsg, ProgressSink};
use crate::prepare;
use crate::prepare::Request;
use crate::preset;
use crate::preset::UnprocessedPreset;
use crate::preview;
use crate::settings;
use crate::settings::{CropWindows, GenerationSettings, Portrait};
use std::sync::atomic::AtomicBool;
use std::sync::Arc;
use vstd::math;
use vstd::prelude::*;

verus! {

/// How many rows lie between two reports if there are to be about `parts` of them.
pub open spec fn report_every(n: int, parts: int) -> int {
    if n / parts < 1 {
        1
    } else {
        n / parts
    }
}

/// The share of the work that is done when row `row` has been labelled: from one thousandth
/// to a tenth.
pub open spec fn label_share(n: int, row: int) -> Fraction {
    Fraction { numerator: (n + 99 * (row + 1)) as u64, denominator: (1000 * n) as u64 }
}

/// The share of the work that is done when row `row` has been matched: from a tenth to all
/// but one thousandth.
pub open spec fn match_share(n: int, row: int) -> Fraction {
    Fraction { numerator: (100 * n + 899 * (row + 1)) as u64, denominator: (1000 * n) as u64 }
}

/// What is told while the first `rows` rows are labelled.
pub open spec fn label_messages(n: int, rows: int) -> Seq<Message>
    decreases rows,
{
    if rows <= 0 {
        Seq::empty()
    } else if (rows - 1) % report_every(n, 50) == 0 {
        label_messages(n, rows - 1).push(Message::Progress(label_share(n, rows - 1)))
    } else {
        label_messages(n, rows - 1)
    }
}

/// Whether matching a row is reported.
pub open spec fn match_reported(n: int, row: int) -> bool {
    row % report_every(n, 100) == 0 || row + 1 == n
}

/// The columns of the first rows, and zero for the others.
pub open spec fn padded(columns: Seq<usize>, n: int) -> Seq<usize> {
    Seq::new(
        n as nat,
        |x: int| if x < columns.len() {
            columns[x]
        } else {
            0
        },
    )
}

/// Whether a message shows the cheapest assignment of the first `rows` rows.
pub open spec fn shows_cheapest(m: ImgDiffWeights, rows: int, message: Message) -> bool {
    exists|columns: Seq<usize>| #[trigger]
        assignment::cheapest(m, columns, m.target.len() as int) && columns.len() == rows && message
            == (Message::UpdatePreview {
            width: m.sidelen as u32,
            height: m.sidelen as u32,
            data: preview::rearranged(
                m.source@,
                padded(columns, m.target.len() as int),
                m.sidelen as u32,
            ),
        })
}

/// What may be told while the first `rows` rows are matched: at each reported row the share
/// of the work and a preview.
pub open spec fn is_match_trace(trace: Seq<Message>, m: ImgDiffWeights, rows: int) -> bool
    decreases rows,
{
    let n = m.target.len() as int;
    if rows <= 0 {
        trace.len() == 0
    } else if match_reported(n, rows - 1) {
        &&& trace.len() >= 2
        &&& is_match_trace(trace.take(trace.len() - 2), m, rows - 1)
        &&& trace[trace.len() - 2] == Message::Progress(match_share(n, rows - 1))
        &&& shows_cheapest(m, rows, trace.last())
    } else {
        is_match_trace(trace, m, rows - 1)
    }
}

/// The columns of the first rows when they are matched.
pub open spec fn found_columns(m: ImgDiffWeights, rows: int) -> Seq<usize> {
    assignment::columns_of(match_steps::matched(m, rows as nat).xy, rows)
}

/// What is told while the first `rows` rows are matched.
pub open spec fn match_messages(m: ImgDiffWeights, rows: int) -> Seq<Message>
    decreases rows,
{
    let n = m.target.len() as int;
    if rows <= 0 {
        Seq::empty()
    } else if match_reported(n, rows - 1) {
        match_messages(m, rows - 1).push(Message::Progress(match_share(n, rows - 1))).push(
            Message::UpdatePreview {
                width: m.sidelen as u32,
                height: m.sidelen as u32,
                data: preview::rearranged(
                    m.source@,
                    padded(found_columns(m, rows), n),
                    m.sidelen as u32,
                ),
            },
        )
    } else {
        match_messages(m, rows - 1)
    }
}

/// Whether the tree of the row after the first `rows` grows for so many steps without reaching a
/// free column.
pub open spec fn grows_for(m: ImgDiffWeights, rows: int, steps: int) -> bool {
    let planted = match_steps::matched(m, rows as nat).begun(m, rows as usize);
    forall|k: nat| k < steps ==> (#[trigger] planted.climbed(m, k)).reach() is None
}

/// What is told by a matching that runs to its end with this result. The stop flag is read
/// for each row when it is labelled and when it is taken up, and for each step of its tree, of
/// which there is at least one and at most one for each column.
pub open spec fn is_full_trace(
    trace: Seq<Message>,
    polls: int,
    m: ImgDiffWeights,
    columns: Seq<usize>,
) -> bool {
    let n = m.target.len() as int;
    &&& 3 * n <= polls <= 2 * n + n * n
    &&& polls == match_steps::polls_until(m, n as nat)
    &&& columns.len() == n
    &&& columns == found_columns(m, n)
    &&& assignment::cheapest(m, columns, n)
    &&& is_match_trace(match_messages(m, n), m, n)
    &&& trace == label_messages(n, n) + match_messages(m, n)
}

/// What is told by a matching that is stopped: while a row is labelled, or when one is taken up
/// or its tree is about to take another step.
pub open spec fn is_cut_trace(trace: Seq<Message>, polls: int, m: ImgDiffWeights) -> bool {
    let n = m.target.len() as int;
    ||| exists|rows: int|
        0 <= rows < n && polls == rows + 1 && trace == #[trigger] label_messages(n, rows).push(
            Message::Cancelled,
        )
    ||| exists|rows: int|
        0 <= rows < n && #[trigger] is_match_trace(match_messages(m, rows), m, rows) && {
            &&& n + 2 * rows < polls
            &&& match_steps::polls_until(m, rows as nat) < polls
            &&& grows_for(m, rows, polls - match_steps::polls_until(m, rows as nat) - 2)
            &&& trace == (label_messages(n, n) + match_messages(m, rows)).push(Message::Cancelled)
        }
}

/// Finds the cheapest assignment of source pixels to cells, and tells about it on the way.
/// Gives up as soon as it is told to stop.
pub fn match_optimally<S: ProgressSink>(
    m: &ImgDiffWeights,
    tx: &mut Outbox<S>,
    cancel: &mut Cancellation,
) -> (result: Option<Vec<usize>>)
    requires
        m.wf(),
        !m.negated,
        m.sidelen <= MAX_OPTIMAL_SIDELEN,
        old(cancel).wf(),
        messages::undisturbed(old(cancel).seen()),
        old(tx).wf(),
    ensures
        final(cancel).wf(),
        final(cancel).flag() == old(cancel).flag(),
        final(tx).wf(),
        final(tx).first() == old(tx).first(),
        final(tx).sent() == old(tx).sent() + messages::news(old(tx).sent(), final(tx).sent()),
        ({
            let trace = messages::news(old(tx).sent(), final(tx).sent());
            let polls = final(cancel).seen().len() - old(cancel).seen().len();
            match result {
                Some(columns) => {
                    &&& messages::undisturbed(final(cancel).seen())
                    &&& is_full_trace(trace, polls, *m, columns@)
                },
                None => {
                    &&& messages::stopped_at_last(final(cancel).seen())
                    &&& is_cut_trace(trace, polls, *m)
                },
            }
        }),
{
    let n: usize = m.rows();
    let ghost sent0 = tx.sent();
    let ghost seen0 = cancel.seen().len() as int;
    proof {
        assert(1 <= m.sidelen * m.sidelen <= 1024) by (nonlinear_arith)
            requires
                1 <= m.sidelen <= 32,
        ;
    }
    let label_every: usize = if n / 50 < 1 {
        1
    } else {
        n / 50
    };
    let mut lx: Vec<i64> = Vec::with_capacity(n);
    let mut row: usize = 0;
    while row < n
        invariant
            m.wf(),
            !m.negated,
            n == m.target.len(),
            n == m.source.len(),
            1 <= n <= 1024,
            row <= n,
            label_every == report_every(n as int, 50),
            lx.len() == row,
            cancel.wf(),
            cancel.flag() == old(cancel).flag(),
            messages::undisturbed(cancel.seen()),
            cancel.seen().len() == seen0 + row,
            seen0 == old(cancel).seen().len(),
            tx.sent() == sent0 + label_messages(n as int, row as int),
            tx.wf(),
            tx.first() == old(tx).first(),
            sent0 == old(tx).sent(),
            forall|x: int|
                0 <= x < row ==> assignment::is_best_gain(
                    *m,
                    n as int,
                    x,
                    #[trigger] lx[x] as int,
                ),
        decreases n - row,
    {
        let stop: bool = cancel.poll();
        if stop {
            tx.send(ProgressMsg::Cancelled);
            proof {
                messages::lemma_stopped(cancel.seen());
                let told = label_messages(n as int, row as int).push(Message::Cancelled);
                assert(is_cut_trace(told, cancel.seen().len() - seen0, *m));
                assert(tx.sent() =~= sent0 + told);
                messages::lemma_news(sent0, told);
            }
            return None;
        }
        lx.push(assignment::row_best(m, row));
        if row % label_every == 0 {
            let share = Fraction {
                numerator: (n + 99 * (row + 1)) as u64,
                denominator: (1000 * n) as u64,
            };
            tx.send(ProgressMsg::Progress(share));
        }
        row = row + 1;
        assert(tx.sent() =~= sent0 + label_messages(n as int, row as int));
    }
    let ghost labelled = label_messages(n as int, n as int);
    let match_every: usize = if n / 100 < 1 {
        1
    } else {
        n / 100
    };
    let mut matcher = Matcher::new(m, lx);
    assert(tx.sent() =~= sent0 + labelled + match_messages(*m, 0));
    let mut root: usize = 0;
    while root < n
        invariant
            m.wf(),
            !m.negated,
            n == m.target.len(),
            n == m.source.len(),
            1 <= n <= 1024,
            n == m.sidelen * m.sidelen,
            m.sidelen <= MAX_OPTIMAL_SIDELEN,
            root <= n,
            match_every == report_every(n as int, 100),
            matcher.settled(*m, n as int, root as int),
            cancel.wf(),
            cancel.flag() == old(cancel).flag(),
            messages::undisturbed(cancel.seen()),
            matcher.state() == match_steps::matched(*m, root as nat),
            cancel.seen().len() - seen0 == match_steps::polls_until(*m, root as nat),
            n + 2 * root <= cancel.seen().len() - seen0 <= n + root + root * n,
            seen0 == old(cancel).seen().len(),
            labelled == label_messages(n as int, n as int),
            is_match_trace(match_messages(*m, root as int), *m, root as int),
            tx.sent() == sent0 + labelled + match_messages(*m, root as int),
            tx.wf(),
            tx.first() == old(tx).first(),
            sent0 == old(tx).sent(),
        decreases n - root,
    {
        let ghost told = match_messages(*m, root as int);
        let stop: bool = cancel.poll();
        if stop {
            tx.send(ProgressMsg::Cancelled);
            proof {
                messages::lemma_stopped(cancel.seen());
                assert(grows_for(*m, root as int, -1));
                assert(is_cut_trace(
                    (labelled + told).push(Message::Cancelled),
                    cancel.seen().len() - seen0,
                    *m,
                ));
                assert(tx.sent() =~= sent0 + (labelled + told).push(Message::Cancelled));
                messages::lemma_news(sent0, (labelled + told).push(Message::Cancelled));
            }
            return None;
        }
        matcher.begin(m, root);
        let ghost planted = matcher.state();
        let ghost polled = match_steps::polls_until(*m, root as nat);
        let mut end: Option<usize> = None;
        while end.is_none()
            invariant
                m.wf(),
                !m.negated,
                n == m.target.len(),
                root < n,
                match end {
                    None => matcher.growing(*m, n as int, root as int),
                    Some(y) => y < n && matcher.reached(*m, n as int, root as int, y as int),
                },
                matcher.width() <= n,
                planted == match_steps::matched(*m, root as nat).begun(*m, root),
                polled == match_steps::polls_until(*m, root as nat),
                told == match_messages(*m, root as int),
                matcher.state() == planted.climbed(*m, matcher.width()),
                cancel.seen().len() - seen0 == polled + 1 + matcher.width(),
                match end {
                    None => forall|k: nat|
                        k < matcher.width() ==> (#[trigger] planted.climbed(*m, k)).reach() is None,
                    Some(y) => {
                        &&& planted.reaches_after(*m, matcher.width())
                        &&& planted.climbed(*m, (matcher.width() - 1) as nat).reach() == Some(y)
                    },
                },
                cancel.wf(),
                cancel.flag() == old(cancel).flag(),
                messages::undisturbed(cancel.seen()),
                end is Some ==> matcher.width() >= 1,
                n + 2 * root + 1 + matcher.width() <= cancel.seen().len() - seen0,
                cancel.seen().len() - seen0 <= n + root + 1 + root * n + matcher.width(),
                seen0 == old(cancel).seen().len(),
                labelled == label_messages(n as int, n as int),
                is_match_trace(told, *m, root as int),
                tx.sent() == sent0 + labelled + told,
                tx.wf(),
                tx.first() == old(tx).first(),
                sent0 == old(tx).sent(),
            decreases
                    n - matcher.width() + (if end is None {
                        1int
                    } else {
                        0int
                    }),
        {
            let stop: bool = cancel.poll();
            if stop {
                tx.send(ProgressMsg::Cancelled);
                proof {
                    messages::lemma_stopped(cancel.seen());
                    assert(grows_for(*m, root as int, matcher.width() as int));
                    assert(is_cut_trace(
                        (labelled + told).push(Message::Cancelled),
                        cancel.seen().len() - seen0,
                        *m,
                    ));
                    assert(tx.sent() =~= sent0 + (labelled + told).push(Message::Cancelled));
                    messages::lemma_news(sent0, (labelled + told).push(Message::Cancelled));
                }
                return None;
            }
            end = matcher.grow(m, root);
        }
        proof {
            match_steps::lemma_height(planted, *m, matcher.width());
        }
        matcher.augment(m, root, end.unwrap());
        proof {
            assert(matcher.state() == match_steps::matched(*m, (root + 1) as nat));
            matcher.lemma_assigned();
        }
        if root % match_every == 0 || root + 1 == n {
            let share = Fraction {
                numerator: (100 * n + 899 * (root + 1)) as u64,
                denominator: (1000 * n) as u64,
            };
            tx.send(ProgressMsg::Progress(share));
            let columns = matcher.columns_or_zero();
            proof {
                assert(m.sidelen as u32 * m.sidelen as u32 == n) by (nonlinear_arith)
                    requires
                        n == m.sidelen * m.sidelen,
                        0 <= m.sidelen <= 32,
                        m.sidelen as u32 == m.sidelen,
                ;
            }
            let side: u32 = m.sidelen as u32;
            let data = preview::make_new_img(m.source.as_slice(), columns.as_slice(), side);
            tx.send(ProgressMsg::UpdatePreview { width: side, height: side, data });
            proof {
                matcher.lemma_settled_is_cheapest(*m, n as int, root + 1);
                let best = assignment::columns_of(matcher.assigned(), root + 1);
                assert(columns@ =~= padded(best, n as int));
                let longer = match_messages(*m, root + 1);
                assert(shows_cheapest(*m, root + 1, longer.last()));
                assert(longer.take(longer.len() - 2) =~= told);
                assert(tx.sent() =~= sent0 + labelled + longer);
            }
        }
        proof {
            assert((root + 1) * n == root * n + n) by (nonlinear_arith);
        }
        root = root + 1;
    }
    let columns = matcher.columns_or_zero();
    let ghost told = match_messages(*m, n as int);
    proof {
        matcher.lemma_settled_is_cheapest(*m, n as int, n as int);
        matcher.lemma_assigned();
        assert(columns@ =~= assignment::columns_of(matcher.assigned(), n as int));
        assert(is_full_trace(labelled + told, cancel.seen().len() - seen0, *m, columns@));
        assert(tx.sent() =~= sent0 + (labelled + told));
        messages::lemma_news(sent0, labelled + told);
    }
    Some(columns)
}

/// What is told by a job that runs to its end with this result.
pub open spec fn is_finished_job(
    trace: Seq<Message>,
    polls: int,
    name: Seq<char>,
    m: ImgDiffWeights,
    columns: Seq<usize>,
) -> bool {
    &&& trace.len() >= 2
    &&& trace[0] == Message::Progress(messages::start_share())
    &&& is_full_trace(trace.subrange(1, trace.len() - 1), polls, m, columns)
    &&& trace.last() == Message::Done(
        preview::finished_preset(name, m.sidelen as u32, m.source@, columns),
    )
}

/// What is told by a job that is stopped.
pub open spec fn is_stopped_job(trace: Seq<Message>, polls: int, m: ImgDiffWeights) -> bool {
    &&& trace.len() >= 1
    &&& trace[0] == Message::Progress(messages::start_share())
    &&& is_cut_trace(trace.skip(1), polls, m)
}

/// Where costs may be computed, they can be added and compared within 64 bits. Above the largest
/// resolution of the job, none are.
pub open spec fn is_affordable(asked: Request) -> bool {
    asked.settings.sidelen <= MAX_OPTIMAL_SIDELEN ==> asked.affordable()
}

/// Why a job is not run, and what it tells before it says so.
pub open spec fn is_refused_job(trace: Seq<Message>, asked: Request, error: ProcessError) -> bool {
    let sidelen = asked.settings.sidelen;
    if !settings::valid_sidelen(sidelen) {
        error == ProcessError::Resolution(sidelen) && trace.len() == 0
    } else if sidelen > MAX_OPTIMAL_SIDELEN {
        error == ProcessError::OptimalResolution(sidelen) && trace.len() == 0
    } else {
        asked.refused_with(error) && trace == seq![Message::Progress(messages::start_share())]
    }
}

/// A run of the job that found the cheapest assignment, or was stopped: what it tells, all that
/// was read from the stop flag, and how often it was read in this run.
pub open spec fn is_run(
    trace: Seq<Message>,
    seen: Seq<bool>,
    polls: int,
    asked: Request,
    m: ImgDiffWeights,
) -> bool {
    &&& asked.asks_for(m)
    &&& if messages::undisturbed(seen) {
        exists|columns: Seq<usize>| #[trigger]
            is_finished_job(trace, polls, asked.picture.name, m, columns)
    } else {
        messages::stopped_at_last(seen) && is_stopped_job(trace, polls, m)
    }
}

/// Rearranges a picture at the least cost, and polls a stop flag on the way.
pub fn process_optimal_until<S: ProgressSink>(
    unprocessed: UnprocessedPreset,
    settings: &GenerationSettings,
    portrait: &Portrait,
    windows: &CropWindows,
    tx: &mut Outbox<S>,
    cancel: &mut Cancellation,
) -> (result: Result<(), ProcessError>)
    requires
        is_affordable(prepare::request(unprocessed, *settings, *portrait, *windows)),
        old(cancel).wf(),
        messages::undisturbed(old(cancel).seen()),
        old(tx).wf(),
    ensures
        ({
            let asked = prepare::request(unprocessed, *settings, *portrait, *windows);
            let trace = messages::news(old(tx).sent(), final(tx).sent());
            let polls = final(cancel).seen().len() - old(cancel).seen().len();
            &&& final(tx).wf()
            &&& final(tx).first() == old(tx).first()
            &&& final(tx).sent() == old(tx).sent() + trace
            &&& final(cancel).wf()
            &&& final(cancel).flag() == old(cancel).flag()
            &&& match result {
                Ok(_) => {
                    &&& settings.sidelen <= MAX_OPTIMAL_SIDELEN
                    &&& exists|m: ImgDiffWeights| #[trigger]
                        is_run(trace, final(cancel).seen(), polls, asked, m)
                },
                Err(error) => {
                    &&& is_refused_job(trace, asked, error)
                    &&& final(cancel).seen() == old(cancel).seen()
                },
            }
        }),
{
    let ghost asked = prepare::request(unprocessed, *settings, *portrait, *windows);
    let ghost sent0 = tx.sent();
    let ghost seen0 = cancel.seen().len() as int;
    match settings::validate_sidelen(settings.sidelen) {
        Ok(_) => {},
        Err(error) => {
            proof {
                messages::lemma_news(sent0, Seq::empty());
                assert(tx.sent() =~= sent0 + Seq::empty());
            }
            return Err(error);
        },
    }
    if settings.sidelen > MAX_OPTIMAL_SIDELEN {
        proof {
            messages::lemma_news(sent0, Seq::empty());
            assert(tx.sent() =~= sent0 + Seq::empty());
        }
        return Err(ProcessError::OptimalResolution(settings.sidelen));
    }
    tx.send(ProgressMsg::Progress(Fraction { numerator: 1, denominator: 1000 }));
    let ghost start = seq![Message::Progress(messages::start_share())];
    let ghost sent1 = tx.sent();
    assert(sent1 =~= sent0 + start);
    let m = match prepare::prepare(&unprocessed, settings, portrait, windows) {
        Ok(m) => m,
        Err(error) => {
            proof {
                messages::lemma_news(sent0, start);
            }
            return Err(error);
        },
    };
    match match_optimally(&m, tx, cancel) {
        Some(columns) => {
            let ghost middle = messages::news(sent1, tx.sent());
            let ghost done = Message::Done(
                preview::finished_preset(
                    unprocessed.name@,
                    m.sidelen as u32,
                    m.source@,
                    columns@,
                ),
            );
            proof {
                assert(m.sidelen * m.sidelen <= 32 * 32) by (nonlinear_arith)
                    requires
                        0 <= m.sidelen <= 32,
                ;
            }
            let ghost found = columns@;
            tx.send(
                preview::done_message(unprocessed.name, settings.sidelen, &m.source, columns),
            );
            proof {
                let trace = start + middle.push(done);
                assert(tx.sent() =~= sent0 + trace);
                messages::lemma_news(sent0, trace);
                assert(trace.subrange(1, trace.len() - 1) =~= middle);
                let polls = cancel.seen().len() - seen0;
                assert(is_finished_job(trace, polls, asked.picture.name, m, found));
                assert(is_run(trace, cancel.seen(), polls, asked, m));
            }
        },
        None => {
            proof {
                let middle = messages::news(sent1, tx.sent());
                let trace = start + middle;
                assert(tx.sent() =~= sent0 + trace);
                messages::lemma_news(sent0, trace);
                assert(trace.skip(1) =~= middle);
                assert(is_run(trace, cancel.seen(), cancel.seen().len() - seen0, asked, m));
            }
        },
    }
    Ok(())
}

/// Rearranges a picture at the least cost, until the flag is set.
pub fn process_optimal<S: ProgressSink>(
    unprocessed: UnprocessedPreset,
    settings: GenerationSettings,
    portrait: &Portrait,
    windows: &CropWindows,
    tx: &mut Outbox<S>,
    cancel: Arc<AtomicBool>,
) -> (result: Result<(), ProcessError>)
    requires
        is_affordable(prepare::request(unprocessed, settings, *portrait, *windows)),
        old(tx).wf(),
    ensures
        ({
            let asked = prepare::request(unprocessed, settings, *portrait, *windows);
            let trace = messages::news(old(tx).sent(), final(tx).sent());
            &&& final(tx).wf()
            &&& final(tx).first() == old(tx).first()
            &&& final(tx).sent() == old(tx).sent() + trace
            &&& match result {
                Ok(_) => {
                    &&& settings.sidelen <= MAX_OPTIMAL_SIDELEN
                    &&& exists|m: ImgDiffWeights, seen: Seq<bool>| #[trigger]
                        is_run(trace, seen, seen.len() as int, asked, m)
                            && messages::all_read_from(*cancel, seen)
                },
                Err(error) => is_refused_job(trace, asked, error),
            }
        }),
{
    let mut watched = Cancellation::new(cancel);
    process_optimal_until(unprocessed, &settings, portrait, windows, tx, &mut watched)
}

proof fn lemma_label_rises(base: Seq<Message>, n: int, rows: int)
    requires
        1 <= n <= 0x1_0000_0000,
        0 <= rows <= n,
        messages::rises(base, label_share(n, -1)),
    ensures
        messages::rises(
            base + label_messages(n, rows),
            label_share(n, rows - 1),
        ),
    decreases rows,
{
    if rows == 0 {
        assert(base + label_messages(n, 0) =~= base);
    } else {
        lemma_label_rises(base, n, rows - 1);
        let before = base + label_messages(n, rows - 1);
        let reached = label_share(n, rows - 2);
        let share = label_share(n, rows - 1);
        messages::lemma_same_denominator(reached, share);
        if (rows - 1) % report_every(n, 50) == 0 {
            messages::lemma_rises_push(before, reached, share);
            assert(base + label_messages(n, rows) =~= before.push(Message::Progress(share)));
        } else {
            messages::lemma_rises_within(before, reached, share);
        }
    }
}

proof fn lemma_match_rises(base: Seq<Message>, told: Seq<Message>, m: ImgDiffWeights, rows: int)
    requires
        1 <= m.target.len() <= 0x1_0000_0000,
        0 <= rows <= m.target.len(),
        is_match_trace(told, m, rows),
        messages::rises(
            base,
            match_share(m.target.len() as int, -1),
        ),
    ensures
        messages::rises(
            base + told,
            match_share(m.target.len() as int, rows - 1),
        ),
    decreases rows,
{
    let n = m.target.len() as int;
    if rows == 0 {
        assert(base + told =~= base);
    } else {
        let reached = match_share(n, rows - 2);
        let share = match_share(n, rows - 1);
        messages::lemma_same_denominator(reached, share);
        if match_reported(n, rows - 1) {
            let earlier = told.take(told.len() - 2);
            lemma_match_rises(base, earlier, m, rows - 1);
            let before = base + earlier;
            messages::lemma_rises_push(before, reached, share);
            let longer = before.push(Message::Progress(share));
            messages::lemma_rises_push_other(longer, share, told.last());
            assert(base + told =~= longer.push(told.last()));
        } else {
            lemma_match_rises(base, told, m, rows - 1);
            messages::lemma_rises_within(base + told, reached, share);
        }
    }
}

/// While the cheapest assignment is sought, the share of the work that is told lies between
/// nothing and everything and never falls.
pub proof fn optimal_progress_never_falls(
    trace: Seq<Message>,
    seen: Seq<bool>,
    polls: int,
    asked: Request,
    m: ImgDiffWeights,
)
    requires
        is_run(trace, seen, polls, asked, m),
    ensures
        messages::never_falls(trace),
{
    let n = m.target.len() as int;
    assert(1 <= m.sidelen * m.sidelen <= 256 * 256) by (nonlinear_arith)
        requires
            1 <= m.sidelen <= 256,
    ;
    let start = seq![Message::Progress(messages::start_share())];
    let first = Seq::<Message>::empty();
    messages::lemma_rises_push(first, Fraction { numerator: 0, denominator: 1 }, messages::start_share());
    assert(start =~= first.push(Message::Progress(messages::start_share())));
    let begun = label_share(n, -1);
    assert(1 <= n <= 65536 && begun.numerator == n && begun.denominator == 1000 * n);
    assert(messages::start_share().at_most(begun)) by {
        assert(1 * begun.denominator <= begun.numerator * 1000);
    }
    messages::lemma_rises_within(start, messages::start_share(), begun);
    assert(match_share(n, -1) == label_share(n, n - 1));
    if messages::undisturbed(seen) {
        let columns = choose|columns: Seq<usize>| #[trigger]
            is_finished_job(trace, polls, asked.picture.name, m, columns);
        let middle = trace.subrange(1, trace.len() - 1);
        let told = match_messages(m, n);
        lemma_label_rises(start, n, n);
        lemma_match_rises(start + label_messages(n, n), told, m, n);
        let before = start + label_messages(n, n) + told;
        messages::lemma_rises_push_other(before, match_share(n, n - 1), trace.last());
        assert(trace =~= before.push(trace.last())) by {
            assert(trace =~= start + middle + seq![trace.last()]);
        }
        messages::lemma_never_falls(trace, match_share(n, n - 1));
    } else {
        let cut = trace.skip(1);
        assert(trace =~= start + cut);
        if exists|rows: int|
            0 <= rows < n && cut == #[trigger] label_messages(n, rows).push(Message::Cancelled) {
            let rows = choose|rows: int|
                0 <= rows < n && cut == #[trigger] label_messages(n, rows).push(
                    Message::Cancelled,
                );
            lemma_label_rises(start, n, rows);
            let before = start + label_messages(n, rows);
            messages::lemma_rises_push_other(
                before,
                label_share(n, rows - 1),
                Message::Cancelled,
            );
            assert(trace =~= before.push(Message::Cancelled));
            messages::lemma_never_falls(trace, label_share(n, rows - 1));
        } else {
            let rows = choose|rows: int|
                0 <= rows < n && #[trigger] is_match_trace(match_messages(m, rows), m, rows) && cut
                    == (label_messages(n, n) + match_messages(m, rows)).push(Message::Cancelled);
            let told = match_messages(m, rows);
            lemma_label_rises(start, n, n);
            lemma_match_rises(start + label_messages(n, n), told, m, rows);
            let before = start + label_messages(n, n) + told;
            messages::lemma_rises_push_other(
                before,
                match_share(n, rows - 1),
                Message::Cancelled,
            );
            assert(trace =~= before.push(Message::Cancelled));
            messages::lemma_never_falls(trace, match_share(n, rows - 1));
        }
    }
}

proof fn lemma_labels_on_the_way(n: int, rows: int)
    ensures
        messages::all_on_the_way(label_messages(n, rows)),
    decreases rows,
{
    if rows > 0 {
        lemma_labels_on_the_way(n, rows - 1);
    }
}

proof fn lemma_match_on_the_way(told: Seq<Message>, m: ImgDiffWeights, rows: int)
    requires
        is_match_trace(told, m, rows),
    ensures
        messages::all_on_the_way(told),
    decreases rows,
{
    if rows > 0 {
        if match_reported(m.target.len() as int, rows - 1) {
            let earlier = told.take(told.len() - 2);
            lemma_match_on_the_way(earlier, m, rows - 1);
            assert forall|i: int| 0 <= i < told.len() implies messages::on_the_way(
                #[trigger] told[i],
            ) by {
                if i < told.len() - 2 {
                    assert(told[i] == earlier[i]);
                }
            }
        } else {
            lemma_match_on_the_way(told, m, rows - 1);
        }
    }
}

/// A job tells exactly once that it has ended, and nothing after that: it hands over a preset
/// if it was not told to stop, and says that it was stopped if it was.
pub proof fn optimal_jobs_end_once(
    trace: Seq<Message>,
    seen: Seq<bool>,
    polls: int,
    asked: Request,
    m: ImgDiffWeights,
)
    requires
        is_run(trace, seen, polls, asked, m),
    ensures
        messages::ends_once(trace),
        trace.last() is Done <==> messages::undisturbed(seen),
{
    let n = m.target.len() as int;
    let begun = Message::Progress(messages::start_share());
    if messages::undisturbed(seen) {
        let columns = choose|columns: Seq<usize>| #[trigger]
            is_finished_job(trace, polls, asked.picture.name, m, columns);
        let middle = trace.subrange(1, trace.len() - 1);
        let told = match_messages(m, n);
        lemma_labels_on_the_way(n, n);
        lemma_match_on_the_way(told, m, n);
        messages::lemma_ends_once(begun, label_messages(n, n), told, trace.last());
        assert(trace =~= (seq![begun] + label_messages(n, n) + told).push(trace.last())) by {
            assert(trace =~= seq![begun] + middle + seq![trace.last()]);
        }
    } else {
        let cut = trace.skip(1);
        assert(trace =~= seq![begun] + cut);
        if exists|rows: int|
            0 <= rows < n && cut == #[trigger] label_messages(n, rows).push(Message::Cancelled) {
            let rows = choose|rows: int|
                0 <= rows < n && cut == #[trigger] label_messages(n, rows).push(
                    Message::Cancelled,
                );
            lemma_labels_on_the_way(n, rows);
            let told = label_messages(n, rows);
            messages::lemma_ends_once(begun, told, Seq::empty(), Message::Cancelled);
            assert(trace =~= (seq![begun] + told + Seq::empty()).push(Message::Cancelled));
        } else {
            let rows = choose|rows: int|
                0 <= rows < n && #[trigger] is_match_trace(match_messages(m, rows), m, rows) && cut
                    == (label_messages(n, n) + match_messages(m, rows)).push(Message::Cancelled);
            let told = match_messages(m, rows);
            lemma_labels_on_the_way(n, n);
            lemma_match_on_the_way(told, m, rows);
            messages::lemma_ends_once(begun, label_messages(n, n), told, Message::Cancelled);
            assert(trace =~= (seq![begun] + label_messages(n, n) + told).push(
                Message::Cancelled,
            ));
        }
    }
}

/// A run that is not stopped ends with a preset that shows every source pixel exactly once,
/// and no other such rearrangement costs less.
pub proof fn optimal_result_is_cheapest_permutation(
    trace: Seq<Message>,
    seen: Seq<bool>,
    polls: int,
    asked: Request,
    m: ImgDiffWeights,
) -> (columns: Seq<usize>)
    requires
        is_run(trace, seen, polls, asked, m),
        messages::undisturbed(seen),
    ensures
        trace.len() > 0,
        trace.last() == Message::Done(
            preview::finished_preset(
                asked.picture.name,
                asked.settings.sidelen,
                m.source@,
                columns,
            ),
        ),
        preset::is_permutation(columns, m.source@.len()),
        forall|other: Seq<usize>|
            preset::is_permutation(other, m.source@.len()) ==> assignment::total_cost(m, columns)
                <= #[trigger] assignment::total_cost(m, other),
{
    choose|columns: Seq<usize>| #[trigger]
        is_finished_job(trace, polls, asked.picture.name, m, columns)
}

/// How far an assignment moves the pixels of the first rows in all: the squares of their squared
/// distances, added up.
pub open spec fn total_distance(sidelen: int, columns: Seq<usize>) -> int
    decreases columns.len(),
{
    if columns.len() == 0 {
        0
    } else {
        total_distance(sidelen, columns.drop_last()) + cost::square(
            cost::spatial_distance(
                cost::cell(columns.len() - 1, sidelen),
                cost::cell(columns.last() as int, sidelen),
            ),
        )
    }
}

/// What the colors of an assignment of the first rows cost in all.
spec fn total_color_cost(m: ImgDiffWeights, columns: Seq<usize>) -> int
    decreases columns.len(),
{
    if columns.len() == 0 {
        0
    } else {
        let row = columns.len() - 1;
        total_color_cost(m, columns.drop_last()) + cost::color_distance(
            m.target[row],
            m.source[columns.last() as int],
        ) * m.weights[row]
    }
}

/// A total cost is that of the colors, and that of the distances times the square of the weight.
proof fn lemma_cost_in_parts(m: ImgDiffWeights, columns: Seq<usize>)
    ensures
        assignment::total_cost(m, columns) == total_color_cost(m, columns) + cost::square(
            m.spatial_weight as int,
        ) * total_distance(m.sidelen as int, columns),
    decreases columns.len(),
{
    let w = m.spatial_weight as int;
    if columns.len() == 0 {
        assert(cost::square(w) * 0 == 0);
    } else {
        let before = columns.drop_last();
        lemma_cost_in_parts(m, before);
        let d = cost::spatial_distance(
            cost::cell(columns.len() - 1, m.sidelen as int),
            cost::cell(columns.last() as int, m.sidelen as int),
        );
        let sum = total_distance(m.sidelen as int, before);
        assert((d * w) * (d * w) == (w * w) * (d * d)) by (nonlinear_arith);
        assert((w * w) * (sum + d * d) == (w * w) * sum + (w * w) * (d * d)) by (nonlinear_arith);
    }
}

proof fn lemma_same_color_cost(m: ImgDiffWeights, other: ImgDiffWeights, columns: Seq<usize>)
    requires
        m.source@ == other.source@,
        m.target@ == other.target@,
        m.weights@ == other.weights@,
    ensures
        total_color_cost(m, columns) == total_color_cost(other, columns),
    decreases columns.len(),
{
    if columns.len() > 0 {
        lemma_same_color_cost(m, other, columns.drop_last());
    }
}

/// Of two runs over the same pictures, the one in which proximity is more important moves the
/// pixels no further in all.
pub proof fn more_importance_moves_no_further(
    trace: Seq<Message>,
    polls: int,
    name: Seq<char>,
    m: ImgDiffWeights,
    columns: Seq<usize>,
    other_trace: Seq<Message>,
    other_polls: int,
    other_name: Seq<char>,
    other: ImgDiffWeights,
    other_columns: Seq<usize>,
)
    requires
        is_finished_job(trace, polls, name, m, columns),
        is_finished_job(other_trace, other_polls, other_name, other, other_columns),
        m.source@ == other.source@,
        m.target@ == other.target@,
        m.weights@ == other.weights@,
        m.sidelen == other.sidelen,
        0 <= m.spatial_weight < other.spatial_weight,
    ensures
        total_distance(m.sidelen as int, other_columns) <= total_distance(
            m.sidelen as int,
            columns,
        ),
{
    lemma_cost_in_parts(m, columns);
    lemma_cost_in_parts(m, other_columns);
    lemma_cost_in_parts(other, columns);
    lemma_cost_in_parts(other, other_columns);
    lemma_same_color_cost(m, other, columns);
    lemma_same_color_cost(m, other, other_columns);
    assert(assignment::total_cost(m, columns) <= assignment::total_cost(m, other_columns));
    assert(assignment::total_cost(other, other_columns) <= assignment::total_cost(
        other,
        columns,
    ));
    let (w, v) = (m.spatial_weight as int, other.spatial_weight as int);
    let d = total_distance(m.sidelen as int, columns);
    let e = total_distance(m.sidelen as int, other_columns);
    let (c, b) = (total_color_cost(m, columns), total_color_cost(m, other_columns));
    assert(e <= d) by (nonlinear_arith)
        requires
            c + (w * w) * d <= b + (w * w) * e,
            b + (v * v) * e <= c + (v * v) * d,
            0 <= w < v,
    {
        assert(w * w < v * v);
        assert((v * v) * e + (w * w) * d <= (v * v) * d + (w * w) * e);
        assert((v * v - w * w) * (e - d) <= 0) by {
            assert((v * v - w * w) * (e - d) == (v * v) * e - (v * v) * d - (w * w) * e + (w * w)
                * d);
        }
        if e > d {
            assert((v * v - w * w) * (e - d) > 0);
        }
    }
}

/// Of two runs that are not stopped, over the same pictures, the one in which proximity is more
/// important moves the pixels no further in all, if decoding and resampling made the same or had
/// nothing to do.
pub proof fn more_important_proximity_moves_no_further(
    trace: Seq<Message>,
    seen: Seq<bool>,
    polls: int,
    asked: Request,
    m: ImgDiffWeights,
    other_trace: Seq<Message>,
    other_seen: Seq<bool>,
    other_polls: int,
    other_asked: Request,
    other: ImgDiffWeights,
)
    requires
        is_run(trace, seen, polls, asked, m),
        is_run(other_trace, other_seen, other_polls, other_asked, other),
        messages::undisturbed(seen),
        messages::undisturbed(other_seen),
        asked.is_about_the_same_as(other_asked),
        asked.is_made_like(m, other_asked, other),
        asked.spatial_weight() < other_asked.spatial_weight(),
    ensures
        trace.last() is Done,
        other_trace.last() is Done,
        total_distance(asked.settings.sidelen as int, other_trace.last()->Done_0.assignments)
            <= total_distance(asked.settings.sidelen as int, trace.last()->Done_0.assignments),
{
    prepare::equal_requests_ask_for_equal_matrices(asked, m, other_asked, other);
    let name = asked.picture.name;
    let other_name = other_asked.picture.name;
    let columns = choose|columns: Seq<usize>| #[trigger]
        is_finished_job(trace, polls, name, m, columns);
    let other_columns = choose|columns: Seq<usize>| #[trigger]
        is_finished_job(other_trace, other_polls, other_name, other, columns);
    more_importance_moves_no_further(
        trace,
        polls,
        name,
        m,
        columns,
        other_trace,
        other_polls,
        other_name,
        other,
        other_columns,
    );
}

proof fn lemma_same_match_messages(m: ImgDiffWeights, other: ImgDiffWeights, rows: int)
    requires
        m.holds_the_same(other),
    ensures
        match_messages(m, rows) == match_messages(other, rows),
        found_columns(m, rows) == found_columns(other, rows),
    decreases rows,
{
    match_steps::matching_repeats(m, other, rows as nat);
    if rows > 0 {
        lemma_same_match_messages(m, other, rows - 1);
    }
}

/// Two runs that are not stopped, over matrices that hold the same and under the same name, tell
/// the same: of several cheapest assignments, both hand over the same one.
pub proof fn optimal_runs_repeat(
    trace: Seq<Message>,
    seen: Seq<bool>,
    polls: int,
    asked: Request,
    m: ImgDiffWeights,
    other_trace: Seq<Message>,
    other_seen: Seq<bool>,
    other_polls: int,
    other_asked: Request,
    other: ImgDiffWeights,
)
    requires
        is_run(trace, seen, polls, asked, m),
        is_run(other_trace, other_seen, other_polls, other_asked, other),
        messages::undisturbed(seen),
        messages::undisturbed(other_seen),
        m.holds_the_same(other),
        asked.picture.name == other_asked.picture.name,
    ensures
        trace == other_trace,
        polls == other_polls,
{
    let name = asked.picture.name;
    let n = m.target.len() as int;
    let columns = choose|columns: Seq<usize>| #[trigger]
        is_finished_job(trace, polls, name, m, columns);
    let other_columns = choose|columns: Seq<usize>| #[trigger]
        is_finished_job(other_trace, other_polls, name, other, columns);
    lemma_same_match_messages(m, other, n);
    match_steps::matching_repeats(m, other, n as nat);
    let middle = trace.subrange(1, trace.len() - 1);
    let other_middle = other_trace.subrange(1, other_trace.len() - 1);
    assert(middle == other_middle);
    assert(trace =~= other_trace) by {
        let start = seq![Message::Progress(messages::start_share())];
        assert(trace =~= start + middle + seq![trace.last()]);
        assert(other_trace =~= start + other_middle + seq![other_trace.last()]);
    }
}

/// Two runs that are not stopped, over the same pictures and with the same importance of
/// proximity, tell the same if decoding and resampling made the same or had nothing to do.
/// Settings may differ in their names and identifiers.
pub proof fn equal_exact_requests_run_alike(
    trace: Seq<Message>,
    seen: Seq<bool>,
    polls: int,
    asked: Request,
    m: ImgDiffWeights,
    other_trace: Seq<Message>,
    other_seen: Seq<bool>,
    other_polls: int,
    other_asked: Request,
    other: ImgDiffWeights,
)
    requires
        is_run(trace, seen, polls, asked, m),
        is_run(other_trace, other_seen, other_polls, other_asked, other),
        messages::undisturbed(seen),
        messages::undisturbed(other_seen),
        asked.is_about_the_same_as(other_asked),
        asked.is_made_like(m, other_asked, other),
        asked.settings.proximity_importance == other_asked.settings.proximity_importance,
        asked.picture.name == other_asked.picture.name,
    ensures
        trace == other_trace,
        polls == other_polls,
{
    prepare::equal_requests_ask_for_equal_matrices(asked, m, other_asked, other);
    optimal_runs_repeat(
        trace,
        seen,
        polls,
        asked,
        m,
        other_trace,
        other_seen,
        other_polls,
        other_asked,
        other,
    );
}

/// While rows are labelled, a share of the work is told at every fiftieth part of them, from the first
/// one on: from a thousandth to a tenth.
pub proof fn labels_are_reported_evenly(n: int, rows: int)
    requires
        1 <= n,
        0 <= rows,
    ensures
        ({
            let every = math::max(1, n / 50);
            let told = label_messages(n, rows);
            &&& told.len() == (rows + every - 1) / every
            &&& forall|k: int|
                0 <= k < told.len() ==> #[trigger] told[k] == Message::Progress(
                    Fraction {
                        numerator: (n + 99 * (every * k + 1)) as u64,
                        denominator: (1000 * n) as u64,
                    },
                )
        }),
    decreases rows,
{
    let every = math::max(1, n / 50);
    let told = label_messages(n, rows);
    assert(every == report_every(n, 50));
    if rows == 0 {
        assert((every - 1) / every == 0) by (nonlinear_arith)
            requires
                every >= 1,
        ;
    } else {
        labels_are_reported_evenly(n, rows - 1);
        let before = label_messages(n, rows - 1);
        lemma_count_up(rows, every);
        assert forall|k: int| 0 <= k < told.len() implies #[trigger] told[k] == Message::Progress(
            Fraction {
                numerator: (n + 99 * (every * k + 1)) as u64,
                denominator: (1000 * n) as u64,
            },
        ) by {
            if k < before.len() {
                assert(told[k] == before[k]);
            }
        }
    }
}

/// The number of multiples below a count grows when the count passes one.
proof fn lemma_count_up(rows: int, every: int)
    requires
        1 <= every,
        1 <= rows,
    ensures
        (rows - 1) % every == 0 ==> (rows + every - 1) / every == (rows - 1 + every - 1) / every + 1
            && every * ((rows - 1 + every - 1) / every) == rows - 1,
        (rows - 1) % every != 0 ==> (rows + every - 1) / every == (rows - 1 + every - 1) / every,
{
    let q = (rows - 1) / every;
    let r = (rows - 1) % every;
    assert(rows - 1 == every * q + r && 0 <= r < every) by {
        vstd::arithmetic::div_mod::lemma_fundamental_div_mod(rows - 1, every);
        vstd::arithmetic::div_mod::lemma_mod_bound(rows - 1, every);
    }
    let a = rows - 1 + every - 1;
    let c = rows + every - 1;
    assert(q * every == every * q && (q + 1) * every == every * q + every) by (nonlinear_arith);
    if r == 0 {
        vstd::arithmetic::div_mod::lemma_fundamental_div_mod_converse(a, every, q, every - 1);
        vstd::arithmetic::div_mod::lemma_fundamental_div_mod_converse(c, every, q + 1, 0);
    } else {
        vstd::arithmetic::div_mod::lemma_fundamental_div_mod_converse(a, every, q + 1, r - 1);
        vstd::arithmetic::div_mod::lemma_fundamental_div_mod_converse(c, every, q + 1, r);
    }
}

/// While rows are matched, the share of the work and a picture are told at every hundredth part of
/// them, from the first one on, and at the last one. The picture shows at each matched cell the
/// source pixel that it is matched with, and the first source pixel at the others.
pub proof fn matched_rows_are_shown(m: ImgDiffWeights, row: int, cell: int)
    requires
        m.wf(),
        0 <= row < m.target@.len(),
        0 <= cell < m.target@.len(),
        cell <= row ==> found_columns(m, row + 1)[cell] < m.source@.len(),
    ensures
        match_messages(m, 0) == Seq::<Message>::empty(),
        ({
            let n = m.target@.len() as int;
            let told = match_messages(m, row);
            let longer = match_messages(m, row + 1);
            let shown = if cell <= row {
                m.source[found_columns(m, row + 1)[cell] as int]
            } else {
                m.source[0]
            };
            if row % math::max(1, n / 100) == 0 || row == n - 1 {
                &&& longer.len() == told.len() + 2
                &&& longer.take(told.len() as int) == told
                &&& longer[longer.len() - 2] == Message::Progress(
                    Fraction {
                        numerator: (100 * n + 899 * (row + 1)) as u64,
                        denominator: (1000 * n) as u64,
                    },
                )
                &&& longer.last() matches Message::UpdatePreview { width, height, data } && width
                    == m.sidelen && height == m.sidelen && data.len() == 3 * n && (
                data[3 * cell],
                data[3 * cell + 1],
                data[3 * cell + 2],
                ) == shown
            } else {
                longer == told
            }
        }),
{
    let n = m.target@.len() as int;
    assert(m.sidelen as u32 * m.sidelen as u32 == n);
    preview::cells_show_their_source_pixels(
        m.source@,
        padded(found_columns(m, row + 1), n),
        m.sidelen as u32,
        cell,
    );
    let told = match_messages(m, row);
    let longer = match_messages(m, row + 1);
    if match_reported(n, row) {
        assert(longer.take(told.len() as int) =~= told);
    }
}

/// The last picture that a run shows is that of its result: each cell shows the source pixel that the
/// preset assigns to it, and all source pixels are there.
pub proof fn the_last_picture_is_the_result(
    trace: Seq<Message>,
    seen: Seq<bool>,
    polls: int,
    asked: Request,
    m: ImgDiffWeights,
    cell: int,
)
    requires
        is_run(trace, seen, polls, asked, m),
        messages::undisturbed(seen),
        0 <= cell < m.source@.len(),
    ensures
        trace.len() > 2,
        trace.last() is Done,
        trace[trace.len() - 2] matches Message::UpdatePreview { width, height, data } && data.len()
            == 3 * m.source@.len() && (data[3 * cell], data[3 * cell + 1], data[3 * cell + 2])
            == m.source[trace.last()->Done_0.assignments[cell] as int]
            && preview::pixels_of_bytes(data).to_multiset() == m.source@.to_multiset(),
{
    let n = m.target@.len() as int;
    let columns = choose|columns: Seq<usize>| #[trigger]
        is_finished_job(trace, polls, asked.picture.name, m, columns);
    let middle = trace.subrange(1, trace.len() - 1);
    let told = match_messages(m, n);
    assert(m.sidelen * m.sidelen >= 1) by (nonlinear_arith)
        requires
            m.sidelen >= 1,
    ;
    assert(m.sidelen as u32 * m.sidelen as u32 == n);
    assert(columns[cell] < n);
    matched_rows_are_shown(m, n - 1, cell);
    assert(middle.last() == told.last());
    assert(trace[trace.len() - 2] == middle.last());
    assert(padded(columns, n) =~= columns);
    preview::pictures_show_every_source_pixel(m.source@, columns, m.sidelen as u32);
}

/// A run that is not stopped tells a thousandth first, then what is told of labels and matches, and
/// hands over the columns that were found, under the name of the picture. The stop flag is read three
/// times for each row at least.
pub proof fn exact_runs_hand_over_what_was_found(
    trace: Seq<Message>,
    seen: Seq<bool>,
    polls: int,
    asked: Request,
    m: ImgDiffWeights,
)
    requires
        is_run(trace, seen, polls, asked, m),
        messages::undisturbed(seen),
    ensures
        ({
            let n = m.source@.len() as int;
            let first = Message::Progress(Fraction { numerator: 1, denominator: 1000 });
            &&& trace.last() is Done
            &&& trace.drop_last() == seq![first] + label_messages(n, n) + match_messages(m, n)
            &&& trace.last()->Done_0.assignments == found_columns(m, n)
            &&& trace.last()->Done_0.inner.name == asked.picture.name
            &&& trace.last()->Done_0.inner.width == asked.settings.sidelen
            &&& trace.last()->Done_0.inner.height == asked.settings.sidelen
            &&& preview::pixels_of_bytes(trace.last()->Done_0.inner.source_img) == m.source@
            &&& 3 * n <= polls <= 2 * n + n * n
            &&& asked.asks_for(m)
        }),
{
    let name = asked.picture.name;
    let n = m.source@.len() as int;
    let columns = choose|columns: Seq<usize>| #[trigger]
        is_finished_job(trace, polls, name, m, columns);
    let middle = trace.subrange(1, trace.len() - 1);
    let first = Message::Progress(Fraction { numerator: 1, denominator: 1000 });
    messages::lemma_told_in_parts(trace, first, label_messages(n, n), match_messages(m, n));
    preview::finished_presets_hold_the_result(name, m.sidelen as u32, m.source@, columns);
}

/// An exact job is refused with nothing told at a resolution that is not supported or above 32, and
/// otherwise with a thousandth told, if its pictures cannot be prepared.
pub proof fn refused_exact_jobs_tell_little(trace: Seq<Message>, asked: Request, error: ProcessError)
    requires
        is_refused_job(trace, asked, error),
    ensures
        asked.settings.sidelen == 0 || asked.settings.sidelen > 256 ==> trace.len() == 0 && error
            == ProcessError::Resolution(asked.settings.sidelen),
        33 <= asked.settings.sidelen <= 256 ==> trace.len() == 0 && error
            == ProcessError::OptimalResolution(asked.settings.sidelen),
        1 <= asked.settings.sidelen <= 32 ==> asked.refused_with(error) && trace == seq![
            Message::Progress(Fraction { numerator: 1, denominator: 1000 }),
        ],
{
}

} // verus!
