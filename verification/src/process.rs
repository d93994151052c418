//! Running a job with the algorithm that its settings name.
use crate::cost::ImgDiffWeights;
use crate::errors::{ProcessError, MAX_OPTIMAL_SIDELEN};
use crate::genetic;
use crate::messages;
use crate::messages::{Outbox, ProgressSink};
use crate::optimal;
use crate::prepare;
use crate::prepare::Request;
use crate::preset::UnprocessedPreset;
use crate::settings::{Algorithm, CropWindows, GenerationSettings, Portrait};
use std::sync::atomic::AtomicBool;
use std::sync::Arc;
use vstd::prelude::*;

verus! {

/// Where the job that the settings name may compute costs, they can be added and compared within
/// 64 bits.
pub open spec fn affordable(asked: Request) -> bool {
    match asked.settings.algorithm {
        Algorithm::Optimal => optimal::is_affordable(asked),
        Algorithm::Genetic => asked.affordable(),
    }
}

/// Tells whether costs can be added and compared within 64 bits where the job that the settings
/// name may compute them.
pub fn is_affordable(
    unprocessed: &UnprocessedPreset,
    settings: &GenerationSettings,
    portrait: &Portrait,
    windows: &CropWindows,
) -> (fits: bool)
    ensures
        fits == affordable(prepare::request(*unprocessed, *settings, *portrait, *windows)),
{
    match settings.algorithm {
        Algorithm::Optimal => settings.sidelen > MAX_OPTIMAL_SIDELEN || prepare::is_affordable(
            unprocessed,
            settings,
            portrait,
            windows,
        ),
        Algorithm::Genetic => prepare::is_affordable(unprocessed, settings, portrait, windows),
    }
}

/// Rearranges a picture into the portrait, until the flag is set.
pub fn process<S: ProgressSink>(
    unprocessed: UnprocessedPreset,
    settings: GenerationSettings,
    portrait: &Portrait,
    windows: &CropWindows,
    tx: &mut Outbox<S>,
    cancel: Arc<AtomicBool>,
) -> (result: Result<(), ProcessError>)
    requires
        affordable(prepare::request(unprocessed, settings, *portrait, *windows)),
        old(tx).wf(),
    ensures
        ({
            let asked = prepare::request(unprocessed, settings, *portrait, *windows);
            let trace = messages::news(old(tx).sent(), final(tx).sent());
            &&& final(tx).wf()
            &&& final(tx).first() == old(tx).first()
            &&& final(tx).sent() == old(tx).sent() + trace
            &&& match (settings.algorithm, result) {
                (Algorithm::Optimal, Ok(_)) => {
                    &&& settings.sidelen <= MAX_OPTIMAL_SIDELEN
                    &&& exists|m: ImgDiffWeights, seen: Seq<bool>| #[trigger]
                        optimal::is_run(trace, seen, seen.len() as int, asked, m)
                            && messages::all_read_from(*cancel, seen)
                },
                (Algorithm::Optimal, Err(error)) => optimal::is_refused_job(trace, asked, error),
                (Algorithm::Genetic, Ok(_)) => {
                    &&& exists|m: ImgDiffWeights, seen: Seq<bool>| #[trigger]
                        genetic::is_run(trace, seen, seen.len() as int, asked, m)
                            && messages::all_read_from(*cancel, seen)
                },
                (Algorithm::Genetic, Err(error)) => genetic::is_refused_job(trace, asked, error),
            }
        }),
{
    match settings.algorithm {
        Algorithm::Optimal => optimal::process_optimal(
            unprocessed,
            settings,
            portrait,
            windows,
            tx,
            cancel,
        ),
        Algorithm::Genetic => genetic::process_genetic(
            unprocessed,
            settings,
            portrait,
            windows,
            tx,
            cancel,
        ),
    }
}

/// A job can be afforded if it is exact and refused for its resolution above 32, or if its request can
/// be.
pub proof fn jobs_are_affordable_as_their_requests(asked: Request)
    ensures
        asked.affordable() ==> affordable(asked),
        asked.settings.algorithm is Optimal && asked.settings.sidelen > 32 ==> affordable(asked),
        asked.settings.algorithm is Genetic || asked.settings.sidelen <= 32 ==> affordable(asked)
            == asked.affordable(),
{
}

} // verus!
