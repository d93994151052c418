//! Pictures of a rearrangement.
use crate::images;
use crate::messages::{Message, ProgressMsg};
use crate::preset;
use crate::preset::{Preset, UnprocessedPreset};
use crate::text;
use vstd::prelude::*;

verus! {

/// One of the three bytes of a pixel.
pub open spec fn channel(pixel: (u8, u8, u8), which: int) -> u8 {
    if which == 0 {
        pixel.0
    } else if which == 1 {
        pixel.1
    } else {
        pixel.2
    }
}

/// The picture with the assigned source pixel at each cell; black where no source pixel is
/// assigned.
pub open spec fn rearranged(
    source_pixels: Seq<(u8, u8, u8)>,
    assignments: Seq<usize>,
    sidelen: u32,
) -> Seq<u8> {
    Seq::new(
        (sidelen * sidelen * 3) as nat,
        |i: int|
            if i / 3 < assignments.len() && assignments[i / 3] < source_pixels.len() {
                channel(source_pixels[assignments[i / 3] as int], i % 3)
            } else {
                0
            },
    )
}

/// Draws a rearrangement.
pub fn make_new_img(
    source_pixels: &[(u8, u8, u8)],
    assignments: &[usize],
    sidelen: u32,
) -> (img: Vec<u8>)
    requires
        sidelen * sidelen * 3 <= u32::MAX,
    ensures
        img@ == rearranged(source_pixels@, assignments@, sidelen),
{
    proof {
        assert(0 <= sidelen * sidelen) by (nonlinear_arith)
            requires
                0 <= sidelen,
        ;
    }
    let count: usize = (sidelen * sidelen) as usize;
    let mut img: Vec<u8> = Vec::with_capacity(count * 3);
    for cell in 0..count
        invariant
            count == sidelen * sidelen,
            img.len() == cell * 3,
            forall|i: int|
                0 <= i < cell * 3 ==> #[trigger] img[i] == rearranged(
                    source_pixels@,
                    assignments@,
                    sidelen,
                )[i],
    {
        let mut pixel: (u8, u8, u8) = (0, 0, 0);
        if cell < assignments.len() {
            let index: usize = assignments[cell];
            if index < source_pixels.len() {
                pixel = source_pixels[index];
            }
        }
        img.push(pixel.0);
        img.push(pixel.1);
        img.push(pixel.2);
    }
    assert(img@ =~= rearranged(source_pixels@, assignments@, sidelen));
    img
}

/// Each cell of a picture shows the source pixel that is assigned to it, in its three bytes, and
/// nothing where none is.
pub proof fn cells_show_their_source_pixels(
    source_pixels: Seq<(u8, u8, u8)>,
    assignments: Seq<usize>,
    sidelen: u32,
    cell: int,
)
    requires
        0 <= cell < sidelen * sidelen,
    ensures
        ({
            let img = rearranged(source_pixels, assignments, sidelen);
            let shown = (img[3 * cell], img[3 * cell + 1], img[3 * cell + 2]);
            &&& img.len() == 3 * (sidelen * sidelen)
            &&& cell < assignments.len() && assignments[cell] < source_pixels.len() ==> shown
                == source_pixels[assignments[cell] as int]
            &&& cell >= assignments.len() || assignments[cell] >= source_pixels.len() ==> shown == (
                0u8,
                0u8,
                0u8,
            )
        }),
{
}

/// The pixels of a picture, three bytes for each.
pub open spec fn pixels_of_bytes(img: Seq<u8>) -> Seq<(u8, u8, u8)> {
    Seq::new(img.len() / 3, |i: int| (img[3 * i], img[3 * i + 1], img[3 * i + 2]))
}

/// A picture of a rearrangement has the pixels of the source, each as often as the source has it.
pub proof fn pictures_show_every_source_pixel(
    source_pixels: Seq<(u8, u8, u8)>,
    assignments: Seq<usize>,
    sidelen: u32,
)
    requires
        source_pixels.len() == sidelen * sidelen,
        assignments.len() == sidelen * sidelen,
        forall|i: int| 0 <= i < assignments.len() ==> #[trigger] assignments[i] < source_pixels.len(),
        assignments.no_duplicates(),
    ensures
        ({
            let img = rearranged(source_pixels, assignments, sidelen);
            let shown = pixels_of_bytes(img);
            &&& img.len() == 3 * source_pixels.len()
            &&& forall|i: int|
                0 <= i < shown.len() ==> #[trigger] shown[i] == source_pixels[assignments[i] as int]
            &&& shown.to_multiset() == source_pixels.to_multiset()
        }),
{
    let shown = pixels_of_bytes(rearranged(source_pixels, assignments, sidelen));
    assert forall|i: int| 0 <= i < shown.len() implies #[trigger] shown[i]
        == source_pixels[assignments[i] as int] by {
        cells_show_their_source_pixels(source_pixels, assignments, sidelen, i);
    }
    let picked = Seq::new(assignments.len(), |i: int| source_pixels[assignments[i] as int]);
    assert(shown =~= picked);
    lemma_permuted_multiset(source_pixels, assignments);
}

/// Picking every element of a sequence once gives the same elements.
proof fn lemma_permuted_multiset(items: Seq<(u8, u8, u8)>, order: Seq<usize>)
    requires
        order.len() == items.len(),
        forall|i: int| 0 <= i < order.len() ==> #[trigger] order[i] < items.len(),
        order.no_duplicates(),
    ensures
        Seq::new(order.len(), |i: int| items[order[i] as int]).to_multiset()
            == items.to_multiset(),
    decreases items.len(),
{
    broadcast use vstd::seq_lib::group_to_multiset_ensures;

    let n = items.len();
    let picked = Seq::new(order.len(), |i: int| items[order[i] as int]);
    if n == 0 {
        assert(picked =~= items);
    } else {
        let last = (n - 1) as int;
        let numbers = Seq::new(n, |i: int| order[i] as int);
        assert(exists|j: int| 0 <= j < n && order[j] == last) by {
            if forall|j: int| 0 <= j < n ==> order[j] != last {
                assert forall|i: int| 0 <= i < numbers.len() implies 0 <= #[trigger] numbers[i]
                    < last by {
                    assert(order[i] < items.len());
                }
                crate::assignment::lemma_pigeonhole(numbers, last);
            }
        }
        let j = choose|j: int| 0 <= j < n && order[j] == last;
        let shorter = items.drop_last();
        let rest = order.remove(j);
        assert forall|i: int| 0 <= i < rest.len() implies #[trigger] rest[i] < shorter.len() by {
            let k = if i < j {
                i
            } else {
                i + 1
            };
            assert(rest[i] == order[k]);
            assert(order[k] != order[j]);
            assert(order[k] < items.len());
        }
        assert(rest.no_duplicates());
        lemma_permuted_multiset(shorter, rest);
        let rest_picked = Seq::new(rest.len(), |i: int| shorter[rest[i] as int]);
        assert(rest_picked =~= picked.remove(j)) by {
            assert forall|i: int| 0 <= i < rest.len() implies #[trigger] rest_picked[i]
                == picked.remove(j)[i] by {
                assert(rest[i] < shorter.len());
            }
        }
        assert(items =~= shorter.push(items[last]));
        assert(picked[j] == items[last]);
        assert(picked.to_multiset() =~= rest_picked.to_multiset().insert(items[last])) by {
            assert(picked =~= picked.remove(j).insert(j, items[last]));
            vstd::seq_lib::to_multiset_remove(picked, j);
        }
        assert(items.to_multiset() =~= shorter.to_multiset().insert(items[last]));
    }
}

/// The preset that a finished job hands over.
pub open spec fn finished_preset(
    name: Seq<char>,
    sidelen: u32,
    source_pixels: Seq<(u8, u8, u8)>,
    assignments: Seq<usize>,
) -> preset::PresetView {
    preset::PresetView {
        inner: preset::PictureView {
            name,
            width: sidelen,
            height: sidelen,
            source_img: images::bytes_of(source_pixels),
        },
        assignments,
    }
}

/// A finished preset of a size that presets may have is sound if its name is and if it shows
/// every source pixel exactly once.
pub proof fn finished_presets_are_sound(
    name: Seq<char>,
    sidelen: u32,
    source_pixels: Seq<(u8, u8, u8)>,
    assignments: Seq<usize>,
)
    requires
        1 <= text::trimmed(name).len() <= preset::MAX_PRESET_NAME_CHARS,
        preset::MIN_PRESET_SIDE <= sidelen <= preset::MAX_PRESET_SIDE,
        source_pixels.len() == sidelen * sidelen,
        preset::is_permutation(assignments, source_pixels.len()),
    ensures
        finished_preset(name, sidelen, source_pixels, assignments).is_sound(),
{
}

/// The message that ends a job.
pub fn done_message(
    name: String,
    sidelen: u32,
    source_pixels: &Vec<(u8, u8, u8)>,
    assignments: Vec<usize>,
) -> (msg: ProgressMsg)
    requires
        source_pixels.len() * 3 <= usize::MAX,
    ensures
        msg@ == Message::Done(
            finished_preset(name@, sidelen, source_pixels@, assignments@),
        ),
{
    ProgressMsg::Done(
        Preset {
            inner: UnprocessedPreset {
                name,
                width: sidelen,
                height: sidelen,
                source_img: images::flatten(source_pixels),
            },
            assignments,
        },
    )
}

/// A finished preset has the name and the resolution of the job, the bytes of the source pixels, and
/// the assignments.
pub proof fn finished_presets_hold_the_result(
    name: Seq<char>,
    sidelen: u32,
    source_pixels: Seq<(u8, u8, u8)>,
    assignments: Seq<usize>,
)
    ensures
        ({
            let p = finished_preset(name, sidelen, source_pixels, assignments);
            &&& p.inner.name == name
            &&& p.inner.width == sidelen
            &&& p.inner.height == sidelen
            &&& pixels_of_bytes(p.inner.source_img) == source_pixels
            &&& p.inner.source_img.len() == 3 * source_pixels.len()
            &&& p.assignments == assignments
        }),
{
    let p = finished_preset(name, sidelen, source_pixels, assignments);
    assert(pixels_of_bytes(p.inner.source_img) =~= source_pixels);
}

} // verus!
