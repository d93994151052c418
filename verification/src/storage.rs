//! Which presets are kept between sessions, and how much room they take.
use crate::buffers::filled;
use crate::preset;
use crate::preset::{Preset, MAX_PERSISTED_PRESET_BYTES};
use crate::text;
use vstd::arithmetic::power;
use vstd::prelude::*;

verus! {

/// A size, or the largest machine size if it is larger.
pub open spec fn saturated(size: nat) -> usize {
    if size <= usize::MAX {
        size as usize
    } else {
        usize::MAX
    }
}

/// The room that numbers take in decimal, each followed by a separator.
pub open spec fn written_len(numbers: Seq<usize>) -> nat
    decreases numbers.len(),
{
    if numbers.len() == 0 {
        0
    } else {
        written_len(numbers.drop_last()) + text::decimal(numbers.last() as nat).len() + 1
    }
}

/// The bytes of a picture as numbers.
pub open spec fn widened(bytes: Seq<u8>) -> Seq<usize> {
    bytes.map_values(|b: u8| b as usize)
}

/// The room that a preset takes in storage: its bytes and assignments as numbers, its name,
/// and an allowance for the rest.
pub open spec fn storage_estimate(p: preset::PresetView) -> usize {
    saturated(
        written_len(widened(p.inner.source_img)) + written_len(p.assignments)
            + vstd::utf8::encode_utf8(p.inner.name).len() as usize as nat + 256,
    )
}

proof fn lemma_decimal_len(n: nat)
    ensures
        1 <= text::decimal(n).len() <= n / 10 + 1,
    decreases n,
{
    if n >= 10 {
        lemma_decimal_len(n / 10);
    }
}

/// The number of decimal digits of a number.
fn decimal_digits(number: usize) -> (digits: usize)
    ensures
        digits == text::decimal(number as nat).len(),
        digits <= number / 10 + 1,
{
    let mut value: usize = number;
    let mut digits: usize = 1;
    proof {
        lemma_decimal_len(number as nat);
    }
    while value >= 10
        invariant
            1 <= digits,
            digits + text::decimal(value as nat).len() - 1 == text::decimal(number as nat).len(),
            text::decimal(number as nat).len() <= number / 10 + 1,
        decreases value,
    {
        proof {
            lemma_decimal_len(value as nat);
            lemma_decimal_len((value / 10) as nat);
        }
        value = value / 10;
        digits = digits + 1;
    }
    digits
}

fn assignments_room(numbers: &Vec<usize>) -> (room: usize)
    ensures
        room == saturated(written_len(numbers@)),
{
    let mut room: usize = 0;
    for i in 0..numbers.len()
        invariant
            room == saturated(written_len(numbers@.take(i as int))),
    {
        room = room.saturating_add(decimal_digits(numbers[i]) + 1);
        assert(numbers@.take(i + 1).drop_last() =~= numbers@.take(i as int));
    }
    assert(numbers@.take(numbers.len() as int) =~= numbers@);
    room
}

fn picture_room(bytes: &Vec<u8>) -> (room: usize)
    ensures
        room == saturated(written_len(widened(bytes@))),
{
    let mut room: usize = 0;
    let ghost numbers = widened(bytes@);
    for i in 0..bytes.len()
        invariant
            numbers == widened(bytes@),
            room == saturated(written_len(numbers.take(i as int))),
    {
        room = room.saturating_add(decimal_digits(bytes[i] as usize) + 1);
        assert(numbers.take(i + 1).drop_last() =~= numbers.take(i as int));
    }
    assert(numbers.take(bytes.len() as int) =~= numbers);
    room
}

impl Preset {
    /// Estimates the room that the preset takes in storage without writing it out.
    pub fn estimated_storage_bytes(&self) -> (bytes: usize)
        ensures
            bytes == storage_estimate(self@),
    {
        let image_bytes: usize = picture_room(&self.inner.source_img);
        let assignment_bytes: usize = assignments_room(&self.assignments);
        image_bytes.saturating_add(assignment_bytes).saturating_add(
            self.inner.name.as_str().len(),
        ).saturating_add(256)
    }
}

/// The order in which presets are considered: the first one, then the others from the newest.
pub open spec fn considered(count: int, turn: int) -> int {
    if turn == 0 {
        0
    } else {
        count - turn
    }
}

/// Which presets are kept, and how much room they take, after some turns.
pub struct Selection {
    pub kept: Set<int>,
    pub used: int,
}

/// What is kept after `turns` presets have been considered: each one that is sound and still
/// fits.
pub open spec fn selection(presets: Seq<preset::PresetView>, turns: int) -> Selection
    decreases turns,
{
    if turns <= 0 {
        Selection { kept: Set::empty(), used: 0 }
    } else {
        let before = selection(presets, turns - 1);
        let index = considered(presets.len() as int, turns - 1);
        let used = before.used + storage_estimate(presets[index]);
        if presets[index].is_sound() && used <= MAX_PERSISTED_PRESET_BYTES {
            Selection { kept: before.kept.insert(index), used }
        } else {
            before
        }
    }
}

/// The presets among the first `n` whose index is in `kept`, in their order.
pub open spec fn kept_in_order(
    presets: Seq<preset::PresetView>,
    kept: Set<int>,
    n: int,
) -> Seq<preset::PresetView>
    decreases n,
{
    if n <= 0 {
        Seq::empty()
    } else if kept.contains(n - 1) {
        kept_in_order(presets, kept, n - 1).push(presets[n - 1])
    } else {
        kept_in_order(presets, kept, n - 1)
    }
}

/// The presets that are written to storage, in their order.
pub open spec fn stored(presets: Seq<preset::PresetView>) -> Seq<preset::PresetView> {
    kept_in_order(
        presets,
        selection(presets, presets.len() as int).kept,
        presets.len() as int,
    )
}

/// What a list of presets holds.
pub open spec fn views(presets: Seq<Preset>) -> Seq<preset::PresetView> {
    presets.map_values(|p: Preset| p@)
}

/// The room that presets take together.
pub open spec fn room_of(presets: Seq<preset::PresetView>) -> int
    decreases presets.len(),
{
    if presets.len() == 0 {
        0
    } else {
        room_of(presets.drop_last()) + storage_estimate(presets.last())
    }
}

proof fn lemma_kept_len(presets: Seq<preset::PresetView>, kept: Set<int>, n: int)
    ensures
        kept_in_order(presets, kept, n).len() <= if n >= 0 {
            n
        } else {
            0
        },
    decreases n,
{
    if n > 0 {
        lemma_kept_len(presets, kept, n - 1);
    }
}

/// One more kept preset takes its own room more.
proof fn lemma_room_insert(presets: Seq<preset::PresetView>, kept: Set<int>, index: int, n: int)
    requires
        0 <= index,
        !kept.contains(index),
        n <= presets.len(),
    ensures
        room_of(kept_in_order(presets, kept.insert(index), n)) == room_of(
            kept_in_order(presets, kept, n),
        ) + (if index < n {
            storage_estimate(presets[index]) as int
        } else {
            0
        }),
    decreases n,
{
    if n > 0 {
        lemma_room_insert(presets, kept, index, n - 1);
        let with = kept.insert(index);
        let rest = kept_in_order(presets, kept, n - 1);
        let rest_with = kept_in_order(presets, with, n - 1);
        assert(rest.push(presets[n - 1]).drop_last() =~= rest);
        assert(rest_with.push(presets[n - 1]).drop_last() =~= rest_with);
    }
}

/// What is kept takes at most the room of everything.
proof fn lemma_room_kept(presets: Seq<preset::PresetView>, kept: Set<int>, n: int)
    requires
        0 <= n <= presets.len(),
    ensures
        room_of(kept_in_order(presets, kept, n)) <= room_of(presets.take(n)),
    decreases n,
{
    if n > 0 {
        lemma_room_kept(presets, kept, n - 1);
        let rest = kept_in_order(presets, kept, n - 1);
        assert(rest.push(presets[n - 1]).drop_last() =~= rest);
        assert(presets.take(n).drop_last() =~= presets.take(n - 1));
    }
}

/// Only presets that have been considered are kept, and the room used is theirs.
proof fn lemma_selection(presets: Seq<preset::PresetView>, turns: int)
    requires
        0 <= turns <= presets.len(),
    ensures
        forall|i: int| #[trigger]
            selection(presets, turns).kept.contains(i) ==> 0 <= i < presets.len()
                && presets[i].is_sound() && turns > 0 && (i == 0 || i > presets.len() - turns),
        selection(presets, turns).used == room_of(
            kept_in_order(presets, selection(presets, turns).kept, presets.len() as int),
        ),
        selection(presets, turns).used <= MAX_PERSISTED_PRESET_BYTES,
    decreases turns,
{
    let count = presets.len() as int;
    if turns == 0 {
        lemma_nothing_kept(presets, count);
    } else {
        lemma_selection(presets, turns - 1);
        let before = selection(presets, turns - 1);
        let index = considered(count, turns - 1);
        assert(!before.kept.contains(index));
        lemma_room_insert(presets, before.kept, index, count);
    }
}

proof fn lemma_nothing_kept(presets: Seq<preset::PresetView>, n: int)
    ensures
        kept_in_order(presets, Set::empty(), n) == Seq::<preset::PresetView>::empty(),
    decreases n,
{
    if n > 0 {
        lemma_nothing_kept(presets, n - 1);
    }
}

/// Every kept preset comes from the list.
proof fn lemma_kept_member(presets: Seq<preset::PresetView>, kept: Set<int>, n: int, j: int) -> (i: int)
    requires
        0 <= n <= presets.len(),
        0 <= j < kept_in_order(presets, kept, n).len(),
    ensures
        0 <= i < n,
        kept.contains(i),
        presets[i] == kept_in_order(presets, kept, n)[j],
    decreases n,
{
    if kept.contains(n - 1) && j == kept_in_order(presets, kept, n).len() - 1 {
        n - 1
    } else {
        lemma_kept_member(presets, kept, n - 1, j)
    }
}

/// Everything that is stored is sound and was offered for storage.
pub proof fn stored_presets_are_sound(presets: Seq<preset::PresetView>, j: int)
    requires
        0 <= j < stored(presets).len(),
    ensures
        stored(presets)[j].is_sound(),
        presets.contains(stored(presets)[j]),
{
    let kept = selection(presets, presets.len() as int).kept;
    lemma_selection(presets, presets.len() as int);
    let i = lemma_kept_member(presets, kept, presets.len() as int, j);
    assert(presets[i] == stored(presets)[j]);
}

/// What is stored never takes more room than allowed.
pub proof fn stored_presets_fit(presets: Seq<preset::PresetView>)
    ensures
        room_of(stored(presets)) <= MAX_PERSISTED_PRESET_BYTES,
{
    lemma_selection(presets, presets.len() as int);
}

proof fn lemma_kept_stays(presets: Seq<preset::PresetView>, turns: int, index: int)
    requires
        1 <= turns,
        selection(presets, 1).kept.contains(index),
    ensures
        selection(presets, turns).kept.contains(index),
    decreases turns,
{
    if turns > 1 {
        lemma_kept_stays(presets, turns - 1, index);
    }
}

proof fn lemma_first_kept(presets: Seq<preset::PresetView>, kept: Set<int>, n: int)
    requires
        1 <= n <= presets.len(),
        kept.contains(0),
    ensures
        kept_in_order(presets, kept, n).len() > 0,
        kept_in_order(presets, kept, n)[0] == presets[0],
    decreases n,
{
    if n > 1 {
        lemma_first_kept(presets, kept, n - 1);
    } else {
        assert(kept_in_order(presets, kept, 0) =~= Seq::empty());
    }
}

/// The first preset is retained, in first place, whenever it is sound and fits by itself.
pub proof fn first_preset_is_retained(presets: Seq<preset::PresetView>)
    requires
        presets.len() > 0,
        presets[0].is_sound(),
        storage_estimate(presets[0]) <= MAX_PERSISTED_PRESET_BYTES,
    ensures
        stored(presets).len() > 0,
        stored(presets)[0] == presets[0],
{
    reveal_with_fuel(selection, 2);
    assert(selection(presets, 1).kept.contains(0));
    lemma_kept_stays(presets, presets.len() as int, 0);
    lemma_first_kept(presets, selection(presets, presets.len() as int).kept, presets.len() as int);
}

proof fn lemma_all_selected(presets: Seq<preset::PresetView>, turns: int)
    requires
        0 <= turns <= presets.len(),
        forall|i: int| 0 <= i < presets.len() ==> (#[trigger] presets[i]).is_sound(),
        room_of(presets) <= MAX_PERSISTED_PRESET_BYTES,
    ensures
        forall|i: int|
            turns > 0 && (i == 0 || presets.len() - turns < i < presets.len())
                ==> #[trigger] selection(presets, turns).kept.contains(i),
    decreases turns,
{
    if turns > 0 {
        let count = presets.len() as int;
        lemma_all_selected(presets, turns - 1);
        lemma_selection(presets, turns - 1);
        let before = selection(presets, turns - 1);
        let index = considered(count, turns - 1);
        assert(!before.kept.contains(index));
        lemma_room_insert(presets, before.kept, index, count);
        lemma_room_kept(presets, before.kept.insert(index), count);
        assert(presets.take(count) =~= presets);
        assert(presets[index].is_sound());
    }
}

proof fn lemma_everything_kept(presets: Seq<preset::PresetView>, kept: Set<int>, n: int)
    requires
        0 <= n <= presets.len(),
        forall|i: int| 0 <= i < n ==> kept.contains(i),
    ensures
        kept_in_order(presets, kept, n) == presets.take(n),
    decreases n,
{
    if n > 0 {
        lemma_everything_kept(presets, kept, n - 1);
        assert(presets.take(n) =~= presets.take(n - 1).push(presets[n - 1]));
    } else {
        assert(presets.take(0) =~= Seq::empty());
    }
}

/// Sound presets that fit together are all stored, in their order.
pub proof fn fitting_presets_are_all_stored(presets: Seq<preset::PresetView>)
    requires
        forall|i: int| 0 <= i < presets.len() ==> (#[trigger] presets[i]).is_sound(),
        room_of(presets) <= MAX_PERSISTED_PRESET_BYTES,
    ensures
        stored(presets) == presets,
{
    let count = presets.len() as int;
    lemma_all_selected(presets, count);
    let kept = selection(presets, count).kept;
    assert forall|i: int| 0 <= i < count implies kept.contains(i) by {
        assert(selection(presets, count).kept.contains(i));
    }
    lemma_everything_kept(presets, kept, count);
    assert(presets.take(count) =~= presets);
}

/// Storing what was stored changes nothing.
pub proof fn storing_is_idempotent(presets: Seq<preset::PresetView>)
    ensures
        stored(stored(presets)) == stored(presets),
{
    assert forall|j: int| 0 <= j < stored(presets).len() implies (#[trigger] stored(
        presets,
    )[j]).is_sound() by {
        stored_presets_are_sound(presets, j);
    }
    stored_presets_fit(presets);
    fitting_presets_are_all_stored(stored(presets));
}

/// The indices below `n` that are kept, in their order.
spec fn kept_indices(kept: Set<int>, n: int) -> Seq<int>
    decreases n,
{
    if n <= 0 {
        Seq::empty()
    } else if kept.contains(n - 1) {
        kept_indices(kept, n - 1).push(n - 1)
    } else {
        kept_indices(kept, n - 1)
    }
}

proof fn lemma_kept_indices(presets: Seq<preset::PresetView>, kept: Set<int>, n: int)
    requires
        0 <= n <= presets.len(),
    ensures
        is_selection(presets.take(n), kept_in_order(presets, kept, n), kept_indices(kept, n)),
        forall|k: int| 0 <= k < n ==> (kept.contains(k) <==> #[trigger] kept_indices(
            kept,
            n,
        ).contains(k)),
    decreases n,
{
    let indices = kept_indices(kept, n);
    if n > 0 {
        lemma_kept_indices(presets, kept, n - 1);
        let before = kept_indices(kept, n - 1);
        let shorter = kept_in_order(presets, kept, n - 1);
        assert forall|j: int| 0 <= j < before.len() implies 0 <= #[trigger] before[j] < n - 1
            && shorter[j] == presets[before[j]] by {
            assert(shorter[j] == presets.take(n - 1)[before[j]]);
        }
        assert forall|k: int| 0 <= k < n implies (kept.contains(k)
            <==> #[trigger] indices.contains(k)) by {
            if k < n - 1 {
                assert(kept.contains(k) <==> before.contains(k));
                if before.contains(k) {
                    let j = choose|j: int| 0 <= j < before.len() && before[j] == k;
                    assert(indices[j] == k);
                }
                if indices.contains(k) {
                    let j = choose|j: int| 0 <= j < indices.len() && indices[j] == k;
                    assert(before[j] == k);
                }
            } else if kept.contains(k) {
                assert(indices[indices.len() - 1] == k);
            } else if indices.contains(k) {
                let j = choose|j: int| 0 <= j < before.len() && before[j] == k;
                assert(before[j] < n - 1);
            }
        }
    }
}

/// Whether presets stand at these indices of a list, in the order of the list.
pub open spec fn is_selection(
    presets: Seq<preset::PresetView>,
    chosen: Seq<preset::PresetView>,
    indices: Seq<int>,
) -> bool {
    &&& indices.len() == chosen.len()
    &&& forall|j: int|
        0 <= j < indices.len() ==> 0 <= #[trigger] indices[j] < presets.len() && chosen[j]
            == presets[indices[j]]
    &&& forall|j: int, k: int| 0 <= j < k < indices.len() ==> #[trigger] indices[j] < #[trigger] indices[k]
}

/// The room that the presets at some indices take: the first one of the list, and those above
/// `after`.
pub open spec fn room_beyond(presets: Seq<preset::PresetView>, indices: Seq<int>, after: int) -> int
    decreases indices.len(),
{
    if indices.len() == 0 {
        0
    } else {
        let last = indices.last();
        room_beyond(presets, indices.drop_last(), after) + if last == 0 || last > after {
            storage_estimate(presets[last]) as int
        } else {
            0
        }
    }
}

proof fn lemma_room_beyond(
    presets: Seq<preset::PresetView>,
    kept: Set<int>,
    part: Set<int>,
    after: int,
    n: int,
)
    requires
        0 <= n <= presets.len(),
        forall|k: int| 0 <= k < n ==> (part.contains(k) <==> #[trigger] kept.contains(k) && (k == 0
            || k > after)),
    ensures
        room_beyond(presets, kept_indices(kept, n), after) == room_of(
            kept_in_order(presets, part, n),
        ),
    decreases n,
{
    if n > 0 {
        lemma_room_beyond(presets, kept, part, after, n - 1);
        let indices = kept_indices(kept, n);
        let rest = kept_in_order(presets, part, n - 1);
        assert(kept.contains(n - 1) == kept.contains(n - 1));
        assert(rest.push(presets[n - 1]).drop_last() =~= rest);
        if kept.contains(n - 1) {
            assert(indices.drop_last() =~= kept_indices(kept, n - 1));
        }
    }
}

proof fn lemma_later_turns(presets: Seq<preset::PresetView>, turns: int, later: int, index: int)
    requires
        0 <= turns <= later <= presets.len(),
        turns > 0,
        index == 0 || index > presets.len() - turns,
    ensures
        selection(presets, later).kept.contains(index) <==> selection(
            presets,
            turns,
        ).kept.contains(index),
    decreases later,
{
    if turns < later {
        lemma_later_turns(presets, turns, later - 1, index);
    }
}

/// Presets are stored in their order, and each one that is sound is stored exactly if it fits
/// besides those that come before it: the first one of the list and the newer ones. Nothing is left
/// out without need, and no more than 2097152 bytes are taken.
pub proof fn presets_are_stored_if_they_fit(presets: Seq<preset::PresetView>) -> (indices: Seq<int>)
    ensures
        is_selection(presets, stored(presets), indices),
        forall|i: int|
            0 <= i < presets.len() ==> (#[trigger] indices.contains(i) <==> presets[i].is_sound()
                && storage_estimate(presets[i]) + (if i == 0 {
                0
            } else {
                room_beyond(presets, indices, i)
            }) <= 2097152),
        room_of(stored(presets)) <= 2097152,
{
    let count = presets.len() as int;
    let kept = selection(presets, count).kept;
    let indices = kept_indices(kept, count);
    lemma_kept_indices(presets, kept, count);
    assert(presets.take(count) =~= presets);
    lemma_selection(presets, count);
    assert forall|i: int| 0 <= i < count implies (#[trigger] indices.contains(i)
        <==> presets[i].is_sound() && storage_estimate(presets[i]) + (if i == 0 {
        0
    } else {
        room_beyond(presets, indices, i)
    }) <= 2097152) by {
        let turn = if i == 0 {
            0
        } else {
            count - i
        };
        let before = selection(presets, turn);
        lemma_selection(presets, turn);
        lemma_selection(presets, turn + 1);
        assert(considered(count, turn) == i);
        lemma_later_turns(presets, turn + 1, count, i);
        if i > 0 {
            assert forall|k: int| 0 <= k < count implies (before.kept.contains(k)
                <==> #[trigger] kept.contains(k) && (k == 0 || k > i)) by {
                if k == 0 || k > i {
                    lemma_later_turns(presets, turn, count, k);
                }
            }
            lemma_room_beyond(presets, kept, before.kept, i, count);
        }
        assert(!before.kept.contains(i));
    }
    indices
}

proof fn lemma_room_beyond_less(
    presets: Seq<preset::PresetView>,
    chosen: Seq<preset::PresetView>,
    indices: Seq<int>,
    after: int,
)
    requires
        is_selection(presets, chosen, indices),
    ensures
        room_beyond(presets, indices, after) <= room_of(chosen),
    decreases indices.len(),
{
    if indices.len() > 0 {
        let (i, c) = (indices.drop_last(), chosen.drop_last());
        assert forall|j: int| 0 <= j < i.len() implies 0 <= #[trigger] i[j] < presets.len() && c[j]
            == presets[i[j]] by {
            assert(i[j] == indices[j]);
        }
        assert forall|j: int, k: int| 0 <= j < k < i.len() implies #[trigger] i[j] < #[trigger] i[k] by {
            assert(i[j] == indices[j] && i[k] == indices[k]);
        }
        lemma_room_beyond_less(presets, c, i, after);
        assert(chosen.last() == presets[indices[indices.len() - 1]]);
    }
}

/// A sound preset that would fit besides everything that is stored is itself stored.
pub proof fn what_fits_is_stored(presets: Seq<preset::PresetView>, i: int)
    requires
        0 <= i < presets.len(),
        presets[i].is_sound(),
        storage_estimate(presets[i]) + room_of(stored(presets)) <= 2097152,
    ensures
        stored(presets).contains(presets[i]),
{
    let indices = presets_are_stored_if_they_fit(presets);
    lemma_room_beyond_less(presets, stored(presets), indices, i);
    lemma_room_nonnegative(stored(presets));
    assert(indices.contains(i));
    let j = choose|j: int| 0 <= j < indices.len() && indices[j] == i;
    assert(stored(presets)[j] == presets[indices[j]]);
}

proof fn lemma_room_nonnegative(presets: Seq<preset::PresetView>)
    ensures
        room_of(presets) >= 0,
    decreases presets.len(),
{
    if presets.len() > 0 {
        lemma_room_nonnegative(presets.drop_last());
    }
}

/// A number takes as many digits as there are powers of ten up to it.
proof fn lemma_decimal_digits(n: nat)
    ensures
        ({
            let digits = text::decimal(n).len();
            &&& digits >= 1
            &&& n < power::pow(10, digits)
            &&& n == 0 || power::pow(10, (digits - 1) as nat) <= n
        }),
    decreases n,
{
    reveal(power::pow);
    if n < 10 {
        assert(power::pow(10, 1) == 10 * power::pow(10, 0));
    } else {
        lemma_decimal_digits(n / 10);
        let digits = text::decimal(n / 10).len();
        assert(power::pow(10, digits + 1) == 10 * power::pow(10, digits));
        assert(power::pow(10, digits) == 10 * power::pow(10, (digits - 1) as nat));
    }
}

/// In storage, each byte of the picture and each assignment takes its decimal digits and one more,
/// the name takes its bytes, and the rest 256. One more assignment takes that much more room.
pub proof fn estimates_count_digits(
    p: preset::PresetView,
    numbers: Seq<usize>,
    number: usize,
    digits: nat,
)
    requires
        digits >= 1,
        number < power::pow(10, digits),
        digits == 1 || power::pow(10, (digits - 1) as nat) <= number,
    ensures
        written_len(Seq::<usize>::empty()) == 0,
        written_len(numbers.push(number)) == written_len(numbers) + digits + 1,
        ({
            let room = written_len(
                Seq::new(p.inner.source_img.len(), |i: int| p.inner.source_img[i] as usize),
            ) + written_len(p.assignments) + vstd::utf8::encode_utf8(p.inner.name).len() + 256;
            room <= usize::MAX ==> storage_estimate(p) == room
        }),
{
    assert(numbers.push(number).drop_last() =~= numbers);
    lemma_decimal_digits(number as nat);
    let counted = text::decimal(number as nat).len();
    if counted < digits {
        power::lemma_pow_increases(10, counted, (digits - 1) as nat);
    }
    if digits < counted {
        power::lemma_pow_increases(10, digits, (counted - 1) as nat);
        if number == 0 {
            assert(text::decimal(0).len() == 1);
        }
    }
    assert(widened(p.inner.source_img) =~= Seq::new(
        p.inner.source_img.len(),
        |i: int| p.inner.source_img[i] as usize,
    ));
}

/// Keeps only sound presets and caps the room they take. The first preset is considered
/// first, then the newest. Also tells how many presets were left out.
pub fn presets_for_storage(presets: &[Preset]) -> (result: (Vec<Preset>, usize))
    ensures
        views(result.0@) == stored(views(presets@)),
        result.1 == presets@.len() - stored(views(presets@)).len(),
{
    let count: usize = presets.len();
    let ghost all = views(presets@);
    let mut keep: Vec<bool> = filled(false, count);
    let mut used: usize = 0;
    let mut turn: usize = 0;
    while turn < count
        invariant
            count == presets@.len(),
            all == views(presets@),
            turn <= count,
            keep.len() == count,
            used == selection(all, turn as int).used,
            used <= MAX_PERSISTED_PRESET_BYTES,
            forall|i: int|
                0 <= i < count ==> (#[trigger] keep[i] <==> selection(all, turn as int).kept.contains(
                    i,
                )),
        decreases count - turn,
    {
        let index: usize = if turn == 0 {
            0
        } else {
            count - turn
        };
        assert(all[index as int] == presets@[index as int]@);
        if presets[index].validate().is_ok() {
            let estimate: usize = presets[index].estimated_storage_bytes();
            if used.saturating_add(estimate) <= MAX_PERSISTED_PRESET_BYTES {
                used = used.saturating_add(estimate);
                keep[index] = true;
            }
        }
        turn = turn + 1;
    }
    let ghost kept = selection(all, count as int).kept;
    let mut selected: Vec<Preset> = Vec::new();
    for i in 0..count
        invariant
            count == presets@.len(),
            all == views(presets@),
            keep.len() == count,
            forall|j: int| 0 <= j < count ==> (#[trigger] keep[j] <==> kept.contains(j)),
            views(selected@) == kept_in_order(all, kept, i as int),
    {
        if keep[i] {
            let ghost before = selected@;
            selected.push(presets[i].clone());
            assert(views(selected@) =~= views(before).push(all[i as int]));
        }
    }
    proof {
        lemma_kept_len(all, kept, count as int);
    }
    let omitted: usize = count - selected.len();
    (selected, omitted)
}

} // verus!
