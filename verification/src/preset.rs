//! Pictures, processed or not, as they are kept between sessions.
use crate::buffers::{copy_of, filled};
use crate::text;
use crate::text::numbered;
use vstd::prelude::*;
use vstd::string::*;

verus! {

pub const MIN_PRESET_SIDE: u32 = 32;

pub const MAX_PRESET_SIDE: u32 = 512;

pub const MAX_PRESET_NAME_CHARS: usize = 64;

/// How many bytes of presets are kept at most: two mebibytes.
pub const MAX_PERSISTED_PRESET_BYTES: usize = 2097152;

/// A picture together with the source pixel that goes to each of its cells.
pub struct Preset {
    pub inner: UnprocessedPreset,
    pub assignments: Vec<usize>,
}

/// A named picture: three bytes per pixel, row by row.
pub struct UnprocessedPreset {
    pub name: String,
    pub width: u32,
    pub height: u32,
    pub source_img: Vec<u8>,
}

/// What an unprocessed preset holds.
pub struct PictureView {
    pub name: Seq<char>,
    pub width: u32,
    pub height: u32,
    pub source_img: Seq<u8>,
}

/// What a preset holds.
pub struct PresetView {
    pub inner: PictureView,
    pub assignments: Seq<usize>,
}

impl View for UnprocessedPreset {
    type V = PictureView;

    open spec fn view(&self) -> PictureView {
        PictureView {
            name: self.name@,
            width: self.width,
            height: self.height,
            source_img: self.source_img@,
        }
    }
}

impl View for Preset {
    type V = PresetView;

    open spec fn view(&self) -> PresetView {
        PresetView { inner: self.inner@, assignments: self.assignments@ }
    }
}

impl Clone for UnprocessedPreset {
    fn clone(&self) -> (copied: Self)
        ensures
            copied@ == self@,
    {
        UnprocessedPreset {
            name: self.name.clone(),
            width: self.width,
            height: self.height,
            source_img: copy_of(&self.source_img),
        }
    }
}

impl Clone for Preset {
    fn clone(&self) -> (copied: Self)
        ensures
            copied@ == self@,
    {
        Preset { inner: self.inner.clone(), assignments: copy_of(&self.assignments) }
    }
}

impl PictureView {
    /// What is wrong with the picture under a name of `name_chars` characters; `None` if
    /// nothing is.
    pub open spec fn fault_named(self, name_chars: nat) -> Option<Seq<char>> {
        let expected = (self.width * self.height * 3) as nat;
        if name_chars == 0 {
            Some("preset name is empty"@)
        } else if name_chars > MAX_PRESET_NAME_CHARS {
            Some(
                "preset name is longer than "@ + text::decimal(MAX_PRESET_NAME_CHARS as nat)
                    + " characters"@,
            )
        } else if self.width == 0 || self.height == 0 {
            Some("preset dimensions cannot be zero"@)
        } else if self.width > MAX_PRESET_SIDE || self.height > MAX_PRESET_SIDE {
            Some(
                "preset dimensions cannot exceed "@ + text::decimal(MAX_PRESET_SIDE as nat)
                    + " pixels"@,
            )
        } else if self.source_img.len() != expected {
            Some(
                "preset RGB data has "@ + text::decimal(self.source_img.len()) + " bytes; expected "@
                    + text::decimal(expected),
            )
        } else {
            None
        }
    }

    /// What is wrong with the picture; the white space around its name does not count.
    pub open spec fn fault(self) -> Option<Seq<char>> {
        self.fault_named(text::trimmed(self.name).len())
    }

    /// The picture has a name of acceptable length, acceptable dimensions, and three bytes
    /// per pixel.
    pub open spec fn is_sound(self) -> bool {
        &&& 1 <= text::trimmed(self.name).len() <= MAX_PRESET_NAME_CHARS
        &&& 1 <= self.width <= MAX_PRESET_SIDE
        &&& 1 <= self.height <= MAX_PRESET_SIDE
        &&& self.source_img.len() == self.width * self.height * 3
    }
}

/// Each number below `n` occurs exactly once.
pub open spec fn is_permutation(a: Seq<usize>, n: nat) -> bool {
    &&& a.len() == n
    &&& forall|i: int| 0 <= i < a.len() ==> #[trigger] a[i] < n
    &&& a.no_duplicates()
}

/// What is wrong with the assignments from position `i` on.
pub open spec fn assignment_fault(a: Seq<usize>, n: nat, i: int) -> Option<Seq<char>>
    decreases a.len() - i,
{
    if i >= a.len() {
        None
    } else if a[i] >= n {
        Some(
            "preset assignment "@ + text::decimal(a[i] as nat) + " is outside 0.."@ + text::decimal(
                n,
            ),
        )
    } else if a.take(i).contains(a[i]) {
        Some("preset assignment "@ + text::decimal(a[i] as nat) + " occurs more than once"@)
    } else {
        assignment_fault(a, n, i + 1)
    }
}

impl PresetView {
    /// What is wrong with the preset under a name of `name_chars` characters.
    pub open spec fn fault_named(self, name_chars: nat) -> Option<Seq<char>> {
        let pixels = (self.inner.width * self.inner.height) as nat;
        if self.inner.fault_named(name_chars) is Some {
            self.inner.fault_named(name_chars)
        } else if self.inner.width != self.inner.height {
            Some("processed preset image must be square"@)
        } else if self.inner.width < MIN_PRESET_SIDE {
            Some(
                "processed preset side cannot be below "@ + text::decimal(MIN_PRESET_SIDE as nat)
                    + " pixels"@,
            )
        } else if self.assignments.len() != pixels {
            Some(
                "preset has "@ + text::decimal(self.assignments.len()) + " assignments; expected "@
                    + text::decimal(pixels),
            )
        } else {
            assignment_fault(self.assignments, pixels, 0)
        }
    }

    /// What is wrong with the preset; `None` if nothing is.
    pub open spec fn fault(self) -> Option<Seq<char>> {
        self.fault_named(text::trimmed(self.inner.name).len())
    }

    /// A sound square picture whose assignments are a permutation of its pixels.
    pub open spec fn is_sound(self) -> bool {
        &&& self.inner.is_sound()
        &&& self.inner.width == self.inner.height
        &&& self.inner.width >= MIN_PRESET_SIDE
        &&& is_permutation(self.assignments, (self.inner.width * self.inner.height) as nat)
    }
}

/// The assignments have no fault from `i` on exactly if the rest is in range and nothing in
/// it has occurred before.
proof fn lemma_assignment_fault(a: Seq<usize>, n: nat, i: int)
    requires
        0 <= i <= a.len(),
    ensures
        assignment_fault(a, n, i) is None <==> (forall|j: int|
            i <= j < a.len() ==> #[trigger] a[j] < n && !a.take(j).contains(a[j])),
    decreases a.len() - i,
{
    if i < a.len() {
        lemma_assignment_fault(a, n, i + 1);
        if assignment_fault(a, n, i) is None {
            assert(a[i] < n && !a.take(i).contains(a[i]));
        }
    }
}

/// A preset is sound exactly if it has no fault.
pub proof fn preset_sound_iff_no_fault(p: PresetView)
    ensures
        p.inner.is_sound() <==> p.inner.fault() is None,
        p.is_sound() <==> p.fault() is None,
{
    assert(p.inner.width * p.inner.height >= 0) by (nonlinear_arith);
    let n = (p.inner.width * p.inner.height) as nat;
    let a = p.assignments;
    if a.len() == n {
        lemma_assignment_fault(a, n, 0);
        if assignment_fault(a, n, 0) is None {
            assert forall|i: int, j: int| 0 <= i < a.len() && 0 <= j < a.len() && i != j implies a[i]
                != a[j] by {
                let (lo, hi) = if i < j {
                    (i, j)
                } else {
                    (j, i)
                };
                assert(a.take(hi)[lo] == a[lo]);
                assert(!a.take(hi).contains(a[hi]));
            }
        }
        if is_permutation(a, n) {
            assert forall|j: int| 0 <= j < a.len() implies #[trigger] a[j] < n && !a.take(j).contains(
                a[j],
            ) by {
                if a.take(j).contains(a[j]) {
                    let i = choose|i: int| 0 <= i < j && a.take(j)[i] == a[j];
                    assert(a[i] == a[j]);
                }
            }
        }
    }
}

impl UnprocessedPreset {
    /// Checks the picture, taking its name to have `name_chars` characters.
    pub fn validate_named(&self, name_chars: usize) -> (result: Result<(), String>)
        ensures
            match result {
                Ok(_) => self@.fault_named(name_chars as nat) is None,
                Err(message) => self@.fault_named(name_chars as nat) == Some(message@),
            },
    {
        if name_chars == 0 {
            return Err("preset name is empty".to_owned());
        }
        if name_chars > MAX_PRESET_NAME_CHARS {
            return Err(
                numbered("preset name is longer than ", MAX_PRESET_NAME_CHARS, " characters"),
            );
        }
        if self.width == 0 || self.height == 0 {
            return Err("preset dimensions cannot be zero".to_owned());
        }
        if self.width > MAX_PRESET_SIDE || self.height > MAX_PRESET_SIDE {
            return Err(
                numbered("preset dimensions cannot exceed ", MAX_PRESET_SIDE as usize, " pixels"),
            );
        }
        proof {
            assert(self.width * self.height <= 512 * 512) by (nonlinear_arith)
                requires
                    self.width <= 512,
                    self.height <= 512,
            ;
        }
        let expected_len: usize = self.width as usize * self.height as usize * 3;
        if self.source_img.len() != expected_len {
            let mut message = numbered(
                "preset RGB data has ",
                self.source_img.len(),
                " bytes; expected ",
            );
            message.append(text::decimal_text(expected_len).as_str());
            return Err(message);
        }
        Ok(())
    }

    /// Checks the name, the dimensions and the amount of pixel data.
    pub fn validate(&self) -> (result: Result<(), String>)
        ensures
            result is Ok <==> self@.is_sound(),
            match result {
                Ok(_) => self@.fault() is None,
                Err(message) => self@.fault() == Some(message@),
            },
    {
        proof {
            preset_sound_iff_no_fault(PresetView { inner: self@, assignments: Seq::empty() });
        }
        self.validate_named(text::trimmed_len(self.name.as_str()))
    }
}

impl Preset {
    /// Checks the preset, taking its name to have `name_chars` characters.
    pub fn validate_named(&self, name_chars: usize) -> (result: Result<(), String>)
        ensures
            match result {
                Ok(_) => self@.fault_named(name_chars as nat) is None,
                Err(message) => self@.fault_named(name_chars as nat) == Some(message@),
            },
    {
        match self.inner.validate_named(name_chars) {
            Ok(_) => {},
            Err(message) => {
                return Err(message);
            },
        }
        if self.inner.width != self.inner.height {
            return Err("processed preset image must be square".to_owned());
        }
        if self.inner.width < MIN_PRESET_SIDE {
            return Err(
                numbered(
                    "processed preset side cannot be below ",
                    MIN_PRESET_SIDE as usize,
                    " pixels",
                ),
            );
        }
        proof {
            assert(self.inner.width * self.inner.height <= 512 * 512) by (nonlinear_arith)
                requires
                    self.inner.width <= 512,
                    self.inner.height <= 512,
            ;
        }
        let pixel_count: usize = self.inner.width as usize * self.inner.height as usize;
        if self.assignments.len() != pixel_count {
            let mut message = numbered(
                "preset has ",
                self.assignments.len(),
                " assignments; expected ",
            );
            message.append(text::decimal_text(pixel_count).as_str());
            return Err(message);
        }
        let ghost a = self.assignments@;
        let mut seen: Vec<bool> = filled(false, pixel_count);
        for i in 0..self.assignments.len()
            invariant
                a == self.assignments@,
                a.len() == pixel_count,
                seen.len() == pixel_count,
                forall|v: int|
                    0 <= v < pixel_count ==> (#[trigger] seen[v] <==> a.take(i as int).contains(
                        v as usize,
                    )),
                self@.fault_named(name_chars as nat) == assignment_fault(
                    a,
                    pixel_count as nat,
                    i as int,
                ),
        {
            let source_index: usize = self.assignments[i];
            if source_index >= pixel_count {
                let mut message = numbered("preset assignment ", source_index, " is outside 0..");
                message.append(text::decimal_text(pixel_count).as_str());
                return Err(message);
            }
            if seen[source_index] {
                return Err(
                    numbered("preset assignment ", source_index, " occurs more than once"),
                );
            }
            seen[source_index] = true;
            proof {
                let before = a.take(i as int);
                let after = a.take(i + 1);
                assert(after =~= before.push(source_index));
                assert forall|v: int| 0 <= v < pixel_count implies (#[trigger] seen[v]
                    <==> after.contains(v as usize)) by {
                    if before.contains(v as usize) {
                        let j = choose|j: int| 0 <= j < i && before[j] == v as usize;
                        assert(after[j] == v as usize);
                    }
                    if v == source_index {
                        assert(after[i as int] == v as usize);
                    }
                    if after.contains(v as usize) && v != source_index {
                        let j = choose|j: int| 0 <= j <= i && after[j] == v as usize;
                        assert(before[j] == v as usize);
                    }
                }
            }
        }
        Ok(())
    }

    /// Checks that the preset is a sound square picture with a permutation of its pixels.
    pub fn validate(&self) -> (result: Result<(), String>)
        ensures
            result is Ok <==> self@.is_sound(),
            match result {
                Ok(_) => self@.fault() is None,
                Err(message) => self@.fault() == Some(message@),
            },
    {
        proof {
            preset_sound_iff_no_fault(self@);
        }
        self.validate_named(text::trimmed_len(self.inner.name.as_str()))
    }
}

/// Each number below `n` occurs at exactly one place of a permutation.
pub proof fn permutations_hold_every_number(a: Seq<usize>, n: nat, k: int)
    requires
        is_permutation(a, n),
        0 <= k < n,
    ensures
        a.len() == n,
        exists|i: int| 0 <= i < n && #[trigger] a[i] == k,
        forall|i: int, j: int|
            0 <= i < n && 0 <= j < n && #[trigger] a[i] == k && #[trigger] a[j] == k ==> i == j,
{
    if forall|i: int| 0 <= i < n ==> #[trigger] a[i] != k {
        let others = Seq::new(
            n,
            |i: int|
                if a[i] < k {
                    a[i] as int
                } else {
                    a[i] - 1
                },
        );
        assert forall|i: int| 0 <= i < others.len() implies 0 <= #[trigger] others[i] < n - 1 by {
            assert(a[i] < n && a[i] != k);
        }
        assert forall|i: int, j: int|
            0 <= i < others.len() && 0 <= j < others.len() && i != j implies others[i] != others[j] by {
            assert(a[i] != a[j] && a[i] != k && a[j] != k);
        }
        crate::assignment::lemma_pigeonhole(others, n - 1);
    }
}

/// A list of as many numbers, all below `n` and all different, is a permutation.
pub proof fn distinct_numbers_are_permutations(a: Seq<usize>, n: nat)
    requires
        a.len() == n,
        forall|i: int| 0 <= i < n ==> #[trigger] a[i] < n,
        forall|i: int, j: int| 0 <= i < j < n ==> #[trigger] a[i] != #[trigger] a[j],
    ensures
        is_permutation(a, n),
{
}

/// A picture is sound exactly if its name has 1 to 64 characters, not counting white space around
/// it, its sides have 1 to 512 pixels, and it has three bytes for each.
pub proof fn sound_pictures(p: PictureView)
    ensures
        p.is_sound() <==> {
            &&& 1 <= text::trimmed(p.name).len() <= 64
            &&& 1 <= p.width <= 512
            &&& 1 <= p.height <= 512
            &&& p.source_img.len() == 3 * (p.width * p.height)
        },
{
    assert(p.width * p.height * 3 == 3 * (p.width * p.height)) by (nonlinear_arith);
}

/// A preset is sound exactly if its picture is sound, square and has sides of at least 32 pixels,
/// and if there is an assignment for each pixel, none of them out of range and no two the same.
pub proof fn sound_presets(p: PresetView)
    ensures
        p.is_sound() <==> {
            &&& p.inner.is_sound()
            &&& p.inner.width == p.inner.height
            &&& 32 <= p.inner.width
            &&& p.assignments.len() == p.inner.width * p.inner.width
            &&& forall|i: int|
                0 <= i < p.assignments.len() ==> #[trigger] p.assignments[i] < p.inner.width
                    * p.inner.width
            &&& forall|i: int, j: int|
                0 <= i < j < p.assignments.len() ==> #[trigger] p.assignments[i]
                    != #[trigger] p.assignments[j]
        },
{
    assert(p.inner.width * p.inner.height >= 0) by (nonlinear_arith);
}

/// The fault of assignments is that of the first one that is out of range or has occurred before,
/// and names it.
pub proof fn the_first_wrong_assignment_is_named(a: Seq<usize>, n: nat, i: int)
    requires
        0 <= i < a.len(),
        forall|j: int| 0 <= j < i ==> #[trigger] a[j] < n,
        forall|j: int, k: int| 0 <= j < k < i ==> #[trigger] a[j] != #[trigger] a[k],
    ensures
        a[i] >= n ==> assignment_fault(a, n, 0) == Some(
            "preset assignment "@ + text::decimal(a[i] as nat) + " is outside 0.."@ + text::decimal(
                n,
            ),
        ),
        a[i] < n && (exists|j: int| 0 <= j < i && #[trigger] a[j] == a[i]) ==> assignment_fault(
            a,
            n,
            0,
        ) == Some("preset assignment "@ + text::decimal(a[i] as nat) + " occurs more than once"@),
{
    lemma_fault_later(a, n, 0, i);
    if exists|j: int| 0 <= j < i && #[trigger] a[j] == a[i] {
        let j = choose|j: int| 0 <= j < i && #[trigger] a[j] == a[i];
        assert(a.take(i)[j] == a[i]);
    }
}

proof fn lemma_fault_later(a: Seq<usize>, n: nat, from: int, i: int)
    requires
        0 <= from <= i < a.len(),
        forall|j: int| 0 <= j < i ==> #[trigger] a[j] < n,
        forall|j: int, k: int| 0 <= j < k < i ==> #[trigger] a[j] != #[trigger] a[k],
    ensures
        assignment_fault(a, n, from) == assignment_fault(a, n, i),
    decreases i - from,
{
    if from < i {
        lemma_fault_later(a, n, from + 1, i);
        assert(a[from] < n);
        if a.take(from).contains(a[from]) {
            let j = choose|j: int| 0 <= j < from && a.take(from)[j] == a[from];
            assert(a[j] != a[from]);
        }
    }
}

/// Of several faults of a picture the first is named: its name, empty or longer than 64 characters, its
/// size, zero or above 512, or the number of its bytes.
pub proof fn faults_of_pictures_are_named(p: PictureView, name_chars: nat)
    ensures
        ({
            let named = 1 <= name_chars <= 64;
            let sized = 1 <= p.width <= 512 && 1 <= p.height <= 512;
            &&& name_chars == 0 ==> p.fault_named(name_chars) == Some("preset name is empty"@)
            &&& name_chars > 64 ==> p.fault_named(name_chars) == Some(
                "preset name is longer than "@ + text::decimal(64) + " characters"@,
            )
            &&& named && (p.width == 0 || p.height == 0) ==> p.fault_named(name_chars) == Some(
                "preset dimensions cannot be zero"@,
            )
            &&& named && p.width >= 1 && p.height >= 1 && !sized ==> p.fault_named(name_chars)
                == Some("preset dimensions cannot exceed "@ + text::decimal(512) + " pixels"@)
            &&& named && sized && p.source_img.len() != p.width * p.height * 3 ==> p.fault_named(
                name_chars,
            ) == Some(
                "preset RGB data has "@ + text::decimal(p.source_img.len()) + " bytes; expected "@
                    + text::decimal((p.width * p.height * 3) as nat),
            )
            &&& named && sized && p.source_img.len() == p.width * p.height * 3 ==> p.fault_named(
                name_chars,
            ) is None
        }),
{
}

/// Of several faults of a preset the first is named: one of its picture, that this is not square or its
/// side is below 32, or the number of its assignments.
pub proof fn faults_of_presets_are_named(p: PresetView, name_chars: nat)
    ensures
        ({
            let fault = p.fault_named(name_chars);
            let side = p.inner.width;
            let square = p.inner.fault_named(name_chars) is None && p.inner.width == p.inner.height;
            &&& p.inner.fault_named(name_chars) is Some ==> fault == p.inner.fault_named(name_chars)
            &&& p.inner.fault_named(name_chars) is None && !square ==> fault == Some(
                "processed preset image must be square"@,
            )
            &&& square && side < 32 ==> fault == Some(
                "processed preset side cannot be below "@ + text::decimal(32) + " pixels"@,
            )
            &&& square && side >= 32 && p.assignments.len() != side * side ==> fault == Some(
                "preset has "@ + text::decimal(p.assignments.len()) + " assignments; expected "@
                    + text::decimal((side * side) as nat),
            )
            &&& square && side >= 32 && p.assignments.len() == side * side ==> fault
                == assignment_fault(p.assignments, (side * side) as nat, 0)
        }),
{
}

} // verus!
