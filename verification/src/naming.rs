//! Names of copies: each copy counts up the version at the end of the name.
use crate::settings;
use crate::settings::GenerationSettings;
use crate::text;
use vstd::prelude::*;
use vstd::string::*;

verus! {

/// Whether a space and the letter v stand at a place of a name.
pub open spec fn mark_at(name: Seq<char>, i: int) -> bool {
    0 <= i && i + 1 < name.len() && name[i] == ' ' && name[i + 1] == 'v'
}

/// The last place before `end` where a space and the letter v stand.
pub open spec fn last_mark(name: Seq<char>, end: int) -> Option<int>
    decreases end,
{
    if end <= 0 {
        None
    } else if mark_at(name, end - 1) {
        Some(end - 1)
    } else {
        last_mark(name, end - 1)
    }
}

pub open spec fn is_digit(c: char) -> bool {
    48 <= c as int <= 57
}

/// The number that digits stand for.
pub open spec fn digits_value(digits: Seq<char>) -> nat
    decreases digits.len(),
{
    if digits.len() == 0 {
        0
    } else {
        digits_value(digits.drop_last()) * 10 + (digits.last() as int - 48) as nat
    }
}

/// A text without the plus sign that it starts with.
pub open spec fn unsigned_part(words: Seq<char>) -> Seq<char> {
    if words.len() > 0 && words[0] == '+' {
        words.drop_first()
    } else {
        words
    }
}

pub open spec fn all_digits(words: Seq<char>) -> bool {
    forall|i: int| 0 <= i < words.len() ==> is_digit(#[trigger] words[i])
}

/// The number that a text stands for: digits, perhaps after a plus sign, of a value that
/// fits 32 bits.
pub open spec fn parsed_u32(words: Seq<char>) -> Option<u32> {
    let digits = unsigned_part(words);
    if digits.len() > 0 && all_digits(digits) && digits_value(digits) <= u32::MAX {
        Some(digits_value(digits) as u32)
    } else {
        None
    }
}

/// The version that a name ends with, and where its mark stands.
pub open spec fn version_of(name: Seq<char>) -> Option<(int, u32)> {
    match last_mark(name, name.len() as int) {
        Some(at) => match parsed_u32(name.skip(at + 2)) {
            Some(version) => Some((at, version)),
            None => None,
        },
        None => None,
    }
}

/// The name of a copy: the version counted up by one, or a second version.
pub open spec fn copy_name(name: Seq<char>) -> Seq<char> {
    match version_of(name) {
        Some((at, version)) => name.take(at) + " v"@ + text::decimal((version + 1) as nat),
        None => name + " v2"@,
    }
}

/// Whether the version of a name can be counted up.
pub open spec fn version_fits(name: Seq<char>) -> bool {
    version_of(name) matches Some((at, version)) ==> version < u32::MAX
}

proof fn lemma_digits_value_grows(digits: Seq<char>, n: int)
    requires
        0 <= n <= digits.len(),
        all_digits(digits),
    ensures
        digits_value(digits.take(n)) <= digits_value(digits),
    decreases digits.len() - n,
{
    if n == digits.len() {
        assert(digits.take(n) =~= digits);
    } else {
        lemma_digits_value_grows(digits, n + 1);
        assert(digits.take(n + 1).drop_last() =~= digits.take(n));
        assert(is_digit(digits[n]));
    }
}

/// What a digit stands for.
fn digit_of(c: char) -> (digit: Option<u64>)
    ensures
        match digit {
            Some(d) => is_digit(c) && d == c as int - 48,
            None => !is_digit(c),
        },
{
    match c {
        '0' => Some(0),
        '1' => Some(1),
        '2' => Some(2),
        '3' => Some(3),
        '4' => Some(4),
        '5' => Some(5),
        '6' => Some(6),
        '7' => Some(7),
        '8' => Some(8),
        '9' => Some(9),
        _ => None,
    }
}

/// Reads a number of 32 bits.
pub fn parse_u32(words: &Vec<char>, start: usize) -> (number: Option<u32>)
    requires
        start <= words.len(),
    ensures
        number == parsed_u32(words@.skip(start as int)),
{
    let ghost rest = words@.skip(start as int);
    let mut from: usize = start;
    if from < words.len() && words[from] == '+' {
        from = from + 1;
    }
    let ghost digits = unsigned_part(rest);
    assert(digits =~= words@.skip(from as int));
    if from == words.len() {
        return None;
    }
    let mut value: u32 = 0;
    let mut i: usize = from;
    assert(digits.take(0) =~= Seq::empty());
    while i < words.len()
        invariant
            from <= i <= words.len(),
            digits == words@.skip(from as int),
            digits.len() == words.len() - from,
            digits.len() > 0,
            digits == unsigned_part(words@.skip(start as int)),
            value == digits_value(digits.take(i - from)),
            forall|j: int| 0 <= j < i - from ==> is_digit(#[trigger] digits[j]),
        decreases words.len() - i,
    {
        let c: char = words[i];
        assert(digits[i - from] == c);
        let digit: u64 = match digit_of(c) {
            Some(digit) => digit,
            None => {
                assert(!is_digit(digits[i - from]));
                return None;
            },
        };
        let next: u64 = value as u64 * 10 + digit;
        proof {
            assert(digits.take(i + 1 - from).drop_last() =~= digits.take(i - from));
            assert(digits.take(i + 1 - from).last() == c);
        }
        if next > u32::MAX as u64 {
            proof {
                if all_digits(digits) {
                    lemma_digits_value_grows(digits, i + 1 - from);
                }
            }
            return None;
        }
        value = next as u32;
        i = i + 1;
    }
    assert(digits.take(words.len() - from) =~= digits);
    Some(value)
}

/// The last place where a space and the letter v stand.
fn find_mark(name: &Vec<char>) -> (found: Option<usize>)
    ensures
        match found {
            Some(at) => last_mark(name@, name.len() as int) == Some(at as int) && mark_at(
                name@,
                at as int,
            ),
            None => last_mark(name@, name.len() as int) is None,
        },
{
    let mut end: usize = name.len();
    while end > 0
        invariant
            end <= name.len(),
            last_mark(name@, name.len() as int) == last_mark(name@, end as int),
        decreases end,
    {
        let at: usize = end - 1;
        if end < name.len() && name[at] == ' ' && name[end] == 'v' {
            return Some(at);
        }
        end = at;
    }
    None
}

/// The version that a name ends with, and where its mark stands.
fn find_version(name: &Vec<char>) -> (found: Option<(usize, u32)>)
    ensures
        match found {
            Some((at, version)) => version_of(name@) == Some((at as int, version)) && at
                <= name.len(),
            None => version_of(name@) is None,
        },
{
    match find_mark(name) {
        Some(at) => match parse_u32(name, at + 2) {
            Some(version) => Some((at, version)),
            None => None,
        },
        None => None,
    }
}

/// Whether the version of a name can be counted up.
pub fn can_count_up(name: &str) -> (fits: bool)
    ensures
        fits == version_fits(name@),
{
    match find_version(&text::chars_of(name)) {
        Some((_, version)) => version < u32::MAX,
        None => true,
    }
}

/// The name of a copy of something with this name.
pub fn name_of_copy(name: &str) -> (copied: String)
    requires
        version_fits(name@),
    ensures
        copied@ == copy_name(name@),
{
    let chars = text::chars_of(name);
    match find_version(&chars) {
        Some((at, version)) => {
            let mut copied = text::text_of(&chars, 0, at);
            assert(chars@.subrange(0, at as int) =~= name@.take(at as int));
            copied.append(" v");
            copied.append(text::decimal_text((version + 1) as usize).as_str());
            copied
        },
        None => {
            let mut copied = name.to_owned();
            copied.append(" v2");
            copied
        },
    }
}

impl GenerationSettings {
    /// The settings under another identifier and the next version of the name.
    pub fn clone_with_id(&self, id: uuid::Uuid) -> (copied: Self)
        requires
            version_fits(self@.name),
        ensures
            copied@ == (settings::SettingsView { id, name: copy_name(self@.name), ..self@ }),
    {
        let mut copied = self.clone();
        copied.id = id;
        copied.name = name_of_copy(self.name.as_str());
        copied
    }

    /// The settings under a fresh random identifier and the next version of the name.
    pub fn clone_with_new_id(&self) -> (copied: Self)
        requires
            version_fits(self@.name),
        ensures
            call_ensures(uuid::Uuid::new_v4, (), copied@.id),
            copied@ == (settings::SettingsView {
                id: copied@.id,
                name: copy_name(self@.name),
                ..self@
            }),
    {
        self.clone_with_id(uuid::Uuid::new_v4())
    }
}

proof fn lemma_decimal_digits(n: nat)
    ensures
        text::decimal(n).len() > 0,
        forall|i: int| 0 <= i < text::decimal(n).len() ==> is_digit(#[trigger] text::decimal(n)[i]),
        digits_value(text::decimal(n)) == n,
    decreases n,
{
    if n < 10 {
        let one = seq![text::digit(n as int)];
        assert(one.drop_last() =~= Seq::empty());
        assert(digits_value(one.drop_last()) == 0);
        assert(digits_value(one) == n);
    } else {
        lemma_decimal_digits(n / 10);
        let rest = text::decimal(n / 10);
        let last = text::digit((n % 10) as int);
        assert(rest.push(last).drop_last() =~= rest);
        assert(digits_value(rest.push(last)) == n);
        assert forall|i: int| 0 <= i < text::decimal(n).len() implies is_digit(
            #[trigger] text::decimal(n)[i],
        ) by {
            if i < rest.len() {
                assert(text::decimal(n)[i] == rest[i]);
            }
        }
    }
}

proof fn lemma_no_mark_after(name: Seq<char>, at: int, end: int)
    requires
        mark_at(name, at),
        at < end,
        forall|i: int| at < i < end ==> !mark_at(name, i),
    ensures
        last_mark(name, end) == Some(at),
    decreases end,
{
    if end - 1 != at {
        assert(!mark_at(name, end - 1));
        lemma_no_mark_after(name, at, end - 1);
    }
}

proof fn lemma_version_of_written(base: Seq<char>, version: u32)
    ensures
        version_of(base + " v"@ + text::decimal(version as nat)) == Some(
            (base.len() as int, version),
        ),
{
    reveal_strlit(" v");
    let digits = text::decimal(version as nat);
    let name = base + " v"@ + digits;
    let at = base.len() as int;
    lemma_decimal_digits(version as nat);
    assert(mark_at(name, at));
    assert forall|i: int| at < i < name.len() implies !mark_at(name, i) by {
        if i == at + 1 {
            assert(name[i] == 'v');
        } else {
            assert(name[i] == digits[i - at - 2]);
            assert(is_digit(digits[i - at - 2]));
        }
    }
    lemma_no_mark_after(name, at, name.len() as int);
    assert(name.skip(at + 2) =~= digits);
    assert(is_digit(digits[0]));
}

/// A name that ends with a version is copied to the next version of the same base.
pub proof fn copies_count_up(base: Seq<char>, version: u32)
    requires
        version < u32::MAX,
    ensures
        copy_name(base + " v"@ + text::decimal(version as nat)) == base + " v"@ + text::decimal(
            (version + 1) as nat,
        ),
{
    lemma_version_of_written(base, version);
    reveal_strlit(" v");
    assert((base + " v"@ + text::decimal(version as nat)).take(base.len() as int) =~= base);
}

/// The name of a copy always carries a version, so that a copy of a copy is told from both.
pub proof fn copy_of_copy_is_distinct(name: Seq<char>)
    requires
        version_of(name) matches Some((at, version)) ==> version < u32::MAX - 1,
    ensures
        version_fits(copy_name(name)),
        copy_name(copy_name(name)) != copy_name(name),
        copy_name(copy_name(name)) != name,
        copy_name(name) != name,
{
    reveal_strlit(" v");
    reveal_strlit(" v2");
    let (base, version): (Seq<char>, u32) = match version_of(name) {
        Some((at, version)) => (name.take(at), (version + 1) as u32),
        None => (name, 2u32),
    };
    assert(text::decimal(2) =~= seq!['2']);
    assert(" v2"@ =~= " v"@ + seq!['2']);
    assert(copy_name(name) =~= base + " v"@ + text::decimal(version as nat));
    copies_count_up(base, version);
    lemma_version_of_written(base, version);
    lemma_version_of_written(base, (version + 1) as u32);
}

/// A name without a space that is followed by the letter v gets the second version.
pub proof fn names_without_a_version_get_the_second(name: Seq<char>)
    requires
        forall|i: int| 0 <= i < name.len() - 1 ==> #[trigger] name[i] != ' ' || name[i + 1] != 'v',
    ensures
        version_fits(name),
        copy_name(name) == name + " v2"@,
{
    lemma_no_mark(name, name.len() as int);
}

proof fn lemma_no_mark(name: Seq<char>, end: int)
    requires
        forall|i: int| 0 <= i < name.len() - 1 ==> #[trigger] name[i] != ' ' || name[i + 1] != 'v',
        end <= name.len(),
    ensures
        last_mark(name, end) is None,
    decreases end,
{
    if end > 0 {
        lemma_no_mark(name, end - 1);
        if mark_at(name, end - 1) {
            assert(name[end - 1] == ' ');
        }
    }
}

/// Whether words are one or more of the ten digits.
pub open spec fn is_plain_number(words: Seq<char>) -> bool {
    words.len() > 0 && forall|i: int| 0 <= i < words.len() ==> '0' <= #[trigger] words[i] <= '9'
}

/// What stands behind the last space that is followed by the letter v decides: a number, with or
/// without a plus sign and leading zeros, is counted up; anything else gets the second version. Only the
/// greatest number of 32 bits cannot be counted up.
pub proof fn the_last_version_counts(base: Seq<char>, plus: bool, digits: Seq<char>)
    requires
        forall|i: int|
            0 <= i < digits.len() - 1 ==> #[trigger] digits[i] != ' ' || digits[i + 1] != 'v',
        !plus ==> digits.len() == 0 || digits[0] != '+',
    ensures
        ({
            let words = if plus {
                seq!['+'] + digits
            } else {
                digits
            };
            let name = base + " v"@ + words;
            &&& is_plain_number(digits) && digits_value(digits) <= u32::MAX ==> copy_name(name)
                == base + " v"@ + text::decimal(digits_value(digits) + 1)
            &&& !is_plain_number(digits) || digits_value(digits) > u32::MAX ==> copy_name(name)
                == name + " v2"@
            &&& version_fits(name) <==> !(is_plain_number(digits) && digits_value(digits)
                == 4294967295)
        }),
{
    reveal_strlit(" v");
    let words = if plus {
        seq!['+'] + digits
    } else {
        digits
    };
    let name = base + " v"@ + words;
    let at = base.len() as int;
    assert(name[at] == ' ' && name[at + 1] == 'v');
    let start = name.len() - digits.len();
    assert forall|i: int| at < i < name.len() - 1 implies #[trigger] name[i] != ' ' || name[i + 1]
        != 'v' by {
        if i >= start {
            assert(name[i] == digits[i - start]);
            assert(name[i + 1] == digits[i + 1 - start]);
        }
    }
    lemma_last_mark_is(name, at, name.len() as int);
    assert(name.skip(at + 2) =~= words);
    assert(name.take(at) =~= base);
    assert(unsigned_part(words) =~= digits);
    assert(is_plain_number(digits) <==> digits.len() > 0 && all_digits(digits)) by {
        if is_plain_number(digits) {
            assert forall|i: int| 0 <= i < digits.len() implies is_digit(#[trigger] digits[i]) by {}
        }
        if all_digits(digits) && digits.len() > 0 {
            assert forall|i: int| 0 <= i < digits.len() implies '0' <= #[trigger] digits[i]
                <= '9' by {
                assert(is_digit(digits[i]));
            }
        }
    }
}

proof fn lemma_last_mark_is(name: Seq<char>, at: int, end: int)
    requires
        mark_at(name, at),
        at < end <= name.len(),
        forall|i: int| at < i < name.len() - 1 ==> #[trigger] name[i] != ' ' || name[i + 1] != 'v',
    ensures
        last_mark(name, end) == Some(at),
    decreases end,
{
    if end - 1 > at {
        lemma_last_mark_is(name, at, end - 1);
        if mark_at(name, end - 1) {
            assert(name[end - 1] == ' ');
        }
    }
}

/// Digits stand for ten times what the digits before the last one stand for, and the last one.
pub proof fn digits_count_in_tens(digits: Seq<char>, last: char)
    requires
        '0' <= last <= '9',
    ensures
        digits_value(Seq::empty()) == 0,
        digits_value(digits.push(last)) == 10 * digits_value(digits) + (last as int - '0' as int),
{
    assert(digits.push(last).drop_last() =~= digits);
}

} // verus!
