//! Text as sequences of characters, and numbers written in it.
use vstd::prelude::*;
use vstd::string::*;

verus! {

/// Whether a character is white space in the sense of Unicode: it has the property
/// `White_Space`.
pub open spec fn white_space(c: char) -> bool {
    let code = c as u32;
    ||| 0x9 <= code <= 0xd
    ||| code == 0x20
    ||| code == 0x85
    ||| code == 0xa0
    ||| code == 0x1680
    ||| 0x2000 <= code <= 0x200a
    ||| code == 0x2028
    ||| code == 0x2029
    ||| code == 0x202f
    ||| code == 0x205f
    ||| code == 0x3000
}

/// `char::is_whitespace` tells which characters have the property `White_Space` of Unicode.
pub assume_specification[ char::is_whitespace ](c: char) -> (white: bool)
    ensures
        white == white_space(c),
;

/// Whether a character is an ASCII letter or digit.
pub open spec fn ascii_alphanumeric(c: char) -> bool {
    '0' <= c <= '9' || 'A' <= c <= 'Z' || 'a' <= c <= 'z'
}

/// Whether a character that is not ASCII is a letter or a number in the sense of Unicode.
pub uninterp spec fn alphanumeric_beyond_ascii(c: char) -> bool;

/// Whether a character is a letter or a number in the sense of Unicode.
pub open spec fn alphanumeric(c: char) -> bool {
    if c as u32 <= 127 {
        ascii_alphanumeric(c)
    } else {
        alphanumeric_beyond_ascii(c)
    }
}

/// `char::is_alphanumeric` decides by the character alone. Of the ASCII characters, it takes
/// the letters and the digits.
pub assume_specification[ char::is_alphanumeric ](c: char) -> (found: bool)
    ensures
        found == if c as u32 <= 127 {
            ascii_alphanumeric(c)
        } else {
            alphanumeric_beyond_ascii(c)
        },
;

/// `String::push` puts one character at the end.
pub assume_specification[ String::push ](target: &mut String, c: char)
    ensures
        final(target)@ == old(target)@.push(c),
;

/// A text in quotation marks, as `Debug` shows it.
pub uninterp spec fn quotation(words: Seq<char>) -> Seq<char>;

/// `Debug` of a text puts it in quotation marks and escapes what is not plain. The outcome
/// depends on the text alone.
#[verifier::external_body]
pub(crate) fn quoted(words: &str) -> (quoted: String)
    ensures
        quoted@ == quotation(words@),
{
    format!("{:?}", words)
}

/// `Debug` of a path; nothing is claimed of the words.
#[verifier::external_body]
pub(crate) fn quoted_path(path: &std::path::PathBuf) -> (quoted: String) {
    format!("{:?}", path)
}

/// The digit of a number below ten.
pub open spec fn digit(d: int) -> char {
    (48 + d) as char
}

/// A number in decimal digits, without leading zeros.
pub open spec fn decimal(n: nat) -> Seq<char>
    decreases n,
{
    if n < 10 {
        seq![digit(n as int)]
    } else {
        decimal(n / 10).push(digit((n % 10) as int))
    }
}

/// The characters of a text.
pub fn chars_of(text: &str) -> (chars: Vec<char>)
    ensures
        chars@ == text@,
{
    let mut chars: Vec<char> = Vec::new();
    for c in it: text.chars()
        invariant
            it.seq() == text@,
            chars@ == text@.take(it.index() as int),
    {
        chars.push(c);
        assert(text@.take(it.index() + 1) =~= text@.take(it.index() as int).push(c));
    }
    assert(text@.take(text@.len() as int) =~= text@);
    chars
}

/// The text made of `chars[from..to]`.
pub fn text_of(chars: &Vec<char>, from: usize, to: usize) -> (text: String)
    requires
        from <= to <= chars.len(),
    ensures
        text@ == chars@.subrange(from as int, to as int),
{
    let mut text = String::new();
    for i in from..to
        invariant
            from <= to <= chars.len(),
            text@ == chars@.subrange(from as int, i as int),
    {
        text.push(chars[i]);
        assert(chars@.subrange(from as int, i + 1) =~= chars@.subrange(from as int, i as int).push(
            chars[i as int],
        ));
    }
    text
}

/// A number in decimal digits.
pub fn decimal_text(n: usize) -> (text: String)
    ensures
        text@ == decimal(n as nat),
    decreases n,
{
    let last: u8 = 48 + (n % 10) as u8;
    if n < 10 {
        let mut text = String::new();
        text.push(last as char);
        assert(text@ =~= seq![digit(n as int)]);
        text
    } else {
        let mut text = decimal_text(n / 10);
        text.push(last as char);
        text
    }
}

/// A text with a number in it.
pub fn numbered(before: &str, n: usize, after: &str) -> (text: String)
    ensures
        text@ == before@ + decimal(n as nat) + after@,
{
    let mut text = before.to_owned();
    text.append(decimal_text(n).as_str());
    text.append(after);
    text
}

/// A text without the white space that it starts with.
pub open spec fn trim_start(text: Seq<char>) -> Seq<char>
    decreases text.len(),
{
    if text.len() > 0 && white_space(text.first()) {
        trim_start(text.drop_first())
    } else {
        text
    }
}

/// A text without the white space that it ends with.
pub open spec fn trim_end(text: Seq<char>) -> Seq<char>
    decreases text.len(),
{
    if text.len() > 0 && white_space(text.last()) {
        trim_end(text.drop_last())
    } else {
        text
    }
}

/// A text without the white space around it.
pub open spec fn trimmed(text: Seq<char>) -> Seq<char> {
    trim_end(trim_start(text))
}

/// The number of characters of a text without the white space around it.
pub fn trimmed_len(text: &str) -> (len: usize)
    ensures
        len == trimmed(text@).len(),
{
    let chars = chars_of(text);
    let mut from: usize = 0;
    assert(chars@.skip(0) =~= text@);
    while from < chars.len() && chars[from].is_whitespace()
        invariant
            from <= chars.len(),
            chars@ == text@,
            trim_start(text@) == trim_start(chars@.skip(from as int)),
        decreases chars.len() - from,
    {
        assert(chars@.skip(from as int).drop_first() =~= chars@.skip(from + 1));
        from = from + 1;
    }
    let ghost rest = chars@.skip(from as int);
    assert(trim_start(text@) == rest);
    let mut to: usize = chars.len();
    assert(rest.take(to - from) =~= rest);
    while to > from && chars[to - 1].is_whitespace()
        invariant
            from <= to <= chars.len(),
            rest == chars@.skip(from as int),
            trim_end(rest) == trim_end(rest.take(to - from)),
        decreases to,
    {
        assert(rest.take(to - from).drop_last() =~= rest.take(to - 1 - from));
        assert(rest.take(to - from).last() == chars[to - 1]);
        to = to - 1;
    }
    assert(to > from ==> rest.take(to - from).last() == chars[to - 1]);
    to - from
}

proof fn lemma_trim_start(text: Seq<char>) -> (cut: int)
    ensures
        0 <= cut <= text.len(),
        trim_start(text) == text.skip(cut),
        forall|i: int| 0 <= i < cut ==> white_space(#[trigger] text[i]),
        cut < text.len() ==> !white_space(text[cut]),
    decreases text.len(),
{
    if text.len() > 0 && white_space(text.first()) {
        let rest = text.drop_first();
        let cut = lemma_trim_start(rest);
        assert(rest.skip(cut) =~= text.skip(cut + 1));
        assert forall|i: int| 0 <= i < cut + 1 implies white_space(#[trigger] text[i]) by {
            if i > 0 {
                assert(text[i] == rest[i - 1]);
            }
        }
        if cut < rest.len() {
            assert(text[cut + 1] == rest[cut]);
        }
        cut + 1
    } else {
        assert(text.skip(0) =~= text);
        0
    }
}

proof fn lemma_trim_end(text: Seq<char>) -> (kept: int)
    ensures
        0 <= kept <= text.len(),
        trim_end(text) == text.take(kept),
        forall|i: int| kept <= i < text.len() ==> white_space(#[trigger] text[i]),
        kept > 0 ==> !white_space(text[kept - 1]),
    decreases text.len(),
{
    if text.len() > 0 && white_space(text.last()) {
        let rest = text.drop_last();
        let kept = lemma_trim_end(rest);
        assert(rest.take(kept) =~= text.take(kept));
        assert forall|i: int| kept <= i < text.len() implies white_space(#[trigger] text[i]) by {
            if i < rest.len() {
                assert(text[i] == rest[i]);
            }
        }
        if kept > 0 {
            assert(text[kept - 1] == rest[kept - 1]);
        }
        kept
    } else {
        assert(text.take(text.len() as int) =~= text);
        text.len() as int
    }
}

/// Trimming a text takes away white space at both ends, and all of it: what is left is the part of
/// the text from some place up to another one, with white space before and behind it and none at its
/// own ends.
pub proof fn trimming_takes_white_space_away(text: Seq<char>) -> (ends: (int, int))
    ensures
        0 <= ends.0 <= ends.1 <= text.len(),
        trimmed(text) == text.subrange(ends.0, ends.1),
        forall|i: int|
            0 <= i < ends.0 || ends.1 <= i < text.len() ==> white_space(#[trigger] text[i]),
        ends.0 < ends.1 ==> !white_space(text[ends.0]) && !white_space(text[ends.1 - 1]),
{
    let from = lemma_trim_start(text);
    let rest = text.skip(from);
    let kept = lemma_trim_end(rest);
    assert(rest.take(kept) =~= text.subrange(from, from + kept));
    assert forall|i: int| 0 <= i < from || from + kept <= i < text.len() implies white_space(
        #[trigger] text[i],
    ) by {
        if i >= from {
            assert(text[i] == rest[i - from]);
        }
    }
    if kept > 0 {
        assert(rest[kept - 1] == text[from + kept - 1]);
    }
    (from, from + kept)
}

/// A number is written with its last digit last and the digits of the rest before it; nothing but
/// zero begins with a zero.
pub proof fn numbers_are_written_in_decimal(n: nat)
    ensures
        n < 10 ==> decimal(n) == seq![(48 + n) as char],
        n >= 10 ==> decimal(n) == decimal(n / 10).push((48 + n % 10) as char),
        n > 0 ==> decimal(n)[0] != '0',
        decimal(n).len() > 0,
    decreases n,
{
    if n >= 10 {
        numbers_are_written_in_decimal(n / 10);
    }
}

} // verus!
