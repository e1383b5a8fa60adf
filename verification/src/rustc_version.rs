//! Tells from the version line of a compiler whether it has `MaybeUninit`.

use vstd::prelude::*;
use vstd::slice::slice_subrange;
use vstd::utf8::{decode_utf8, encode_utf8, valid_utf8};

verus! {

/// Why a number could not be read.
#[derive(Clone, Copy, Debug, PartialEq, Eq, Structural)]
pub enum NumberError {
    /// There is nothing to read.
    Empty,
    /// There is a character that is no digit.
    InvalidDigit,
    /// The number does not fit in 32 bits.
    TooLarge,
}

/// Why the output of a compiler could not be read.
#[derive(Clone, Copy, Debug, PartialEq, Eq, Structural)]
pub enum VersionError {
    /// The output is not valid UTF-8.
    NotUtf8,
    /// The version does not start with 'rustc'.
    NotRustc,
    /// The output does not contain a version triplet.
    NoTriplet,
    /// The major version is not 1.
    MajorNotOne,
    /// The version does not contain a minor version.
    NoMinor,
    /// The minor version is not a number.
    BadMinor(NumberError),
}

impl NumberError {
    /// The text that shows the error.
    pub open spec fn text(&self) -> Seq<char> {
        match self {
            NumberError::Empty => "cannot parse integer from empty string"@,
            NumberError::InvalidDigit => "invalid digit found in string"@,
            NumberError::TooLarge => "number too large to fit in target type"@,
        }
    }

    /// Returns the text that shows the error.
    pub fn message(&self) -> (text: String)
        ensures
            text@ == self.text(),
    {
        match self {
            NumberError::Empty => String::from_str("cannot parse integer from empty string"),
            NumberError::InvalidDigit => String::from_str("invalid digit found in string"),
            NumberError::TooLarge => String::from_str("number too large to fit in target type"),
        }
    }
}

impl VersionError {
    /// The text that shows the error, given the one that shows why the output is
    /// not valid UTF-8.
    pub open spec fn text(&self, not_utf8: Seq<char>) -> Seq<char> {
        match self {
            VersionError::NotUtf8 => not_utf8,
            VersionError::NotRustc => "version does not start with 'rustc'"@,
            VersionError::NoTriplet => "output does not contain version triplet"@,
            VersionError::MajorNotOne => "rustc major version is not 1"@,
            VersionError::NoMinor => "rustc version does not contain minor version"@,
            VersionError::BadMinor(error) => "failed to parse minor version: "@ + error.text(),
        }
    }

    /// Returns the text that shows the error, given the one that shows why the
    /// output is not valid UTF-8.
    pub fn message(&self, not_utf8: &str) -> (text: String)
        ensures
            text@ == self.text(not_utf8@),
    {
        match self {
            VersionError::NotUtf8 => String::from_str(not_utf8),
            VersionError::NotRustc => String::from_str("version does not start with 'rustc'"),
            VersionError::NoTriplet => String::from_str("output does not contain version triplet"),
            VersionError::MajorNotOne => String::from_str("rustc major version is not 1"),
            VersionError::NoMinor => String::from_str(
                "rustc version does not contain minor version",
            ),
            VersionError::BadMinor(error) => {
                let mut text = String::from_str("failed to parse minor version: ");
                text.append(error.message().as_str());
                text
            },
        }
    }
}

/// The characters with the Unicode property `White_Space`.
pub open spec fn is_space(c: char) -> bool {
    ||| '\u{9}' <= c <= '\u{d}'
    ||| c == ' '
    ||| c == '\u{85}'
    ||| c == '\u{a0}'
    ||| c == '\u{1680}'
    ||| '\u{2000}' <= c <= '\u{200a}'
    ||| c == '\u{2028}'
    ||| c == '\u{2029}'
    ||| c == '\u{202f}'
    ||| c == '\u{205f}'
    ||| c == '\u{3000}'
}

/// A text without the white space at its start.
pub open spec fn trim_start(text: Seq<char>) -> Seq<char>
    decreases text.len(),
{
    if text.len() > 0 && is_space(text[0]) {
        trim_start(text.drop_first())
    } else {
        text
    }
}

/// A text without the white space at its end.
pub open spec fn trim_end(text: Seq<char>) -> Seq<char>
    decreases text.len(),
{
    if text.len() > 0 && is_space(text.last()) {
        trim_end(text.drop_last())
    } else {
        text
    }
}

/// The last line of a text, where a newline at the very end begins no line.
pub open spec fn last_line(text: Seq<char>) -> Seq<char> {
    let lines = if text.len() > 0 && text.last() == '\n' {
        text.drop_last()
    } else {
        text
    };
    match lines.index_of_last('\n') {
        Some(newline) => lines.skip(newline + 1),
        None => lines,
    }
}

/// What stands before the first separator in a text, or all of it.
pub open spec fn head(text: Seq<char>, separator: char) -> Seq<char> {
    match text.index_of_first(separator) {
        Some(at) => text.take(at),
        None => text,
    }
}

/// What stands behind the first separator in a text, if there is one.
pub open spec fn tail(text: Seq<char>, separator: char) -> Option<Seq<char>> {
    match text.index_of_first(separator) {
        Some(at) => Some(text.skip(at + 1)),
        None => None,
    }
}

/// Reads decimal digits from left to right, after those that gave `value`.
pub open spec fn read_digits(digits: Seq<char>, value: int) -> Result<int, NumberError>
    decreases digits.len(),
{
    if digits.len() == 0 {
        Ok(value)
    } else if !('0' <= digits[0] <= '9') {
        Err(NumberError::InvalidDigit)
    } else {
        let next = value * 10 + (digits[0] as int - '0' as int);
        if next > u32::MAX {
            Err(NumberError::TooLarge)
        } else {
            read_digits(digits.drop_first(), next)
        }
    }
}

/// Reads a number of at most 32 bits, with or without a plus sign.
pub open spec fn read_number(text: Seq<char>) -> Result<int, NumberError> {
    if text.len() == 0 {
        Err(NumberError::Empty)
    } else if text[0] == '+' && text.len() > 1 {
        read_digits(text.drop_first(), 0)
    } else {
        read_digits(text, 0)
    }
}

/// What the last line of the output says: whether the minor version of the
/// compiler, `rustc 1.<minor>`, is at least 36.
pub open spec fn supports_maybe_uninit(output: Seq<u8>) -> Result<bool, VersionError> {
    let line = trim_end(trim_start(last_line(decode_utf8(output))));
    if !valid_utf8(output) {
        Err(VersionError::NotUtf8)
    } else if head(line, ' ') != "rustc"@ {
        Err(VersionError::NotRustc)
    } else if tail(line, ' ') is None {
        Err(VersionError::NoTriplet)
    } else {
        let triplet = head(tail(line, ' ')->0, ' ');
        if head(triplet, '.') != "1"@ {
            Err(VersionError::MajorNotOne)
        } else if tail(triplet, '.') is None {
            Err(VersionError::NoMinor)
        } else {
            match read_number(head(tail(triplet, '.')->0, '.')) {
                Ok(minor) => Ok(minor >= 36),
                Err(error) => Err(VersionError::BadMinor(error)),
            }
        }
    }
}

/// Tells from what `rustc --version` printed whether that compiler has
/// `MaybeUninit`.
pub fn parse(output: &[u8]) -> (supported: Result<bool, VersionError>)
    ensures
        supported == supports_maybe_uninit(output@),
{
    let text = match from_utf8(output) {
        Some(text) => characters(text),
        None => return Err(VersionError::NotUtf8),
    };
    let line = trimmed(last_line_of(text.as_slice()));
    let (word, rest) = split_once(line, ' ');
    if !is_rustc(word) {
        return Err(VersionError::NotRustc);
    }
    let rest = match rest {
        Some(rest) => rest,
        None => return Err(VersionError::NoTriplet),
    };
    let (triplet, _) = split_once(rest, ' ');
    let (major, rest) = split_once(triplet, '.');
    if !is_one(major) {
        return Err(VersionError::MajorNotOne);
    }
    let rest = match rest {
        Some(rest) => rest,
        None => return Err(VersionError::NoMinor),
    };
    let (minor, _) = split_once(rest, '.');
    match number(minor) {
        Ok(minor) => Ok(minor >= 36),
        Err(error) => Err(VersionError::BadMinor(error)),
    }
}

/// `std::str::from_utf8` gives the text that the bytes encode, and fails exactly
/// if they encode none.
#[verifier::external_body]
fn from_utf8(bytes: &[u8]) -> (text: Option<&str>)
    ensures
        text is Some <==> valid_utf8(bytes@),
        text matches Some(text) ==> text@ == decode_utf8(bytes@),
{
    std::str::from_utf8(bytes).ok()
}

/// The characters of a text.
fn characters(text: &str) -> (characters: Vec<char>)
    ensures
        characters@ == text@,
{
    let mut characters: Vec<char> = Vec::new();
    for c in iter: text.chars()
        invariant
            iter.seq() == text@,
            characters@ == text@.take(iter.index() as int),
    {
        characters.push(c);
        assert(characters@ =~= text@.take(iter.index() + 1));
    }
    assert(text@.take(text@.len() as int) =~= text@);
    characters
}

/// The last line of a text.
fn last_line_of(text: &[char]) -> (line: &[char])
    ensures
        line@ == last_line(text@),
{
    let mut end: usize = text.len();
    if end > 0 && text[end - 1] == '\n' {
        end = end - 1;
    }
    let lines = slice_subrange(text, 0, end);
    proof {
        assert(lines@ =~= if text@.len() > 0 && text@.last() == '\n' {
            text@.drop_last()
        } else {
            text@
        });
        lines@.index_of_last_ensures('\n');
    }
    let mut start: usize = end;
    while start > 0 && lines[start - 1] != '\n'
        invariant
            start <= end,
            end == lines@.len(),
            forall|i: int| start <= i < end ==> lines@[i] != '\n',
        decreases start,
    {
        start = start - 1;
    }
    assert(lines@.subrange(0, end as int) =~= lines@);
    slice_subrange(lines, start, end)
}

/// A text without the white space around it.
fn trimmed(text: &[char]) -> (rest: &[char])
    ensures
        rest@ == trim_end(trim_start(text@)),
{
    let mut start: usize = 0;
    assert(text@.skip(0) =~= text@);
    while start < text.len() && space(text[start])
        invariant
            start <= text@.len(),
            trim_start(text@) == trim_start(text@.skip(start as int)),
        decreases text@.len() - start,
    {
        assert(text@.skip(start as int).drop_first() =~= text@.skip(start + 1));
        start = start + 1;
    }
    let text = slice_subrange(text, start, text.len());
    let mut end: usize = text.len();
    assert(text@.take(end as int) =~= text@);
    while end > 0 && space(text[end - 1])
        invariant
            end <= text@.len(),
            trim_end(text@) == trim_end(text@.take(end as int)),
        decreases end,
    {
        assert(text@.take(end as int).drop_last() =~= text@.take(end - 1));
        end = end - 1;
    }
    slice_subrange(text, 0, end)
}

/// Whether a character is white space.
fn space(c: char) -> (space: bool)
    ensures
        space == is_space(c),
{
    ('\u{9}' <= c && c <= '\u{d}') || c == ' ' || c == '\u{85}' || c == '\u{a0}' || c
        == '\u{1680}' || ('\u{2000}' <= c && c <= '\u{200a}') || c == '\u{2028}' || c
        == '\u{2029}' || c == '\u{202f}' || c == '\u{205f}' || c == '\u{3000}'
}

/// What stands before the first separator, and what stands behind it.
fn split_once(text: &[char], separator: char) -> (parts: (&[char], Option<&[char]>))
    ensures
        parts.0@ == head(text@, separator),
        match (parts.1, tail(text@, separator)) {
            (Some(rest), Some(expected)) => rest@ == expected,
            (None, None) => true,
            _ => false,
        },
{
    proof {
        text@.index_of_first_ensures(separator);
    }
    let mut at: usize = 0;
    while at < text.len() && text[at] != separator
        invariant
            at <= text@.len(),
            forall|i: int| 0 <= i < at ==> text@[i] != separator,
        decreases text@.len() - at,
    {
        at = at + 1;
    }
    if at < text.len() {
        (slice_subrange(text, 0, at), Some(slice_subrange(text, at + 1, text.len())))
    } else {
        (text, None)
    }
}

/// Whether a text is the name of the compiler.
fn is_rustc(text: &[char]) -> (same: bool)
    ensures
        same == (text@ == "rustc"@),
{
    proof {
        reveal_strlit("rustc");
        if text@.len() == 5 && text@[0] == 'r' && text@[1] == 'u' && text@[2] == 's' && text@[3]
            == 't' && text@[4] == 'c' {
            assert(text@ =~= "rustc"@);
        }
    }
    text.len() == 5 && text[0] == 'r' && text[1] == 'u' && text[2] == 's' && text[3] == 't'
        && text[4] == 'c'
}

/// Whether a text is the one digit `1`.
fn is_one(text: &[char]) -> (same: bool)
    ensures
        same == (text@ == "1"@),
{
    proof {
        reveal_strlit("1");
        if text@.len() == 1 && text@[0] == '1' {
            assert(text@ =~= "1"@);
        }
    }
    text.len() == 1 && text[0] == '1'
}

/// Reads a number.
fn number(text: &[char]) -> (value: Result<u32, NumberError>)
    ensures
        match (value, read_number(text@)) {
            (Ok(value), Ok(expected)) => value == expected,
            (Err(error), Err(expected)) => error == expected,
            _ => false,
        },
{
    if text.len() == 0 {
        return Err(NumberError::Empty);
    }
    let mut at: usize = if text[0] == '+' && text.len() > 1 {
        1
    } else {
        0
    };
    let mut value: u32 = 0;
    proof {
        assert(text@.skip(0) =~= text@);
        assert(text@.skip(1) =~= text@.drop_first());
    }
    while at < text.len()
        invariant
            at <= text@.len(),
            read_number(text@) == read_digits(text@.skip(at as int), value as int),
        decreases text@.len() - at,
    {
        let digit: char = text[at];
        assert(text@.skip(at as int).drop_first() =~= text@.skip(at + 1));
        if !('0' <= digit && digit <= '9') {
            return Err(NumberError::InvalidDigit);
        }
        let next: u64 = value as u64 * 10 + (digit as u64 - '0' as u64);
        if next > u32::MAX as u64 {
            return Err(NumberError::TooLarge);
        }
        value = next as u32;
        at = at + 1;
    }
    Ok(value)
}

/// The character of a decimal digit.
pub open spec fn digit(value: nat) -> char {
    if value == 0 {
        '0'
    } else if value == 1 {
        '1'
    } else if value == 2 {
        '2'
    } else if value == 3 {
        '3'
    } else if value == 4 {
        '4'
    } else if value == 5 {
        '5'
    } else if value == 6 {
        '6'
    } else if value == 7 {
        '7'
    } else if value == 8 {
        '8'
    } else {
        '9'
    }
}

/// A number, as it is written in decimal.
pub open spec fn decimal(n: nat) -> Seq<char>
    decreases n,
{
    if n < 10 {
        seq![digit(n)]
    } else {
        decimal(n / 10).push(digit(n % 10))
    }
}

/// A number in decimal with zeros in front of it, and a plus sign in front of these
/// if `plus` is set.
pub open spec fn padded(plus: bool, zeros: nat, n: nat) -> Seq<char> {
    (if plus {
        seq!['+']
    } else {
        Seq::empty()
    }) + Seq::new(zeros, |i: int| '0') + decimal(n)
}

/// Whether a text has no newline and, unless it is empty, begins with a space or, if
/// `dot` is set, with a dot.
pub open spec fn begins_anew(text: Seq<char>, dot: bool) -> bool {
    &&& !text.contains('\n')
    &&& text.len() == 0 || text[0] == ' ' || (dot && text[0] == '.')
}

/// Whether a text is one word: it is not empty and has no white space in it.
pub open spec fn is_word(text: Seq<char>) -> bool {
    &&& text.len() > 0
    &&& forall|i: int| 0 <= i < text.len() ==> !is_space(#[trigger] text[i])
}

/// Only output that is no text is refused as such.
pub proof fn law_refuses_what_is_no_text(output: Seq<u8>)
    ensures
        supports_maybe_uninit(output) == Err::<bool, VersionError>(VersionError::NotUtf8)
            <==> !valid_utf8(output),
{
}

/// The version of a compiler, `rustc 1.` and the minor version, tells that it has
/// `MaybeUninit` exactly if the minor version is at least 36, whatever follows the
/// number. So once a version has it, every later one does. A minor version that
/// does not fit in 32 bits is too large.
pub proof fn law_minor_version_decides(plus: bool, zeros: nat, n: nat, rest: Seq<char>)
    requires
        begins_anew(rest, true),
    ensures
        supports_maybe_uninit(encode_utf8("rustc 1."@ + padded(plus, zeros, n) + rest)) == if n
            > u32::MAX {
            Err(VersionError::BadMinor(NumberError::TooLarge))
        } else {
            Ok(n >= 36)
        },
{
    let minor = padded(plus, zeros, n);
    lemma_decimal(n);
    lemma_padded(plus, zeros, n);
    lemma_minor(minor, rest);
}

/// A minor version that has another character than a digit behind a number that
/// fits in 32 bits, or in place of one, is no number. One that is missing before a
/// dot or a space is empty.
pub proof fn law_minor_version_is_a_number(
    number: Option<u32>,
    other: char,
    more: Seq<char>,
    rest: Seq<char>,
)
    requires
        !('0' <= other <= '9'),
        !is_space(other),
        other != '.',
        number is None ==> other != '+' || more.len() == 0,
        more.len() == 0 || is_word(more),
        !more.contains('.'),
        begins_anew(rest, true),
    ensures
        ({
            let digits = match number {
                Some(n) => decimal(n as nat),
                None => Seq::empty(),
            };
            supports_maybe_uninit(encode_utf8("rustc 1."@ + (digits.push(other) + more) + rest))
                == Err::<bool, VersionError>(VersionError::BadMinor(NumberError::InvalidDigit))
        }),
        supports_maybe_uninit(encode_utf8("rustc 1."@ + rest)) == Err::<bool, VersionError>(
            VersionError::BadMinor(NumberError::Empty),
        ),
{
    let digits = match number {
        Some(n) => decimal(n as nat),
        None => Seq::empty(),
    };
    let minor = digits.push(other) + more;
    if number is Some {
        lemma_decimal(number->0 as nat);
        lemma_decimal_value(number->0 as nat);
        lemma_read_digits_bad(digits, other, more, 0);
    }
    assert forall|i: int| 0 <= i < minor.len() implies !is_space(#[trigger] minor[i]) && minor[i]
        != '.' by {
        if i > digits.len() {
            assert(minor[i] == more[i - digits.len() - 1]);
        }
    }
    lemma_minor(minor, rest);
    lemma_minor(Seq::empty(), rest);
    assert("rustc 1."@ + Seq::<char>::empty() + rest =~= "rustc 1."@ + rest);
}

/// Output without a minor version, of another major version, without a version and
/// of another program is refused, each for its own reason.
pub proof fn law_refuses_other_output(word: Seq<char>, rest: Seq<char>)
    requires
        is_word(word),
        begins_anew(rest, false),
    ensures
        supports_maybe_uninit(encode_utf8("rustc 1"@ + rest)) == Err::<bool, VersionError>(
            VersionError::NoMinor,
        ),
        word != "1"@ && !word.contains('.') ==> supports_maybe_uninit(
            encode_utf8("rustc "@ + word + rest),
        ) == Err::<bool, VersionError>(VersionError::MajorNotOne),
        word != "1"@ && !word.contains('.') ==> forall|minor: Seq<char>|
            !minor.contains('\n') ==> #[trigger] supports_maybe_uninit(
                encode_utf8("rustc "@ + word + (seq!['.'] + minor)),
            ) == Err::<bool, VersionError>(VersionError::MajorNotOne),
        (forall|i: int| 0 <= i < rest.len() ==> is_space(#[trigger] rest[i]))
            ==> supports_maybe_uninit(encode_utf8("rustc"@ + rest)) == Err::<bool, VersionError>(
            VersionError::NoTriplet,
        ),
        word != "rustc"@ ==> supports_maybe_uninit(encode_utf8(word + rest)) == Err::<
            bool,
            VersionError,
        >(VersionError::NotRustc),
{
    reveal_strlit("rustc");
    reveal_strlit("rustc ");
    reveal_strlit("rustc 1");
    reveal_strlit("1");
    let rustc = "rustc"@;
    let one = "1"@;
    let trimmed = trim_end(rest);
    lemma_trim_end(rest);
    // Without a minor version.
    assert("rustc 1"@ + rest =~= rustc + (seq![' '] + (one + rest)));
    assert forall|i: int| 0 <= i < one.len() implies !is_space(#[trigger] one[i]) by {}
    assert(!one.contains('.'));
    lemma_major(one, rest);
    // Of another major version.
    assert("rustc "@ + word + rest =~= rustc + (seq![' '] + (word + rest)));
    if word != one && !word.contains('.') {
        lemma_major(word, rest);
        assert forall|minor: Seq<char>|
            !minor.contains('\n') implies #[trigger] supports_maybe_uninit(
            encode_utf8("rustc "@ + word + (seq!['.'] + minor)),
        ) == Err::<bool, VersionError>(VersionError::MajorNotOne) by {
            let behind = seq!['.'] + minor;
            assert forall|i: int| 0 <= i < behind.len() implies #[trigger] behind[i] != '\n' by {
                if i > 0 {
                    assert(minor.contains(minor[i - 1]));
                }
            }
            lemma_major(word, behind);
            assert("rustc "@ + word + behind =~= rustc + (seq![' '] + (word + behind)));
        }
    }
    // Without a version.
    assert forall|i: int| 0 <= i < rustc.len() implies !is_space(#[trigger] rustc[i]) by {}
    lemma_first_word(rustc, rest);
    if forall|i: int| 0 <= i < rest.len() ==> is_space(#[trigger] rest[i]) {
        lemma_trim_spaces(rest);
        assert(rustc + trimmed =~= rustc);
        rustc.index_of_first_ensures(' ');
    }
    // Of another program.
    lemma_first_word(word, rest);
}

/// Earlier lines, white space around the last line and a newline behind it make no
/// difference.
pub proof fn law_only_the_last_line_counts(
    earlier: Seq<char>,
    lead: Seq<char>,
    line: Seq<char>,
    trail: Seq<char>,
    newline: bool,
)
    requires
        earlier.len() == 0 || earlier.last() == '\n',
        line.len() > 0,
        !lead.contains('\n'),
        !line.contains('\n'),
        !trail.contains('\n'),
        forall|i: int| 0 <= i < lead.len() ==> is_space(#[trigger] lead[i]),
        forall|i: int| 0 <= i < trail.len() ==> is_space(#[trigger] trail[i]),
    ensures
        supports_maybe_uninit(
            encode_utf8(
                earlier + (lead + line + trail) + (if newline {
                    seq!['\n']
                } else {
                    Seq::empty()
                }),
            ),
        ) == supports_maybe_uninit(encode_utf8(line)),
{
    let ending: Seq<char> = if newline {
        seq!['\n']
    } else {
        Seq::empty()
    };
    let whole = lead + line + trail;
    assert forall|i: int| 0 <= i < whole.len() implies #[trigger] whole[i] != '\n' by {
        if i < lead.len() {
            assert(lead.contains(lead[i]));
        } else if i < lead.len() + line.len() {
            assert(line.contains(line[i - lead.len()]));
        } else {
            assert(trail.contains(trail[i - lead.len() - line.len()]));
        }
    }
    lemma_text(earlier + whole + ending);
    lemma_text(line);
    lemma_last_line(earlier, whole, ending);
    lemma_last_line(Seq::empty(), line, Seq::empty());
    assert(Seq::<char>::empty() + line + Seq::<char>::empty() =~= line);
    assert(whole =~= lead + (line + trail));
    lemma_trim_start_skips(lead, line + trail);
    lemma_trims_around(line, trail);
}

/// White space is what Unicode says: these 25 characters and no others.
pub proof fn law_white_space(c: char)
    ensures
        is_space(c) <==> {
            let code = c as u32;
            ||| 9 <= code <= 13
            ||| code == 32 || code == 133 || code == 160 || code == 5760
            ||| 8192 <= code <= 8202
            ||| code == 8232 || code == 8233 || code == 8239 || code == 8287 || code == 12288
        },
{
}

/// What the characters of a text give is what its bytes give.
proof fn lemma_text(text: Seq<char>)
    ensures
        valid_utf8(encode_utf8(text)),
        decode_utf8(encode_utf8(text)) == text,
{
    vstd::utf8::encode_utf8_valid_utf8(text);
    vstd::utf8::encode_utf8_decode_utf8(text);
}

/// The last of several lines.
proof fn lemma_last_line(earlier: Seq<char>, line: Seq<char>, ending: Seq<char>)
    requires
        earlier.len() == 0 || earlier.last() == '\n',
        line.len() > 0,
        !line.contains('\n'),
        ending.len() == 0 || ending == seq!['\n'],
    ensures
        last_line(earlier + line + ending) == line,
{
    let text = earlier + line + ending;
    let lines = if text.len() > 0 && text.last() == '\n' {
        text.drop_last()
    } else {
        text
    };
    assert(line.contains(line.last()));
    assert(lines =~= earlier + line);
    lines.index_of_last_ensures('\n');
    assert forall|i: int| earlier.len() <= i < lines.len() implies lines[i] != '\n' by {
        assert(line.contains(line[i - earlier.len()]));
    }
    if earlier.len() > 0 {
        assert(lines[earlier.len() - 1] == '\n');
        assert(lines.contains('\n'));
        assert(lines.index_of_last('\n') == Some(earlier.len() - 1));
        assert(lines.skip(earlier.len() as int) =~= line);
    } else {
        assert(!lines.contains('\n'));
        assert(lines =~= line);
    }
}

/// White space at the start is skipped.
proof fn lemma_trim_start_skips(lead: Seq<char>, text: Seq<char>)
    requires
        forall|i: int| 0 <= i < lead.len() ==> is_space(#[trigger] lead[i]),
    ensures
        trim_start(lead + text) == trim_start(text),
    decreases lead.len(),
{
    if lead.len() == 0 {
        assert(lead + text =~= text);
    } else {
        assert((lead + text)[0] == lead[0]);
        assert((lead + text).drop_first() =~= lead.drop_first() + text);
        lemma_trim_start_skips(lead.drop_first(), text);
    }
}

/// White space at the end is skipped.
proof fn lemma_trim_end_skips(text: Seq<char>, trail: Seq<char>)
    requires
        forall|i: int| 0 <= i < trail.len() ==> is_space(#[trigger] trail[i]),
    ensures
        trim_end(text + trail) == trim_end(text),
    decreases trail.len(),
{
    if trail.len() == 0 {
        assert(text + trail =~= text);
    } else {
        assert((text + trail).last() == trail.last());
        assert((text + trail).drop_last() =~= text + trail.drop_last());
        lemma_trim_end_skips(text, trail.drop_last());
    }
}

/// White space at the end makes no difference to what is left of a text.
proof fn lemma_trims_around(text: Seq<char>, trail: Seq<char>)
    requires
        forall|i: int| 0 <= i < trail.len() ==> is_space(#[trigger] trail[i]),
    ensures
        trim_end(trim_start(text + trail)) == trim_end(trim_start(text)),
    decreases text.len(),
{
    if text.len() == 0 {
        assert(text + trail =~= trail + Seq::<char>::empty());
        lemma_trim_start_skips(trail, Seq::empty());
    } else if is_space(text[0]) {
        assert((text + trail)[0] == text[0]);
        assert((text + trail).drop_first() =~= text.drop_first() + trail);
        lemma_trims_around(text.drop_first(), trail);
    } else {
        assert((text + trail)[0] == text[0]);
        lemma_trim_end_skips(text, trail);
    }
}

/// Nothing is left of white space.
proof fn lemma_trim_spaces(text: Seq<char>)
    requires
        forall|i: int| 0 <= i < text.len() ==> is_space(#[trigger] text[i]),
    ensures
        trim_end(text).len() == 0,
{
    assert(Seq::<char>::empty() + text =~= text);
    lemma_trim_end_skips(Seq::empty(), text);
}

/// What is left is the start of the text.
proof fn lemma_trim_end(text: Seq<char>)
    ensures
        trim_end(text).len() <= text.len(),
        trim_end(text) == text.take(trim_end(text).len() as int),
    decreases text.len(),
{
    if text.len() > 0 && is_space(text.last()) {
        lemma_trim_end(text.drop_last());
        assert(text.drop_last().take(trim_end(text).len() as int) =~= text.take(
            trim_end(text).len() as int,
        ));
    } else {
        assert(text.take(text.len() as int) =~= text);
    }
}

/// A word at the start stays.
proof fn lemma_trim_end_keeps(start: Seq<char>, rest: Seq<char>)
    requires
        start.len() > 0,
        !is_space(start.last()),
    ensures
        trim_end(start + rest) == start + trim_end(rest),
    decreases rest.len(),
{
    if rest.len() == 0 {
        assert(start + rest =~= start);
        assert(start + trim_end(rest) =~= start);
    } else {
        assert((start + rest).last() == rest.last());
        if is_space(rest.last()) {
            assert((start + rest).drop_last() =~= start + rest.drop_last());
            lemma_trim_end_keeps(start, rest.drop_last());
        }
    }
}

/// What stands before a separator begins with what has none.
proof fn lemma_head(start: Seq<char>, rest: Seq<char>, separator: char)
    requires
        !start.contains(separator),
    ensures
        head(start + rest, separator) == start + head(rest, separator),
        tail(start + rest, separator) == tail(rest, separator),
{
    let text = start + rest;
    text.index_of_first_ensures(separator);
    rest.index_of_first_ensures(separator);
    assert forall|i: int| 0 <= i < start.len() implies text[i] != separator by {
        assert(start.contains(start[i]));
    }
    if rest.contains(separator) {
        let at = rest.index_of_first(separator)->0;
        assert(text[start.len() + at] == separator);
        assert(text.contains(separator));
        let found = text.index_of_first(separator)->0;
        assert(found == start.len() + at) by {
            if found < start.len() + at {
                assert(found >= start.len());
                assert(rest[found - start.len()] == separator);
            }
        }
        assert(text.take(found) =~= start + rest.take(at));
        assert(text.skip(found + 1) =~= rest.skip(at + 1));
    } else {
        assert forall|i: int| 0 <= i < text.len() implies text[i] != separator by {
            if i >= start.len() {
                assert(rest.contains(rest[i - start.len()]));
            }
        }
        assert(!text.contains(separator));
    }
}

/// A text that begins with a separator has nothing before it.
proof fn lemma_head_empty(rest: Seq<char>, separator: char)
    requires
        rest.len() > 0,
        rest[0] == separator,
    ensures
        head(rest, separator) == Seq::<char>::empty(),
        tail(rest, separator) == Some(rest.drop_first()),
{
    rest.index_of_first_ensures(separator);
    assert(rest.contains(separator));
    assert(rest.index_of_first(separator) == Some(0int));
    assert(rest.take(0) =~= Seq::<char>::empty());
    assert(rest.skip(1) =~= rest.drop_first());
}

/// The line of a text that begins with a word.
proof fn lemma_line(start: Seq<char>, rest: Seq<char>)
    requires
        start.len() > 0,
        !is_space(start[0]),
        !is_space(start.last()),
        !start.contains('\n'),
        !rest.contains('\n'),
    ensures
        valid_utf8(encode_utf8(start + rest)),
        trim_end(trim_start(last_line(decode_utf8(encode_utf8(start + rest))))) == start
            + trim_end(rest),
{
    let line = start + rest;
    lemma_text(line);
    assert forall|i: int| 0 <= i < line.len() implies line[i] != '\n' by {
        if i < start.len() {
            assert(start.contains(start[i]));
        } else {
            assert(rest.contains(rest[i - start.len()]));
        }
    }
    lemma_last_line(Seq::empty(), line, Seq::empty());
    assert(Seq::<char>::empty() + line + Seq::<char>::empty() =~= line);
    assert(line[0] == start[0]);
    lemma_trim_end_keeps(start, rest);
}

/// The line and its first word.
proof fn lemma_first_word(word: Seq<char>, rest: Seq<char>)
    requires
        is_word(word),
        begins_anew(rest, false),
    ensures
        valid_utf8(encode_utf8(word + rest)),
        trim_end(trim_start(last_line(decode_utf8(encode_utf8(word + rest))))) == word + trim_end(
            rest,
        ),
        head(word + trim_end(rest), ' ') == word,
{
    let trimmed = trim_end(rest);
    assert forall|i: int| 0 <= i < word.len() implies word[i] != '\n' && word[i] != ' ' by {
        assert(!is_space(word[i]));
    }
    lemma_line(word, rest);
    lemma_trim_end(rest);
    lemma_head(word, trimmed, ' ');
    if trimmed.len() > 0 {
        assert(trimmed[0] == rest[0]);
        lemma_head_empty(trimmed, ' ');
    } else {
        trimmed.index_of_first_ensures(' ');
    }
    assert(word + Seq::<char>::empty() =~= word);
    assert(word + head(trimmed, ' ') =~= word);
}

/// What output with a major version gives.
proof fn lemma_major(major: Seq<char>, rest: Seq<char>)
    requires
        is_word(major),
        !major.contains('.'),
        begins_anew(rest, true),
    ensures
        ({
            let found = supports_maybe_uninit(
                encode_utf8("rustc"@ + (seq![' '] + (major + rest))),
            );
            &&& major != "1"@ ==> found == Err::<bool, VersionError>(VersionError::MajorNotOne)
            &&& major == "1"@ && begins_anew(rest, false) ==> found == Err::<bool, VersionError>(
                VersionError::NoMinor,
            )
            &&& major == "1"@ && rest.len() > 0 && rest[0] == '.' ==> found == match read_number(
                head(head(trim_end(rest).drop_first(), ' '), '.'),
            ) {
                Ok(minor) => Ok(minor >= 36),
                Err(error) => Err(VersionError::BadMinor(error)),
            }
        }),
{
    reveal_strlit("rustc");
    let rustc = "rustc"@;
    let start = rustc + (seq![' '] + major);
    let trimmed = trim_end(rest);
    assert(rustc + (seq![' '] + (major + rest)) =~= start + rest);
    assert forall|i: int| 0 <= i < major.len() implies major[i] != '\n' && major[i] != ' ' by {
        assert(!is_space(major[i]));
    }
    assert forall|i: int| 0 <= i < start.len() implies start[i] != '\n' by {
        if i > rustc.len() {
            assert(start[i] == major[i - rustc.len() - 1]);
        }
    }
    assert(start.last() == major.last());
    lemma_line(start, rest);
    lemma_trim_end(rest);
    let line = start + trimmed;
    let behind = seq![' '] + (major + trimmed);
    assert(line =~= rustc + behind);
    assert(!rustc.contains(' '));
    lemma_head(rustc, behind, ' ');
    lemma_head_empty(behind, ' ');
    assert(rustc + Seq::<char>::empty() =~= rustc);
    assert(behind.drop_first() =~= major + trimmed);
    lemma_head(major, trimmed, ' ');
    let words = head(trimmed, ' ');
    let triplet = major + words;
    trimmed.index_of_first_ensures(' ');
    lemma_head(major, words, '.');
    words.index_of_first_ensures('.');
    if trimmed.len() == 0 {
        assert(words.len() == 0);
        assert(!words.contains('.'));
        assert(head(triplet, '.') =~= major);
    } else if rest[0] == ' ' {
        assert(trimmed[0] == ' ');
        lemma_head_empty(trimmed, ' ');
        assert(!words.contains('.'));
        assert(head(triplet, '.') =~= major);
    } else {
        assert(trimmed[0] == '.');
        assert(words.len() > 0 && words[0] == '.') by {
            if trimmed.contains(' ') {
                let at = trimmed.index_of_first(' ')->0;
                assert(at > 0);
            }
        }
        lemma_head_empty(words, '.');
        assert(head(triplet, '.') =~= major);
        assert(words.drop_first() =~= head(trimmed.drop_first(), ' ')) by {
            assert(trimmed =~= seq!['.'] + trimmed.drop_first());
            assert(!seq!['.'].contains(' '));
            lemma_head(seq!['.'], trimmed.drop_first(), ' ');
        }
    }
    if rest.len() > 0 && rest[0] == '.' {
        // A dot is no white space, so it stays.
        assert(rest =~= seq!['.'] + rest.drop_first());
        lemma_trim_end_keeps(seq!['.'], rest.drop_first());
    }
}

/// What output with a minor version gives.
proof fn lemma_minor(minor: Seq<char>, rest: Seq<char>)
    requires
        forall|i: int|
            0 <= i < minor.len() ==> !is_space(#[trigger] minor[i]) && minor[i] != '.',
        begins_anew(rest, true),
    ensures
        supports_maybe_uninit(encode_utf8("rustc 1."@ + minor + rest)) == match read_number(
            minor,
        ) {
            Ok(minor) => Ok(minor >= 36),
            Err(error) => Err(VersionError::BadMinor(error)),
        },
{
    reveal_strlit("rustc 1.");
    reveal_strlit("rustc");
    reveal_strlit("1");
    let one = "1"@;
    let dotted = seq!['.'] + minor;
    let behind = dotted + rest;
    assert("rustc 1."@ + minor + rest =~= "rustc"@ + (seq![' '] + (one + behind)));
    assert forall|i: int| 0 <= i < behind.len() implies behind[i] != '\n' by {
        if 0 < i < dotted.len() {
            assert(!is_space(minor[i - 1]));
        } else if i >= dotted.len() {
            assert(rest.contains(rest[i - dotted.len()]));
        }
    }
    assert forall|i: int| 0 <= i < one.len() implies !is_space(#[trigger] one[i]) by {}
    lemma_major(one, behind);
    assert(!is_space(dotted.last())) by {
        if minor.len() > 0 {
            assert(dotted.last() == minor[minor.len() - 1]);
        }
    }
    lemma_trim_end_keeps(dotted, rest);
    lemma_trim_end(rest);
    let trimmed = trim_end(rest);
    assert((dotted + trimmed).drop_first() =~= minor + trimmed);
    assert forall|i: int| 0 <= i < minor.len() implies minor[i] != ' ' by {
        assert(!is_space(minor[i]));
    }
    lemma_head(minor, trimmed, ' ');
    let words = head(trimmed, ' ');
    lemma_head(minor, words, '.');
    trimmed.index_of_first_ensures(' ');
    words.index_of_first_ensures('.');
    assert(head(words, '.').len() == 0) by {
        if trimmed.len() > 0 {
            assert(trimmed[0] == rest[0]);
            if rest[0] == ' ' {
                lemma_head_empty(trimmed, ' ');
            } else if words.len() > 0 {
                assert(words[0] == '.');
                lemma_head_empty(words, '.');
            }
        }
    }
    assert(minor + head(words, '.') =~= minor);
}

/// The digits of a number.
proof fn lemma_decimal(n: nat)
    ensures
        decimal(n).len() > 0,
        forall|i: int| 0 <= i < decimal(n).len() ==> '0' <= #[trigger] decimal(n)[i] <= '9',
    decreases n,
{
    if n >= 10 {
        lemma_decimal(n / 10);
    }
}

/// Reading goes on behind what was read.
proof fn lemma_read_digits_push(digits: Seq<char>, last: char, value: int)
    ensures
        read_digits(digits.push(last), value) == match read_digits(digits, value) {
            Ok(read) => read_digits(seq![last], read),
            Err(error) => Err(error),
        },
    decreases digits.len(),
{
    if digits.len() == 0 {
        assert(digits.push(last) =~= seq![last]);
    } else {
        assert(digits.push(last)[0] == digits[0]);
        assert(digits.push(last).drop_first() =~= digits.drop_first().push(last));
        lemma_read_digits_push(
            digits.drop_first(),
            last,
            value * 10 + (digits[0] as int - '0' as int),
        );
    }
}

/// A number in decimal is read as that number, if it fits.
proof fn lemma_decimal_value(n: nat)
    ensures
        read_digits(decimal(n), 0) == if n > u32::MAX {
            Err(NumberError::TooLarge)
        } else {
            Ok(n as int)
        },
    decreases n,
{
    reveal_with_fuel(read_digits, 2);
    if n < 10 {
        assert(seq![digit(n)].drop_first() =~= Seq::<char>::empty());
    } else {
        lemma_decimal_value(n / 10);
        lemma_read_digits_push(decimal(n / 10), digit(n % 10), 0);
        assert(seq![digit(n % 10)].drop_first() =~= Seq::<char>::empty());
        assert(n == 10 * (n / 10) + n % 10);
    }
}

/// A number with a plus sign and zeros in front of it is read as that number.
proof fn lemma_padded(plus: bool, zeros: nat, n: nat)
    ensures
        read_number(padded(plus, zeros, n)) == if n > u32::MAX {
            Err(NumberError::TooLarge)
        } else {
            Ok(n as int)
        },
        forall|i: int|
            0 <= i < padded(plus, zeros, n).len() ==> !is_space(
                #[trigger] padded(plus, zeros, n)[i],
            ) && padded(plus, zeros, n)[i] != '.',
{
    let minor = padded(plus, zeros, n);
    let digits = Seq::new(zeros, |i: int| '0') + decimal(n);
    lemma_decimal(n);
    lemma_decimal_value(n);
    lemma_zeros(zeros, decimal(n));
    assert forall|i: int| 0 <= i < digits.len() implies '0' <= #[trigger] digits[i] <= '9' by {
        if i >= zeros {
            assert(digits[i] == decimal(n)[i - zeros]);
        }
    }
    if plus {
        assert(minor =~= seq!['+'] + digits);
        assert(minor.drop_first() =~= digits);
        assert forall|i: int| 0 < i < minor.len() implies #[trigger] minor[i] == digits[i - 1] by {}
    } else {
        assert(minor =~= digits);
    }
}

/// Zeros in front of digits make no difference.
proof fn lemma_zeros(zeros: nat, digits: Seq<char>)
    ensures
        read_digits(Seq::new(zeros, |i: int| '0') + digits, 0) == read_digits(digits, 0),
    decreases zeros,
{
    let text = Seq::new(zeros, |i: int| '0') + digits;
    if zeros == 0 {
        assert(text =~= digits);
    } else {
        assert(text[0] == '0');
        assert(text.drop_first() =~= Seq::new((zeros - 1) as nat, |i: int| '0') + digits);
        lemma_zeros((zeros - 1) as nat, digits);
    }
}

/// A character that is no digit is found behind digits that can be read.
proof fn lemma_read_digits_bad(digits: Seq<char>, other: char, more: Seq<char>, value: int)
    requires
        !('0' <= other <= '9'),
        read_digits(digits, value) is Ok,
    ensures
        read_digits(digits.push(other) + more, value) == Err::<int, NumberError>(
            NumberError::InvalidDigit,
        ),
    decreases digits.len(),
{
    let text = digits.push(other) + more;
    if digits.len() == 0 {
        assert(text[0] == other);
    } else {
        assert(text[0] == digits[0]);
        assert(text.drop_first() =~= digits.drop_first().push(other) + more);
        lemma_read_digits_bad(
            digits.drop_first(),
            other,
            more,
            value * 10 + (digits[0] as int - '0' as int),
        );
    }
}

} // verus!
