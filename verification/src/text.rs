//! Reading settings out of text.
use core::num::ParseIntError;

use vstd::prelude::*;
use vstd::string::StrSliceExecFns;

verus! {

/// The character has the Unicode property White_Space.
pub open spec fn is_white_space(c: char) -> bool {
    ||| '\u{9}' <= c <= '\u{d}'
    ||| c == '\u{20}'
    ||| c == '\u{85}'
    ||| c == '\u{a0}'
    ||| c == '\u{1680}'
    ||| '\u{2000}' <= c <= '\u{200a}'
    ||| c == '\u{2028}'
    ||| c == '\u{2029}'
    ||| c == '\u{202f}'
    ||| c == '\u{205f}'
    ||| c == '\u{3000}'
}

/// The text without the white space at its two ends.
pub open spec fn trimmed(text: Seq<char>) -> Seq<char>
    decreases text.len(),
{
    if text.len() > 0 && is_white_space(text.first()) {
        trimmed(text.drop_first())
    } else if text.len() > 0 && is_white_space(text.last()) {
        trimmed(text.drop_last())
    } else {
        text
    }
}

/// `str::trim` takes the characters with the Unicode property White_Space away
/// from both ends of the text, and no others.
pub assume_specification[ str::trim ](s: &str) -> (rest: &str)
    ensures
        rest@ == trimmed(s@),
;

/// Every character of the text is a decimal digit.
pub open spec fn all_digits(text: Seq<char>) -> bool {
    forall|i: int| 0 <= i < text.len() ==> '0' <= #[trigger] text[i] <= '9'
}

/// The number that decimal digits stand for.
pub open spec fn digits_value(digits: Seq<char>) -> nat
    decreases digits.len(),
{
    if digits.len() == 0 {
        0
    } else {
        10 * digits_value(digits.drop_last()) + (digits.last() as nat - '0' as nat) as nat
    }
}

/// The number that the text stands for: at least one digit, perhaps behind a plus
/// sign.
pub open spec fn number_of(text: Seq<char>) -> Option<nat> {
    let digits = if text.len() > 0 && text.first() == '+' {
        text.drop_first()
    } else {
        text
    };
    if digits.len() > 0 && all_digits(digits) {
        Some(digits_value(digits))
    } else {
        None
    }
}

/// Why a text is no number. Nothing is known of what is inside.
#[verifier::external_type_specification]
#[verifier::external_body]
pub struct ExParseIntError(core::num::ParseIntError);

/// The error of `str::parse::<u32>` for a text that it refuses.
pub uninterp spec fn u32_error(text: Seq<char>) -> ParseIntError;

/// The `u32` that the text stands for, or why there is none.
pub open spec fn parsed_u32(text: Seq<char>) -> Result<u32, ParseIntError> {
    match number_of(text) {
        Some(number) if number <= u32::MAX => Ok(number as u32),
        _ => Err(u32_error(text)),
    }
}

/// `str::parse::<u32>` takes an optional plus sign and decimal digits, and
/// nothing else, and refuses numbers that do not fit. The error is a function of
/// the text.
#[verifier::external_body]
pub(crate) fn parse_u32(text: &str) -> (result: Result<u32, ParseIntError>)
    ensures
        result == match number_of(text@) {
            Some(number) if number <= u32::MAX => Ok::<u32, ParseIntError>(number as u32),
            _ => Err(u32_error(text@)),
        },
{
    text.parse::<u32>()
}

/// The error of `str::parse::<u64>` for a text that it refuses.
pub uninterp spec fn u64_error(text: Seq<char>) -> ParseIntError;

/// The `u64` that the text stands for, or why there is none.
pub open spec fn parsed_u64(text: Seq<char>) -> Result<u64, ParseIntError> {
    match number_of(text) {
        Some(number) if number <= u64::MAX => Ok(number as u64),
        _ => Err(u64_error(text)),
    }
}

/// `str::parse::<u64>` takes an optional plus sign and decimal digits, and
/// nothing else, and refuses numbers that do not fit. The error is a function of
/// the text.
#[verifier::external_body]
pub(crate) fn parse_u64(text: &str) -> (result: Result<u64, ParseIntError>)
    ensures
        result == match number_of(text@) {
            Some(number) if number <= u64::MAX => Ok::<u64, ParseIntError>(number as u64),
            _ => Err(u64_error(text@)),
        },
{
    text.parse::<u64>()
}

/// What a `ParseIntError` says when it is displayed.
pub uninterp spec fn number_error_text(error: ParseIntError) -> Seq<char>;

/// Displaying a `ParseIntError` gives words that are a function of the error.
#[verifier::external_body]
pub(crate) fn describe_number_error(error: &ParseIntError) -> (words: String)
    ensures
        words@ == number_error_text(*error),
{
    error.to_string()
}

/// The index of the first `mark` in the text, or the text's length.
pub open spec fn first_index(text: Seq<char>, mark: char) -> int
    decreases text.len(),
{
    if text.len() == 0 || text.first() == mark {
        0
    } else {
        1 + first_index(text.drop_first(), mark)
    }
}

/// The parts of the text between the marks.
pub open spec fn parts_of(text: Seq<char>, mark: char) -> Seq<Seq<char>>
    decreases text.len(),
{
    let i = first_index(text, mark);
    if 0 <= i < text.len() {
        seq![text.take(i)] + parts_of(text.skip(i + 1), mark)
    } else {
        seq![text]
    }
}

/// The parts put together again, with marks between them.
pub open spec fn joined(parts: Seq<Seq<char>>, mark: char) -> Seq<char>
    decreases parts.len(),
{
    if parts.len() == 0 {
        seq![]
    } else if parts.len() == 1 {
        parts.first()
    } else {
        parts.first().push(mark) + joined(parts.drop_first(), mark)
    }
}

proof fn lemma_first_index_bounds(text: Seq<char>, mark: char)
    ensures
        0 <= first_index(text, mark) <= text.len(),
        first_index(text, mark) < text.len() ==> text[first_index(text, mark)] == mark,
        forall|j: int| 0 <= j < first_index(text, mark) ==> #[trigger] text[j] != mark,
    decreases text.len(),
{
    if text.len() > 0 && text.first() != mark {
        let rest = text.drop_first();
        lemma_first_index_bounds(rest, mark);
        assert forall|j: int| 0 <= j < first_index(text, mark) implies #[trigger] text[j]
            != mark by {
            if j > 0 {
                assert(text[j] == rest[j - 1]);
            }
        }
    }
}

/// The parts of a text hold no mark, and put together again with marks between
/// them they are the text. There is always at least one.
pub proof fn law_parts_make_up_the_text(text: Seq<char>, mark: char)
    ensures
        parts_of(text, mark).len() > 0,
        joined(parts_of(text, mark), mark) == text,
        forall|i: int|
            0 <= i < parts_of(text, mark).len() ==> !(#[trigger] parts_of(text, mark)[i]).contains(
                mark,
            ),
    decreases text.len(),
{
    let i = first_index(text, mark);
    let parts = parts_of(text, mark);
    lemma_first_index_bounds(text, mark);
    if i < text.len() {
        let rest = parts_of(text.skip(i + 1), mark);
        law_parts_make_up_the_text(text.skip(i + 1), mark);
        assert(parts.drop_first() =~= rest);
        assert(text =~= text.take(i).push(mark) + text.skip(i + 1));
        assert forall|k: int| 0 <= k < parts.len() implies !(#[trigger] parts[k]).contains(
            mark,
        ) by {
            if k > 0 {
                assert(parts[k] == rest[k - 1]);
            }
        }
    }
}

/// There is nothing but white space in a text of which trimming leaves nothing.
pub(crate) proof fn lemma_blank(text: Seq<char>)
    requires
        trimmed(text).len() == 0,
    ensures
        forall|i: int| 0 <= i < text.len() ==> is_white_space(#[trigger] text[i]),
    decreases text.len(),
{
    if text.len() > 0 {
        if is_white_space(text.first()) {
            let rest = text.drop_first();
            lemma_blank(rest);
            assert forall|i: int| 0 <= i < text.len() implies is_white_space(
                #[trigger] text[i],
            ) by {
                if i > 0 {
                    assert(text[i] == rest[i - 1]);
                }
            }
        } else {
            let rest = text.drop_last();
            lemma_blank(rest);
            assert forall|i: int| 0 <= i < text.len() implies is_white_space(
                #[trigger] text[i],
            ) by {
                if i < text.len() - 1 {
                    assert(text[i] == rest[i]);
                }
            }
        }
    }
}

/// A text without a mark is one part.
pub(crate) proof fn lemma_one_part(text: Seq<char>, mark: char)
    requires
        !text.contains(mark),
    ensures
        parts_of(text, mark) == seq![text],
{
    lemma_first_index_bounds(text, mark);
}

/// A mark at the end of a text adds an empty part.
pub(crate) proof fn lemma_parts_push_mark(text: Seq<char>, mark: char)
    ensures
        parts_of(text.push(mark), mark) == parts_of(text, mark).push(seq![]),
    decreases text.len(),
{
    let longer = text.push(mark);
    let i = first_index(text, mark);
    lemma_first_index_bounds(text, mark);
    assert(longer[i] == mark);
    assert forall|j: int| 0 <= j < i implies #[trigger] longer[j] != mark by {
        assert(longer[j] == text[j]);
    }
    lemma_first_index(longer, mark, i);
    assert(longer.take(i) =~= text.take(i));
    if i < text.len() {
        assert(longer.skip(i + 1) =~= text.skip(i + 1).push(mark));
        lemma_parts_push_mark(text.skip(i + 1), mark);
        assert(parts_of(longer, mark) =~= parts_of(text, mark).push(seq![]));
    } else {
        let none = longer.skip(i + 1);
        assert(none =~= Seq::<char>::empty());
        assert(text.take(i) =~= text);
        assert(parts_of(none, mark) =~= seq![none]);
        assert(parts_of(longer, mark) =~= parts_of(text, mark).push(seq![]));
    }
}

proof fn lemma_first_index(text: Seq<char>, mark: char, i: int)
    requires
        0 <= i <= text.len(),
        i < text.len() ==> text[i] == mark,
        forall|j: int| 0 <= j < i ==> #[trigger] text[j] != mark,
    ensures
        first_index(text, mark) == i,
    decreases i,
{
    if i > 0 {
        assert(text[0] != mark);
        assert forall|j: int| 0 <= j < i - 1 implies #[trigger] text.drop_first()[j] != mark by {
            assert(text.drop_first()[j] == text[j + 1]);
        }
        lemma_first_index(text.drop_first(), mark, i - 1);
    }
}

/// The characters of the text.
fn characters(text: &str) -> (chars: Vec<char>)
    ensures
        chars@ == text@,
{
    let mut chars: Vec<char> = Vec::new();
    for c in it: text.chars()
        invariant
            chars@ == text@.take(it.index() as int),
            it.seq() == text@,
    {
        assert(text@.take(it.index() + 1) =~= text@.take(it.index() as int).push(c));
        chars.push(c);
    }
    assert(text@.take(text@.len() as int) =~= text@);
    chars
}

/// The views of a list of texts.
pub open spec fn text_views(texts: Seq<&str>) -> Seq<Seq<char>> {
    Seq::new(texts.len(), |i: int| texts[i]@)
}

/// The parts of the text between the marks.
pub(crate) fn split_at_marks<'a>(text: &'a str, mark: char) -> (parts: Vec<&'a str>)
    ensures
        text_views(parts@) == parts_of(text@, mark),
{
    let chars = characters(text);
    let mut parts: Vec<&'a str> = Vec::new();
    let mut from: usize = 0;
    let mut i: usize = 0;
    assert(text@.skip(0) =~= text@);
    assert(text_views(parts@) + parts_of(text@, mark) =~= parts_of(text@, mark));
    while i < chars.len()
        invariant
            chars@ == text@,
            from <= i <= chars@.len(),
            forall|j: int| from <= j < i ==> #[trigger] chars@[j] != mark,
            text_views(parts@) + parts_of(text@.skip(from as int), mark) == parts_of(text@, mark),
        decreases chars@.len() - i,
    {
        if chars[i] == mark {
            let part = text.substring_char(from, i);
            proof {
                let left = text@.skip(from as int);
                assert forall|j: int| 0 <= j < i - from implies #[trigger] left[j] != mark by {
                    assert(left[j] == chars@[j + from]);
                }
                assert(left[i - from] == chars@[i as int]);
                lemma_first_index(left, mark, i - from);
                assert(left.take(i - from) =~= part@);
                assert(left.skip(i - from + 1) =~= text@.skip(i + 1));
                assert(text_views(parts@.push(part)) =~= text_views(parts@).push(part@));
                assert(text_views(parts@).push(part@) + parts_of(text@.skip(i + 1), mark)
                    =~= text_views(parts@) + parts_of(left, mark));
            }
            parts.push(part);
            from = i + 1;
        }
        i += 1;
    }
    let part = text.substring_char(from, i);
    proof {
        let left = text@.skip(from as int);
        assert forall|j: int| 0 <= j < left.len() implies #[trigger] left[j] != mark by {
            assert(left[j] == chars@[j + from]);
        }
        lemma_first_index(left, mark, left.len() as int);
        assert(left =~= part@);
        assert(text_views(parts@.push(part)) =~= text_views(parts@) + seq![part@]);
    }
    parts.push(part);
    parts
}

/// The text in front of the first mark and the text behind it, if there is one.
pub open spec fn pair_of(text: Seq<char>, mark: char) -> Option<(Seq<char>, Seq<char>)> {
    let i = first_index(text, mark);
    if 0 <= i < text.len() {
        Some((text.take(i), text.skip(i + 1)))
    } else {
        None
    }
}

/// The text in front of the first mark and the text behind it, if there is one.
pub(crate) fn split_pair<'a>(text: &'a str, mark: char) -> (pair: Option<(&'a str, &'a str)>)
    ensures
        match pair_of(text@, mark) {
            Some((key, value)) => pair matches Some(own) && own.0@ == key && own.1@ == value,
            None => pair is None,
        },
{
    let chars = characters(text);
    let mut i: usize = 0;
    while i < chars.len() && chars[i] != mark
        invariant
            i <= chars@.len(),
            forall|j: int| 0 <= j < i ==> #[trigger] chars@[j] != mark,
        decreases chars@.len() - i,
    {
        i += 1;
    }
    proof {
        lemma_first_index(text@, mark, i as int);
    }
    if i < chars.len() {
        let key = text.substring_char(0, i);
        let value = text.substring_char(i + 1, chars.len());
        assert(text@.take(i as int) =~= key@);
        assert(text@.skip(i + 1) =~= value@);
        Some((key, value))
    } else {
        None
    }
}

/// Whether there is nothing but white space in the text.
pub(crate) fn is_blank(text: &str) -> (blank: bool)
    ensures
        blank == (trimmed(text@).len() == 0),
{
    text.trim().unicode_len() == 0
}

/// Whether two texts are the same.
pub(crate) fn same_text(a: &str, b: &str) -> (same: bool)
    ensures
        same == (a@ == b@),
{
    a.to_owned() == b.to_owned()
}

/// Trimming takes white space off the two ends of a text, all of it and nothing else.
pub proof fn law_trimming_takes_white_space_off(text: Seq<char>) -> (bounds: (int, int))
    ensures
        0 <= bounds.0 <= bounds.1 <= text.len(),
        trimmed(text) == text.subrange(bounds.0, bounds.1),
        forall|i: int|
            0 <= i < bounds.0 || bounds.1 <= i < text.len() ==> is_white_space(#[trigger] text[i]),
        bounds.0 < bounds.1 ==> !is_white_space(text[bounds.0]) && !is_white_space(
            text[bounds.1 - 1],
        ),
    decreases text.len(),
{
    if text.len() > 0 && is_white_space(text.first()) {
        let rest = text.drop_first();
        let (a, b) = law_trimming_takes_white_space_off(rest);
        assert(rest.subrange(a, b) =~= text.subrange(a + 1, b + 1));
        assert forall|i: int| 0 <= i < a + 1 || b + 1 <= i < text.len() implies is_white_space(
            #[trigger] text[i],
        ) by {
            if i > 0 {
                assert(text[i] == rest[i - 1]);
            }
        }
        (a + 1, b + 1)
    } else if text.len() > 0 && is_white_space(text.last()) {
        let rest = text.drop_last();
        let (a, b) = law_trimming_takes_white_space_off(rest);
        assert(rest.subrange(a, b) =~= text.subrange(a, b));
        assert forall|i: int| 0 <= i < a || b <= i < text.len() implies is_white_space(
            #[trigger] text[i],
        ) by {
            if i < rest.len() {
                assert(text[i] == rest[i]);
            }
        }
        (a, b)
    } else {
        assert(text.subrange(0, text.len() as int) =~= text);
        (0, text.len() as int)
    }
}

/// Parts without a mark that were put together with marks between them come apart
/// again.
pub proof fn law_splitting_undoes_joining(parts: Seq<Seq<char>>, mark: char)
    requires
        parts.len() > 0,
        forall|i: int| 0 <= i < parts.len() ==> !(#[trigger] parts[i]).contains(mark),
    ensures
        parts_of(joined(parts, mark), mark) == parts,
    decreases parts.len(),
{
    let first = parts.first();
    assert(parts[0] == first);
    assert forall|j: int| 0 <= j < first.len() implies #[trigger] first[j] != mark by {
        assert(first.contains(first[j]));
    }
    if parts.len() == 1 {
        lemma_one_part(first, mark);
        assert(parts =~= seq![first]);
    } else {
        let rest = parts.drop_first();
        let text = joined(parts, mark);
        let i = first.len() as int;
        assert forall|k: int| 0 <= k < rest.len() implies !(#[trigger] rest[k]).contains(mark) by {
            assert(rest[k] == parts[k + 1]);
        }
        law_splitting_undoes_joining(rest, mark);
        assert(text[i] == mark);
        assert forall|j: int| 0 <= j < i implies #[trigger] text[j] != mark by {
            assert(text[j] == first[j]);
        }
        lemma_first_index(text, mark, i);
        assert(text.take(i) =~= first);
        assert(text.skip(i + 1) =~= joined(rest, mark));
        assert(parts_of(text, mark) =~= parts);
    }
}

/// A pair is what stands in front of the first mark and what stands behind it. There is
/// none only where there is no mark.
pub proof fn law_pairs_part_at_the_first_mark(text: Seq<char>, mark: char)
    ensures
        match pair_of(text, mark) {
            Some((key, value)) => text == key + seq![mark] + value && !key.contains(mark),
            None => !text.contains(mark),
        },
{
    lemma_first_index_bounds(text, mark);
    let i = first_index(text, mark);
    if i < text.len() {
        assert(text =~= text.take(i) + seq![mark] + text.skip(i + 1));
        assert(!text.take(i).contains(mark));
    }
}

/// Putting a mark between two texts and parting them again gives the two texts, if there
/// is no mark in the first.
pub proof fn law_parting_undoes_pairing(key: Seq<char>, value: Seq<char>, mark: char)
    requires
        !key.contains(mark),
    ensures
        pair_of(key + seq![mark] + value, mark) == Some((key, value)),
{
    let text = key + seq![mark] + value;
    let i = key.len() as int;
    assert(text[i] == mark);
    assert forall|j: int| 0 <= j < i implies #[trigger] text[j] != mark by {
        assert(text[j] == key[j]);
        assert(key.contains(key[j]));
    }
    lemma_first_index(text, mark, i);
    assert(text.take(i) =~= key);
    assert(text.skip(i + 1) =~= value);
}

/// A number is read where the text stands for one that fits, and refused otherwise.
pub proof fn law_numbers_are_read_if_they_fit(text: Seq<char>)
    ensures
        parsed_u32(text) == match number_of(text) {
            Some(number) => if number <= 0xffff_ffff {
                Ok::<u32, ParseIntError>(number as u32)
            } else {
                Err(u32_error(text))
            },
            None => Err(u32_error(text)),
        },
        parsed_u64(text) == match number_of(text) {
            Some(number) => if number <= 0xffff_ffff_ffff_ffff {
                Ok::<u64, ParseIntError>(number as u64)
            } else {
                Err(u64_error(text))
            },
            None => Err(u64_error(text)),
        },
{
}

} // verus!
