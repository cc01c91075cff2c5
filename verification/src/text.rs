//! Words as they are written in the text form of programs.

use vstd::prelude::*;

verus! {

/// Whether a text holds nothing but ASCII characters.
pub open spec fn is_ascii_text(text: Seq<char>) -> bool {
    forall|i: int| 0 <= i < text.len() ==> (#[trigger] text[i]) as int <= 127
}

/// The lower case of an ASCII character.
pub open spec fn ascii_lower(c: char) -> char {
    if 'A' <= c <= 'Z' {
        (c as int + 32) as char
    } else {
        c
    }
}

/// Whether an ASCII character is white space.
pub open spec fn ascii_space(c: char) -> bool {
    9 <= c as int <= 13 || c as int == 32
}

/// An ASCII text without the white space at its ends.
pub open spec fn stripped(text: Seq<char>) -> Seq<char>
    decreases text.len(),
{
    if text.len() == 0 {
        text
    } else if ascii_space(text[0]) {
        stripped(text.skip(1))
    } else if ascii_space(text.last()) {
        stripped(text.drop_last())
    } else {
        text
    }
}

/// What `str::to_lowercase` makes of a text.
pub uninterp spec fn lowercase_of(text: Seq<char>) -> Seq<char>;

/// What `str::trim` makes of a text.
pub uninterp spec fn trimmed_of(text: Seq<char>) -> Seq<char>;

/// `str::to_lowercase`: a function of the text alone. Of an ASCII text it lowers
/// each letter. Of other texts it is named, not stated.
#[verifier::external_body]
fn text_lowercase(text: &str) -> (low: String)
    ensures
        low@ == lowercase_of(text@),
        is_ascii_text(text@) ==> low@ == text@.map_values(|c: char| ascii_lower(c)),
{
    text.to_lowercase()
}

/// `str::trim`: a function of the text alone. Of an ASCII text it takes the white
/// space from both ends. Of other texts it is named, not stated.
#[verifier::external_body]
fn text_trim<'a>(text: &'a str) -> (rest: &'a str)
    ensures
        rest@ == trimmed_of(text@),
        is_ascii_text(text@) ==> rest@ == stripped(text@),
{
    text.trim()
}

/// The word that a text stands for.
pub open spec fn word_of(text: Seq<char>) -> Seq<char> {
    trimmed_of(lowercase_of(text))
}

/// The word that a text stands for: its case and the white space around it do not
/// count.
pub fn word(text: &str) -> (word: String)
    ensures
        word@ == word_of(text@),
        is_ascii_text(text@) ==> word@ == stripped(text@.map_values(|c: char| ascii_lower(c))),
{
    let low = text_lowercase(text);
    text_trim(low.as_str()).to_owned()
}

/// Only white space is taken from a text, from its ends, and all of it there: the rest
/// is a piece of the text, with white space before and behind it and none at its ends.
pub proof fn law_stripped(text: Seq<char>) -> (cut: (int, int))
    ensures
        0 <= cut.0 <= cut.1 <= text.len(),
        stripped(text) == text.subrange(cut.0, cut.1),
        forall|i: int| 0 <= i < cut.0 ==> ascii_space(#[trigger] text[i]),
        forall|i: int| cut.1 <= i < text.len() ==> ascii_space(#[trigger] text[i]),
        stripped(text).len() > 0 ==> !ascii_space(stripped(text)[0]) && !ascii_space(
            stripped(text).last(),
        ),
    decreases text.len(),
{
    if text.len() == 0 {
        assert(text.subrange(0, 0) =~= text);
        (0, 0)
    } else if ascii_space(text[0]) {
        let rest = text.skip(1);
        let (a, b) = law_stripped(rest);
        assert(rest.subrange(a, b) =~= text.subrange(a + 1, b + 1));
        assert forall|i: int| 0 <= i < a + 1 implies ascii_space(#[trigger] text[i]) by {
            if i > 0 {
                assert(ascii_space(rest[i - 1]));
            }
        }
        assert forall|i: int| b + 1 <= i < text.len() implies ascii_space(#[trigger] text[i]) by {
            assert(ascii_space(rest[i - 1]));
        }
        (a + 1, b + 1)
    } else if ascii_space(text.last()) {
        let rest = text.drop_last();
        let (a, b) = law_stripped(rest);
        assert(rest.subrange(a, b) =~= text.subrange(a, b));
        assert forall|i: int| 0 <= i < a implies ascii_space(#[trigger] text[i]) by {
            assert(ascii_space(rest[i]));
        }
        assert forall|i: int| b <= i < text.len() implies ascii_space(#[trigger] text[i]) by {
            if i < rest.len() {
                assert(ascii_space(rest[i]));
            }
        }
        (a, b)
    } else {
        assert(text.subrange(0, text.len() as int) =~= text);
        (0, text.len() as int)
    }
}

/// Capital letters become the small ones at the same place of the alphabet, and other
/// characters stay.
pub proof fn law_ascii_lower(c: char)
    ensures
        'A' <= c <= 'Z' ==> ascii_lower(c) as int - 'a' as int == c as int - 'A' as int,
        !('A' <= c <= 'Z') ==> ascii_lower(c) == c,
        ascii_lower(ascii_lower(c)) == ascii_lower(c),
{
}

} // verus!
