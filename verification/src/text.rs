//! Helpers for words held as strings.

use vstd::prelude::*;
use vstd::string::{StrSliceExecFns, StringExecFns};

verus! {

/// `String::push` of the standard library appends one character to the text.
pub assume_specification[ String::push ](text: &mut String, ch: char)
    ensures
        final(text)@ == old(text)@.push(ch),
;

/// The upper-case form of `c` in Unicode, which may be longer than one
/// character.
pub uninterp spec fn uppercase_of(c: char) -> Seq<char>;

/// `char::to_uppercase` of the standard library yields the characters of the
/// upper-case form of `c`; the contract gives that sequence its name.
#[verifier::external_body]
pub(crate) fn upper_of(c: char) -> (text: String)
    ensures
        text@ == uppercase_of(c),
{
    c.to_uppercase().collect()
}

/// The lines of `text`, as `str::lines` splits it: at every line feed, which
/// may follow a carriage return; without the line endings.
pub uninterp spec fn lines_of_text(text: Seq<char>) -> Seq<Seq<char>>;

/// `text` without the white space at its two ends, as `str::trim` returns it.
pub uninterp spec fn trimmed_text(text: Seq<char>) -> Seq<char>;

/// The lower-case form of `text` in Unicode, as `str::to_lowercase` returns it.
pub uninterp spec fn lowercase_text(text: Seq<char>) -> Seq<char>;

/// `str::lines` of the standard library yields the lines of the text one by
/// one; the contract gives their sequence its name.
#[verifier::external_body]
pub(crate) fn lines_in(text: &str) -> (lines: Vec<String>)
    ensures
        lines@.len() == lines_of_text(text@).len(),
        forall|i: int| 0 <= i < lines@.len() ==> (#[trigger] lines@[i])@ == lines_of_text(text@)[i],
{
    text.lines().map(String::from).collect()
}

/// `str::trim` of the standard library returns the text between the white
/// space at its ends; the contract gives that part its name.
#[verifier::external_body]
pub(crate) fn trim_of(text: &str) -> (inner: &str)
    ensures
        inner@ == trimmed_text(text@),
{
    text.trim()
}

/// `str::to_lowercase` of the standard library returns the lower-case form
/// of the text; the contract gives it its name.
#[verifier::external_body]
pub(crate) fn lower_of(text: &str) -> (lower: String)
    ensures
        lower@ == lowercase_text(text@),
{
    text.to_lowercase()
}

/// The words of `text`, as `str::split_whitespace` yields them: the parts
/// between stretches of white space, none of them empty.
pub uninterp spec fn words_of_text(text: Seq<char>) -> Seq<Seq<char>>;

/// `str::split_whitespace` of the standard library yields the parts of the
/// text between white space; the contract gives their sequence its name.
#[verifier::external_body]
pub(crate) fn words_in(text: &str) -> (words: Vec<String>)
    ensures
        words@.len() == words_of_text(text@).len(),
        forall|i: int| 0 <= i < words@.len() ==> (#[trigger] words@[i])@ == words_of_text(text@)[i],
{
    text.split_whitespace().map(String::from).collect()
}

/// How a line of input is read: without the white space at its ends, in
/// lower case.
pub open spec fn normal_form(line: Seq<char>) -> Seq<char> {
    lowercase_text(trimmed_text(line))
}

/// The line without the white space at its ends, in lower case.
pub fn normalize(line: &str) -> (text: String)
    ensures
        text@ == normal_form(line@),
{
    lower_of(trim_of(line))
}

/// Whether the two texts are the same.
pub fn same_text(a: &str, b: &str) -> (same: bool)
    ensures
        same == (a@ == b@),
{
    let left = letters_of(a);
    let right = letters_of(b);
    if left.len() != right.len() {
        return false;
    }
    let mut i: usize = 0;
    while i < left.len()
        invariant
            i <= left@.len(),
            left@.len() == right@.len(),
            left@ == a@,
            right@ == b@,
            forall|j: int| 0 <= j < i ==> left@[j] == right@[j],
        decreases left@.len() - i,
    {
        if left[i] != right[i] {
            return false;
        }
        i += 1;
    }
    assert(left@ =~= right@);
    true
}

/// The parts in order, with `sep` between neighbours.
pub open spec fn joined(parts: Seq<Seq<char>>, sep: Seq<char>) -> Seq<char>
    decreases parts.len(),
{
    if parts.len() == 0 {
        Seq::empty()
    } else if parts.len() == 1 {
        parts[0]
    } else {
        joined(parts.drop_last(), sep) + sep + parts.last()
    }
}

/// The upper-case form of each of `letters`.
pub open spec fn upper_parts(letters: Seq<char>) -> Seq<Seq<char>> {
    Seq::new(letters.len(), |i: int| uppercase_of(letters[i]))
}

/// Appends `part` to `text`, after `sep` unless it is the first part.
pub(crate) fn append_part(
    text: &mut String,
    part: &str,
    sep: &str,
    first: bool,
    Ghost(done): Ghost<Seq<Seq<char>>>,
)
    requires
        old(text)@ == joined(done, sep@),
        first == (done.len() == 0),
    ensures
        final(text)@ == joined(done.push(part@), sep@),
{
    if !first {
        text.append(sep);
    }
    text.append(part);
    proof {
        assert(done.push(part@).drop_last() =~= done);
        if first {
            assert(text@ =~= part@);
        }
    }
}

/// Different letters have different code points.
pub(crate) proof fn lemma_codes_differ(c: char, d: char)
    requires
        c != d,
    ensures
        c as u32 != d as u32,
{
}

/// The characters of `word`, one by one.
pub fn letters_of(word: &str) -> (letters: Vec<char>)
    ensures
        letters@ == word@,
{
    let n: usize = word.unicode_len();
    let mut letters: Vec<char> = Vec::new();
    let mut i: usize = 0;
    while i < n
        invariant
            n == word@.len(),
            i <= n,
            letters@ == word@.take(i as int),
        decreases n - i,
    {
        letters.push(word.get_char(i));
        assert(word@.take(i as int).push(word@[i as int]) =~= word@.take(i + 1));
        i += 1;
    }
    assert(word@.take(n as int) =~= word@);
    letters
}

} // verus!
