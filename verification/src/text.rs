//! What the library needs to know about strings: what counts as whitespace,
//! what trimming removes, and what replacing a character yields.

use vstd::prelude::*;

verus! {

/// Whether Unicode counts the character as `White_Space`.
pub open spec fn is_whitespace(c: char) -> bool {
    let code = c as u32;
    (0x09 <= code <= 0x0D) || code == 0x20 || code == 0x85 || code == 0xA0 || code == 0x1680 || (
    0x2000 <= code <= 0x200A) || code == 0x2028 || code == 0x2029 || code == 0x202F || code
        == 0x205F || code == 0x3000
}

/// The text without the whitespace at its end.
pub open spec fn trimmed_end(text: Seq<char>) -> Seq<char>
    decreases text.len(),
{
    if text.len() > 0 && is_whitespace(text.last()) {
        trimmed_end(text.drop_last())
    } else {
        text
    }
}

/// The text without the whitespace at its start.
pub open spec fn trimmed_start(text: Seq<char>) -> Seq<char>
    decreases text.len(),
{
    if text.len() > 0 && is_whitespace(text[0]) {
        trimmed_start(text.drop_first())
    } else {
        text
    }
}

/// The text without the whitespace at either end.
pub open spec fn trimmed(text: Seq<char>) -> Seq<char> {
    trimmed_end(trimmed_start(text))
}

/// The text with `with` in place of every `from`.
pub open spec fn replaced(text: Seq<char>, from: char, with: Seq<char>) -> Seq<char>
    decreases text.len(),
{
    if text.len() == 0 {
        Seq::empty()
    } else if text.last() == from {
        replaced(text.drop_last(), from, with) + with
    } else {
        replaced(text.drop_last(), from, with).push(text.last())
    }
}

/// `count` copies of `unit`, one after another.
pub open spec fn repeated(unit: Seq<char>, count: nat) -> Seq<char>
    decreases count,
{
    if count == 0 {
        Seq::empty()
    } else {
        repeated(unit, (count - 1) as nat) + unit
    }
}

/// `str::trim`: the slice without its leading and trailing whitespace,
/// where whitespace is what Unicode counts as `White_Space`.
#[verifier::external_body]
pub(crate) fn trim(text: &str) -> (slice: &str)
    ensures
        slice@ == trimmed(text@),
{
    text.trim()
}

/// `str::trim_end`: the slice without its trailing whitespace, where
/// whitespace is what Unicode counts as `White_Space`.
#[verifier::external_body]
pub(crate) fn trim_end(text: &str) -> (slice: &str)
    ensures
        slice@ == trimmed_end(text@),
{
    text.trim_end()
}

/// `str::replace` with a character as the pattern: a new string in which
/// every occurrence of `from` has been replaced by `with`.
#[verifier::external_body]
pub(crate) fn replace_char(text: &str, from: char, with: &str) -> (out: String)
    ensures
        out@ == replaced(text@, from, with@),
{
    text.replace(from, with)
}

/// `String::push`: the character is appended to the string.
#[verifier::external_body]
pub(crate) fn push_char(text: &mut String, c: char)
    ensures
        final(text)@ == old(text)@.push(c),
{
    text.push(c)
}

/// Appends `count` copies of `unit` to `text`.
pub fn push_repeated(text: &mut String, unit: &str, count: usize)
    ensures
        final(text)@ == old(text)@ + repeated(unit@, count as nat),
{
    let mut done: usize = 0;
    while done < count
        invariant
            done <= count,
            text@ == old(text)@ + repeated(unit@, done as nat),
        decreases count - done,
    {
        text.append(unit);
        done += 1;
        assert(text@ =~= old(text)@ + repeated(unit@, done as nat));
    }
}

/// What is left after trimming the end is the start of the text; it is
/// empty or ends in something other than whitespace, and it starts as the
/// text does if that starts with something other than whitespace.
pub proof fn lemma_trimmed_end(text: Seq<char>)
    ensures
        trimmed_end(text).len() <= text.len(),
        trimmed_end(text) == text.take(trimmed_end(text).len() as int),
        trimmed_end(text).len() > 0 ==> !is_whitespace(trimmed_end(text).last()),
        text.len() > 0 && !is_whitespace(text[0]) ==> trimmed_end(text).len() > 0,
        trimmed_end(trimmed_end(text)) == trimmed_end(text),
    decreases text.len(),
{
    if text.len() > 0 && is_whitespace(text.last()) {
        lemma_trimmed_end(text.drop_last());
        assert(text.drop_last().take(trimmed_end(text).len() as int) =~= text.take(
            trimmed_end(text).len() as int,
        ));
    } else {
        assert(text.take(text.len() as int) =~= text);
    }
}

/// What is left after trimming the start is empty or starts with something
/// other than whitespace.
pub proof fn lemma_trimmed_start(text: Seq<char>)
    ensures
        trimmed_start(text).len() > 0 ==> !is_whitespace(trimmed_start(text)[0]),
    decreases text.len(),
{
    if text.len() > 0 && is_whitespace(text[0]) {
        lemma_trimmed_start(text.drop_first());
    }
}

/// Trimming a trimmed text changes nothing.
pub proof fn lemma_trimmed_twice(text: Seq<char>)
    ensures
        trimmed(trimmed(text)) == trimmed(text),
{
    let start = trimmed_start(text);
    let both = trimmed_end(start);
    lemma_trimmed_start(text);
    lemma_trimmed_end(start);
    if both.len() > 0 {
        assert(both[0] == start[0]);
    }
    assert(trimmed_start(both) == both);
}

} // verus!
