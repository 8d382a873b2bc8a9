//! From loaded text to a grid of letters and a list of words.
//!
//! A board file holds one row per line; of each line only the alphabetic
//! characters count. A word file holds the words on one line, with a single
//! space between two of them.

use crate::board::{char_to_string, rows_of};
use crate::scan::texts_of;
use vstd::prelude::*;
use vstd::string::StringExecFns;

verus! {

/// Whether `c` is alphabetic, as `char::is_alphabetic` of std decides it: the
/// Unicode property `Alphabetic`.
pub uninterp spec fn is_alphabetic(c: char) -> bool;

/// `char::is_alphabetic` of std: whether `c` has the Unicode property
/// `Alphabetic`. The contract only gives that answer its name.
#[verifier::external_body]
fn char_is_alphabetic(c: char) -> (alphabetic: bool)
    ensures
        alphabetic == is_alphabetic(c),
{
    c.is_alphabetic()
}

/// Those of `chars` whose mark in `keep` is set, in order; a character
/// without a mark is dropped.
pub open spec fn selected(chars: Seq<char>, keep: Seq<bool>) -> Seq<char>
    decreases chars.len(),
{
    if chars.len() == 0 {
        Seq::empty()
    } else if chars.len() <= keep.len() && keep[chars.len() - 1] {
        selected(chars.drop_last(), keep).push(chars.last())
    } else {
        selected(chars.drop_last(), keep)
    }
}

/// The alphabetic characters of a line, in order.
pub open spec fn letters_of(line: Seq<char>) -> Seq<char> {
    selected(line, line.map_values(|c: char| is_alphabetic(c)))
}

/// `parts` put together with one `sep` between each two.
pub open spec fn joined(parts: Seq<Seq<char>>, sep: char) -> Seq<char>
    decreases parts.len(),
{
    if parts.len() == 0 {
        Seq::empty()
    } else if parts.len() == 1 {
        parts[0]
    } else {
        joined(parts.drop_last(), sep) + seq![sep] + parts.last()
    }
}

/// Those of `chars` whose mark in `keep` is set, in order.
pub fn select(chars: &Vec<char>, keep: &Vec<bool>) -> (kept: Vec<char>)
    ensures
        kept@ == selected(chars@, keep@),
{
    let mut kept: Vec<char> = Vec::new();
    let mut at: usize = 0;
    while at < chars.len()
        invariant
            0 <= at <= chars.len(),
            kept@ == selected(chars@.subrange(0, at as int), keep@),
        decreases chars.len() - at,
    {
        assert(chars@.subrange(0, at + 1).drop_last() =~= chars@.subrange(0, at as int));
        if at < keep.len() && keep[at] {
            kept.push(chars[at]);
        }
        at += 1;
    }
    assert(chars@.subrange(0, at as int) =~= chars@);
    kept
}

/// The row of a board that a line of text stands for: its alphabetic
/// characters.
pub fn board_row(line: &str) -> (row: Vec<char>)
    ensures
        row@ == letters_of(line@),
{
    let mut chars: Vec<char> = Vec::new();
    let mut keep: Vec<bool> = Vec::new();
    for c in it: line.chars()
        invariant
            it.seq() == line@,
            chars@ == line@.subrange(0, it.index() as int),
            keep@ == chars@.map_values(|c: char| is_alphabetic(c)),
    {
        chars.push(c);
        keep.push(char_is_alphabetic(c));
    }
    assert(chars@ =~= line@);
    select(&chars, &keep)
}

/// The rows of a board that the lines of a text stand for.
pub fn board_rows(lines: &Vec<String>) -> (rows: Vec<Vec<char>>)
    ensures
        rows_of(rows@) == texts_of(lines@).map_values(|line: Seq<char>| letters_of(line)),
{
    let mut rows: Vec<Vec<char>> = Vec::new();
    let mut at: usize = 0;
    while at < lines.len()
        invariant
            0 <= at <= lines.len(),
            rows@.len() == at,
            forall|k: int| 0 <= k < at ==> (#[trigger] rows@[k])@ == letters_of(lines@[k]@),
        decreases lines.len() - at,
    {
        rows.push(board_row(lines[at].as_str()));
        at += 1;
    }
    rows
}

/// The words of a text: the stretches between its spaces, empty ones
/// included. None holds a space, there is one more of them than spaces, and
/// with the spaces put back they make up the text.
pub fn split_words(contents: &str) -> (words: Vec<String>)
    ensures
        words@.len() >= 1,
        joined(texts_of(words@), ' ') == contents@,
        forall|k: int| 0 <= k < words@.len() ==> !(#[trigger] words@[k])@.contains(' '),
{
    let mut words: Vec<String> = Vec::new();
    let mut word = String::new();
    for c in it: contents.chars()
        invariant
            it.seq() == contents@,
            joined(texts_of(words@).push(word@), ' ') == contents@.subrange(0, it.index() as int),
            forall|k: int| 0 <= k < words@.len() ==> !(#[trigger] words@[k])@.contains(' '),
            !word@.contains(' '),
    {
        let ghost done = texts_of(words@);
        let ghost before = word@;
        if c == ' ' {
            words.push(word);
            word = String::new();
            proof {
                let parts = texts_of(words@).push(word@);
                assert(parts.drop_last() =~= done.push(before));
            }
        } else {
            word.append(char_to_string(c).as_str());
            proof {
                assert(done.push(word@).drop_last() =~= done);
                assert(done.push(before).drop_last() =~= done);
                assert forall|k: int| 0 <= k < word@.len() implies word@[k] != ' ' by {
                    if k < before.len() {
                        assert(before.contains(before[k]));
                    }
                }
            }
        }
    }
    let ghost done = texts_of(words@);
    let ghost last = word@;
    words.push(word);
    proof {
        assert(texts_of(words@) =~= done.push(last));
    }
    words
}

} // verus!
