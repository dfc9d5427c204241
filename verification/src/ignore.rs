//! Ignore patterns: reading them from the text of a `.gitignore` file and
//! matching entry names against them.
//!
//! A pattern is a raw token. An entry name matches it when the two are
//! equal, or when the name begins with the pattern once the pattern's
//! trailing slashes are removed. There are no wildcards and no negation.

use crate::text::{chars_of, starts_with, trim, trimmed};
use vstd::prelude::*;
use vstd::slice::slice_subrange;
use vstd::utf8::{decode_utf8, valid_utf8};

verus! {

/// `pattern` without its trailing `/` characters.
pub open spec fn strip_trailing_slashes(pattern: Seq<char>) -> Seq<char>
    decreases pattern.len(),
{
    if pattern.len() > 0 && pattern.last() == '/' {
        strip_trailing_slashes(pattern.drop_last())
    } else {
        pattern
    }
}

/// Whether the entry name `name` matches the single pattern `pattern`.
pub open spec fn pattern_matches(name: Seq<char>, pattern: Seq<char>) -> bool {
    name == pattern || strip_trailing_slashes(pattern).is_prefix_of(name)
}

/// Whether `name` matches one of `patterns`. The order of the patterns
/// plays no part.
pub open spec fn is_ignored(name: Seq<char>, patterns: Seq<Seq<char>>) -> bool {
    exists|i: int| 0 <= i < patterns.len() && pattern_matches(name, #[trigger] patterns[i])
}

/// The length of the first line of `bytes`: the position of the first
/// newline, or the length of `bytes` when there is none.
pub open spec fn first_line_len(bytes: Seq<u8>) -> nat
    decreases bytes.len(),
{
    if bytes.len() == 0 || bytes.first() == 0x0au8 {
        0
    } else {
        1 + first_line_len(bytes.drop_first())
    }
}

/// The pattern that one line of the file contributes. A line that is not
/// well-formed UTF-8 contributes none, nor does one that is blank or
/// starts with `#` once trimmed. Any other line contributes its trimmed
/// text.
pub open spec fn line_pattern(line: Seq<u8>) -> Option<Seq<char>> {
    if !valid_utf8(line) {
        None
    } else {
        let text = trimmed(decode_utf8(line));
        if text.len() == 0 || text.first() == '#' {
            None
        } else {
            Some(text)
        }
    }
}

/// The pattern of one line as a list: of one pattern, or of none.
pub open spec fn line_patterns(line: Seq<u8>) -> Seq<Seq<char>> {
    match line_pattern(line) {
        Some(pattern) => seq![pattern],
        None => Seq::empty(),
    }
}

/// The patterns in the file content `bytes`, in file order. Lines end at
/// a newline byte; what follows the last newline is a line too.
pub open spec fn patterns_of(bytes: Seq<u8>) -> Seq<Seq<char>>
    decreases bytes.len(),
{
    if bytes.len() == 0 {
        Seq::empty()
    } else {
        let n: int = first_line_len(bytes) as int;
        if n < bytes.len() {
            line_patterns(bytes.take(n)) + patterns_of(bytes.skip(n + 1))
        } else {
            line_patterns(bytes)
        }
    }
}

/// The first line ends where the first newline stands.
pub proof fn lemma_first_line_len(bytes: Seq<u8>, n: int)
    requires
        0 <= n <= bytes.len(),
        forall|i: int| 0 <= i < n ==> #[trigger] bytes[i] != 0x0au8,
        n < bytes.len() ==> bytes[n] == 0x0au8,
    ensures
        first_line_len(bytes) == n,
    decreases n,
{
    if n > 0 {
        let rest = bytes.drop_first();
        assert forall|i: int| 0 <= i < n - 1 implies #[trigger] rest[i] != 0x0au8 by {
            assert(rest[i] == bytes[i + 1]);
        }
        lemma_first_line_len(rest, n - 1);
    }
}

/// The patterns of `bytes` from `start` on, where the line that begins
/// at `start` ends at `end`: the pattern of that line, then the patterns
/// of what follows the newline.
pub proof fn lemma_patterns_from(bytes: Seq<u8>, start: int, end: int)
    requires
        0 <= start <= end <= bytes.len(),
        start < bytes.len(),
        forall|i: int| start <= i < end ==> #[trigger] bytes[i] != 0x0au8,
        end < bytes.len() ==> bytes[end] == 0x0au8,
    ensures
        patterns_of(bytes.skip(start)) == line_patterns(bytes.subrange(start, end)) + if end
            < bytes.len() {
            patterns_of(bytes.skip(end + 1))
        } else {
            Seq::empty()
        },
{
    let rest = bytes.skip(start);
    assert forall|i: int| 0 <= i < end - start implies #[trigger] rest[i] != 0x0au8 by {
        assert(rest[i] == bytes[i + start]);
    }
    lemma_first_line_len(rest, end - start);
    assert(rest.take(end - start) =~= bytes.subrange(start, end));
    if end < bytes.len() {
        assert(rest.skip(end - start + 1) =~= bytes.skip(end + 1));
    } else {
        assert(rest =~= bytes.subrange(start, end));
    }
}

/// What is stripped from a pattern is a prefix of it.
pub proof fn lemma_strip_is_prefix(pattern: Seq<char>)
    ensures
        strip_trailing_slashes(pattern).is_prefix_of(pattern),
    decreases pattern.len(),
{
    if pattern.len() > 0 && pattern.last() == '/' {
        lemma_strip_is_prefix(pattern.drop_last());
    }
}

/// Keeping the first `n` characters, where everything after them is a
/// slash and the last one kept is not, strips the trailing slashes.
pub proof fn lemma_strip_take(pattern: Seq<char>, n: int)
    requires
        0 <= n <= pattern.len(),
        forall|i: int| n <= i < pattern.len() ==> #[trigger] pattern[i] == '/',
        0 < n ==> pattern[n - 1] != '/',
    ensures
        strip_trailing_slashes(pattern) == pattern.take(n),
    decreases pattern.len() - n,
{
    if n < pattern.len() {
        lemma_strip_take(pattern.drop_last(), n);
    }
}

/// A file without content holds no pattern, and where there is no
/// pattern no name is ignored.
pub proof fn lemma_no_patterns(name: Seq<char>)
    ensures
        patterns_of(Seq::empty()) == Seq::<Seq<char>>::empty(),
        !is_ignored(name, Seq::empty()),
{
}

/// `core::str::from_utf8`: the string slice over `bytes` when they are
/// well-formed UTF-8, and nothing when they are not.
#[verifier::external_body]
fn utf8_str(bytes: &[u8]) -> (text: Option<&str>)
    ensures
        text is Some <==> valid_utf8(bytes@),
        text matches Some(s) ==> s@ == decode_utf8(bytes@),
{
    core::str::from_utf8(bytes).ok()
}

/// The pattern that the line `line` contributes, if any.
pub fn parse_line(line: &[u8]) -> (pattern: Option<String>)
    ensures
        pattern.deep_view() == line_pattern(line@),
{
    match utf8_str(line) {
        None => None,
        Some(text) => {
            let text = trim(text);
            if text.is_empty() || text.get_char(0) == '#' {
                None
            } else {
                Some(text.to_owned())
            }
        },
    }
}

/// Adds the pattern of the line `line`, if it has one, to `patterns`.
fn push_line(patterns: &mut Vec<String>, line: &[u8])
    ensures
        final(patterns).deep_view() == old(patterns).deep_view() + line_patterns(line@),
{
    match parse_line(line) {
        Some(pattern) => {
            patterns.push(pattern);
            assert(patterns.deep_view() =~= old(patterns).deep_view() + seq![pattern@]);
        },
        None => {
            assert(patterns.deep_view() =~= old(patterns).deep_view() + Seq::empty());
        },
    }
}

/// Reads the ignore patterns from the content of a `.gitignore` file.
///
/// Every line is trimmed; blank lines, comment lines and lines that are
/// not valid UTF-8 are left out. An empty content gives no patterns.
pub fn parse_gitignore(content: &[u8]) -> (patterns: Vec<String>)
    ensures
        patterns.deep_view() == patterns_of(content@),
{
    let mut patterns: Vec<String> = Vec::new();
    let len: usize = content.len();
    let mut start: usize = 0;
    let mut end: usize = 0;
    assert(content@.skip(0) =~= content@);
    while end < len
        invariant
            start <= end <= len == content@.len(),
            forall|i: int| start <= i < end ==> #[trigger] content@[i] != 0x0au8,
            patterns.deep_view() + patterns_of(content@.skip(start as int)) == patterns_of(
                content@,
            ),
        decreases len - end,
    {
        if content[end] == 0x0au8 {
            proof {
                lemma_patterns_from(content@, start as int, end as int);
            }
            push_line(&mut patterns, slice_subrange(content, start, end));
            start = end + 1;
        }
        end += 1;
    }
    if start < len {
        proof {
            lemma_patterns_from(content@, start as int, len as int);
        }
        push_line(&mut patterns, slice_subrange(content, start, len));
    }
    patterns
}

/// The number of characters of `pattern` that are left when its trailing
/// slashes are removed.
fn stripped_len(pattern: &[char]) -> (n: usize)
    ensures
        n <= pattern@.len(),
        strip_trailing_slashes(pattern@) == pattern@.take(n as int),
{
    let mut n: usize = pattern.len();
    while n > 0 && pattern[n - 1] == '/'
        invariant
            n <= pattern@.len(),
            forall|i: int| n <= i < pattern@.len() ==> #[trigger] pattern@[i] == '/',
        decreases n,
    {
        n -= 1;
    }
    proof {
        lemma_strip_take(pattern@, n as int);
    }
    n
}

/// Whether the entry name `entry` matches one of the patterns
/// `ignored_entries`.
pub fn matches_gitignore(entry: &str, ignored_entries: &[String]) -> (ignored: bool)
    ensures
        ignored == is_ignored(entry@, ignored_entries.deep_view()),
{
    let name = chars_of(entry);
    let ghost patterns = ignored_entries.deep_view();
    let mut i: usize = 0;
    while i < ignored_entries.len()
        invariant
            i <= ignored_entries@.len(),
            name@ == entry@,
            patterns == ignored_entries.deep_view(),
            forall|j: int| 0 <= j < i ==> !pattern_matches(entry@, #[trigger] patterns[j]),
        decreases ignored_entries.len() - i,
    {
        let pattern = chars_of(ignored_entries[i].as_str());
        let n: usize = stripped_len(pattern.as_slice());
        proof {
            assert(patterns[i as int] == pattern@);
            lemma_strip_is_prefix(pattern@);
        }
        if starts_with(name.as_slice(), slice_subrange(pattern.as_slice(), 0, n)) {
            return true;
        }
        i += 1;
    }
    false
}

} // verus!
