//! Shader source text with `#include` directives: finding the first directive and its
//! quoted path, and putting the included text in its place. Reading the files is the
//! caller's part.

use vstd::prelude::*;

verus! {

/// The byte of the double quote.
pub const QUOTE: u8 = 0x22;

/// The bytes of the word `#include`.
pub open spec fn include_word() -> Seq<u8> {
    seq![0x23u8, 0x69u8, 0x6eu8, 0x63u8, 0x6cu8, 0x75u8, 0x64u8, 0x65u8]
}

/// Whether `pattern` stands in `text` at position `at`.
pub open spec fn occurs_at(text: Seq<u8>, pattern: Seq<u8>, at: int) -> bool {
    &&& 0 <= at
    &&& at + pattern.len() <= text.len()
    &&& text.subrange(at, at + pattern.len()) == pattern
}

/// Whether `at` is the first position from `from` on at which `pattern` stands.
pub open spec fn first_occurrence(text: Seq<u8>, pattern: Seq<u8>, from: int, at: int) -> bool {
    &&& from <= at
    &&& occurs_at(text, pattern, at)
    &&& forall|j: int| from <= j < at ==> !occurs_at(text, pattern, j)
}

/// Whether `pattern` stands nowhere in `text` from `from` on.
pub open spec fn no_occurrence(text: Seq<u8>, pattern: Seq<u8>, from: int) -> bool {
    forall|j: int| from <= j ==> !occurs_at(text, pattern, j)
}

/// Whether `at` is the first position from `from` on that holds `byte`.
pub open spec fn first_byte(text: Seq<u8>, byte: u8, from: int, at: int) -> bool {
    &&& 0 <= from <= at < text.len()
    &&& text[at] == byte
    &&& forall|j: int| from <= j < at ==> text[j] != byte
}

/// Whether no position from `from` on holds `byte`.
pub open spec fn no_byte(text: Seq<u8>, byte: u8, from: int) -> bool {
    forall|j: int| 0 <= from <= j < text.len() ==> text[j] != byte
}

/// What a scan for the first `#include` directive finds.
#[derive(Clone, Copy, Debug, PartialEq, Eq)]
pub enum IncludeScan {
    /// The text holds no directive.
    Absent,
    /// The first directive begins at `directive`; the path stands between the first
    /// two double quotes behind it, from `path_start` up to `path_end`, which holds
    /// the closing quote.
    Found { directive: usize, path_start: usize, path_end: usize },
    /// The first directive begins at `directive`, and fewer than two double quotes
    /// follow it.
    Unquoted { directive: usize },
}

/// Whether `pattern` stands in `text` at position `at`.
pub fn stands_at(text: &[u8], pattern: &[u8], at: usize) -> (found: bool)
    ensures
        found == occurs_at(text@, pattern@, at as int),
{
    if pattern.len() > text.len() || at > text.len() - pattern.len() {
        return false;
    }
    let mut k: usize = 0;
    while k < pattern.len()
        invariant
            k <= pattern.len(),
            at + pattern.len() <= text.len(),
            forall|j: int| 0 <= j < k ==> text@[at + j] == pattern@[j],
        decreases pattern.len() - k,
    {
        if text[at + k] != pattern[k] {
            assert(text@.subrange(at as int, at + pattern@.len())[k as int] != pattern@[k as int]);
            return false;
        }
        k += 1;
    }
    assert(text@.subrange(at as int, at + pattern@.len()) =~= pattern@);
    true
}

/// The first position from `from` on at which `pattern` stands.
pub fn find_first(text: &[u8], pattern: &[u8], from: usize) -> (found: Option<usize>)
    ensures
        match found {
            Some(at) => first_occurrence(text@, pattern@, from as int, at as int),
            None => no_occurrence(text@, pattern@, from as int),
        },
{
    if pattern.len() > text.len() || from > text.len() - pattern.len() {
        return None;
    }
    let last: usize = text.len() - pattern.len();
    let mut at: usize = from;
    while at < last
        invariant
            from <= at <= last,
            last + pattern@.len() == text@.len(),
            forall|j: int| from <= j < at ==> !occurs_at(text@, pattern@, j),
        decreases last - at,
    {
        if stands_at(text, pattern, at) {
            return Some(at);
        }
        at += 1;
    }
    if stands_at(text, pattern, last) {
        Some(last)
    } else {
        None
    }
}

/// The first position from `from` on that holds `byte`.
pub fn find_byte(text: &[u8], byte: u8, from: usize) -> (found: Option<usize>)
    ensures
        match found {
            Some(at) => first_byte(text@, byte, from as int, at as int),
            None => no_byte(text@, byte, from as int),
        },
{
    let mut at: usize = from;
    while at < text.len()
        invariant
            from <= at,
            forall|j: int| from <= j < at && j < text@.len() ==> text@[j] != byte,
        decreases text.len() - at,
    {
        if text[at] == byte {
            return Some(at);
        }
        at += 1;
    }
    None
}

/// Scans for the first `#include` directive and the quoted path behind it.
pub fn find_include(text: &[u8]) -> (scan: IncludeScan)
    ensures
        match scan {
            IncludeScan::Absent => no_occurrence(text@, include_word(), 0),
            IncludeScan::Found { directive, path_start, path_end } => {
                &&& first_occurrence(text@, include_word(), 0, directive as int)
                &&& first_byte(text@, QUOTE, directive as int, path_start - 1)
                &&& first_byte(text@, QUOTE, path_start as int, path_end as int)
            },
            IncludeScan::Unquoted { directive } => {
                &&& first_occurrence(text@, include_word(), 0, directive as int)
                &&& (no_byte(text@, QUOTE, directive as int) || exists|open: int|
                    #[trigger] first_byte(text@, QUOTE, directive as int, open) && no_byte(
                        text@,
                        QUOTE,
                        open + 1,
                    ))
            },
        },
{
    let word: [u8; 8] = [0x23, 0x69, 0x6e, 0x63, 0x6c, 0x75, 0x64, 0x65];
    assert(word@ =~= include_word());
    let directive = match find_first(text, word.as_slice(), 0) {
        Some(at) => at,
        None => {
            return IncludeScan::Absent;
        },
    };
    let open = match find_byte(text, QUOTE, directive) {
        Some(at) => at,
        None => {
            return IncludeScan::Unquoted { directive };
        },
    };
    assert(open < text.len());
    let path_start = open + 1;
    match find_byte(text, QUOTE, path_start) {
        Some(path_end) => IncludeScan::Found { directive, path_start, path_end },
        None => {
            assert(first_byte(text@, QUOTE, directive as int, open as int));
            IncludeScan::Unquoted { directive }
        },
    }
}

/// The text with the bytes from `start` up to `end` replaced by `replacement`.
pub fn splice(text: &[u8], start: usize, end: usize, replacement: &[u8]) -> (result: Vec<u8>)
    requires
        start <= end <= text@.len(),
    ensures
        result@ == text@.subrange(0, start as int) + replacement@ + text@.subrange(
            end as int,
            text@.len() as int,
        ),
{
    let mut result: Vec<u8> = Vec::new();
    let mut i: usize = 0;
    while i < start
        invariant
            i <= start <= text@.len(),
            result@ == text@.subrange(0, i as int),
        decreases start - i,
    {
        result.push(text[i]);
        assert(result@ =~= text@.subrange(0, i + 1));
        i += 1;
    }
    let mut j: usize = 0;
    while j < replacement.len()
        invariant
            j <= replacement.len(),
            result@ == text@.subrange(0, start as int) + replacement@.subrange(0, j as int),
        decreases replacement.len() - j,
    {
        result.push(replacement[j]);
        assert(result@ =~= text@.subrange(0, start as int) + replacement@.subrange(0, j + 1));
        j += 1;
    }
    assert(replacement@.subrange(0, j as int) =~= replacement@);
    let mut k: usize = end;
    while k < text.len()
        invariant
            end <= k <= text@.len(),
            result@ == text@.subrange(0, start as int) + replacement@ + text@.subrange(
                end as int,
                k as int,
            ),
        decreases text.len() - k,
    {
        result.push(text[k]);
        assert(result@ =~= text@.subrange(0, start as int) + replacement@ + text@.subrange(
            end as int,
            k + 1,
        ));
        k += 1;
    }
    result
}

/// The path of a directive that was found: the bytes between its quotes.
pub fn include_path(text: &[u8], path_start: usize, path_end: usize) -> (path: Vec<u8>)
    requires
        path_start <= path_end <= text@.len(),
    ensures
        path@ == text@.subrange(path_start as int, path_end as int),
{
    let mut path: Vec<u8> = Vec::new();
    let mut i: usize = path_start;
    while i < path_end
        invariant
            path_start <= i <= path_end <= text@.len(),
            path@ == text@.subrange(path_start as int, i as int),
        decreases path_end - i,
    {
        path.push(text[i]);
        assert(path@ =~= text@.subrange(path_start as int, i + 1));
        i += 1;
    }
    path
}

/// The text with a directive that was found, from its first byte up to its closing
/// quote, replaced by the included text.
pub fn replace_include(text: &[u8], directive: usize, path_end: usize, included: &[u8]) -> (result:
    Vec<u8>)
    requires
        directive <= path_end < text@.len(),
    ensures
        result@ == text@.subrange(0, directive as int) + included@ + text@.subrange(
            path_end + 1,
            text@.len() as int,
        ),
{
    assert(path_end < text.len());
    splice(text, directive, path_end + 1, included)
}

} // verus!
