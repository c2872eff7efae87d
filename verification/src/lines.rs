//! Lines of a text held as bytes, and the search for the first line that
//! carries a given pattern.
//!
//! A line ends at a line feed, or at the end of the text. A carriage return
//! that stands directly before the line feed belongs to the line ending; any
//! other carriage return belongs to the line. A text that ends with a line feed
//! has no empty line after it.

use vstd::prelude::*;

verus! {

/// The byte that ends a line.
pub const LINE_FEED: u8 = 10;

/// The byte that is dropped from a line when the line feed follows it directly.
pub const CARRIAGE_RETURN: u8 = 13;

/// How many bytes stand between `start` and the next line feed, or the end of
/// `text` where no line feed follows.
pub open spec fn line_len(text: Seq<u8>, start: int) -> nat
    decreases text.len() - start,
{
    if start < 0 || start >= text.len() || text[start] == LINE_FEED {
        0
    } else {
        1 + line_len(text, start + 1)
    }
}

/// Where the line that starts at `start` ends: the index of its line feed, or
/// the length of `text`.
pub open spec fn line_end(text: Seq<u8>, start: int) -> int {
    start + line_len(text, start)
}

/// Where the content of the line that starts at `start` stops: before the line
/// ending.
pub open spec fn line_stop(text: Seq<u8>, start: int) -> int {
    let end = line_end(text, start);
    if start < end < text.len() && text[end - 1] == CARRIAGE_RETURN {
        end - 1
    } else {
        end
    }
}

/// The content of the line that starts at `start`.
pub open spec fn line_at(text: Seq<u8>, start: int) -> Seq<u8> {
    text.subrange(start, line_stop(text, start))
}

/// The lines of `text` from the line that starts at `start` on.
pub open spec fn lines_from(text: Seq<u8>, start: int) -> Seq<Seq<u8>>
    decreases text.len() - start,
{
    if start < 0 || start >= text.len() {
        Seq::empty()
    } else if line_end(text, start) < text.len() {
        seq![line_at(text, start)] + lines_from(text, line_end(text, start) + 1)
    } else {
        seq![line_at(text, start)]
    }
}

/// The lines of `text`, in order.
pub open spec fn lines(text: Seq<u8>) -> Seq<Seq<u8>> {
    lines_from(text, 0)
}

/// `pattern` stands in `text` at index `at`.
pub open spec fn occurs_at(text: Seq<u8>, pattern: Seq<u8>, at: int) -> bool {
    0 <= at && at + pattern.len() <= text.len() && text.subrange(at, at + pattern.len())
        == pattern
}

/// `pattern` stands somewhere in `text`.
pub open spec fn contains(text: Seq<u8>, pattern: Seq<u8>) -> bool {
    exists|at: int| occurs_at(text, pattern, at)
}

/// The first of `lines` that contains `pattern`.
pub open spec fn first_containing(lines: Seq<Seq<u8>>, pattern: Seq<u8>) -> Option<Seq<u8>>
    decreases lines.len(),
{
    if lines.len() == 0 {
        None
    } else if contains(lines[0], pattern) {
        Some(lines[0])
    } else {
        first_containing(lines.skip(1), pattern)
    }
}

/// A stretch without a line feed that ends at a line feed, or at the end of
/// the text, is as long as the line.
pub proof fn lemma_line_len(text: Seq<u8>, start: int, end: int)
    requires
        0 <= start <= end <= text.len(),
        forall|i: int| start <= i < end ==> text[i] != LINE_FEED,
        end < text.len() ==> text[end] == LINE_FEED,
    ensures
        line_len(text, start) == end - start,
    decreases end - start,
{
    if start < end {
        lemma_line_len(text, start + 1, end);
    }
}

/// No line found means that no line contains the pattern; a line found is the
/// first that does.
pub proof fn lemma_first_containing(lines: Seq<Seq<u8>>, pattern: Seq<u8>)
    ensures
        match first_containing(lines, pattern) {
            Some(line) => exists|i: int|
                0 <= i < lines.len() && #[trigger] lines[i] == line && contains(line, pattern)
                    && forall|j: int| 0 <= j < i ==> !contains(#[trigger] lines[j], pattern),
            None => forall|j: int| 0 <= j < lines.len() ==> !contains(#[trigger] lines[j], pattern),
        },
    decreases lines.len(),
{
    if lines.len() == 0 {
    } else if contains(lines[0], pattern) {
        assert(lines[0] == lines[0]);
    } else {
        let rest = lines.skip(1);
        lemma_first_containing(rest, pattern);
        assert(forall|j: int| 0 <= j < rest.len() ==> rest[j] == lines[j + 1]);
        match first_containing(rest, pattern) {
            Some(line) => {
                let i = choose|i: int|
                    0 <= i < rest.len() && #[trigger] rest[i] == line && contains(line, pattern)
                        && forall|j: int| 0 <= j < i ==> !contains(#[trigger] rest[j], pattern);
                assert(lines[i + 1] == line);
                assert forall|j: int| 0 <= j < i + 1 implies !contains(
                    #[trigger] lines[j],
                    pattern,
                ) by {
                    if j > 0 {
                        assert(rest[j - 1] == lines[j]);
                    }
                }
            },
            None => {
                assert forall|j: int| 0 <= j < lines.len() implies !contains(
                    #[trigger] lines[j],
                    pattern,
                ) by {
                    if j > 0 {
                        assert(rest[j - 1] == lines[j]);
                    }
                }
            },
        }
    }
}

/// Whether `pattern` stands in `text` at `at`.
fn matches_at(text: &[u8], pattern: &[u8], at: usize) -> (found: bool)
    requires
        at + pattern.len() <= text.len(),
    ensures
        found == occurs_at(text@, pattern@, at as int),
{
    let mut i: usize = 0;
    while i < pattern.len()
        invariant
            i <= pattern.len(),
            at + pattern.len() <= text.len(),
            forall|j: int| 0 <= j < i ==> text@[at + j] == pattern@[j],
        decreases pattern.len() - i,
    {
        if text[at + i] != pattern[i] {
            proof {
                let part = text@.subrange(at as int, at + pattern.len());
                assert(part[i as int] == text@[at + i]);
            }
            return false;
        }
        i += 1;
    }
    assert(text@.subrange(at as int, at + pattern.len()) =~= pattern@);
    true
}

/// Whether `pattern` stands somewhere in the bytes of `text` from `start` up
/// to `stop`.
fn range_contains(text: &[u8], start: usize, stop: usize, pattern: &[u8]) -> (found: bool)
    requires
        start <= stop <= text.len(),
    ensures
        found == contains(text@.subrange(start as int, stop as int), pattern@),
{
    let ghost part = text@.subrange(start as int, stop as int);
    if pattern.len() == 0 {
        assert(part.subrange(0, 0) =~= pattern@);
        assert(occurs_at(part, pattern@, 0));
        return true;
    }
    if stop - start < pattern.len() {
        assert forall|at: int| !occurs_at(part, pattern@, at) by {}
        return false;
    }
    let last: usize = stop - pattern.len();
    let mut at: usize = start;
    while at <= last
        invariant
            start <= at <= last + 1,
            last + pattern.len() == stop,
            pattern.len() > 0,
            stop <= text.len(),
            part == text@.subrange(start as int, stop as int),
            forall|k: int| 0 <= k < at - start ==> !occurs_at(part, pattern@, k),
        decreases last + 1 - at,
    {
        let here = matches_at(text, pattern, at);
        proof {
            assert(part.subrange(at - start, at - start + pattern@.len()) =~= text@.subrange(
                at as int,
                at + pattern@.len(),
            ));
        }
        if here {
            assert(occurs_at(part, pattern@, at - start));
            return true;
        }
        at += 1;
    }
    assert forall|k: int| !occurs_at(part, pattern@, k) by {}
    false
}

/// Finds the first line of `text` that contains `pattern`, and returns where
/// its content starts and stops.
pub(crate) fn find_line(text: &[u8], pattern: &[u8]) -> (found: Option<(usize, usize)>)
    ensures
        match found {
            Some((start, stop)) => {
                &&& start <= stop <= text.len()
                &&& first_containing(lines(text@), pattern@) == Some(
                    text@.subrange(start as int, stop as int),
                )
                &&& start == 0 || text@[start - 1] == LINE_FEED
                &&& stop == text.len() || text@[stop as int] == LINE_FEED || text@[stop as int]
                    == CARRIAGE_RETURN
            },
            None => first_containing(lines(text@), pattern@) is None,
        },
{
    let mut start: usize = 0;
    while start < text.len()
        invariant
            start <= text.len(),
            start == 0 || text@[start - 1] == LINE_FEED,
            first_containing(lines(text@), pattern@) == first_containing(
                lines_from(text@, start as int),
                pattern@,
            ),
        decreases text.len() - start,
    {
        let mut end: usize = start;
        while end < text.len() && text[end] != LINE_FEED
            invariant
                start <= end <= text.len(),
                forall|i: int| start <= i < end ==> text@[i] != LINE_FEED,
            decreases text.len() - end,
        {
            end += 1;
        }
        proof {
            lemma_line_len(text@, start as int, end as int);
        }
        let stop: usize = if start < end && end < text.len() && text[end - 1] == CARRIAGE_RETURN {
            end - 1
        } else {
            end
        };
        let ghost all = lines_from(text@, start as int);
        let ghost rest = if end < text.len() {
            lines_from(text@, end + 1)
        } else {
            Seq::empty()
        };
        proof {
            assert(all =~= seq![line_at(text@, start as int)] + rest);
            assert(all.len() > 0);
            assert(all[0] == text@.subrange(start as int, stop as int));
            assert(all.skip(1) =~= rest);
        }
        if range_contains(text, start, stop, pattern) {
            return Some((start, stop));
        }
        assert(first_containing(all, pattern@) == first_containing(rest, pattern@));
        if end == text.len() {
            assert(rest.len() == 0);
            return None;
        }
        start = end + 1;
    }
    None
}

} // verus!
